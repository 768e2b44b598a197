use vibe::lexer::{lex, lex_full, Tok};

fn toks(src: &str) -> Vec<String> {
    lex(src, 0)
        .expect("lexes")
        .iter()
        .map(|t| match &t.tok {
            Tok::Int(n) => format!("int {n}"),
            Tok::Float(x) => format!("float {x}"),
            Tok::Str(s) => format!("str {s:?}"),
            Tok::Char(c) => format!("char {c:?}"),
            Tok::Name(n) => format!("name {n}"),
            Tok::Ctor(n) => format!("ctor {n}"),
            Tok::Kw(k) => format!("kw {k}"),
            Tok::Sym(s) => format!("sym {s}"),
            Tok::Newline => "nl".to_string(),
            Tok::Eof => "eof".to_string(),
        })
        .collect()
}

#[test]
fn a_declaration_lexes() {
    assert_eq!(
        toks("f (n:U64) : U64 = n + 1_000"),
        vec![
            "name f", "sym (", "name n", "sym :", "ctor U64", "sym )", "sym :", "ctor U64", "sym =",
            "name n", "sym +", "int 1000", "eof"
        ]
    );
}

#[test]
fn a_newline_ends_a_declaration_only_after_an_expression() {
    assert_eq!(
        toks("f : U64 = 1\ng : U64 = 2\n"),
        vec![
            "name f", "sym :", "ctor U64", "sym =", "int 1", "nl", "name g", "sym :", "ctor U64",
            "sym =", "int 2", "nl", "eof"
        ]
    );
    // after an operator, or inside brackets, a newline is whitespace
    assert_eq!(toks("x +\n 1"), vec!["name x", "sym +", "int 1", "eof"]);
    assert_eq!(toks("(x\n)"), vec!["sym (", "name x", "sym )", "eof"]);
    // a newline before something that cannot begin an expression is dropped
    assert_eq!(toks("x\n+ 1"), vec!["name x", "sym +", "int 1", "eof"]);
}

#[test]
fn literals_and_keywords() {
    assert_eq!(
        toks("\"a\\n\" 'x' '\\'' 2.50 E! end True mod"),
        vec![
            "str \"a\\n\"", "char 'x'", "char '\\''", "float 2.50", "sym E!", "kw end", "kw True",
            "kw mod", "eof"
        ]
    );
    assert_eq!(toks("a|>b <- ->"), vec!["name a", "sym |>", "name b", "sym <-", "sym ->", "eof"]);
}

#[test]
fn comments_are_set_aside_with_their_place() {
    let (ts, cs) = lex_full(";; head\nf : U64 = 1  ;; one  \n", 0).expect("lexes");
    assert_eq!(ts.len(), 7);
    assert_eq!(cs.len(), 2);
    assert_eq!(cs[0].text, ";; head");
    assert!(cs[0].own_line);
    assert_eq!((cs[0].line, cs[0].col, cs[0].after), (1, 0, 0));
    assert_eq!(cs[1].text, ";; one");
    assert!(!cs[1].own_line);
    assert_eq!((cs[1].line, cs[1].col, cs[1].after), (2, 13, 5));
}

#[test]
fn spans_count_lines_and_columns() {
    let ts = lex("a\n  bb", 3).expect("lexes");
    let s = ts[2].span;
    assert_eq!((s.file, s.line, s.col, s.len), (3, 2, 2, 2));
}

#[test]
fn lexical_errors_say_what_and_where() {
    let e = lex("x = \"open", 0).unwrap_err();
    assert_eq!(e.code, "lex.string");
    assert_eq!(e.msg, "unterminated string");
    assert_eq!((e.span.col, e.span.len), (4, 5));
    let e = lex("'ab'", 0).unwrap_err();
    assert_eq!(e.code, "lex.char");
    let e = lex("\"\\q\"", 0).unwrap_err();
    assert_eq!(e.code, "lex.escape");
    assert_eq!(e.msg, "unknown escape `\\q`");
    let e = lex("99999999999999999999", 0).unwrap_err();
    assert_eq!(e.code, "lex.int");
    let e = lex("a @ b", 0).unwrap_err();
    assert_eq!(e.msg, "unexpected character `@`");
    assert_eq!((e.span.col, e.span.len), (2, 1));
}

#[test]
fn an_integer_literal_up_to_u64_max_is_accepted() {
    let toks = lex("18446744073709551615", 0).unwrap();
    assert!(matches!(toks[0].tok, Tok::Int(n) if n == u64::MAX));
    let e = lex("18446744073709551616", 0).unwrap_err();
    assert_eq!(e.code, "lex.int");
}
