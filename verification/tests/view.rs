use vibe::ast::Ty;
use vibe::lexer::{lex_full, Comment};
use vibe::view::{esc, pad, prec, quote, reattach, sp, ty, ty_app, ty_atom, Mode};

fn c(n: &str) -> Ty {
    Ty::con(n)
}

fn app(n: &str, args: Vec<Ty>) -> Ty {
    Ty::Con(n.to_string(), args)
}

#[test]
fn written_types_print_canonically() {
    let vec_tx = app("Vec", vec![c("Tx")]);
    assert_eq!(ty(&Ty::Ref(Box::new(vec_tx))), "&Vec Tx");
    let f = Ty::Fun(Box::new(Ty::Var("a".to_string())), Box::new(c("Bool")));
    let g = Ty::Fun(Box::new(f), Box::new(app("Vec", vec![Ty::Var("a".to_string())])));
    assert_eq!(ty(&g), "(a -> Bool) -> Vec a");
    assert_eq!(ty(&Ty::Eff(Box::new(app("Res", vec![c("Err"), app("Vec", vec![c("Tx")])])))), "E! Res Err (Vec Tx)");
    assert_eq!(ty(&Ty::Tuple(vec![c("U8"), c("Str")])), "(U8, Str)");
    assert_eq!(ty_atom(&app("Vec", vec![c("U8")])), "(Vec U8)");
    assert_eq!(ty_app(&Ty::Fun(Box::new(c("U8")), Box::new(c("U8")))), "(U8 -> U8)");
    assert_eq!(ty_atom(&Ty::Ref(Box::new(app("Vec", vec![c("U8")])))), "&(Vec U8)");
}

#[test]
fn literals_are_escaped() {
    assert_eq!(quote("a\"b\n"), "\"a\\\"b\\n\"");
    assert_eq!(esc('\0'), "\\0");
    assert_eq!(esc('x'), "x");
}

#[test]
fn padding_and_spaces() {
    assert_eq!(sp(3), "   ");
    assert_eq!(pad("ab", 5), "ab   ");
    assert_eq!(pad("abcdef", 3), "abcdef");
}

#[test]
fn operators_bind_in_order() {
    assert!(prec("||") < prec("&&"));
    assert!(prec("&&") < prec("<="));
    assert!(prec("<=") < prec("++"));
    assert!(prec("++") < prec("+"));
    assert!(prec("-") < prec("*"));
    assert_eq!(prec("%"), 6);
}

#[test]
fn views_are_distinct() {
    assert!(Mode::Canon != Mode::Flow);
}

fn comments(src: &str) -> Vec<Comment> {
    lex_full(src, 0).unwrap().1
}

#[test]
fn comments_survive_a_collapsed_layout() {
    let src = "mod Ragged\n\n\n;; keep me\nf (n:U64) : U64 =\n  n\n  +\n  1   ;; and me\n\ng (n:U64) : U64 = n\n";
    let rendered = "mod Ragged\n\nf (n:U64) : U64 = n + 1\n\ng (n:U64) : U64 = n\n";
    let got = reattach(rendered, &comments(src));
    assert!(got.contains("f (n:U64) : U64 = n + 1 ;; and me\n"), "{got}");
    assert!(got.contains(";; keep me\n"), "{got}");
    assert!(!got.contains("\n\n\n"), "{got}");
    assert_eq!(got, "mod Ragged\n\n;; keep me\nf (n:U64) : U64 = n + 1 ;; and me\n\ng (n:U64) : U64 = n\n");
}

#[test]
fn comments_come_back_where_they_were() {
    let src = ";; head\nf : U64 = 1  ;; one\n\ng : U64 = 2\n";
    let rendered = "f : U64 = 1\n\ng : U64 = 2\n";
    assert_eq!(reattach(rendered, &comments(src)), ";; head\nf : U64 = 1 ;; one\n\ng : U64 = 2\n");
}

#[test]
fn a_comment_on_its_own_line_takes_the_indentation_of_the_next() {
    let src = "f : U64 =\n  ;; why\n  1\n";
    let rendered = "f : U64 =\n  1\n";
    assert_eq!(reattach(rendered, &comments(src)), "f : U64 =\n  ;; why\n  1\n");
}

#[test]
fn a_comment_after_the_last_token_goes_last() {
    let src = "f : U64 = 1\n;; tail\n";
    let rendered = "f : U64 = 1\n";
    assert_eq!(reattach(rendered, &comments(src)), "f : U64 = 1\n;; tail\n");
}

#[test]
fn a_rendering_without_comments_or_that_does_not_lex_is_left_alone() {
    assert_eq!(reattach("x\n", &[]), "x\n");
    let cs = comments("f : U64 = 1 ;; c\n");
    assert_eq!(cs.len(), 1);
    assert_eq!(reattach("\"open\n", &cs), "\"open\n");
}

#[test]
fn deleting_the_comments_gives_the_rendering_back() {
    let src = ";; head\nf : U64 = 1  ;; one\n\ng (n:U64) : U64 =\n  ;; why\n  n\n;; tail\n";
    let rendered = "f : U64 = 1\n\ng (n:U64) : U64 =\n  n\n";
    let got = reattach(rendered, &comments(src));
    let mut kept: Vec<String> = Vec::new();
    for l in got.lines() {
        if l.trim_start().starts_with(";;") {
            continue;
        }
        let code = match l.find(" ;;") {
            Some(i) => &l[..i],
            None => l,
        };
        kept.push(code.to_string());
    }
    assert_eq!(format!("{}\n", kept.join("\n")), rendered);
}
