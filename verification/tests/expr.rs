use vibe::ast::{Expr, ExprKind, Pat};
use vibe::diag::Diag;
use vibe::expr::SEQ;
use vibe::parser::Parser;

fn parser(src: &str) -> Parser {
    let toks = vibe::lexer::lex(src, 0).unwrap();
    Parser { toks, i: 0, depth: 0, home: "T".to_string() }
}

fn body(src: &str) -> Result<Expr, Diag> {
    parser(src).body()
}

fn pat(p: &Pat) -> String {
    match p {
        Pat::Wild => "_".to_string(),
        Pat::Var(n) => n.clone(),
        Pat::Int(n) => n.to_string(),
        Pat::Float(x) => x.clone(),
        Pat::Str(s) => format!("{:?}", s),
        Pat::Char(c) => format!("{:?}", c),
        Pat::Bool(b) => b.to_string(),
        Pat::Ctor(n, ps) => {
            let mut s = format!("({}", n);
            for p in ps {
                s.push(' ');
                s.push_str(&pat(p));
            }
            s.push(')');
            s
        }
        Pat::List(ps) => format!("[{}]", ps.iter().map(pat).collect::<Vec<_>>().join(" ")),
        Pat::Tuple(ps) => format!("<{}>", ps.iter().map(pat).collect::<Vec<_>>().join(" ")),
    }
}

/// A compact prefix form of an expression.
fn show(e: &Expr) -> String {
    let all = |xs: &Vec<Expr>| xs.iter().map(show).collect::<Vec<_>>().join(" ");
    match &e.kind {
        ExprKind::Int(n) => n.to_string(),
        ExprKind::Float(x) => x.clone(),
        ExprKind::Str(s) => format!("{:?}", s),
        ExprKind::Char(c) => format!("{:?}", c),
        ExprKind::Bool(b) => b.to_string(),
        ExprKind::Unit => "()".to_string(),
        ExprKind::Var(n) => n.clone(),
        ExprKind::Ctor(n) => n.clone(),
        ExprKind::App(f, xs) => format!("(app {} {})", show(f), all(xs)),
        ExprKind::Binop(o, a, b) => format!("({} {} {})", o, show(a), show(b)),
        ExprKind::Neg(x) => format!("(neg {})", show(x)),
        ExprKind::Not(x) => format!("(not {})", show(x)),
        ExprKind::Match(x, arms) => {
            let mut s = format!("(match {}", show(x));
            for (p, b) in arms {
                s.push_str(&format!(" [{} {}]", pat(p), show(b)));
            }
            s.push(')');
            s
        }
        ExprKind::Bind(n, a, b) => format!("(bind {} {} {})", n, show(a), show(b)),
        ExprKind::Let(n, a, b) => format!("(let {} {} {})", n, show(a), show(b)),
        ExprKind::Lambda(ps, b) => format!("(fn {} {})", ps.join(" "), show(b)),
        ExprKind::Record(base, fs) => {
            let mut s = "(record".to_string();
            if let Some(b) = base {
                s.push_str(&format!(" {} with", show(b)));
            }
            for (f, v) in fs {
                s.push_str(&format!(" {}={}", f, show(v)));
            }
            s.push(')');
            s
        }
        ExprKind::Field(x, f) => format!("{}.{}", show(x), f),
        ExprKind::Borrow(x) => format!("&{}", show(x)),
        ExprKind::Arena(n, b) => format!("(arena {} {})", n, show(b)),
        ExprKind::Tuple(xs) => format!("(tuple {})", all(xs)),
        ExprKind::List(xs) => format!("[{}]", all(xs)),
    }
}

fn shown(src: &str) -> String {
    show(&body(src).unwrap())
}

fn failed(src: &str) -> Diag {
    body(src).unwrap_err()
}

#[test]
fn multiplication_binds_tighter_than_addition() {
    assert_eq!(shown("1 + 2 * 3"), "(+ 1 (* 2 3))");
    assert_eq!(shown("1 * 2 + 3"), "(+ (* 1 2) 3)");
}

#[test]
fn operators_of_one_level_group_to_the_left() {
    assert_eq!(shown("a - b - c"), "(- (- a b) c)");
    assert_eq!(shown("a == b && c || d"), "(|| (&& (== a b) c) d)");
    assert_eq!(shown("xs ++ ys"), "(++ xs ys)");
}

#[test]
fn the_pipe_feeds_the_last_argument() {
    assert_eq!(shown("x |> f a"), "(app f a x)");
    assert_eq!(shown("x |> g"), "(app g x)");
    assert_eq!(shown("x |> f a |> g"), "(app g (app f a x))");
}

#[test]
fn application_takes_postfix_arguments() {
    assert_eq!(shown("f a.b c"), "(app f a.b c)");
    assert_eq!(shown("f &s 1"), "(app f &s 1)");
    assert_eq!(shown("Shape.Circle 1"), "(app Shape.Circle 1)");
}

#[test]
fn negation_and_not_take_an_application() {
    assert_eq!(shown("- x"), "(neg x)");
    assert_eq!(shown("!f x"), "(not (app f x))");
    assert_eq!(shown("- x + y"), "(+ (neg x) y)");
}

#[test]
fn brackets_make_tuples_lists_and_unit() {
    assert_eq!(shown("(a, b)"), "(tuple a b)");
    assert_eq!(shown("()"), "()");
    assert_eq!(shown("[1, 2]"), "[1 2]");
    assert_eq!(shown("[]"), "[]");
    assert_eq!(shown("(f x)"), "(app f x)");
    assert_eq!(shown("f (g x)\n  y"), "(app f (app g x))");
}

#[test]
fn redundant_parentheses_around_a_name_are_refused() {
    let d = failed("(n)");
    assert_eq!(d.code, "canon.parens");
    assert_eq!(d.msg, "redundant parentheses");
    assert_eq!(d.fix.as_deref(), Some("remove the parentheses"));
    assert_eq!(d.span.col, 0);
    assert_eq!(failed("f (1)").code, "canon.parens");
}

#[test]
fn records_with_and_without_a_base() {
    assert_eq!(shown("{x = 1, y = 2}"), "(record x=1 y=2)");
    assert_eq!(shown("{r with x = 1}"), "(record r with x=1)");
    assert_eq!(shown("{}"), "(record)");
}

#[test]
fn lambdas_lets_and_arenas() {
    assert_eq!(shown("\\a b -> a + b"), "(fn a b (+ a b))");
    assert_eq!(shown("let x = 1 in x"), "(let x 1 x)");
    assert_eq!(shown("arena a in f x"), "(arena a (app f x))");
}

#[test]
fn a_bind_and_a_plain_sequence() {
    assert_eq!(shown("s <- read \"f\" ; out &s"), "(bind s (app read \"f\") (app out &s))");
    let seq = body("out \"a\" ;\n  out \"b\"").unwrap();
    match &seq.kind {
        ExprKind::Bind(n, _, _) => assert_eq!(n, SEQ),
        _ => panic!("not a sequence"),
    }
    assert_eq!(show(&seq), "(bind ;seq (app out \"a\") (app out \"b\"))");
}

#[test]
fn a_bind_without_its_semicolon_is_refused() {
    let d = failed("s <- read \"f\"\n  out &s");
    assert_eq!(d.code, "parse.bind");
    assert_eq!(d.msg, "expected `;` after a `<-` binding");
    assert_eq!(d.fix.as_deref(), Some("write `name <- value ;` and continue on the next line"));
}

#[test]
fn a_match_reads_its_arms_up_to_end() {
    assert_eq!(shown("?n |0 -> 1 |_ -> 2 end"), "(match n [0 1] [_ 2])");
    assert_eq!(shown("?o |Some x -> x |None -> 0 end"), "(match o [(Some x) x] [(None) 0])");
}

#[test]
fn end_closes_the_inner_match_first() {
    let src = "?a |0 -> ?b |0 -> 1 |_ -> 2 end\n   |_ -> 3\nend";
    assert_eq!(shown(src), "(match a [0 (match b [0 1] [_ 2])] [_ 3])");
}

#[test]
fn an_open_match_expression_says_so() {
    let d = failed("?n |0 -> 1 |_ -> 2");
    assert_eq!(d.code, "parse.match");
    assert_eq!(d.msg, "expected another `|` arm or `end` to close the match");
    assert_eq!(d.fix.as_deref(), Some("add `end` after the last arm"));
}

#[test]
fn a_match_without_arms_says_so() {
    let d = failed("?n");
    assert_eq!(d.code, "parse.match");
    assert_eq!(d.msg, "a `?` match needs at least one `|` arm");
    assert_eq!(d.fix.as_deref(), Some("add `|_ -> ...`"));
}

#[test]
fn a_missing_operand_names_what_was_found() {
    let d = failed("1 + )");
    assert_eq!(d.code, "parse.expr");
    assert_eq!(d.msg, "expected an expression, found `)`");
    assert_eq!(d.span.col, 4);
}

#[test]
fn an_unclosed_bracket_names_what_was_found() {
    let d = failed("[1, 2");
    assert_eq!(d.code, "parse.expected");
    assert_eq!(d.msg, "expected `]`, found end of file");
    let d = failed("{x = 1");
    assert_eq!(d.msg, "expected `}`, found end of file");
    let d = failed("let x = 1 x");
    assert_eq!(d.code, "parse.let");
}

#[test]
fn a_lambda_needs_its_arrow() {
    let d = failed("\\a b = a");
    assert_eq!(d.code, "parse.expected");
    assert_eq!(d.msg, "expected `->`, found `=`");
}

#[test]
fn the_expression_stops_where_the_grammar_does() {
    let mut p = parser("f x\ng y");
    let e = p.expr().unwrap();
    assert_eq!(show(&e), "(app f x)");
    assert_eq!(p.i, 2);
    assert_eq!(p.depth, 0);
}
