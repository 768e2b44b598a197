use vibe::infer::parse_type;

fn shown(src: &str) -> String {
    format!("{:?}", parse_type(src))
}

#[test]
fn an_arrow_groups_to_the_right() {
    assert_eq!(
        shown("A -> B -> C"),
        "Fun(Con(\"A\", []), Fun(Con(\"B\", []), Con(\"C\", [])))"
    );
}

#[test]
fn a_constructor_takes_the_atoms_after_it() {
    assert_eq!(
        shown("Res Fault (List a)"),
        "Con(\"Res\", [Con(\"Fault\", []), Con(\"List\", [Var(\"a\")])])"
    );
}

#[test]
fn newlines_inside_a_type_do_not_count() {
    assert_eq!(
        shown("Res\n  Fault\n  U64"),
        "Con(\"Res\", [Con(\"Fault\", []), Con(\"U64\", [])])"
    );
}

#[test]
fn a_qualified_constructor_is_one_name() {
    assert_eq!(shown("Json.Value"), "Con(\"Json.Value\", [])");
}

#[test]
fn tuples_unit_references_and_effects() {
    assert_eq!(
        shown("(a, &Str) -> E! ()"),
        "Fun(Tuple([Var(\"a\"), Ref(Con(\"Str\", []))]), Eff(Con(\"Unit\", [])))"
    );
    assert_eq!(shown("(U8)"), "Con(\"U8\", [])");
}

#[test]
fn a_reference_binds_one_atom_in_argument_position() {
    assert_eq!(
        shown("Vec &a -> &Vec a"),
        "Fun(Con(\"Vec\", [Ref(Var(\"a\"))]), Ref(Con(\"Vec\", [Var(\"a\")])))"
    );
}

fn type_error(src: &str) -> (String, String, usize) {
    let toks = vibe::lexer::lex(src, 0).unwrap();
    let mut p = vibe::parser::Parser { toks, i: 0, depth: 1, home: "T".to_string() };
    let d = p.ty().unwrap_err();
    (d.code, d.msg, d.span.col)
}

#[test]
fn an_unclosed_parenthesis_names_what_was_found() {
    let (code, msg, _) = type_error("(a, b");
    assert_eq!(code, "parse.expected");
    assert_eq!(msg, "expected `)`, found end of file");
}

#[test]
fn a_type_cannot_start_with_an_arrow() {
    let (code, msg, col) = type_error("Res -> -> U8");
    assert_eq!(code, "parse.type");
    assert_eq!(msg, "expected a type, found `->`");
    assert_eq!(col, 7);
}

#[test]
fn a_number_is_not_a_type() {
    let (_, msg, _) = type_error("(U8, 42)");
    assert_eq!(msg, "expected a type, found `42`");
}

fn pattern_of(src: &str) -> (Result<vibe::ast::Pat, vibe::diag::Diag>, usize) {
    let toks = vibe::lexer::lex(src, 0).unwrap();
    let mut p = vibe::parser::Parser { toks, i: 0, depth: 0, home: "T".to_string() };
    let r = p.pattern();
    (r, p.i)
}

fn shown_pattern(src: &str) -> String {
    format!("{:?}", pattern_of(src).0.unwrap())
}

#[test]
fn a_constructor_pattern_takes_the_patterns_after_it() {
    assert_eq!(shown_pattern("Some x"), "Ctor(\"Some\", [Var(\"x\")])");
    assert_eq!(shown_pattern("Json.Value v"), "Ctor(\"Json.Value\", [Var(\"v\")])");
    assert_eq!(shown_pattern("Er (Bad e) _"), "Ctor(\"Er\", [Ctor(\"Bad\", [Var(\"e\")]), Var(\"_\")])");
}

#[test]
fn lists_tuples_and_literals() {
    assert_eq!(
        shown_pattern("(a, [b, _], 3)"),
        "Tuple([Var(\"a\"), List([Var(\"b\"), Var(\"_\")]), Int(3)])"
    );
    assert_eq!(shown_pattern("[]"), "List([])");
    assert_eq!(shown_pattern("(x)"), "Var(\"x\")");
    assert_eq!(shown_pattern("True"), "Bool(true)");
    assert_eq!(shown_pattern("'c'"), "Char('c')");
    assert_eq!(shown_pattern("\"s\""), "Str(\"s\")");
    assert_eq!(shown_pattern("2.50"), "Float(\"2.50\")");
}

#[test]
fn outside_brackets_a_newline_ends_the_pattern() {
    let (r, i) = pattern_of("Some\n  x");
    assert_eq!(format!("{:?}", r.unwrap()), "Ctor(\"Some\", [])");
    assert_eq!(i, 1);
    assert_eq!(shown_pattern("(Some\n  x)"), "Ctor(\"Some\", [Var(\"x\")])");
}

#[test]
fn what_is_not_a_pattern_is_named() {
    let d = pattern_of("(a b").0.unwrap_err();
    assert_eq!(d.code, "parse.expected");
    assert_eq!(d.msg, "expected `)`, found `b`");
    let d = pattern_of("-> x").0.unwrap_err();
    assert_eq!(d.code, "parse.pattern");
    assert_eq!(d.msg, "expected a pattern, found `->`");
    let d = pattern_of("[a, b").0.unwrap_err();
    assert_eq!(d.msg, "expected `]`, found end of file");
}
