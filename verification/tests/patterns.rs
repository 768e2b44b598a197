use vibe::ast::{Pat, Ty};
use vibe::diag::Span;
use vibe::infer::{bind_pattern, pat_names, record_pattern};
use vibe::codegen::pat_vars;
use vibe::types::{Checker, CtorInfo, Kind, T};

fn sp() -> Span {
    Span { file: 0, line: 3, col: 2, len: 1 }
}

fn var(n: &str) -> Pat {
    Pat::Var(n.to_string())
}

fn with_opt() -> Checker {
    let mut c = Checker::new();
    c.data.ctors.push((
        "Some".to_string(),
        CtorInfo {
            owner: "Opt".to_string(),
            params: vec!["t".to_string()],
            args: vec![Ty::Var("t".to_string())],
            tag: 0,
        },
    ));
    c.data.ctors.push((
        "None".to_string(),
        CtorInfo { owner: "Opt".to_string(), params: vec!["t".to_string()], args: vec![], tag: 1 },
    ));
    c
}

#[test]
fn a_name_pattern_defines_the_name() {
    let mut c = Checker::new();
    assert!(bind_pattern(&mut c, &var("x"), &T::con("U8"), sp(), "M.f").is_ok());
    assert_eq!(c.lookup("x").unwrap().ty.show(), "U8");
}

#[test]
fn a_tuple_pattern_makes_a_tuple_of_new_variables() {
    let mut c = Checker::new();
    let a = c.fresh(Kind::Any);
    let p = Pat::Tuple(vec![var("x"), Pat::Int(3)]);
    assert!(bind_pattern(&mut c, &p, &a, sp(), "M.f").is_ok());
    assert_eq!(c.resolve(&a).show(), "(t1, t3)");
    assert_eq!(c.lookup("x").unwrap().ty.show(), "t1");
    assert_eq!(c.kinds[3], Kind::Num);
}

#[test]
fn a_list_pattern_is_a_vector_of_one_element_type() {
    let mut c = Checker::new();
    let a = c.fresh(Kind::Any);
    let p = Pat::List(vec![var("x"), Pat::Str("s".to_string())]);
    assert!(bind_pattern(&mut c, &p, &a, sp(), "M.f").is_ok());
    assert_eq!(c.resolve(&a).show(), "Vec Str");
    assert_eq!(c.resolve(&c.lookup("x").unwrap().ty).show(), "Str");
}

#[test]
fn a_constructor_pattern_takes_its_type_over_new_parameters() {
    let mut c = with_opt();
    let a = c.fresh(Kind::Any);
    let p = Pat::Ctor("Some".to_string(), vec![var("x")]);
    assert!(bind_pattern(&mut c, &p, &a, sp(), "M.f").is_ok());
    assert_eq!(c.resolve(&a).show(), "Opt t1");
    assert_eq!(c.lookup("x").unwrap().ty.show(), "t1");
}

#[test]
fn an_unknown_constructor_is_reported_with_the_nearest_one() {
    let mut c = with_opt();
    let d = bind_pattern(&mut c, &Pat::Ctor("Sme".to_string(), vec![]), &T::con("U8"), sp(), "M.f").unwrap_err();
    assert_eq!(d.code, "name.unbound");
    assert_eq!(d.msg, "constructor `Sme` is not defined");
    assert_eq!(d.fix.as_deref(), Some("did you mean `Some`?"));
    assert_eq!(d.path.as_deref(), Some("M.f"));
}

#[test]
fn a_constructor_with_the_wrong_number_of_patterns() {
    let mut c = with_opt();
    let p = Pat::Ctor("Some".to_string(), vec![var("x"), var("y")]);
    let d = bind_pattern(&mut c, &p, &T::con("U8"), sp(), "M.f").unwrap_err();
    assert_eq!(d.code, "pattern.arity");
    assert_eq!(d.msg, "`Some` carries 1 value, but the pattern binds 2");
    assert_eq!(d.fix.as_deref(), Some("write `|Some x0 -> ...`"));
    let p = Pat::Ctor("None".to_string(), vec![var("x")]);
    let d = bind_pattern(&mut c, &p, &T::con("U8"), sp(), "M.f").unwrap_err();
    assert_eq!(d.msg, "`None` carries 0 values, but the pattern binds 1");
    assert_eq!(d.fix.as_deref(), Some("write `|None -> ...`"));
}

#[test]
fn literal_patterns_unify_with_their_types() {
    let mut c = Checker::new();
    assert!(bind_pattern(&mut c, &Pat::Ctor("True".to_string(), vec![]), &T::con("Bool"), sp(), "M.f").is_ok());
    let d = bind_pattern(&mut c, &Pat::Str("a".to_string()), &T::con("U64"), sp(), "M.f").unwrap_err();
    assert_eq!(d.code, "type.mismatch");
    assert_eq!(d.msg, "expected `Str`, found `U64` (string pattern)");
    let d = bind_pattern(&mut c, &Pat::Float("1.5".to_string()), &T::con("U64"), sp(), "M.f").unwrap_err();
    assert_eq!(d.msg, "a decimal literal cannot have type `U64` (decimal pattern)");
}

#[test]
fn names_are_collected_left_to_right() {
    let p = Pat::Tuple(vec![var("a"), Pat::Ctor("Some".to_string(), vec![var("b")]), Pat::List(vec![var("c"), Pat::Wild])]);
    assert_eq!(pat_names(&p), vec!["a", "b", "c"]);
    let mut out = vec!["z".to_string()];
    pat_vars(&p, &mut out);
    assert_eq!(out, vec!["z", "a", "b", "c"]);
}

#[test]
fn recording_a_pattern_hands_each_typed_name_on() {
    let mut c = Checker::new();
    let p = Pat::Tuple(vec![var("x"), var("y")]);
    let t = T::Tuple(vec![T::con("U8"), T::con("Str")]);
    assert!(bind_pattern(&mut c, &p, &t, sp(), "M.f").is_ok());
    let scope = Span { file: 0, line: 9, col: 0, len: 4 };
    record_pattern(&mut c, &p, scope);
    assert_eq!(c.binds.len(), 2);
    assert_eq!(c.binds[0].1, "x");
    assert_eq!(c.binds[1].1, "y");
    assert_eq!(c.resolve(&c.binds[1].2).show(), "Str");
    assert_eq!(c.binds[0].0.line, 9);
}

fn shape_checker() -> Checker {
    let mut c = Checker::new();
    c.data.variants.push((
        "Shape".to_string(),
        vec!["Circle".to_string(), "Square".to_string(), "Tri".to_string()],
    ));
    c
}

#[test]
fn a_match_on_a_variant_type_reports_the_constructors_it_misses() {
    let mut c = shape_checker();
    c.record_match(sp(), T::con("Shape"), vec![Pat::Ctor("Circle".to_string(), vec![])], "M.area".to_string());
    c.check_exhaustiveness();
    assert!(c.pending_matches.is_empty());
    assert_eq!(c.errors.len(), 1);
    let d = &c.errors[0];
    assert_eq!(d.code, "match.nonexhaustive");
    assert_eq!(d.msg, "this match does not cover Square, Tri");
    assert_eq!(d.path.as_deref(), Some("M.area.match"));
    assert_eq!(d.witness.as_deref(), Some("missing Square, Tri"));
    assert_eq!(d.fix.as_deref(), Some("add `|Square -> ...`"));
}

#[test]
fn booleans_vectors_tuples_and_the_rest() {
    let mut c = shape_checker();
    c.record_match(sp(), T::con("Bool"), vec![Pat::Bool(true)], "M.a".to_string());
    c.record_match(sp(), T::Con("Vec".to_string(), vec![T::con("U8")]), vec![Pat::List(vec![]), Pat::List(vec![var("x")])], "M.b".to_string());
    c.record_match(sp(), T::Tuple(vec![T::con("U8"), T::con("U8")]), vec![Pat::Tuple(vec![Pat::Int(0), Pat::Int(1)])], "M.c".to_string());
    c.record_match(sp(), T::con("U64"), vec![Pat::Int(0)], "M.d".to_string());
    c.record_match(sp(), T::con("U64"), vec![Pat::Int(0), var("n")], "M.e".to_string());
    c.record_match(sp(), T::con("Bool"), vec![Pat::Ctor("True".to_string(), vec![]), Pat::Ctor("False".to_string(), vec![])], "M.f".to_string());
    c.check_exhaustiveness();
    let msgs: Vec<&str> = c.errors.iter().map(|d| d.msg.as_str()).collect();
    assert_eq!(msgs, vec![
        "this match does not cover False",
        "this match does not cover a list of length 2",
        "this match does not cover the remaining combinations",
        "this match does not cover any other value",
    ]);
    assert_eq!(c.errors[0].fix.as_deref(), Some("add `|False -> ...`"));
    assert_eq!(c.errors[1].fix.as_deref(), Some("add `|_ -> ...`"));
    assert_eq!(c.errors[1].path.as_deref(), Some("M.b.match"));
}

#[test]
fn the_missing_list_length_skips_the_lengths_matched() {
    let mut c = Checker::new();
    let pats = vec![Pat::List(vec![var("a"), var("b")]), Pat::List(vec![]), Pat::List(vec![var("c")])];
    c.record_match(sp(), T::Con("Vec".to_string(), vec![T::con("U8")]), pats, "M.g".to_string());
    c.check_exhaustiveness();
    assert_eq!(c.errors[0].msg, "this match does not cover a list of length 3");
}

fn opt_checker() -> Checker {
    let mut c = Checker::new();
    c.data.variants.push(("Opt".to_string(), vec!["Some".to_string(), "None".to_string()]));
    c
}

fn ctor(n: &str, ps: Vec<Pat>) -> Pat {
    Pat::Ctor(n.to_string(), ps)
}

#[test]
fn a_refutable_payload_does_not_cover_its_constructor() {
    let mut c = opt_checker();
    let opt_u64 = T::Con("Opt".to_string(), vec![T::con("U64")]);
    c.record_match(sp(), opt_u64, vec![ctor("Some", vec![Pat::Int(3)]), ctor("None", vec![])], "Ex.f".to_string());
    c.check_exhaustiveness();
    assert_eq!(c.errors.len(), 1);
    assert_eq!(c.errors[0].code, "match.nonexhaustive");
    assert_eq!(c.errors[0].msg, "this match does not cover Some");
    assert_eq!(c.errors[0].fix.as_deref(), Some("add `|Some -> ...`"));
}

#[test]
fn arms_that_cover_a_constructor_together_still_cover_it() {
    let mut c = opt_checker();
    let nested = T::Con("Opt".to_string(), vec![T::Con("Opt".to_string(), vec![T::con("U64")])]);
    c.record_match(
        sp(),
        nested,
        vec![ctor("Some", vec![ctor("Some", vec![var("x")])]), ctor("Some", vec![ctor("None", vec![])]), ctor("None", vec![])],
        "Ex.f".to_string(),
    );
    let pair = T::Tuple(vec![T::con("Bool"), T::con("Bool")]);
    c.record_match(
        sp(),
        pair,
        vec![
            Pat::Tuple(vec![Pat::Bool(true), Pat::Wild]),
            Pat::Tuple(vec![Pat::Bool(false), Pat::Bool(true)]),
            Pat::Tuple(vec![Pat::Bool(false), Pat::Bool(false)]),
        ],
        "Ex.g".to_string(),
    );
    c.check_exhaustiveness();
    assert!(c.errors.is_empty(), "{:?}", c.errors);
    assert!(c.pending_matches.is_empty());
}

#[test]
fn a_tuple_with_a_gap_is_still_reported() {
    let mut c = Checker::new();
    let pair = T::Tuple(vec![T::con("Bool"), T::con("Bool")]);
    c.record_match(
        sp(),
        pair,
        vec![Pat::Tuple(vec![Pat::Bool(true), Pat::Wild]), Pat::Tuple(vec![Pat::Bool(false), Pat::Bool(true)])],
        "Ex.g".to_string(),
    );
    c.check_exhaustiveness();
    assert_eq!(c.errors.len(), 1);
    assert_eq!(c.errors[0].msg, "this match does not cover the remaining combinations");
}

#[test]
fn a_nested_miss_names_the_outer_constructor() {
    let mut c = opt_checker();
    let nested = T::Con("Opt".to_string(), vec![T::Con("Opt".to_string(), vec![T::con("U64")])]);
    c.record_match(
        sp(),
        nested,
        vec![ctor("Some", vec![ctor("Some", vec![var("x")])]), ctor("None", vec![])],
        "Ex.f".to_string(),
    );
    c.check_exhaustiveness();
    assert_eq!(c.errors.len(), 1);
    assert_eq!(c.errors[0].msg, "this match does not cover Some");
}

#[test]
fn a_tuple_of_wildcards_covers_every_tuple() {
    let mut c = Checker::new();
    let pair = T::Tuple(vec![T::con("U64"), T::con("Bool")]);
    c.record_match(
        sp(),
        pair,
        vec![Pat::Tuple(vec![Pat::Int(0), Pat::Bool(true)]), Pat::Tuple(vec![var("n"), Pat::Wild])],
        "Ex.h".to_string(),
    );
    c.check_exhaustiveness();
    assert!(c.errors.is_empty(), "{:?}", c.errors);
}
