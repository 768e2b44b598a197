use vibe::diag::Span;
use vibe::infer::parse_type;
use vibe::types::{Checker, Kind, Scheme, T};

fn sp() -> Span {
    Span { file: 0, line: 1, col: 0, len: 1 }
}

fn shown(c: &Checker, t: &T) -> String {
    c.resolve(t).show()
}

fn list(t: T) -> T {
    T::Con("List".to_string(), vec![t])
}

#[test]
fn a_variable_takes_the_type_it_is_unified_with() {
    let mut c = Checker::new();
    let a = c.fresh(Kind::Any);
    assert!(c.unify(&a, &list(T::con("U64")), sp(), "").is_ok());
    assert_eq!(shown(&c, &a), "List U64");
}

#[test]
fn bindings_chain_through_variables() {
    let mut c = Checker::new();
    let a = c.fresh(Kind::Any);
    let b = c.fresh(Kind::Any);
    assert!(c.unify(&a, &b, sp(), "").is_ok());
    assert!(c.unify(&b, &T::con("Str"), sp(), "").is_ok());
    assert_eq!(shown(&c, &a), "Str");
    assert_eq!(shown(&c, &b), "Str");
}

#[test]
fn unification_goes_inside_constructors_and_functions() {
    let mut c = Checker::new();
    let a = c.fresh(Kind::Any);
    let b = c.fresh(Kind::Any);
    let f = T::Fun(Box::new(a.clone()), Box::new(list(b.clone())));
    let g = T::Fun(Box::new(T::con("Bool")), Box::new(list(T::con("Char"))));
    assert!(c.unify(&f, &g, sp(), "").is_ok());
    assert_eq!(shown(&c, &a), "Bool");
    assert_eq!(shown(&c, &b), "Char");
    assert_eq!(shown(&c, &f), shown(&c, &g));
}

#[test]
fn different_constructors_are_a_mismatch() {
    let mut c = Checker::new();
    let d = c.unify(&T::con("Str"), &T::con("U64"), sp(), " in the argument").unwrap_err();
    assert_eq!(d.code, "type.mismatch");
    assert_eq!(d.msg, "expected `U64`, found `Str` in the argument");
    assert!(d.fix.is_none());
}

#[test]
fn a_variable_cannot_contain_itself() {
    let mut c = Checker::new();
    let a = c.fresh(Kind::Any);
    let d = c.unify(&a, &list(a.clone()), sp(), "").unwrap_err();
    assert_eq!(d.code, "type.infinite");
    assert_eq!(d.msg, "this expression would have an infinite type");
}

#[test]
fn a_number_literal_is_not_a_string() {
    let mut c = Checker::new();
    let n = c.fresh(Kind::Num);
    let d = c.unify(&n, &T::con("Str"), sp(), " here").unwrap_err();
    assert_eq!(d.code, "type.mismatch");
    assert_eq!(d.msg, "`Str` is not a number here");
    assert!(c.unify(&n, &T::con("U8"), sp(), "").is_ok());
}

#[test]
fn a_decimal_literal_is_not_an_integer() {
    let mut c = Checker::new();
    let x = c.fresh(Kind::Float);
    let d = c.unify(&x, &T::con("U64"), sp(), "").unwrap_err();
    assert_eq!(d.msg, "a decimal literal cannot have type `U64`");
    assert_eq!(d.fix.as_deref(), Some("drop the decimal point, or use `f64 x` to convert"));
    assert!(c.unify(&x, &T::con("F32"), sp(), "").is_ok());
}

#[test]
fn binding_a_literal_to_a_variable_hands_on_its_constraint() {
    let mut c = Checker::new();
    let n = c.fresh(Kind::Num);
    let a = c.fresh(Kind::Any);
    assert!(c.unify(&n, &a, sp(), "").is_ok());
    assert_eq!(c.kinds[1], Kind::Num);
    let d = c.unify(&a, &T::con("Str"), sp(), "").unwrap_err();
    assert_eq!(d.msg, "`Str` is not a number");
}

#[test]
fn effects_leak_and_go_missing() {
    let mut c = Checker::new();
    let e = T::Eff(Box::new(T::con("Str")));
    let d = c.unify(&e, &T::con("Str"), sp(), "").unwrap_err();
    assert_eq!(d.code, "effect.leak");
    assert_eq!(d.msg, "this is an effectful value (`E! Str`) used where a pure `Str` is expected");
    assert!(d.fix.is_some());
    let d = c.unify(&T::con("Str"), &e, sp(), "").unwrap_err();
    assert_eq!(d.code, "effect.missing");
    assert_eq!(d.msg, "expected an effectful `E! Str` but found the pure `Str`");
}

#[test]
fn leftover_literals_default() {
    let mut c = Checker::new();
    let n = c.fresh(Kind::Num);
    let x = c.fresh(Kind::Float);
    let a = c.fresh(Kind::Any);
    c.default_numerics();
    assert_eq!(shown(&c, &n), "I64");
    assert_eq!(shown(&c, &x), "F64");
    assert_eq!(shown(&c, &a), "t2");
}

#[test]
fn a_generalised_type_instantiates_fresh() {
    let mut c = Checker::new();
    let a = c.fresh(Kind::Any);
    let s = c.generalise(&T::Fun(Box::new(a.clone()), Box::new(list(a.clone()))));
    assert_eq!(s.vars, vec![0]);
    let t = c.instantiate(&s);
    assert_eq!(t.show(), "t1 -> List t1");
    assert_eq!(c.subst.len(), 2);
    let mono = Scheme::mono(T::con("U8"));
    assert_eq!(c.instantiate(&mono).show(), "U8");
    assert_eq!(c.subst.len(), 2);
}

#[test]
fn a_written_type_lowers_with_one_variable_per_name() {
    let mut c = Checker::new();
    let mut vars = Vec::new();
    let t = c.lower_ty(&parse_type("a -> &List Nat -> (a, b)"), &mut vars);
    assert_eq!(t.show(), "t0 -> (List U64) -> (t0, t1)");
    assert_eq!(vars.len(), 2);
    assert_eq!(vars[0].0, "a");
    assert_eq!(vars[1].0, "b");
    let u = c.lower_ty(&parse_type("b"), &mut vars);
    assert_eq!(u.show(), "t1");
    assert_eq!(c.subst.len(), 2);
}

#[test]
fn inner_definitions_shadow_outer_ones_until_popped() {
    let mut c = Checker::new();
    c.sigs.push(("len".to_string(), Scheme::mono(T::con("U64"))));
    assert_eq!(c.lookup("len").unwrap().ty.show(), "U64");
    c.define("len", Scheme::mono(T::con("U8")));
    c.push_scope();
    c.define("len", Scheme::mono(T::con("Str")));
    assert_eq!(c.lookup("len").unwrap().ty.show(), "Str");
    c.pop_scope();
    assert_eq!(c.lookup("len").unwrap().ty.show(), "U8");
    assert!(c.lookup("nothing").is_none());
}
