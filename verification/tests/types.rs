use vibe::ast::Ty;
use vibe::types::{
    collect_vars, edit_distance, is_num, is_special, normalise_type_name, suggest, Kind, Scheme, T,
};

fn con(n: &str, args: Vec<T>) -> T {
    T::Con(n.to_string(), args)
}

#[test]
fn types_print_as_they_are_written() {
    assert_eq!(T::unit().show(), "Unit");
    assert_eq!(T::Var(3).show(), "t3");
    let res = con("Res", vec![T::con("Str"), con("Vec", vec![T::con("U8")])]);
    assert_eq!(res.show(), "Res Str (Vec U8)");
    let f = T::Fun(Box::new(T::Fun(Box::new(T::Var(0)), Box::new(T::Var(1)))), Box::new(T::Var(2)));
    assert_eq!(f.show(), "(t0 -> t1) -> t2");
    let e = T::Eff(Box::new(T::Tuple(vec![T::con("U8"), T::con("Bool")])));
    assert_eq!(e.show(), "E! (U8, Bool)");
    assert_eq!(T::Eff(Box::new(T::Eff(Box::new(T::unit())))).show(), "E! (E! Unit)");
}

#[test]
fn a_monotype_is_generic_over_nothing() {
    let s = Scheme::mono(T::con("U8"));
    assert!(s.vars.is_empty());
    assert_eq!(s.ty.show(), "U8");
    assert!(Kind::Num != Kind::Float);
}

#[test]
fn variables_are_collected_once_in_order() {
    let t = T::Fun(
        Box::new(T::Var(2)),
        Box::new(T::Tuple(vec![T::Var(0), T::Var(2), con("Vec", vec![T::Var(1)])])),
    );
    let mut out = vec![0];
    collect_vars(&t, &mut out);
    assert_eq!(out, vec![0, 2, 1]);
}

#[test]
fn numeric_and_special_names() {
    assert!(is_num("U8") && is_num("F64") && !is_num("Nat") && !is_num("Str"));
    assert!(is_special("len") && !is_special("map"));
    assert_eq!(normalise_type_name("Nat"), "U64");
    assert_eq!(normalise_type_name("Size"), "U64");
    assert_eq!(normalise_type_name("I8"), "I8");
}

#[test]
fn edit_distance_is_levenshtein() {
    assert_eq!(edit_distance("kitten", "sitting"), 3);
    assert_eq!(edit_distance("", "abc"), 3);
    assert_eq!(edit_distance("flaw", "lawn"), 2);
    assert_eq!(edit_distance("same", "same"), 0);
    assert_eq!(edit_distance("ab", "ba"), edit_distance("ba", "ab"));
}

#[test]
fn the_nearest_candidate_is_suggested() {
    let cs = vec!["lenght".to_string(), "length".to_string(), "len".to_string()];
    assert_eq!(suggest("lenth", &cs).as_deref(), Some("length"));
    assert_eq!(suggest("lengt", &cs[..1]).as_deref(), Some("lenght"));
    assert_eq!(suggest("length", &cs).as_deref(), Some("length"));
    assert_eq!(suggest("zzzzzzz", &cs), None);
    assert_eq!(suggest("x", &[]), None);
}

#[test]
fn a_written_type_is_a_constructor() {
    assert!(matches!(Ty::con("U8"), Ty::Con(n, a) if n == "U8" && a.is_empty()));
    assert!(matches!(Ty::unit(), Ty::Con(n, _) if n == "Unit"));
}
