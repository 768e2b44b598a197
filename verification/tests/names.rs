use vibe::ast::Ty;
use vibe::diag::Span;
use vibe::infer::{effect_of, is_affine_t, result_name, returns_eff};
use vibe::load::{dotted, snake_case, squash, ty_qualifiers};
use vibe::own::{is_affine, sig_borrows, ty_borrows};
use vibe::refine::{base_name, inst, inst_args, ty_args};
use vibe::types::T;

#[test]
fn effects_and_results_of_inferred_types() {
    let t = T::Fun(Box::new(T::con("Str")), Box::new(T::Eff(Box::new(T::unit()))));
    assert!(returns_eff(&t));
    assert!(!returns_eff(&T::con("U8")));
    assert_eq!(result_name(&t), "E! Unit");
    assert_eq!(effect_of(&T::Eff(Box::new(T::con("U8")))).map(|u| u.show()).as_deref(), Some("U8"));
    assert!(effect_of(&T::con("U8")).is_none());
}

#[test]
fn scalars_are_copied_and_payloads_moved() {
    assert!(!is_affine_t(&T::con("U64")));
    assert!(is_affine_t(&T::con("Str")));
    assert!(is_affine_t(&T::Var(0)));
    assert!(is_affine_t(&T::Tuple(vec![T::con("U8"), T::con("Str")])));
    assert!(!is_affine(&Ty::con("Nat")));
    assert!(is_affine(&Ty::con("Vec")));
    assert!(!is_affine(&Ty::Ref(Box::new(Ty::con("Vec")))));
}

#[test]
fn borrows_are_read_off_signatures() {
    let t = Ty::Fun(
        Box::new(Ty::Ref(Box::new(Ty::con("Vec")))),
        Box::new(Ty::Fun(Box::new(Ty::con("Size")), Box::new(Ty::Var("a".to_string())))),
    );
    assert_eq!(ty_borrows(&t), vec![true, false]);
    assert_eq!(sig_borrows("(a -> b) -> &Vec a -> Vec b"), vec![false, true]);
    assert_eq!(sig_borrows("&Vec a -> Size -> a"), vec![true, false]);
    assert_eq!(sig_borrows("Vec a"), Vec::<bool>::new());
}

#[test]
fn module_names_map_to_files() {
    assert_eq!(squash("Total_Ok"), "totalok");
    assert_eq!(snake_case("TotalOk"), "total_ok");
    assert_eq!(snake_case("ABC"), "a_b_c");
    assert_eq!(dotted("Money.vat").as_deref(), Some("Money"));
    assert_eq!(dotted("vat"), None);
}

#[test]
fn qualified_types_name_their_modules() {
    let t = Ty::Con(
        "Res".to_string(),
        vec![Ty::con("Shape.Kind"), Ty::Ref(Box::new(Ty::con("Money.Cents")))],
    );
    let s = Span { file: 0, line: 4, col: 0, len: 3 };
    let mut out = Vec::new();
    ty_qualifiers(&t, s, &mut out);
    let mods: Vec<&str> = out.iter().map(|(m, _)| m.as_str()).collect();
    assert_eq!(mods, vec!["Shape", "Money"]);
    assert_eq!(out[0].1, s);
}

#[test]
fn type_arguments_line_up_with_parameters() {
    let res = Ty::Con("Res".to_string(), vec![Ty::con("Str"), Ty::Tuple(vec![]), Ty::con("Tx")]);
    assert_eq!(base_name(&Ty::Ref(Box::new(res))).as_deref(), Some("Res"));
    let res = Ty::Con("Res".to_string(), vec![Ty::con("Str"), Ty::Tuple(vec![]), Ty::con("Tx")]);
    assert_eq!(ty_args(&res), vec!["Str".to_string(), String::new(), "Tx".to_string()]);
    let params = vec!["e".to_string(), "t".to_string()];
    let args = vec!["Str".to_string(), "Tx".to_string()];
    assert_eq!(inst(&Ty::Var("t".to_string()), &params, &args).as_deref(), Some("Tx"));
    assert_eq!(inst(&Ty::Var("z".to_string()), &params, &args), None);
    let vt = Ty::Con("Vec".to_string(), vec![Ty::Var("t".to_string())]);
    assert_eq!(inst_args(&vt, &params, &args), vec!["Tx".to_string()]);
}
