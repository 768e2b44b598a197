use vibe::ast::{ExprKind, Ty};
use vibe::codegen::{
    box_expr, builtin, c_box, c_type, c_unbox, cname, cstring, flatten_fn, fn_arity, indent, is_unit,
    split_fn, strip_eff, ty_show, unbox_return,
};
use vibe::types::T;

fn f(a: Ty, b: Ty) -> Ty {
    Ty::Fun(Box::new(a), Box::new(b))
}

#[test]
fn names_become_c_identifiers() {
    assert_eq!(cname("Ledger.mean"), "Ledger_mean");
    assert_eq!(cname("a-b c"), "a_b_c");
}

#[test]
fn strings_become_c_literals() {
    assert_eq!(cstring("hi \"x\"\n"), "\"hi \\\"x\\\"\\n\"");
    assert_eq!(cstring("é"), "\"\\xc3\"\"\\xa9\"\"\"");
}

#[test]
fn indentation_skips_empty_lines() {
    assert_eq!(indent("a\n\nb", 2), "  a\n\n  b\n");
}

#[test]
fn function_types_are_flattened() {
    let t = f(Ty::con("U8"), f(Ty::Ref(Box::new(Ty::con("Str"))), Ty::Eff(Box::new(Ty::unit()))));
    assert_eq!(fn_arity(&t), 2);
    let (ps, ret) = flatten_fn(&t);
    assert_eq!(ps.len(), 2);
    assert_eq!(ty_show(&ps[1]), "&Str");
    assert_eq!(ty_show(&ret), "E! Unit");
    assert_eq!(ty_show(&strip_eff(&ret)), "Unit");
    assert!(is_unit(&strip_eff(&ret)));
    assert_eq!(ty_show(&t), "U8 -> &Str -> E! Unit");
}

#[test]
fn values_cross_to_c_by_type() {
    assert_eq!(c_unbox(&Ty::con("U8"), "a[0]").as_deref(), Some("(uint8_t)vb_as_uint(a[0])"));
    assert_eq!(c_unbox(&Ty::Ref(Box::new(Ty::con("CStr"))), "a[0]").as_deref(), Some("vb_as_cstr(a[0])"));
    assert_eq!(c_unbox(&Ty::con("Nat"), "v").as_deref(), Some("(uint64_t)vb_as_uint(v)"));
    assert_eq!(c_unbox(&Ty::con("Unit"), "v"), None);
    assert_eq!(c_box(&Ty::Eff(Box::new(Ty::con("I32"))), "puts(s)").as_deref(), Some("vb_int((int64_t)(puts(s)))"));
    assert_eq!(c_box(&Ty::con("Bool"), "b").as_deref(), Some("vb_bool((b) ? true : false)"));
    assert_eq!(c_box(&Ty::con("Vec"), "v"), None);
}

#[test]
fn exported_signatures_unbox_scalars() {
    assert_eq!(c_type(&T::con("F64")), "double");
    assert_eq!(c_type(&T::Eff(Box::new(T::unit()))), "void");
    assert_eq!(c_type(&T::con("Vec")), "VbVal");
    assert_eq!(box_expr(&T::con("U16"), "x0"), "vb_uint((uint64_t)x0)");
    assert_eq!(box_expr(&T::con("Str"), "x0"), "x0");
    assert_eq!(unbox_return(&T::con("F64")), "return (double)vb_as_float(r);");
    assert_eq!(unbox_return(&T::con("Char")), "return (char)vb_as_int(r);");
    assert_eq!(unbox_return(&T::Eff(Box::new(T::unit()))), "(void)r;");
    assert_eq!(unbox_return(&T::con("Vec")), "return r;");
}

#[test]
fn a_function_type_splits_at_its_arity() {
    let t = T::Fun(Box::new(T::con("U8")), Box::new(T::Fun(Box::new(T::con("Bool")), Box::new(T::con("F64")))));
    let (ps, rest) = split_fn(&t, 1);
    assert_eq!(ps.len(), 1);
    assert_eq!(rest.show(), "Bool -> F64");
    let (ps, rest) = split_fn(&t, 5);
    assert_eq!(ps.len(), 2);
    assert_eq!(rest.show(), "F64");
}

#[test]
fn builtins_know_their_arity_and_call() {
    assert_eq!(builtin("get"), Some((2, "vb_get($0, $1, $P)".to_string())));
    assert_eq!(builtin("size"), Some((1, "vb_to_unsigned($0, 64)".to_string())));
    assert_eq!(builtin("argv"), Some((0, "vb_argv()".to_string())));
    assert_eq!(builtin("nope"), None);
}

fn ex(kind: vibe::ast::ExprKind) -> vibe::ast::Expr {
    vibe::ast::Expr { kind, span: vibe::diag::Span::default() }
}

fn var(n: &str) -> vibe::ast::Expr {
    ex(vibe::ast::ExprKind::Var(n.to_string()))
}

fn free(e: &vibe::ast::Expr, bound: &[&str]) -> Vec<String> {
    let mut b: Vec<String> = bound.iter().map(|s| s.to_string()).collect();
    let before = b.clone();
    let mut out = Vec::new();
    vibe::codegen::free_vars(e, &mut b, &mut out);
    assert_eq!(b, before);
    out
}

#[test]
fn free_variables_are_listed_once_in_order() {
    let call = ex(ExprKind::App(Box::new(var("f")), vec![var("x"), var("y"), var("x")]));
    assert_eq!(free(&call, &["f"]), vec!["x", "y"]);
    let l = ex(ExprKind::Let("x".to_string(), Box::new(var("a")), Box::new(ex(ExprKind::Binop("+".to_string(), Box::new(var("x")), Box::new(var("z")))))));
    assert_eq!(free(&l, &[]), vec!["a", "z"]);
    let lam = ex(ExprKind::Lambda(vec!["p".to_string()], Box::new(ex(ExprKind::Binop("+".to_string(), Box::new(var("p")), Box::new(var("q")))))));
    assert_eq!(free(&lam, &[]), vec!["q"]);
    let m = ex(ExprKind::Match(
        Box::new(var("s")),
        vec![(vibe::ast::Pat::Var("h".to_string()), var("h")), (vibe::ast::Pat::Wild, var("w"))],
    ));
    assert_eq!(free(&m, &[]), vec!["s", "w"]);
}
