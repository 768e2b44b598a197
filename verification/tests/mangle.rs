use vibe::ast::{Decl, Expr, ExprKind, Module, Pat, Ty};
use vibe::load::{Program, Unit};
use vibe::mangle::{flatten, mangle, syms_of};

fn module(src: &str) -> Module {
    vibe::decl::parse(vibe::lexer::lex(src, 0).unwrap()).unwrap()
}

fn vars(e: &Expr, out: &mut Vec<String>) {
    match &e.kind {
        ExprKind::Var(n) => out.push(n.clone()),
        ExprKind::App(h, xs) => {
            vars(h, out);
            for x in xs {
                vars(x, out);
            }
        }
        ExprKind::Binop(_, a, b) | ExprKind::Let(_, a, b) | ExprKind::Bind(_, a, b) => {
            vars(a, out);
            vars(b, out);
        }
        ExprKind::Neg(x) | ExprKind::Not(x) | ExprKind::Borrow(x) | ExprKind::Field(x, _) => vars(x, out),
        ExprKind::Lambda(_, x) | ExprKind::Arena(_, x) => vars(x, out),
        ExprKind::Match(x, arms) => {
            vars(x, out);
            for (_, b) in arms {
                vars(b, out);
            }
        }
        ExprKind::Tuple(xs) | ExprKind::List(xs) => {
            for x in xs {
                vars(x, out);
            }
        }
        _ => {}
    }
}

fn fun<'a>(m: &'a Module, name: &str) -> &'a vibe::ast::FunDecl {
    m.decls
        .iter()
        .find_map(|d| match d {
            Decl::Fun(f) if f.name == name => Some(f),
            _ => None,
        })
        .unwrap()
}

fn body_vars(m: &Module, name: &str) -> Vec<String> {
    let mut out = Vec::new();
    vars(&fun(m, name).body, &mut out);
    out
}

const MONEY: &str = "mod Money\n\ncents (x:I64) : I64 = x * 100\n";

#[test]
fn two_modules_may_declare_one_name() {
    let app = module("mod App\n\ncents (n:I64) : I64 = n + 1\n\nmain (k:I64) : I64 = Money.cents k + cents 5\n");
    let flat = flatten(&vec![module(MONEY), app]).unwrap();
    assert_eq!(flat.name, "App");
    let names: Vec<String> = flat
        .decls
        .iter()
        .filter_map(|d| match d {
            Decl::Fun(f) => Some(f.name.clone()),
            _ => None,
        })
        .collect();
    assert_eq!(names, vec!["Money.cents", "App.cents", "App.main"]);
    assert_eq!(body_vars(&flat, "App.main"), vec!["Money.cents", "k", "App.cents"]);
}

#[test]
fn a_parameter_shadows_the_modules_own_name() {
    let app = module("mod App\n\ncents (n:I64) : I64 = n + 1\n\ntwice (cents:I64) : I64 = cents + cents\n");
    let flat = flatten(&vec![app]).unwrap();
    assert_eq!(body_vars(&flat, "App.twice"), vec!["cents", "cents"]);
    assert_eq!(body_vars(&flat, "App.cents"), vec!["n"]);
}

#[test]
fn a_qualified_value_that_is_not_there_is_reported() {
    let app = module("mod App\n\nmain (k:I64) : I64 = Money.centz k\n");
    let errs = flatten(&vec![module(MONEY), app]).err().unwrap();
    assert_eq!(errs.len(), 1);
    let d = &errs[0];
    assert_eq!(d.code, "mod.no_name");
    assert_eq!(d.msg, "`Money` declares no value `centz`");
    assert_eq!(d.path.as_deref(), Some("App.centz"));
    assert_eq!(d.fix.as_deref(), Some("check the spelling, or declare `centz` in Money.vibe"));
}

#[test]
fn an_unknown_module_is_left_to_the_checker() {
    let app = module("mod App\n\nmain (k:I64) : I64 = Nowhere.f k\n");
    assert!(flatten(&vec![app]).is_ok());
}

#[test]
fn own_types_and_constructors_are_qualified() {
    let src = "mod Geo\n\ntype Shape = Circle I64 | Dot\n\narea (s:Shape) : I64 =\n  ?s |Circle r -> r\n     |Dot -> 0\n  end\n";
    let mut m = module(src);
    let table = vec![("Geo".to_string(), syms_of(&m))];
    let errs = mangle(&mut m, "Geo", &table);
    assert!(errs.is_empty());
    match &m.decls[0] {
        Decl::Type(t) => assert_eq!(t.name, "Geo.Shape"),
        _ => panic!("a type first"),
    }
    let f = fun(&m, "Geo.area");
    match &f.params[0].ty {
        Some(Ty::Con(n, _)) => assert_eq!(n, "Geo.Shape"),
        _ => panic!("a named type"),
    }
    match &f.body.kind {
        ExprKind::Match(_, arms) => {
            match &arms[0].0 {
                Pat::Ctor(c, _) => assert_eq!(c, "Geo.Circle"),
                _ => panic!("a constructor pattern"),
            }
            let mut out = Vec::new();
            vars(&arms[0].1, &mut out);
            assert_eq!(out, vec!["r"]);
        }
        _ => panic!("a match"),
    }
}

#[test]
fn a_qualified_constructor_that_is_not_there_is_reported() {
    let geo = module("mod Geo\n\ntype Shape = Circle I64 | Dot\n");
    let app = module("mod App\n\nf (s:I64) : I64 =\n  ?s |Geo.Square r -> r\n     |_ -> 0\n  end\n");
    let errs = flatten(&vec![geo, app]).err().unwrap();
    assert_eq!(errs.len(), 1);
    assert_eq!(errs[0].msg, "`Geo` declares no constructor `Square`");
    assert_eq!(errs[0].path.as_deref(), Some("App.Square"));
}

#[test]
fn a_module_declares_its_functions_types_and_constructors() {
    let m = module("mod Geo\n\ntype Shape = Circle I64 | Dot\n\narea (s:Shape) : I64 = 0\n");
    let s = syms_of(&m);
    assert_eq!(s.vals, vec!["area"]);
    assert_eq!(s.types, vec!["Shape"]);
    assert_eq!(s.ctors, vec!["Circle", "Dot"]);
}

#[test]
fn the_root_is_the_last_file_read() {
    let unit = |src: &str, file: usize| Unit { module: module(src), src: src.to_string(), comments: Vec::new(), file };
    let app = "mod App\n\nmain (k:I64) : I64 = Money.cents k\n";
    let p = Program { flat: module(app), units: vec![unit(MONEY, 0), unit(app, 1)] };
    assert_eq!(p.root().module.name, "App");
    assert_eq!(p.root().file, 1);
}

#[test]
fn a_bare_name_and_its_qualified_spelling_agree() {
    let money = module("mod Money\n\ncents (x:I64) : I64 = x * 100\n\ndouble (x:I64) : I64 = cents x + cents x\n");
    let app = module("mod App\n\nmain (k:I64) : I64 = Money.cents k\n");
    let flat = flatten(&vec![money, app]).unwrap();
    assert_eq!(body_vars(&flat, "Money.double"), vec!["Money.cents", "x", "Money.cents", "x"]);
    assert_eq!(body_vars(&flat, "App.main"), vec!["Money.cents", "k"]);
}
