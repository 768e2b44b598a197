use vibe::ast::{Decl, ExprKind, Module, Ty, TypeBody};
use vibe::decl::parse;
use vibe::diag::Diag;
use vibe::expr::SEQ;

fn module(src: &str) -> Result<Module, Diag> {
    parse(vibe::lexer::lex(src, 0).unwrap())
}

fn refused(src: &str) -> Diag {
    module(src).unwrap_err()
}

fn con(t: &Ty) -> String {
    match t {
        Ty::Con(n, args) if args.is_empty() => n.clone(),
        _ => format!("{:?}", t),
    }
}

#[test]
fn a_function_with_typed_parameters() {
    let m = module("mod Shop\n\nf (n:U64) : U64 = n + 1\n").unwrap();
    assert_eq!(m.name, "Shop");
    assert_eq!(m.decls.len(), 1);
    match &m.decls[0] {
        Decl::Fun(f) => {
            assert_eq!(f.name, "f");
            assert_eq!(f.home, "Shop");
            assert!(!f.is_ghost);
            assert_eq!(f.params.len(), 1);
            assert_eq!(f.params[0].names, vec!["n".to_string()]);
            assert_eq!(con(f.params[0].ty.as_ref().unwrap()), "U64");
            assert_eq!(con(f.ret.as_ref().unwrap()), "U64");
            assert!(matches!(&f.body.kind, ExprKind::Binop(op, _, _) if op == "+"));
            assert!(f.measure.is_none());
            assert_eq!((f.span.line, f.span.col), (3, 0));
        }
        _ => panic!("not a function"),
    }
}

#[test]
fn bare_and_grouped_parameters() {
    let m = module("mod P\n\nadd (a b : I64, a < b) c = a\n").unwrap();
    match &m.decls[0] {
        Decl::Fun(f) => {
            assert_eq!(f.params.len(), 2);
            assert_eq!(f.params[0].names, vec!["a".to_string(), "b".to_string()]);
            assert_eq!(f.params[0].refines.len(), 1);
            assert_eq!(f.params[1].names, vec!["c".to_string()]);
            assert!(f.params[1].ty.is_none());
            assert!(f.ret.is_none());
        }
        _ => panic!("not a function"),
    }
}

#[test]
fn a_ghost_function_with_a_measure() {
    let m = module("mod G\n\nghost f (n:U64) : U64 = f (n - 1) % n\n").unwrap();
    match &m.decls[0] {
        Decl::Fun(f) => {
            assert!(f.is_ghost);
            assert!(matches!(&f.measure.as_ref().unwrap().kind, ExprKind::Var(v) if v == "n"));
        }
        _ => panic!("not a function"),
    }
}

#[test]
fn variant_record_and_parameterised_types() {
    let src = "mod T\n\ntype Shape = Circle U64 | Rect U64 U64\ntype Point = {x : I64, y : I64, x < y}\ntype Box a = Box a\n";
    let m = module(src).unwrap();
    assert_eq!(m.decls.len(), 3);
    match &m.decls[0] {
        Decl::Type(t) => {
            assert_eq!(t.name, "Shape");
            assert_eq!(t.home, "T");
            match &t.body {
                TypeBody::Variants(vs) => {
                    assert_eq!(vs.len(), 2);
                    assert_eq!(vs[0].name, "Circle");
                    assert_eq!(vs[0].args.len(), 1);
                    assert_eq!(vs[1].name, "Rect");
                    assert_eq!(vs[1].args.len(), 2);
                }
                _ => panic!("not variants"),
            }
        }
        _ => panic!("not a type"),
    }
    match &m.decls[1] {
        Decl::Type(t) => match &t.body {
            TypeBody::Record(r) => {
                assert_eq!(r.fields.len(), 2);
                assert_eq!(r.fields[0].0, "x");
                assert_eq!(con(&r.fields[1].1), "I64");
                assert_eq!(r.refines.len(), 1);
            }
            _ => panic!("not a record"),
        },
        _ => panic!("not a type"),
    }
    match &m.decls[2] {
        Decl::Type(t) => {
            assert_eq!(t.params, vec!["a".to_string()]);
            assert!(matches!(&t.body, TypeBody::Variants(vs) if vs.len() == 1));
        }
        _ => panic!("not a type"),
    }
}

#[test]
fn an_ext_block_with_a_renamed_symbol_and_an_opaque_type() {
    let src = "mod M\n\next c \"stdio.h\" link \"m\" pkg \"gtk\"\n  type Window\n  say = \"puts\" : &CStr -> E! I32\n  labs : I64 -> I64\nend\n";
    let m = module(src).unwrap();
    match &m.decls[0] {
        Decl::Ext(x) => {
            assert_eq!(x.header, "stdio.h");
            assert_eq!(x.links, vec!["m".to_string()]);
            assert_eq!(x.pkgs, vec!["gtk".to_string()]);
            assert_eq!(x.types.len(), 1);
            assert!(matches!(x.types[0].body, TypeBody::Opaque));
            assert_eq!(x.sigs.len(), 2);
            assert_eq!((x.sigs[0].name.as_str(), x.sigs[0].symbol.as_str()), ("say", "puts"));
            assert_eq!((x.sigs[1].name.as_str(), x.sigs[1].symbol.as_str()), ("labs", "labs"));
        }
        _ => panic!("not an ext block"),
    }
}

#[test]
fn an_exp_line_names_the_exports() {
    let m = module("mod L\n\nexp c f, g\nf (n:U64) : U64 = n\ng (n:U64) : U64 = n\n").unwrap();
    assert_eq!(m.decls.len(), 3);
    match &m.decls[0] {
        Decl::Exp(ns, _) => assert_eq!(ns, &vec!["f".to_string(), "g".to_string()]),
        _ => panic!("not an exp line"),
    }
}

#[test]
fn blank_lines_are_free() {
    let m = module("mod Blanks\n\n\n\n\nf (n:U64) : U64 = n\n\n\ng (n:U64) : U64 = n\n").unwrap();
    assert_eq!(m.decls.len(), 2);
}

#[test]
fn a_semicolon_sequences_without_binding() {
    let m = module("mod Seq\n\nmain : E! Unit =\n  out \"a\\n\" ;\n  out \"b\\n\"\n").unwrap();
    match &m.decls[0] {
        Decl::Fun(f) => assert!(matches!(&f.body.kind, ExprKind::Bind(n, _, _) if n == SEQ)),
        _ => panic!("not a function"),
    }
}

#[test]
fn a_module_must_start_with_mod() {
    let d = refused("f (n:U64) : U64 = n\n");
    assert_eq!(d.code, "parse.mod");
    assert_eq!(d.msg, "a module must start with `mod <Name>`");
    assert_eq!(d.fix.as_deref(), Some("add `mod MyModule` as the first line"));
}

#[test]
fn a_newline_still_separates_declarations() {
    let d = refused("mod Joined\n\nf : U64 = 1 g : U64 = 2\n");
    assert_eq!(d.code, "parse.trailing");
    assert_eq!(d.msg, "unexpected `:` at end of declaration");
}

#[test]
fn redundant_parentheses_are_still_rejected() {
    let d = refused("mod Parens\n\nf (n:U64) : U64 = (n)\n");
    assert!(d.code.starts_with("canon."));
}

#[test]
fn a_match_without_end_says_so() {
    let d = refused("mod Unclosed\n\nf (n:U64) : U64 = ?n |0 -> 1 |_ -> 2\n");
    assert_eq!(d.code, "parse.match");
    assert!(d.fix.as_deref().unwrap().contains("add `end`"));
}

#[test]
fn an_ext_block_without_end_says_so() {
    let d = refused("mod Unended\n\next c \"stdio.h\"\n  puts : &CStr -> E! I32\n");
    assert_eq!(d.code, "parse.ext");
    assert_eq!(d.msg, "expected `end` to close the `ext c` block");
}

#[test]
fn a_bind_without_a_semicolon_says_so() {
    let d = refused("mod NoSemi\n\nmain : E! Unit =\n  s <- read \"f\"\n  out &s\n");
    assert_eq!(d.code, "parse.bind");
    assert!(d.msg.contains("`;`"));
}

#[test]
fn an_empty_parameter_group_is_refused() {
    let d = refused("mod E\n\nf ( : U64) = 1\n");
    assert_eq!(d.code, "parse.param");
    assert_eq!(d.msg, "expected parameter names before `:`");
}

#[test]
fn exp_needs_the_c() {
    let d = refused("mod X\n\nexp f\n");
    assert_eq!(d.code, "parse.exp");
}

#[test]
fn a_type_needs_a_capitalised_name() {
    let d = refused("mod X\n\ntype shape = A\n");
    assert_eq!(d.code, "parse.ctor");
    assert_eq!(d.msg, "expected a capitalised name, found `shape`");
}

const MIXED: &str = "mod L\n\ntype Shape = Circle U64\next c \"stdio.h\"\n  type Window\n  puts : &CStr -> E! I32\nend\nexp c f, g\nf (n:U64) : U64 = n\ng (n:U64) : U64 = n\n";

#[test]
fn a_module_lists_its_functions_types_and_exports() {
    let m = module(MIXED).unwrap();
    let fs: Vec<&str> = m.funs().iter().map(|f| f.name.as_str()).collect();
    assert_eq!(fs, vec!["f", "g"]);
    let ts: Vec<&str> = m.types().iter().map(|t| t.name.as_str()).collect();
    assert_eq!(ts, vec!["Shape", "Window"]);
    assert_eq!(m.exts().len(), 1);
    assert_eq!(m.exports(), vec!["f".to_string(), "g".to_string()]);
}

#[test]
fn every_declaration_is_homed_in_its_module() {
    let m = module(MIXED).unwrap();
    for f in m.funs() {
        assert_eq!(f.home, "L");
    }
    for t in m.types() {
        assert_eq!(t.home, "L");
    }
}

#[test]
fn end_closes_the_inner_match_before_the_outer_one() {
    let src = "mod Nest\n\nf (a:U64) (b:U64) : U64 =\n\
               ?a |0 -> ?b |0 -> 1 |_ -> 2 end\n\
                  |_ -> 3\n\
               end\n";
    let m = module(src).unwrap();
    match &m.decls[0] {
        Decl::Fun(f) => match &f.body.kind {
            ExprKind::Match(_, arms) => {
                assert_eq!(arms.len(), 2);
                assert!(matches!(&arms[0].1.kind, ExprKind::Match(_, inner) if inner.len() == 2));
            }
            _ => panic!("not a match"),
        },
        _ => panic!("not a function"),
    }
}

#[test]
fn a_newline_inside_a_declaration_is_whitespace() {
    let m = module("mod Split\n\nf (n:U64) : U64 =\n  n\n  +\n  1\n").unwrap();
    match &m.decls[0] {
        Decl::Fun(f) => assert!(matches!(&f.body.kind, ExprKind::Binop(op, _, _) if op == "+")),
        _ => panic!("not a function"),
    }
}

#[test]
fn indentation_is_free() {
    let tidy = module("mod Tidy\n\nf (n:U64) : U64 =\n  ?n |0 -> 1\n     |_ -> n\n  end\n").unwrap();
    let ragged = module("mod Ragged\n\n      f (n:U64) : U64 =\n?n\n|0 -> 1\n            |_ -> n\nend\n").unwrap();
    let arms = |m: &Module| match &m.decls[0] {
        Decl::Fun(f) => match &f.body.kind {
            ExprKind::Match(_, arms) => arms.len(),
            _ => 0,
        },
        _ => 0,
    };
    assert_eq!(arms(&tidy), 2);
    assert_eq!(arms(&ragged), 2);
}
