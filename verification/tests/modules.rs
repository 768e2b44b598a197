use vibe::load::qualifiers;

fn module(src: &str) -> vibe::ast::Module {
    vibe::decl::parse(vibe::lexer::lex(src, 0).unwrap()).unwrap()
}

fn names(src: &str) -> Vec<String> {
    qualifiers(&module(src)).into_iter().map(|(m, _)| m).collect()
}

#[test]
fn a_call_into_another_module_is_a_qualifier() {
    assert_eq!(names("mod App\n\ngross (n:U64) : U64 = Money.vat n\n"), vec!["Money"]);
}

#[test]
fn a_qualified_type_names_its_module() {
    let src = "mod App\n\nf (s:Shape.Kind) : Geo.Point = g s\n\ntype Box = Full Store.Item\n";
    assert_eq!(names(src), vec!["Shape", "Geo", "Store"]);
}

#[test]
fn a_qualified_constructor_in_a_pattern_is_blamed_on_its_match() {
    let src = "mod App\n\nf (s:U64) : U64 =\n  ?s |Shape.Circle r -> r\n     |_ -> 0\n  end\n";
    let q = qualifiers(&module(src));
    assert_eq!(q.len(), 1);
    assert_eq!(q[0].0, "Shape");
    assert_eq!(q[0].1.line, 4);
}

#[test]
fn local_names_are_not_qualifiers() {
    assert!(names("mod App\n\nf (n:U64) : U64 = g (h n)\n").is_empty());
}

fn ext_module(name: &str, ret: &str) -> vibe::ast::Module {
    module(&format!("mod {name}\n\next c \"stdio.h\"\n  puts : &CStr -> E! {ret}\nend\n"))
}

#[test]
fn an_ext_symbol_with_two_types_is_a_clash() {
    let ds = vibe::load::global_clashes(&[ext_module("A", "I32"), ext_module("B", "U8")]);
    assert_eq!(ds.len(), 1);
    let d = &ds[0];
    assert_eq!(d.code, "mod.duplicate");
    assert_eq!(d.msg, "the `ext c` symbol `puts` is declared with two different types, in `A` and `B`");
    assert_eq!(d.path.as_deref(), Some("B.puts"));
    let w = d.witness.as_deref().unwrap();
    assert!(w.starts_with("`A` declares puts : "), "{w}");
    assert!(w.contains("; `B` declares puts : "), "{w}");
    assert!(w.ends_with("U8"), "{w}");
    assert_eq!(d.fix.as_deref(), Some("make the two agree: a C symbol has one type, and no module to hide behind"));
}

#[test]
fn the_same_ext_symbol_declared_alike_is_no_clash() {
    assert!(vibe::load::global_clashes(&[ext_module("A", "I32"), ext_module("B", "I32")]).is_empty());
    assert!(vibe::load::global_clashes(&[ext_module("A", "I32"), ext_module("A", "U8")]).is_empty());
}
