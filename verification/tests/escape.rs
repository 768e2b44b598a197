use vibe::escape::releasable;

fn module(src: &str) -> vibe::ast::Module {
    vibe::decl::parse(vibe::lexer::lex(src, 0).unwrap()).unwrap()
}

#[test]
fn a_call_into_c_taints_its_callers() {
    let m = module("mod M\n\next c \"stdio.h\"\n  puts : &CStr -> E! I32\nend\n\nsay (s:Str) : E! I32 = puts s\n\ngreet (s:Str) : E! I32 = say s\n\nouter (s:Str) : E! I32 = greet s\n\npure (n:U64) : U64 = n\n");
    assert_eq!(releasable(&m, &vec!["puts".to_string()]), vec!["pure".to_string()]);
}

#[test]
fn without_c_every_function_is_releasable() {
    let m = module("mod M\n\nf (n:U64) : U64 = g n\n\ng (n:U64) : U64 = n\n");
    assert_eq!(releasable(&m, &vec![]), vec!["f".to_string(), "g".to_string()]);
}
