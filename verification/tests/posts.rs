use vibe::refine::postconditions;

const LOAD: &str = "mod T\n\n                        type Err = Void\n\n                        load (r:Res Err (Vec U64)) : Res Err (Vec U64) =\n                            ?r |Er e  -> Er e\n                                  |Ok [] -> Er Void\n                                  |Ok ys -> Ok ys\n  end\n";

fn posts_of(src: &str) -> Vec<(String, Vec<(String, usize)>)> {
    let toks = vibe::lexer::lex(src, 0).expect("lexes");
    postconditions(&vibe::decl::parse(toks).expect("parses"))
}

/// The bound a function's postcondition gives a constructor, by the latest
/// entry for the function.
fn get(p: &[(String, Vec<(String, usize)>)], f: &str, c: &str) -> Option<usize> {
    p.iter().rev().find(|(n, _)| n == f).and_then(|(_, m)| m.iter().find(|(k, _)| k == c).map(|(_, v)| *v))
}

#[test]
fn a_postcondition_is_inferred_from_the_constructor_arms() {
    let p = posts_of(LOAD);
    assert_eq!(get(&p, "load", "Ok"), Some(1), "{p:?}");
    assert_eq!(get(&p, "load", "Er"), None, "{p:?}");
}

#[test]
fn without_the_empty_arm_nothing_is_inferred() {
    let src = LOAD.replace("|Ok [] -> Er Void\n     ", "");
    assert!(posts_of(&src).is_empty(), "{:?}", posts_of(&src));
}

#[test]
fn a_second_path_without_the_fact_withdraws_the_postcondition() {
    let src = LOAD.replace("|Er e  -> Er e", "|Er e  -> Ok (mk e)");
    assert!(posts_of(&src).is_empty(), "{:?}", posts_of(&src));
}

#[test]
fn a_non_constructor_tail_abandons_the_function() {
    let src = LOAD.replace("|Er e  -> Er e", "|Er e  -> other e");
    assert!(posts_of(&src).is_empty(), "{:?}", posts_of(&src));
}

#[test]
fn lets_and_arenas_pass_their_tail_through_and_forget_what_they_rebind() {
    let src = "mod T\n\nf (r:Res Err (Vec U64)) : Res Err (Vec U64) =\n  ?r |Ok [] -> Er Void\n     |Ok ys -> let zs = ys in Ok zs\n     |Er e -> Er e\n  end\n\ng (r:Res Err (Vec U64)) : Res Err (Vec U64) =\n  ?r |Ok [] -> Er Void\n     |Ok ys -> let ys = mk 1 in Ok ys\n     |Er e -> Er e\n  end\n";
    let p = posts_of(src);
    assert_eq!(get(&p, "f", "Ok"), None, "{p:?}");
    assert_eq!(get(&p, "g", "Ok"), None, "{p:?}");
}

#[test]
fn two_empty_cases_give_a_bound_of_two() {
    let src = "mod T\n\nf (r:Res Err (Vec U64)) : Res Err (Vec U64) =\n  ?r |Ok [] -> Er Void\n     |Ok [_] -> Er Void\n     |Ok ys -> Ok ys\n     |Er e -> Er e\n  end\n";
    let p = posts_of(src);
    assert_eq!(get(&p, "f", "Ok"), Some(2), "{p:?}");
}
