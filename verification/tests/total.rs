use vibe::total::{show_lex, Lin};

#[test]
fn a_variable_prints_with_its_coefficient() {
    assert_eq!(Lin::var("n").show(), "1*n");
}

#[test]
fn scaled_sums_combine_and_cancel() {
    let mut l = Lin::var("n");
    l.add_scaled(&Lin::var("k"), -2);
    l.add_scaled(&Lin::var("n"), 2);
    assert_eq!(l.show(), "-2*k + 3*n");
    let mut m = Lin::var("n");
    m.add_scaled(&Lin::var("n"), -1);
    assert_eq!(m.show(), "0");
}

#[test]
fn adding_and_taking_away_leaves_the_form() {
    let mut l = Lin::var("a");
    let o = Lin::var("b");
    l.add_scaled(&o, 5);
    l.add_scaled(&o, -5);
    assert_eq!(l.show(), Lin::var("a").show());
}

#[test]
fn a_lexicographic_measure_prints_its_components() {
    assert_eq!(show_lex(&[Lin::var("n"), Lin::var("k")]), "1*n, 1*k");
    assert_eq!(show_lex(&[]), "");
}

#[test]
fn constants_print_last_and_only_when_they_count() {
    assert_eq!(Lin::num(0).show(), "0");
    assert_eq!(Lin::default().show(), "0");
    let mut l = Lin::var("n");
    l.add_scaled(&Lin::num(-1), 1);
    assert_eq!(l.show(), "1*n + -1");
    let mut m = Lin::var("n");
    m.add_scaled(&Lin::num(4), 0);
    assert_eq!(m.show(), "1*n");
    let mut z = Lin::var("xb");
    z.add_scaled(&Lin::var("xa"), 10);
    assert_eq!(z.show(), "1*xb + 10*xa");
}

fn module(src: &str) -> vibe::ast::Module {
    vibe::decl::parse(vibe::lexer::lex(src, 0).unwrap()).unwrap()
}

fn codes(src: &str) -> Vec<String> {
    vibe::total::check(&module(src)).into_iter().map(|d| d.code).collect()
}

#[test]
fn a_parameter_that_drops_at_every_call_is_the_measure() {
    let src = "mod T\n\ndown (n:I64) : I64 =\n  ?n |0 -> 0\n     |_ -> down (n - 1)\n  end\n";
    assert!(codes(src).is_empty());
}

#[test]
fn a_recursive_function_with_no_measure_is_refused() {
    let ds = vibe::total::check(&module("mod T\n\nspin (n:I64) : I64 = spin n\n"));
    assert_eq!(ds.len(), 1);
    assert_eq!(ds[0].code, "total.no_measure");
    assert_eq!(ds[0].msg, "`spin` is recursive and no parameter decreases at every call");
    assert_eq!(ds[0].path.as_deref(), Some("T.spin"));
    assert_eq!(ds[0].fix.as_deref(), Some("add a measure after the body, e.g. `%(n-k)`"));
}

#[test]
fn a_measure_that_grows_is_refused() {
    let ds = vibe::total::check(&module("mod T\n\nup (n:I64) : I64 = up (n + 1) % n\n"));
    assert_eq!(ds.len(), 1);
    assert_eq!(ds[0].code, "total.not_decreasing");
    assert_eq!(ds[0].msg, "the measure of `up` does not decrease at this call to `up`");
    assert_eq!(ds[0].witness.as_deref(), Some("measure 1*n"));
}

#[test]
fn a_written_measure_that_drops_is_accepted() {
    assert!(codes("mod T\n\ndown (n:I64) : I64 = down (n - 2) % n\n").is_empty());
}

#[test]
fn an_effectful_function_may_diverge() {
    assert!(codes("mod T\n\nserve (n:I64) : E! Unit = serve n\n").is_empty());
}

#[test]
fn a_measure_over_something_else_is_refused() {
    let ds = vibe::total::check(&module("mod T\n\nf (n:I64) : I64 = f n % k\n"));
    assert_eq!(ds.len(), 1);
    assert_eq!(ds[0].code, "total.no_measure");
    assert_eq!(ds[0].msg, "the measure of `f` is not arithmetic over its parameters");
    assert_eq!(ds[0].witness.as_deref(), Some("k"));
}

#[test]
fn a_mutual_group_must_write_its_measures() {
    let ds = vibe::total::check(&module("mod T\n\nping (n:I64) : I64 = pong n\n\npong (n:I64) : I64 = ping n\n"));
    assert_eq!(ds.len(), 2);
    assert_eq!(ds[0].msg, "`ping` is mutually recursive, so its measure is not inferred");
    assert_eq!(ds[1].msg, "`pong` is mutually recursive, so its measure is not inferred");
}

#[test]
fn a_function_that_does_not_recur_needs_no_measure() {
    assert!(codes("mod T\n\nf (n:I64) : I64 = g n\n\ng (n:I64) : I64 = n\n").is_empty());
}

#[test]
fn linear_forms_keep_literal_factors_and_make_atoms_of_the_rest() {
    let m = module("mod T\n\nf (n:I64) (k:I64) : I64 = 2 * n - k + 3\n\ng (x:I64) : I64 = x * x\n");
    let fs = m.funs();
    assert_eq!(vibe::total::lin(&fs[0].body).show(), "-1*k + 2*n + 3");
    assert_eq!(vibe::total::lin(&fs[1].body).show(), "1*(x * x)");
}

#[test]
fn inferred_and_explicit_measures_are_accepted() {
    let src = "mod TotalOk\n\ncount (n:I64) : I64 =\n  ?n |0 -> 0\n     |_ -> count (n - 1)\n  end\n\nhalve (n:I64) (k:I64) : I64 = halve (n - 1) (k + 1) % n\n";
    let ds = vibe::total::check(&module(src));
    assert!(ds.is_empty(), "TotalOk must check: {:?}", ds.iter().map(|d| d.msg.clone()).collect::<Vec<_>>());
}

#[test]
fn missing_measure_is_rejected() {
    let ds = vibe::total::check(&module("mod TotalNoMeasure\n\nspin (n:I64) : I64 = spin n\n"));
    assert!(!ds.is_empty(), "a recursive function with no measure must fail");
    assert!(ds.iter().any(|d| d.code == "total.no_measure"), "expected total.no_measure");
    assert!(ds.iter().any(|d| d.path.as_deref() == Some("TotalNoMeasure.spin")), "expected a semantic path");
}

#[test]
fn growing_measure_is_rejected() {
    let ds = vibe::total::check(&module("mod TotalGrowing\n\ngrow (n:I64) : I64 = grow (n + 1) % n\n"));
    assert!(!ds.is_empty(), "a measure that grows must fail");
    assert!(ds.iter().any(|d| d.code == "total.not_decreasing"), "expected total.not_decreasing");
}

#[test]
fn recursion_inside_an_arena_is_still_recursion() {
    let ds = vibe::total::check(&module("mod TotalArena\n\nspin (n:I64) : I64 = arena a in spin n\n"));
    assert!(!ds.is_empty(), "a recursive call inside an `arena` block must still need a measure");
    assert!(ds.iter().any(|d| d.code == "total.no_measure"), "expected total.no_measure");
}
