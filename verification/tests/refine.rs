use vibe::diag::Span;
use vibe::refine::{
    caveats, cast, conj, conv, int_lit, is_checked, is_container, is_unsigned, model, proved, range,
    replace_sym, scalar_sort, set_budget, smt, sort_of, value, verdict, discharge, no_solver, plan, certificates, Cache, Discharge, Mode, Ob, Plan, Sort,
};

fn ob(approx: bool) -> Ob {
    Ob {
        span: Span::default(),
        path: "T.f.body/0".to_string(),
        code: "div0".to_string(),
        msg: "b may be zero".to_string(),
        fix: Some("T.f.sig += b != 0".to_string()),
        vars: vec![("b".to_string(), Sort::Int)],
        hyps: vec!["(>= b 0)".to_string()],
        goal: "(not (= b 0))".to_string(),
        approx,
    }
}

#[test]
fn model_parsing_yields_a_counterexample() {
    let out = "sat\n(\n  (define-fun b () Int 0)\n  (define-fun a () Int (- 3))\n)";
    assert_eq!(model(out).as_deref(), Some("b=0, a=-3"));
}

#[test]
fn the_smt_text_is_the_whole_question() {
    assert_eq!(
        smt(&ob(false)),
        "(set-logic ALL)\n(declare-const b Int)\n(assert (>= b 0))\n(assert (not (not (= b 0))))\n(check-sat)\n(get-model)\n"
    );
}

#[test]
fn a_model_without_entries_is_no_counterexample() {
    assert_eq!(model("sat\n()"), None);
    assert_eq!(model("unsat"), None);
}

#[test]
fn values_flatten_negations_and_fractions() {
    assert_eq!(value("(- 3))").as_deref(), Some("-3"));
    assert_eq!(value("(/ 1 2)").as_deref(), Some("1/2"));
    assert_eq!(value("(f  a\n b) x").as_deref(), Some("(f a b)"));
    assert_eq!(value("42)").as_deref(), Some("42"));
    assert_eq!(value(")"), None);
    assert_eq!(value("(unclosed"), None);
}

#[test]
fn caveats_count_what_was_not_proved() {
    assert_eq!(caveats(&[ob(false)], 0), "");
    assert_eq!(
        caveats(&[ob(true), ob(false), ob(true)], 2),
        "note: 2 obligation(s) could not be expressed in the solver's fragment and were not proved\nnote: 2 obligation(s) are about F32/F64 and are approximated as mathematical reals, not machine floats\n"
    );
}

#[test]
fn the_budget_is_at_least_a_second() {
    assert_eq!(set_budget(0), 1);
    assert_eq!(set_budget(7), 7);
}

#[test]
fn an_unsat_answer_is_a_proof_and_is_remembered() {
    let o = ob(false);
    let mut c = Cache::off();
    assert!(!c.hit(&o));
    assert!(verdict(&o, Ok("unsat".to_string()), &mut c).is_none());
    assert!(c.hit(&o));
    assert_eq!(c.to_flush().map(|v| v.len()), Some(1));
    assert!(verdict(&o, Ok("unsat".to_string()), &mut c).is_none());
    assert_eq!(c.to_flush().map(|v| v.len()), Some(1));
}

#[test]
fn a_missing_solver_is_reported_as_such() {
    let o = ob(false);
    let mut c = Cache::off();
    let d = verdict(&o, Err("not found".to_string()), &mut c).unwrap();
    assert_eq!(d.code, "refine.no-solver");
    assert_eq!(d.msg, "z3 failed: not found");
    assert_eq!(d.path.as_deref(), Some("T.f.body/0"));
    assert!(c.to_flush().is_none());
}

#[test]
fn a_solver_that_gives_up_is_a_budget_error() {
    let o = ob(false);
    let mut c = Cache::off();
    let d = verdict(&o, Ok("timeout".to_string()), &mut c).unwrap();
    assert_eq!(d.code, "refine.budget");
    assert_eq!(d.msg, "the solver gave up on: b may be zero");
    assert_eq!(
        d.fix.as_deref(),
        Some("raise --prove-timeout, or add a ghost function that makes the step explicit")
    );
}

#[test]
fn a_refutation_carries_the_counterexample_and_the_fix() {
    let o = ob(false);
    let mut c = Cache::off();
    let d = verdict(&o, Ok("sat\n((define-fun b () Int 0))".to_string()), &mut c).unwrap();
    assert_eq!(d.code, "div0");
    assert_eq!(d.witness.as_deref(), Some("b=0"));
    assert_eq!(d.fix.as_deref(), Some("T.f.sig += b != 0"));
}

#[test]
fn proved_means_unsat() {
    assert!(proved(&ob(false), Ok("unsat".to_string())));
    assert!(!proved(&ob(false), Ok("sat".to_string())));
    assert!(!proved(&ob(false), Err("no z3".to_string())));
}

#[test]
fn machine_integer_ranges() {
    assert_eq!(range("U8"), Some((0, Some(255))));
    assert_eq!(range("I64"), Some((-9223372036854775808, Some(9223372036854775807))));
    assert_eq!(range("Nat"), Some((0, None)));
    assert_eq!(range("F64"), None);
}

#[test]
fn sorts_of_types() {
    assert_eq!(sort_of("F32"), Sort::Real);
    assert_eq!(sort_of("Bool"), Sort::Bool);
    assert_eq!(sort_of("Vec"), Sort::Int);
    assert_eq!(scalar_sort("U16"), Some(Sort::Int));
    assert_eq!(scalar_sort("Str"), None);
    assert!(is_container("Slice") && !is_container("U8"));
    assert!(is_unsigned("Size") && !is_unsigned("I8"));
    assert_eq!(conv("size"), Some("U64"));
    assert_eq!(conv("f32"), Some("F64"));
    assert_eq!(conv("str"), None);
    assert!(is_checked("add_checked") && !is_checked("add"));
}

#[test]
fn smt_terms() {
    assert_eq!(int_lit(-3), "(- 3)");
    assert_eq!(int_lit(12), "12");
    assert_eq!(conj(vec!["a".to_string()]), "a");
    assert_eq!(conj(vec!["a".to_string(), "b".to_string()]), "(and a b)");
    assert_eq!(cast("x".to_string(), Sort::Int, Sort::Real), "(to_real x)");
    assert_eq!(cast("x".to_string(), Sort::Real, Sort::Int), "(to_int x)");
    assert_eq!(cast("x".to_string(), Sort::Int, Sort::Int), "x");
}

#[test]
fn only_whole_tokens_are_replaced() {
    assert_eq!(replace_sym("(+ n n_1 len_n) n", "n", "k"), "(+ k n_1 len_n) k");
    assert_eq!(replace_sym("ñn n", "n", "k"), "ñn k");
}

#[test]
fn a_held_certificate_is_not_asked_again() {
    let o = ob(false);
    let mut c = Cache::off();
    match discharge(&o, &c) {
        Discharge::Ask(t) => assert_eq!(t, smt(&o)),
        Discharge::Held => panic!("an empty cache holds nothing"),
    }
    assert!(verdict(&o, Ok("unsat".to_string()), &mut c).is_none());
    assert!(matches!(discharge(&o, &c), Discharge::Held));
    let other = Ob { goal: "(> b 1)".to_string(), ..ob(false) };
    assert!(matches!(discharge(&other, &c), Discharge::Ask(_)));
}

#[test]
fn a_run_plans_before_it_asks_the_solver() {
    let c = Cache::off();
    assert!(matches!(plan(&[], 0, Mode::Prove, &c), Plan::Quiet));
    assert!(matches!(plan(&[ob(false)], 0, Mode::Silent, &c), Plan::Quiet));
    match plan(&[], 2, Mode::Prove, &c) {
        Plan::Caveats(t) => assert!(t.starts_with("note: 2 obligation(s) could not be expressed"), "{t}"),
        _ => panic!("the caveats alone"),
    }
    match plan(&[ob(true), ob(false)], 0, Mode::Report, &c) {
        Plan::Open { caveats, note } => {
            assert!(caveats.contains("note: 1 obligation(s) are about F32/F64"), "{caveats}");
            assert_eq!(note, "note: 2 refinement obligation(s) not discharged; run with --prove");
        }
        _ => panic!("a check run leaves them open"),
    }
    assert!(matches!(plan(&[ob(false)], 0, Mode::Prove, &c), Plan::Prove(_)));
    let mut held = Cache::off();
    assert!(verdict(&ob(false), Ok("unsat".to_string()), &mut held).is_none());
    assert!(matches!(plan(&[ob(false)], 0, Mode::Prove, &held), Plan::Held(_)));
}

#[test]
fn a_missing_solver_is_reported_at_the_module() {
    let m = vibe::ast::Module { name: "T".to_string(), decls: vec![], span: Span::default() };
    let d = no_solver(&m);
    assert_eq!(d.code, "refine.no-solver");
    assert_eq!(d.msg, "--prove needs the `z3` binary on PATH");
    assert_eq!(d.path.as_deref(), Some("T"));
    assert_eq!(d.fix.as_deref(), Some("install z3, or drop --prove to leave obligations undischarged"));
}

#[test]
fn a_cache_file_reads_one_certificate_a_line() {
    assert_eq!(certificates("  zz\n\nyy  \nzz\n"), vec!["zz".to_string(), "yy".to_string()]);
    assert!(certificates("").is_empty());
}

#[test]
fn a_grown_cache_is_written_sorted_one_a_line() {
    let mut c = Cache::beside(".vibe-proofs".to_string(), "zz\nyy\n");
    assert!(c.flush().is_none(), "nothing added, nothing to write");
    let o = ob(false);
    assert!(verdict(&o, Ok("unsat".to_string()), &mut c).is_none());
    let mut want = vec!["zz".to_string(), "yy".to_string(), vibe::patch::hash(&smt(&o))];
    want.sort();
    assert_eq!(c.flush().unwrap(), (".vibe-proofs".to_string(), format!("{}\n", want.join("\n"))));
    assert_eq!(c.path().as_deref(), Some(".vibe-proofs"));
}
