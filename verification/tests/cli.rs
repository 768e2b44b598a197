use vibe::cli::{parse_args, parse_u64, proof_listing, USAGE};
use vibe::diag::{DiagFormat, Span};
use vibe::refine::{Ob, Sort};
use vibe::view::Mode;

fn args(xs: &[&str]) -> Vec<String> {
    xs.iter().map(|s| s.to_string()).collect()
}

#[test]
fn a_command_and_a_file() {
    let o = parse_args(&args(&["check", "a.vibe", "--diag=json", "--prove"])).unwrap();
    assert_eq!(o.cmd, "check");
    assert_eq!(o.file, "a.vibe");
    assert!(o.fmt == DiagFormat::Json);
    assert!(o.prove && !o.lib && !o.emit_c);
    assert!(o.rest.is_empty());
}

#[test]
fn everything_after_the_double_dash_goes_to_the_program() {
    let o = parse_args(&args(&["run", "a.vibe", "--", "-x", "--lib"])).unwrap();
    assert_eq!(o.prog_args, args(&["-x", "--lib"]));
    assert!(!o.lib);
}

#[test]
fn options_with_values() {
    let o = parse_args(&args(&["build", "-o", "out", "a.vibe", "--prove-timeout=9", "--flow"])).unwrap();
    assert_eq!(o.out.as_deref(), Some("out"));
    assert_eq!(o.budget, Some(9));
    assert!(o.view == Mode::Flow);
}

#[test]
fn bad_arguments_are_refused_with_a_reason() {
    assert_eq!(parse_args(&args(&["check"])).err().as_deref(), Some(USAGE));
    assert_eq!(parse_args(&args(&["-h"])).err().as_deref(), Some(USAGE));
    assert_eq!(parse_args(&args(&["build", "a.vibe", "-o"])).err().as_deref(), Some("-o needs a path"));
    assert_eq!(
        parse_args(&args(&["check", "a.vibe", "--diag=xml"])).err().as_deref(),
        Some("unknown diagnostic format `xml`")
    );
    assert_eq!(
        parse_args(&args(&["check", "a.vibe", "--wat"])).err().as_deref(),
        Some("unknown option `--wat`")
    );
    assert_eq!(
        parse_args(&args(&["check", "a.vibe", "--prove-timeout=soon"])).err().as_deref(),
        Some("`soon` is not a number of seconds")
    );
    assert_eq!(
        parse_args(&args(&["check", "a.vibe", "b.vibe"])).err().as_deref(),
        Some("`check` takes one file")
    );
    let o = parse_args(&args(&["patch", "a.vibe", "M.f.body", "0123", "x"])).unwrap();
    assert_eq!(o.rest, args(&["M.f.body", "0123", "x"]));
}

#[test]
fn numbers_read_as_std_reads_them() {
    assert_eq!(parse_u64("42"), Some(42));
    assert_eq!(parse_u64("+7"), Some(7));
    assert_eq!(parse_u64("18446744073709551615"), Some(u64::MAX));
    assert_eq!(parse_u64("18446744073709551616"), None);
    assert_eq!(parse_u64(""), None);
    assert_eq!(parse_u64("+"), None);
    assert_eq!(parse_u64("-1"), None);
    assert_eq!(parse_u64("1x"), None);
    for n in [0u64, 9, 10, 12345, u64::MAX] {
        assert_eq!(parse_u64(&n.to_string()), Some(n));
    }
}

#[test]
fn the_proof_listing_leaves_out_what_was_closed() {
    let ob = |p: &str| Ob {
        span: Span::default(),
        path: p.to_string(),
        code: "div0".to_string(),
        msg: "b may be zero".to_string(),
        fix: None,
        vars: vec![("b".to_string(), Sort::Int)],
        hyps: vec![],
        goal: "(not (= b 0))".to_string(),
        approx: false,
    };
    let obs = vec![ob("A.f.body/0"), ob("A.g.body/0")];
    assert_eq!(
        proof_listing(&obs, 0, &[true, false]),
        "A.g.body/0\tdiv0\tb may be zero\n"
    );
    assert_eq!(
        proof_listing(&obs, 1, &[]),
        "note: 1 obligation(s) could not be expressed in the solver's fragment and were not proved\nA.f.body/0\tdiv0\tb may be zero\nA.g.body/0\tdiv0\tb may be zero\n"
    );
}
