use vibe::diag::{json_escape, render, Diag, DiagFormat, Files, Span};
use vibe::cli::diags;

fn sample() -> (Files, Diag) {
    let mut files = Files::new();
    let id = files.add("m.vibe", "mod M\nf : U64 = x\n");
    let span = Span { file: id, line: 2, col: 10, len: 1 };
    let d = Diag::error(span, "name.unbound", "`x` is not bound")
        .with_witness("x")
        .with_fix("bind `x`");
    (files, d)
}

#[test]
fn prose_points_at_the_column() {
    let (files, d) = sample();
    assert_eq!(
        render(&d, &files, DiagFormat::Prose),
        "error[name.unbound]: `x` is not bound\n  --> m.vibe:2:11\n   |\n   | f : U64 = x\n   |           ^\n   = counterexample: x\n   = fix: bind `x`"
    );
}

#[test]
fn struct_form_leads_with_the_path() {
    let (files, d) = sample();
    let d = d.with_path("M.f.body");
    assert_eq!(
        render(&d, &files, DiagFormat::Struct),
        "\u{2717} M.f.body name.unbound \u{22a8} x\n  at: m.vibe:2:11\n  msg: `x` is not bound\n  fix: bind `x`"
    );
}

#[test]
fn json_is_one_object() {
    let (files, d) = sample();
    assert_eq!(
        render(&d, &files, DiagFormat::Json),
        "{\"path\":\"m.vibe:2:11\",\"code\":\"name.unbound\",\"msg\":\"`x` is not bound\",\"file\":\"m.vibe\",\"line\":2,\"col\":11,\"witness\":\"x\",\"fix\":\"bind `x`\"}"
    );
}

#[test]
fn json_escapes_quotes_and_controls() {
    assert_eq!(json_escape("a\"b\\c\nd\te\u{1}"), "a\\\"b\\\\c\\nd\\te\\u0001");
}

#[test]
fn a_path_set_inside_wins() {
    let d = Diag::error(Span::default(), "c", "m").with_path("Inner");
    assert_eq!(d.at_path("Outer").path.as_deref(), Some("Inner"));
    let d = Diag::error(Span::default(), "c", "m");
    assert_eq!(d.at_path("Outer").path.as_deref(), Some("Outer"));
}

#[test]
fn unknown_files_and_lines_are_tolerated() {
    let files = Files::new();
    let s = Span { file: 3, line: 9, col: 0, len: 0 };
    assert_eq!(files.name(s), "<input>");
    assert_eq!(files.line(s), "");
}

#[test]
fn diagnostics_in_json_form_an_array() {
    let (files, d) = sample();
    let one = render(&d, &files, DiagFormat::Json);
    let both = diags(&[d.clone(), d.clone()], &files, DiagFormat::Json);
    assert_eq!(both, format!("[{},{}]", one, one));
    let prose = diags(&[d.clone(), d], &files, DiagFormat::Prose);
    assert!(prose.contains("^\n   = counterexample: x\n   = fix: bind `x`\nerror[name.unbound]"));
}
