use vibe::diag::Span;
use vibe::own::{Mode, Moves};

fn at(line: usize, col: usize) -> Span {
    Span { line, col, ..Span::default() }
}

fn owners(xs: &[&str]) -> Vec<String> {
    xs.iter().map(|s| s.to_string()).collect()
}

#[test]
fn a_second_move_is_reported_with_the_first() {
    let mut m = Moves::new("M.f");
    let own = owners(&["x"]);
    m.use_var("x", at(1, 2), Mode::Own, &own, true);
    assert!(m.errors.is_empty());
    assert_eq!(m.moved.len(), 1);
    m.use_var("x", at(3, 4), Mode::Own, &own, true);
    assert_eq!(m.errors.len(), 1);
    let d = &m.errors[0];
    assert_eq!(d.code, "own.use_after_move");
    assert_eq!(d.msg, "`x` was already moved");
    assert_eq!(d.span, at(3, 4));
    assert_eq!(d.path.as_deref(), Some("M.f"));
    assert_eq!(d.witness.as_deref(), Some("first moved at line 1, column 3"));
    assert_eq!(d.fix.as_deref(), Some("borrow it here with `&x`, or copy it with `dup x`"));
}

#[test]
fn a_borrow_after_a_move_is_reported() {
    let mut m = Moves::new("M.f");
    let own = owners(&["x"]);
    m.use_var("x", at(1, 0), Mode::Borrow, &own, true);
    assert!(m.errors.is_empty() && m.moved.is_empty());
    m.use_var("x", at(1, 0), Mode::Own, &own, true);
    m.use_var("x", at(2, 0), Mode::Borrow, &own, true);
    assert_eq!(m.errors.len(), 1);
    assert_eq!(m.errors[0].code, "own.borrow_after_move");
    assert_eq!(m.errors[0].fix.as_deref(), Some("read `x` before the move, or copy it with `dup x`"));
}

#[test]
fn a_borrow_of_a_value_updated_in_place_is_reported() {
    let mut m = Moves::new("M.g");
    m.mutated.push(("r".to_string(), at(2, 4)));
    m.use_var("r", at(3, 1), Mode::Borrow, &owners(&["r"]), false);
    assert_eq!(m.errors.len(), 1);
    let d = &m.errors[0];
    assert_eq!(d.code, "own.use_after_update");
    assert_eq!(d.msg, "`r` was updated in place");
    assert_eq!(d.witness.as_deref(), Some("updated at line 2, column 5"));
    assert_eq!(d.fix.as_deref(), Some("read `r` before the update"));
}

#[test]
fn a_name_not_owned_here_is_left_alone() {
    let mut m = Moves::new("M.h");
    m.use_var("y", at(1, 0), Mode::Own, &owners(&["x"]), false);
    m.use_var("y", at(2, 0), Mode::Own, &owners(&["x"]), false);
    assert!(m.errors.is_empty() && m.moved.is_empty());
}

#[test]
fn the_fix_offers_dup_only_on_a_string() {
    let mut m = Moves::new("M.f");
    let own = owners(&["v"]);
    m.use_var("v", at(1, 2), Mode::Own, &own, false);
    m.use_var("v", at(2, 2), Mode::Own, &own, false);
    assert_eq!(m.errors.len(), 1);
    let fix = m.errors[0].fix.clone().unwrap();
    assert_eq!(m.errors[0].code, "own.use_after_move");
    assert!(fix.contains("borrow it here with `&v`"), "{fix}");
    assert!(!fix.contains("dup v"), "{fix}");
    m.use_var("v", at(3, 2), Mode::Borrow, &own, false);
    assert_eq!(m.errors[1].fix.as_deref(), Some("read `v` before the move"));
}
