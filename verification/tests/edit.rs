use vibe::edit::{patch_step, PatchError, PatchStep};
use vibe::patch::hash;

const LEDGER: &str = "mod Ledger\n\namt (t:Trade) : F64 = t.price * f64 t.qty\n\ntotal (ts:Vec Trade) : F64 = sum (map amt ts)\n";

fn args(xs: &[&str]) -> Vec<String> {
    xs.iter().map(|s| s.to_string()).collect()
}

fn step(rest: &[&str]) -> Result<PatchStep, PatchError> {
    let m = vibe::decl::parse(vibe::lexer::lex(LEDGER, 0).unwrap()).unwrap();
    patch_step(&m, LEDGER, 0, &args(rest))
}

#[test]
fn a_node_is_shown_with_its_hash() {
    match step(&["Ledger.amt.body"]) {
        Ok(PatchStep::Show { path, hash: h, text }) => {
            assert_eq!(path, "Ledger.amt.body");
            assert_eq!(text, "t.price * f64 t.qty");
            assert_eq!(h, hash("t.price * f64 t.qty"));
            assert_eq!(h.len(), 16);
        }
        _ => panic!("the node should be shown"),
    }
}

#[test]
fn a_path_is_needed_and_must_name_a_node() {
    assert!(matches!(step(&[]), Err(PatchError::NoPath)));
    match step(&["Ledger.nope"]) {
        Err(PatchError::NoNode(known)) => {
            assert!(known.contains(&"Ledger.amt.body".to_string()), "{known:?}");
            assert!(known.contains(&"Ledger.total".to_string()), "{known:?}");
        }
        _ => panic!("an unknown path is refused"),
    }
}

#[test]
fn a_hash_without_a_new_node_is_refused() {
    let h = hash("t.price * f64 t.qty");
    assert!(matches!(step(&["Ledger.amt.body", &h]), Err(PatchError::NeedBoth)));
}

#[test]
fn a_stale_hash_is_refused() {
    match step(&["Ledger.amt.body", "0", "t.price"]) {
        Err(PatchError::Stale { got, want }) => {
            assert_eq!(got, hash("t.price * f64 t.qty"));
            assert_eq!(want, "0");
        }
        _ => panic!("a stale hash is refused"),
    }
}

#[test]
fn a_fresh_hash_replaces_the_node() {
    let h = hash("t.price * f64 t.qty");
    match step(&["Ledger.amt.body", &h, "t.price * 2.0\n\n"]) {
        Ok(PatchStep::Write { text, path, hash: nh }) => {
            assert_eq!(
                text,
                "mod Ledger\n\namt (t:Trade) : F64 = t.price * 2.0\n\ntotal (ts:Vec Trade) : F64 = sum (map amt ts)\n"
            );
            assert_eq!(path, "Ledger.amt.body");
            assert_eq!(nh, hash("t.price * 2.0"));
        }
        _ => panic!("the patch should be written"),
    }
}

#[test]
fn a_patch_that_breaks_the_module_is_refused() {
    let h = hash("t.price * f64 t.qty");
    match step(&["Ledger.amt.body", &h, "t.price * (2.0"]) {
        Err(PatchError::Refused { diag, text }) => {
            assert!(text.contains("t.price * (2.0"), "{text}");
            assert_eq!(diag.span.file, 0);
        }
        _ => panic!("a patch that does not parse is refused"),
    }
}
