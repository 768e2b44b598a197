use vibe::deps::deps;

fn module(src: &str) -> vibe::ast::Module {
    vibe::decl::parse(vibe::lexer::lex(src, 0).unwrap()).unwrap()
}

const LEDGER: &str = "mod Ledger\n\namt (t:Trade) : F64 = t.price * f64 t.qty\n\ntotal (ts:Vec Trade) : F64 = sum (map amt ts)\n\ntop (ts:Vec Trade) : F64 = amt (head ts)\n\nmain : U64 = Money.vat 1\n";

#[test]
fn deps_reports_both_directions() {
    let out = deps(&module(LEDGER));
    assert!(out.contains("Ledger.total -> Ledger.amt"), "callees missing:\n{out}");
    assert!(out.contains("Ledger.amt <- Ledger.top Ledger.total"), "callers missing:\n{out}");
    assert!(out.contains("Ledger.main <- -"), "a root must say so:\n{out}");
}

#[test]
fn deps_lists_every_function_twice() {
    let out = deps(&module(LEDGER));
    assert_eq!(
        out,
        "Ledger.amt -> -\nLedger.total -> Ledger.amt\nLedger.top -> Ledger.amt\nLedger.main -> Money.vat\n\
         Ledger.amt <- Ledger.top Ledger.total\nLedger.total <- -\nLedger.top <- -\nLedger.main <- -\n"
    );
}

#[test]
fn a_callee_is_listed_once() {
    let out = deps(&module("mod M\n\nf (n:U64) : U64 = g (g n)\n\ng (n:U64) : U64 = n\n"));
    assert!(out.starts_with("M.f -> M.g\nM.g -> -\n"), "{out}");
    assert!(out.contains("M.g <- M.f\n"), "{out}");
}
