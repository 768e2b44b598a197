//! Refinement obligations and their SMT text.
//!
//! Every construct that could fail at run time becomes a proof obligation.
//! Obligations are turned into SMT-LIB 2 text (`smt`, a pure function, so it
//! is testable without a solver) and discharged by piping that text to a
//! solver; what the solver answers is read back here (`verdict`, `model`).

use vstd::prelude::*;
use vstd::string::StringSliceAdditionalSpecFns;
use vstd::string::StrSliceExecFns;
use crate::ast::{Expr, ExprKind, FunDecl, Pat, PatV, Ty, TyV, lemma_pats_view, pat_names_of, pats_view, tys_view, lemma_tys_view};
use crate::types::gap_from;
use crate::diag::{Diag, Span, opt_view};
use crate::patch::{fnv, hash, hex16};
use crate::text::{
    alphanumeric, ends_with, has_prefix, has_suffix, is_alphanumeric, occurs, occurs_at, starts_with, chars_of, decimal, find_pat, is_whitespace, is_ws, join, next_occ, owned, pieces_from, push_char,
    push_decimal, push_decimal_wide, push_joined, push_str, range_holds, ranges_hold, skip_ws,
    split_at_pattern, str_eq, string_of, string_of_range, strings_of, trim, trim_end, trim_end_index,
    trim_start, words, words_of, ws_prefix_len, lines, lines_of,
};

verus! {

#[derive(Clone, Copy, PartialEq, Eq, Debug, Structural)]
pub enum Sort {
    Int,
    Real,
    Bool,
}

/// The SMT-LIB name of a sort.
pub open spec fn sort_name(k: Sort) -> Seq<char> {
    match k {
        Sort::Int => "Int"@,
        Sort::Real => "Real"@,
        Sort::Bool => "Bool"@,
    }
}

impl Sort {
    pub fn smt(self) -> (r: &'static str)
        ensures
            r@ == sort_name(self),
    {
        match self {
            Sort::Int => "Int",
            Sort::Real => "Real",
            Sort::Bool => "Bool",
        }
    }
}

/// One proof obligation: prove `goal` under `hyps`, with `vars` free.
#[derive(Clone, Debug)]
pub struct Ob {
    pub span: Span,
    pub path: String,
    pub code: String,
    pub msg: String,
    pub fix: Option<String>,
    pub vars: Vec<(String, Sort)>,
    pub hyps: Vec<String>,
    pub goal: String,
    /// The goal mentions an `F32`/`F64` value, which reaches the solver as a
    /// mathematical `Real`: no rounding, no precision, no NaN. Proving it says
    /// something weaker than the program's arithmetic, so it is never reported
    /// as an exact proof.
    pub approx: bool,
}

/// `(declare-const n K)` for each free variable, one a line.
pub open spec fn declarations(vars: Seq<(String, Sort)>) -> Seq<char>
    decreases vars.len(),
{
    if vars.len() == 0 {
        Seq::empty()
    } else {
        declarations(vars.drop_last()) + "(declare-const "@ + vars.last().0@ + " "@ + sort_name(
            vars.last().1,
        ) + ")\n"@
    }
}

/// `(assert h)` for each hypothesis, one a line.
pub open spec fn assertions(hyps: Seq<String>) -> Seq<char>
    decreases hyps.len(),
{
    if hyps.len() == 0 {
        Seq::empty()
    } else {
        assertions(hyps.drop_last()) + "(assert "@ + hyps.last()@ + ")\n"@
    }
}

/// The SMT-LIB text of an obligation: the hypotheses and the negated goal,
/// then the question. `unsat` means proved; `sat` yields a counterexample.
pub open spec fn smt_text(o: Ob) -> Seq<char> {
    "(set-logic ALL)\n"@ + declarations(o.vars@) + assertions(o.hyps@) + "(assert (not "@ + o.goal@
        + "))\n(check-sat)\n(get-model)\n"@
}

pub fn smt(o: &Ob) -> (r: String)
    ensures
        r@ == smt_text(*o),
{
    let mut s = owned("(set-logic ALL)\n");
    for i in 0..o.vars.len()
        invariant
            s@ == "(set-logic ALL)\n"@ + declarations(o.vars@.take(i as int)),
    {
        let ghost before = s@;
        assert(o.vars@.take(i + 1).drop_last() == o.vars@.take(i as int));
        push_str(&mut s, "(declare-const ");
        push_str(&mut s, o.vars[i].0.as_str());
        push_str(&mut s, " ");
        push_str(&mut s, o.vars[i].1.smt());
        push_str(&mut s, ")\n");
        assert(s@ =~= "(set-logic ALL)\n"@ + declarations(o.vars@.take(i + 1)));
    }
    assert(o.vars@.take(o.vars@.len() as int) == o.vars@);
    let ghost head = s@;
    for i in 0..o.hyps.len()
        invariant
            s@ == head + assertions(o.hyps@.take(i as int)),
    {
        assert(o.hyps@.take(i + 1).drop_last() == o.hyps@.take(i as int));
        push_str(&mut s, "(assert ");
        push_str(&mut s, o.hyps[i].as_str());
        push_str(&mut s, ")\n");
        assert(s@ =~= head + assertions(o.hyps@.take(i + 1)));
    }
    assert(o.hyps@.take(o.hyps@.len() as int) == o.hyps@);
    push_str(&mut s, "(assert (not ");
    push_str(&mut s, o.goal.as_str());
    push_str(&mut s, "))\n(check-sat)\n(get-model)\n");
    assert(s@ =~= smt_text(*o));
    s
}

/// What to do with the obligations of a run.
#[derive(Clone, Copy, PartialEq, Eq, Structural)]
pub enum Mode {
    /// discharge them with the solver; an open obligation is an error
    Prove,
    /// leave them, and say once how many are open (`vibe check`)
    Report,
    /// leave them silently (`vibe build`/`run`, whose output belongs to the program)
    Silent,
}

/// How many of the obligations are about floats.
pub open spec fn approx_count(obs: Seq<Ob>) -> nat
    decreases obs.len(),
{
    if obs.len() == 0 {
        0
    } else {
        approx_count(obs.drop_last()) + if obs.last().approx { 1nat } else { 0nat }
    }
}

/// The notes `caveats` prints.
pub open spec fn caveats_text(obs: Seq<Ob>, skipped: nat) -> Seq<char> {
    (if skipped > 0 {
        "note: "@ + decimal(skipped)
            + " obligation(s) could not be expressed in the solver's fragment and were not proved\n"@
    } else {
        Seq::empty()
    }) + (if approx_count(obs) > 0 {
        "note: "@ + decimal(approx_count(obs))
            + " obligation(s) are about F32/F64 and are approximated as mathematical reals, not machine floats\n"@
    } else {
        Seq::empty()
    })
}

/// What a run of `--prove` cannot claim: obligations the fragment could not
/// phrase and obligations about floats. Empty when there are none, so a
/// caller can append it unconditionally.
pub fn caveats(obs: &[Ob], skipped: usize) -> (r: String)
    ensures
        r@ == caveats_text(obs@, skipped as nat),
{
    let mut s = String::new();
    if skipped > 0 {
        push_str(&mut s, "note: ");
        push_decimal(&mut s, skipped as u64);
        push_str(
            &mut s,
            " obligation(s) could not be expressed in the solver's fragment and were not proved\n",
        );
    }
    let mut approx: usize = 0;
    for i in 0..obs.len()
        invariant
            approx == approx_count(obs@.take(i as int)),
            approx <= i,
    {
        assert(obs@.take(i + 1).drop_last() == obs@.take(i as int));
        if obs[i].approx {
            approx += 1;
        }
    }
    assert(obs@.take(obs@.len() as int) == obs@);
    if approx > 0 {
        push_str(&mut s, "note: ");
        push_decimal(&mut s, approx as u64);
        push_str(
            &mut s,
            " obligation(s) are about F32/F64 and are approximated as mathematical reals, not machine floats\n",
        );
    }
    assert(s@ =~= caveats_text(obs@, skipped as nat));
    s
}

/// The note a `vibe check` run prints about the obligations it left open.
pub open spec fn open_note_text(n: nat) -> Seq<char> {
    "note: "@ + decimal(n) + " refinement obligation(s) not discharged; run with --prove"@
}

pub fn open_note(n: usize) -> (r: String)
    ensures
        r@ == open_note_text(n as nat),
{
    let mut s = owned("note: ");
    push_decimal(&mut s, n as u64);
    push_str(&mut s, " refinement obligation(s) not discharged; run with --prove");
    s
}

/// The per-obligation solver budget a requested number of seconds gives: at
/// least one second.
pub fn set_budget(secs: u64) -> (r: u64)
    ensures
        r == if secs < 1 { 1 } else { secs },
{
    if secs < 1 {
        1
    } else {
        secs
    }
}

// ------------------------------------------------------------------ cache

/// The key an obligation is cached under: the hash of its SMT text. The text
/// is the whole question (hypotheses, goal, sorts), so a hit means the same
/// question was already answered `unsat`.
pub open spec fn cache_key(o: Ob) -> Seq<char> {
    hex16(fnv(vstd::utf8::encode_utf8(smt_text(o))))
}

/// The certificates once `key` is recorded: a certificate already held is
/// not held twice.
pub open spec fn with_proof(entries: Seq<Seq<char>>, key: Seq<char>) -> Seq<Seq<char>> {
    if entries.contains(key) {
        entries
    } else {
        entries.push(key)
    }
}

/// A recorded proof is remembered, every certificate held before is still
/// held, and recording the same proof again changes nothing.
pub proof fn lemma_proof_remembered(entries: Seq<Seq<char>>, key: Seq<char>)
    ensures
        with_proof(entries, key).contains(key),
        forall|x: Seq<char>| entries.contains(x) ==> #[trigger] with_proof(entries, key).contains(x),
        with_proof(with_proof(entries, key), key) == with_proof(entries, key),
{
    if !entries.contains(key) {
        assert(entries.push(key)[entries.len() as int] == key);
        assert forall|x: Seq<char>| entries.contains(x) implies #[trigger] with_proof(entries, key).contains(x) by {
            let j = choose|j: int| 0 <= j < entries.len() && entries[j] == x;
            assert(entries.push(key)[j] == x);
        }
    }
}

/// Whether a certificate for `o` is held: the question it asks was already
/// answered `unsat`.
pub open spec fn remembers(entries: Seq<Seq<char>>, o: Ob) -> bool {
    entries.contains(cache_key(o))
}

/// Once the solver has answered `unsat` to an obligation, the cache hits it:
/// the same question is never asked twice.
pub proof fn lemma_unsat_then_hit(entries: Seq<Seq<char>>, o: Ob)
    ensures
        remembers(with_proof(entries, cache_key(o)), o),
{
    lemma_proof_remembered(entries, cache_key(o));
}

/// Proof certificates, keyed by the hash of the SMT text.
///
/// Only proofs are kept. A failure may be a timeout, or a program that has
/// since changed around it, and re-asking costs one solver call.
pub struct Cache {
    /// where the certificates are kept, if anywhere
    path: Option<String>,
    proved: Vec<String>,
    added: bool,
}

impl Cache {
    /// The certificates the cache holds.
    pub closed spec fn entries(&self) -> Seq<Seq<char>> {
        self.proved@.map_values(|s: String| s@)
    }

    /// Where the certificates are kept, if anywhere.
    pub closed spec fn place(&self) -> Option<String> {
        self.path
    }

    pub fn path(&self) -> (r: &Option<String>)
        ensures
            *r == self.place(),
    {
        &self.path
    }

    /// Whether a certificate was added since the cache was made.
    pub closed spec fn grown(&self) -> bool {
        self.added
    }

    /// A cache that remembers nothing and is kept nowhere.
    pub fn off() -> (c: Cache)
        ensures
            c.entries() == Seq::<Seq<char>>::empty(),
            c.place() is None,
            !c.grown(),
    {
        let c = Cache { path: None, proved: Vec::new(), added: false };
        assert(c.entries() =~= Seq::<Seq<char>>::empty());
        c
    }

    /// A cache holding the certificates read from `path`: one per non-blank
    /// line, trimmed.
    pub fn with_entries(path: Option<String>, entries: Vec<String>) -> (c: Cache)
        ensures
            c.entries() == entries@.map_values(|s: String| s@),
            c.place() == path,
            !c.grown(),
    {
        Cache { path, proved: entries, added: false }
    }

    /// Whether `key` is a certificate this cache holds.
    pub fn has(&self, key: &str) -> (r: bool)
        ensures
            r == self.entries().contains(key@),
    {
        for i in 0..self.proved.len()
            invariant
                forall|j: int| 0 <= j < i ==> self.proved@[j]@ != key@,
        {
            if str_eq(self.proved[i].as_str(), key) {
                assert(self.entries()[i as int] == key@);
                return true;
            }
        }
        assert forall|j: int| 0 <= j < self.entries().len() implies self.entries()[j] != key@ by {
            assert(self.entries()[j] == self.proved@[j]@);
        }
        false
    }

    /// Whether this obligation was already proved, by this cache or an earlier
    /// run.
    pub fn hit(&self, o: &Ob) -> (r: bool)
        ensures
            r == self.entries().contains(cache_key(*o)),
    {
        let text = smt(o);
        let key = hash(text.as_str());
        self.has(key.as_str())
    }

    /// Records a proof; a certificate already held is not held twice.
    pub fn record(&mut self, key: String)
        ensures
            final(self).place() == old(self).place(),
            final(self).entries() == with_proof(old(self).entries(), key@),
            old(self).entries().contains(key@) ==> final(self).grown() == old(self).grown(),
            !old(self).entries().contains(key@) ==> final(self).grown(),
    {
        if self.has(key.as_str()) {
            return;
        }
        let ghost before = self.entries();
        self.proved.push(key);
        self.added = true;
        assert(self.entries() =~= before.push(key@));
    }

    /// The certificates, for writing back; `None` when nothing was added, so
    /// nothing needs writing.
    pub fn to_flush(&self) -> (r: Option<Vec<String>>)
        ensures
            !self.grown() ==> r is None,
            self.grown() ==> (r matches Some(v) && v@.map_values(|s: String| s@) == self.entries()),
    {
        if !self.added {
            return None;
        }
        let mut v: Vec<String> = Vec::new();
        for i in 0..self.proved.len()
            invariant
                v@.len() == i,
                v@.map_values(|s: String| s@) == self.entries().take(i as int),
        {
            let ghost before = v@.map_values(|s: String| s@);
            let e = self.proved[i].clone();
            assert(e@ == self.entries()[i as int]);
            v.push(e);
            assert(v@.map_values(|s: String| s@) =~= self.entries().take(i + 1));
        }
        assert(self.entries().take(self.entries().len() as int) == self.entries());
        Some(v)
    }
}


/// The certificates a cache file holds: each line trimmed, blank lines
/// dropped, a certificate written twice held once.
pub open spec fn cert_lines(ls: Seq<Seq<char>>) -> Seq<Seq<char>>
    decreases ls.len(),
{
    if ls.len() == 0 {
        Seq::empty()
    } else {
        let r = cert_lines(ls.drop_last());
        let t = trim(ls.last());
        if t.len() > 0 && !r.contains(t) {
            r.push(t)
        } else {
            r
        }
    }
}

/// The text a cache file is written as: its certificates in text order, one
/// a line, each line ended.
pub open spec fn cache_text(entries: Seq<Seq<char>>) -> Seq<char> {
    join(entries.sort_by(crate::total::text_order()), "\n"@) + "\n"@
}

fn trimmed_string(s: &str) -> (r: String)
    ensures
        r@ == trim(s@),
{
    let cs = chars_of(s);
    let n = cs.len();
    let a = skip_ws(cs.as_slice(), 0, n);
    let b = trim_end_index(cs.as_slice(), a, n);
    proof {
        assert(cs@.subrange(0, n as int) =~= s@);
        assert(cs@.subrange(a as int, n as int) =~= s@.skip(a as int));
    }
    string_of_range(cs.as_slice(), a, b)
}

/// The certificates in the text of a cache file.
pub fn certificates(text: &str) -> (r: Vec<String>)
    ensures
        r@.map_values(|s: String| s@) == cert_lines(lines(text@)),
{
    let ls = lines_of(text);
    let ghost lv = ls@.map_values(|l: String| l@);
    let mut out: Vec<String> = Vec::new();
    assert(lv.take(0) =~= Seq::<Seq<char>>::empty());
    for i in 0..ls.len()
        invariant
            lv == ls@.map_values(|l: String| l@),
            out@.map_values(|s: String| s@) == cert_lines(lv.take(i as int)),
    {
        assert(lv.take(i + 1).drop_last() =~= lv.take(i as int));
        assert(lv.take(i + 1).last() == ls@[i as int]@);
        let t = trimmed_string(ls[i].as_str());
        let mut seen = false;
        let ghost ov = out@.map_values(|s: String| s@);
        for j in 0..out.len()
            invariant
                ov == out@.map_values(|s: String| s@),
                seen == exists|q: int| 0 <= q < j && ov[q] == t@,
        {
            assert(ov[j as int] == out@[j as int]@);
            if str_eq(out[j].as_str(), t.as_str()) {
                seen = true;
            }
            assert(seen == exists|q: int| 0 <= q < j + 1 && ov[q] == t@) by {
                if exists|q: int| 0 <= q < j + 1 && ov[q] == t@ {
                    let q = choose|q: int| 0 <= q < j + 1 && ov[q] == t@;
                    if q < j {
                        assert(exists|q2: int| 0 <= q2 < j && ov[q2] == t@);
                    }
                }
            }
        }
        proof {
            if ov.contains(t@) {
                let q = choose|q: int| 0 <= q < ov.len() && ov[q] == t@;
                assert(0 <= q < out@.len());
            }
        }
        if t.as_str().unicode_len() > 0 && !seen {
            let ghost tv = t@;
            out.push(t);
            assert(out@.map_values(|s: String| s@) =~= ov.push(tv));
        }
    }
    assert(lv.take(ls@.len() as int) =~= lv);
    out
}

impl Cache {
    /// The cache kept at `path`, whose file holds `text` (empty when there
    /// is no file yet): one certificate a line, trimmed, blank lines dropped.
    pub fn beside(path: String, text: &str) -> (c: Cache)
        ensures
            c.entries() == cert_lines(lines(text@)),
            c.place() == Some(path),
            !c.grown(),
    {
        let entries = certificates(text);
        Cache { path: Some(path), proved: entries, added: false }
    }

    /// The file to write back and what to write there: every certificate,
    /// sorted, one a line. `None` when no certificate was added since the
    /// cache was read, or the cache has no file, so nothing needs writing.
    pub fn flush(&self) -> (r: Option<(String, String)>)
        ensures
            !(self.grown() && self.place() is Some) ==> r is None,
            self.grown() && self.place() is Some ==> (r matches Some(w) && w.0 == self.place().unwrap() && w.1@
                == cache_text(self.entries())),
    {
        let p = match &self.path {
            Some(p) => p.clone(),
            None => {
                return None;
            },
        };
        match self.to_flush() {
            None => None,
            Some(v) => {
                let sorted = crate::total::sort_texts(v);
                let mut t = String::new();
                push_joined(&mut t, sorted.as_slice(), "\n");
                push_str(&mut t, "\n");
                Some((p, t))
            },
        }
    }
}


// ------------------------------------------------------------ verdicts

/// The answer a solver gives when the obligation holds: its output begins
/// with `unsat`.
pub open spec fn answered_unsat(answer: Result<String, String>) -> bool {
    answer matches Ok(out) && has_prefix(out@, "unsat"@)
}

/// The solver gave up rather than answering.
pub open spec fn gave_up(out: Seq<char>) -> bool {
    has_prefix(out, "unknown"@) || has_prefix(out, "timeout"@)
}

/// The repair suggested when the solver runs out of budget.
pub open spec fn budget_fix() -> Seq<char> {
    "raise --prove-timeout, or add a ghost function that makes the step explicit"@
}

/// What the solver's `answer` to `smt(o)` means for the obligation: `None`
/// when it is proved (the proof is then recorded in `cache`), else the
/// diagnostic to report. `answer` is the solver's trimmed output, or why the
/// solver could not be run.
pub fn verdict(o: &Ob, answer: Result<String, String>, cache: &mut Cache) -> (r: Option<Diag>)
    ensures
        final(cache).place() == old(cache).place(),
        answered_unsat(answer) ==> r is None && final(cache).entries() == with_proof(
            old(cache).entries(),
            cache_key(*o),
        ) && (old(cache).entries().contains(cache_key(*o)) ==> final(cache).grown() == old(
            cache,
        ).grown()) && (!old(cache).entries().contains(cache_key(*o)) ==> final(cache).grown()),
        !answered_unsat(answer) ==> final(cache).entries() == old(cache).entries()
            && final(cache).grown() == old(cache).grown(),
        match answer {
            Err(e) => r matches Some(d) && d.span == o.span && d.code@ == "refine.no-solver"@
                && d.msg@ == "z3 failed: "@ + e@ && opt_view(d.path) == Some(o.path@)
                && d.witness is None && d.fix is None,
            Ok(out) => if has_prefix(out@, "unsat"@) {
                true
            } else if gave_up(out@) {
                r matches Some(d) && d.span == o.span && d.code@ == "refine.budget"@ && d.msg@
                    == "the solver gave up on: "@ + o.msg@ && opt_view(d.path) == Some(o.path@)
                    && d.witness is None && opt_view(d.fix) == Some(budget_fix())
            } else {
                r matches Some(d) && d.span == o.span && d.code@ == o.code@ && d.msg@ == o.msg@
                    && opt_view(d.path) == Some(o.path@) && opt_view(d.witness) == model_text(out@)
                    && opt_view(d.fix) == opt_view(o.fix)
            },
        },
{
    proof {
        reveal_strlit("unsat");
        reveal_strlit("unknown");
        reveal_strlit("timeout");
    }
    match answer {
        Err(e) => {
            let mut msg = owned("z3 failed: ");
            push_str(&mut msg, e.as_str());
            Some(Diag::error(o.span, "refine.no-solver", msg.as_str()).with_path(o.path.as_str()))
        },
        Ok(out) => {
            if starts_with(out.as_str(), "unsat") {
                let text = smt(o);
                let key = hash(text.as_str());
                cache.record(key);
                return None;
            }
            if starts_with(out.as_str(), "unknown") || starts_with(out.as_str(), "timeout") {
                let mut msg = owned("the solver gave up on: ");
                push_str(&mut msg, o.msg.as_str());
                return Some(
                    Diag::error(o.span, "refine.budget", msg.as_str()).with_path(
                        o.path.as_str(),
                    ).with_fix(
                        "raise --prove-timeout, or add a ghost function that makes the step explicit",
                    ),
                );
            }
            let mut d = Diag::error(o.span, o.code.as_str(), o.msg.as_str()).with_path(
                o.path.as_str(),
            );
            match model(out.as_str()) {
                Some(w) => {
                    d = d.with_witness(w.as_str());
                },
                None => {},
            }
            match &o.fix {
                Some(f) => {
                    d = d.with_fix(f.as_str());
                },
                None => {},
            }
            Some(d)
        },
    }
}

/// The first step of discharging an obligation: what to do before any
/// solver runs.
pub enum Discharge {
    /// A certificate for the very question is held: the obligation is
    /// proved, and the solver is not asked.
    Held,
    /// The solver must be asked this SMT text; its answer goes to `verdict`.
    Ask(String),
}

/// Decides whether the solver must be asked about `o`: not when `cache`
/// already holds the certificate for its SMT text, which then proves it;
/// else the text to ask. The cache is left as it is.
pub fn discharge(o: &Ob, cache: &Cache) -> (r: Discharge)
    ensures
        r is Held <==> cache.entries().contains(cache_key(*o)),
        r matches Discharge::Ask(t) ==> t@ == smt_text(*o),
{
    let text = smt(o);
    let key = hash(text.as_str());
    if cache.has(key.as_str()) {
        Discharge::Held
    } else {
        Discharge::Ask(text)
    }
}

/// What a run does with its obligations `obs` (and the `skipped` ones the
/// solver's fragment could not phrase), decided before any solver runs.
pub enum Plan {
    /// Nothing to say and nothing to prove.
    Quiet,
    /// Print the caveats; nothing is left to prove.
    Caveats(String),
    /// Print the caveats, then the note that the obligations stay open.
    Open { caveats: String, note: String },
    /// Print the caveats; every obligation is proved by a certificate held,
    /// so no solver is needed.
    Held(String),
    /// Print the caveats; the solver is needed: each obligation goes through
    /// `discharge`, then `verdict` on the solver's answer.
    Prove(String),
}

/// Every obligation's certificate is held.
pub open spec fn all_held(entries: Seq<Seq<char>>, obs: Seq<Ob>) -> bool {
    forall|i: int| 0 <= i < obs.len() ==> entries.contains(cache_key(#[trigger] obs[i]))
}

/// Decides what a run does with its obligations: nothing when it is silent
/// or has none; otherwise the caveats are printed, and then, when there are
/// obligations, a `vibe check` run notes how many stay open, and a proving
/// run needs the solver unless the cache holds every certificate.
pub fn plan(obs: &[Ob], skipped: usize, mode: Mode, cache: &Cache) -> (r: Plan)
    ensures
        (mode == Mode::Silent || (obs@.len() == 0 && skipped == 0)) ==> r is Quiet,
        !(mode == Mode::Silent || (obs@.len() == 0 && skipped == 0)) ==> {
            let c = caveats_text(obs@, skipped as nat);
            if obs@.len() == 0 {
                r matches Plan::Caveats(t) && t@ == c
            } else if mode == Mode::Report {
                r matches Plan::Open { caveats, note } && caveats@ == c && note@ == open_note_text(
                    obs@.len() as nat,
                )
            } else if all_held(cache.entries(), obs@) {
                r matches Plan::Held(t) && t@ == c
            } else {
                r matches Plan::Prove(t) && t@ == c
            }
        },
{
    if mode == Mode::Silent || (obs.len() == 0 && skipped == 0) {
        return Plan::Quiet;
    }
    let c = caveats(obs, skipped);
    if obs.len() == 0 {
        return Plan::Caveats(c);
    }
    if mode == Mode::Report {
        return Plan::Open { caveats: c, note: open_note(obs.len()) };
    }
    for i in 0..obs.len()
        invariant
            mode != Mode::Silent && mode != Mode::Report,
            obs@.len() > 0,
            c@ == caveats_text(obs@, skipped as nat),
            forall|j: int| 0 <= j < i ==> cache.entries().contains(cache_key(#[trigger] obs@[j])),
    {
        if !cache.hit(&obs[i]) {
            return Plan::Prove(c);
        }
    }
    Plan::Held(c)
}

/// The error of a proving run that needs the solver and finds none.
pub fn no_solver(m: &crate::ast::Module) -> (d: Diag)
    ensures
        d.span == m.span,
        d.code@ == "refine.no-solver"@,
        d.msg@ == "--prove needs the `z3` binary on PATH"@,
        opt_view(d.path) == Some(m.name@),
        d.witness is None,
        opt_view(d.fix) == Some("install z3, or drop --prove to leave obligations undischarged"@),
{
    Diag::error(m.span, "refine.no-solver", "--prove needs the `z3` binary on PATH").with_path(
        m.name.as_str(),
    ).with_fix("install z3, or drop --prove to leave obligations undischarged")
}

/// Whether the solver's `answer` closes the obligation on its own, with no
/// certificate to lean on. A solver that could not be run counts as "not
/// proved", never as an error.
pub fn proved(o: &Ob, answer: Result<String, String>) -> (r: bool)
    ensures
        r == answered_unsat(answer),
{
    let mut c = Cache::off();
    verdict(o, answer, &mut c).is_none()
}

// ------------------------------------------------------------ types in SMT

/// The name at the head of a type, looking through `&` and `E!`.
pub open spec fn base_name_of(t: TyV) -> Option<Seq<char>>
    decreases t,
{
    match t {
        TyV::Con(n, _) => Some(n),
        TyV::Ref(i) => base_name_of(*i),
        TyV::Eff(i) => base_name_of(*i),
        _ => None,
    }
}

pub fn base_name(t: &Ty) -> (r: Option<String>)
    ensures
        opt_view(r) == base_name_of(t@),
    decreases t,
{
    match t {
        Ty::Con(n, _) => Some(n.clone()),
        Ty::Ref(i) => base_name(i),
        Ty::Eff(i) => base_name(i),
        _ => None,
    }
}

/// A name, or the empty name where there is none.
pub open spec fn or_empty(o: Option<Seq<char>>) -> Seq<char> {
    match o {
        Some(n) => n,
        None => Seq::empty(),
    }
}

/// The base names of a type's arguments, positionally: `Res Str Tx` gives
/// `Str`, `Tx`. An argument with no single head keeps an empty name, so the
/// positions still line up with the type's parameters. One level deep.
pub open spec fn ty_args_of(t: TyV) -> Seq<Seq<char>>
    decreases t,
{
    match t {
        TyV::Con(_, args) => args.map_values(|a: TyV| or_empty(base_name_of(a))),
        TyV::Ref(i) => ty_args_of(*i),
        TyV::Eff(i) => ty_args_of(*i),
        _ => Seq::empty(),
    }
}

fn name_or_empty(o: Option<String>) -> (r: String)
    ensures
        r@ == or_empty(opt_view(o)),
{
    match o {
        Some(n) => n,
        None => String::new(),
    }
}

pub fn ty_args(t: &Ty) -> (r: Vec<String>)
    ensures
        r@.map_values(|s: String| s@) == ty_args_of(t@),
    decreases t,
{
    match t {
        Ty::Con(_, args) => {
            let mut out: Vec<String> = Vec::new();
            proof {
                lemma_tys_view(args@);
            }
            for i in 0..args.len()
                invariant
                    tys_view(args@).len() == args@.len(),
                    out@.len() == i,
                    forall|j: int| 0 <= j < args@.len() ==> #[trigger] tys_view(args@)[j] == args@[j]@,
                    out@.map_values(|s: String| s@) == tys_view(args@).take(i as int).map_values(
                        |a: TyV| or_empty(base_name_of(a)),
                    ),
            {
                let ghost before = out@.map_values(|s: String| s@);
                let b = name_or_empty(base_name(&args[i]));
                assert(b@ == or_empty(base_name_of(tys_view(args@)[i as int])));
                let ghost prev = out@;
                out.push(b);
                let ghost tv = tys_view(args@);
                let ghost ov = out@.map_values(|s: String| s@);
                let ghost want = tv.take(i + 1).map_values(|a: TyV| or_empty(base_name_of(a)));
                let ghost had = tv.take(i as int).map_values(|a: TyV| or_empty(base_name_of(a)));
                assert forall|j: int| 0 <= j < i + 1 implies ov[j] == want[j] by {
                    if j < i {
                        assert(out@[j] == prev[j]);
                        assert(prev.map_values(|s: String| s@)[j] == had[j]);
                    }
                }
                assert(ov =~= want);
            }
            assert(tys_view(args@).take(args@.len() as int) == tys_view(args@));
            out
        },
        Ty::Ref(i) => ty_args(i),
        Ty::Eff(i) => ty_args(i),
        _ => {
            let out: Vec<String> = Vec::new();
            assert(out@.map_values(|s: String| s@) =~= Seq::<Seq<char>>::empty());
            out
        },
    }
}

/// Where `n` first stands in `ps`.
pub open spec fn position(ps: Seq<Seq<char>>, n: Seq<char>) -> Option<int>
    decreases ps.len(),
{
    if ps.len() == 0 {
        None
    } else {
        match position(ps.drop_last(), n) {
            Some(i) => Some(i),
            None => if ps.last() == n {
                Some(ps.len() - 1)
            } else {
                None
            },
        }
    }
}

/// A payload type with the scrutinee's type arguments in place of the ADT's
/// type parameters: the `t` of `Ok t` is `Tx` when the scrutinee is a
/// `Res Str Tx`. A type variable with no (non-empty) argument has no name.
pub open spec fn inst_of(t: TyV, params: Seq<Seq<char>>, args: Seq<Seq<char>>) -> Option<Seq<char>> {
    match t {
        TyV::Var(n) => match position(params, n) {
            Some(i) => if i < args.len() && args[i].len() > 0 {
                Some(args[i])
            } else {
                None
            },
            None => None,
        },
        _ => base_name_of(t),
    }
}

fn position_of(ps: &[String], n: &str) -> (r: Option<usize>)
    ensures
        match r {
            Some(i) => position(ps@.map_values(|p: String| p@), n@) == Some(i as int),
            None => position(ps@.map_values(|p: String| p@), n@) is None,
        },
{
    let ghost pv = ps@.map_values(|p: String| p@);
    for i in 0..ps.len()
        invariant
            pv == ps@.map_values(|p: String| p@),
            position(pv.take(i as int), n@) is None,
    {
        assert(pv.take(i + 1).drop_last() == pv.take(i as int));
        if str_eq(ps[i].as_str(), n) {
            assert(position(pv.take(i + 1), n@) == Some(i as int));
            proof {
                lemma_position_prefix(pv, n@, i + 1);
            }
            return Some(i);
        }
    }
    assert(pv.take(ps@.len() as int) == pv);
    None
}

proof fn lemma_position_prefix(ps: Seq<Seq<char>>, n: Seq<char>, k: int)
    requires
        0 <= k <= ps.len(),
        position(ps.take(k), n) is Some,
    ensures
        position(ps, n) == position(ps.take(k), n),
    decreases ps.len() - k,
{
    if k < ps.len() {
        assert(ps.take(k + 1).drop_last() == ps.take(k));
        lemma_position_prefix(ps, n, k + 1);
    } else {
        assert(ps.take(k) == ps);
    }
}

pub fn inst(t: &Ty, params: &[String], args: &[String]) -> (r: Option<String>)
    ensures
        opt_view(r) == inst_of(t@, params@.map_values(|p: String| p@), args@.map_values(
            |a: String| a@,
        )),
{
    match t {
        Ty::Var(n) => match position_of(params, n.as_str()) {
            Some(i) => {
                if i < args.len() && !args[i].as_str().is_empty() {
                    Some(args[i].clone())
                } else {
                    None
                }
            },
            None => None,
        },
        _ => base_name(t),
    }
}

/// The same substitution, for the payload type's own arguments: `Vec t`
/// inside `Res e t` gives `Tx`.
pub open spec fn inst_args_of(t: TyV, params: Seq<Seq<char>>, args: Seq<Seq<char>>) -> Seq<
    Seq<char>,
>
    decreases t,
{
    match t {
        TyV::Con(_, xs) => xs.map_values(|x: TyV| or_empty(inst_of(x, params, args))),
        TyV::Ref(i) => inst_args_of(*i, params, args),
        TyV::Eff(i) => inst_args_of(*i, params, args),
        _ => Seq::empty(),
    }
}

pub fn inst_args(t: &Ty, params: &[String], args: &[String]) -> (r: Vec<String>)
    ensures
        r@.map_values(|s: String| s@) == inst_args_of(t@, params@.map_values(|p: String| p@),
            args@.map_values(|a: String| a@)),
    decreases t,
{
    let ghost pv = params@.map_values(|p: String| p@);
    let ghost av = args@.map_values(|a: String| a@);
    match t {
        Ty::Con(_, xs) => {
            let mut out: Vec<String> = Vec::new();
            proof {
                lemma_tys_view(xs@);
            }
            for i in 0..xs.len()
                invariant
                    pv == params@.map_values(|p: String| p@),
                    av == args@.map_values(|a: String| a@),
                    tys_view(xs@).len() == xs@.len(),
                    out@.len() == i,
                    forall|j: int| 0 <= j < xs@.len() ==> #[trigger] tys_view(xs@)[j] == xs@[j]@,
                    out@.map_values(|s: String| s@) == tys_view(xs@).take(i as int).map_values(
                        |x: TyV| or_empty(inst_of(x, pv, av)),
                    ),
            {
                let b = name_or_empty(inst(&xs[i], params, args));
                assert(b@ == or_empty(inst_of(tys_view(xs@)[i as int], pv, av)));
                let ghost prev = out@;
                out.push(b);
                let ghost tv = tys_view(xs@);
                let ghost ov = out@.map_values(|s: String| s@);
                let ghost want = tv.take(i + 1).map_values(|x: TyV| or_empty(inst_of(x, pv, av)));
                let ghost had = tv.take(i as int).map_values(|x: TyV| or_empty(inst_of(x, pv, av)));
                assert forall|j: int| 0 <= j < i + 1 implies ov[j] == want[j] by {
                    if j < i {
                        assert(out@[j] == prev[j]);
                        assert(prev.map_values(|s: String| s@)[j] == had[j]);
                    }
                }
                assert(ov =~= want);
            }
            assert(tys_view(xs@).take(xs@.len() as int) == tys_view(xs@));
            out
        },
        Ty::Ref(i) => inst_args(i, params, args),
        Ty::Eff(i) => inst_args(i, params, args),
        _ => {
            let out: Vec<String> = Vec::new();
            assert(out@.map_values(|s: String| s@) =~= Seq::<Seq<char>>::empty());
            out
        },
    }
}

/// The sort a type's values have in the solver.
pub open spec fn sort_for(ty: Seq<char>) -> Sort {
    if ty == "F32"@ || ty == "F64"@ {
        Sort::Real
    } else if ty == "Bool"@ {
        Sort::Bool
    } else {
        Sort::Int
    }
}

pub fn sort_of(ty: &str) -> (r: Sort)
    ensures
        r == sort_for(ty@),
{
    if str_eq(ty, "F32") || str_eq(ty, "F64") {
        Sort::Real
    } else if str_eq(ty, "Bool") {
        Sort::Bool
    } else {
        Sort::Int
    }
}

/// `(min, max)` of the machine integer types. `Nat` is mathematical, so it
/// has a floor but no ceiling.
pub open spec fn int_range(ty: Seq<char>) -> Option<(int, Option<int>)> {
    if ty == "Nat"@ {
        Some((0, None))
    } else if ty == "U8"@ {
        Some((0, Some(0xff)))
    } else if ty == "U16"@ {
        Some((0, Some(0xffff)))
    } else if ty == "U32"@ {
        Some((0, Some(0xffff_ffff)))
    } else if ty == "U64"@ || ty == "Size"@ {
        Some((0, Some(0xffff_ffff_ffff_ffff)))
    } else if ty == "I8"@ {
        Some((-0x80, Some(0x7f)))
    } else if ty == "I16"@ {
        Some((-0x8000, Some(0x7fff)))
    } else if ty == "I32"@ {
        Some((-0x8000_0000, Some(0x7fff_ffff)))
    } else if ty == "I64"@ {
        Some((-0x8000_0000_0000_0000, Some(0x7fff_ffff_ffff_ffff)))
    } else {
        None
    }
}

/// The bounds as the solver text needs them.
pub open spec fn range_view(r: Option<(i128, Option<i128>)>) -> Option<(int, Option<int>)> {
    match r {
        Some((lo, Some(hi))) => Some((lo as int, Some(hi as int))),
        Some((lo, None)) => Some((lo as int, None)),
        None => None,
    }
}

pub fn range(ty: &str) -> (r: Option<(i128, Option<i128>)>)
    ensures
        range_view(r) == int_range(ty@),
{
    if str_eq(ty, "Nat") {
        Some((0, None))
    } else if str_eq(ty, "U8") {
        Some((0, Some(0xff)))
    } else if str_eq(ty, "U16") {
        Some((0, Some(0xffff)))
    } else if str_eq(ty, "U32") {
        Some((0, Some(0xffff_ffff)))
    } else if str_eq(ty, "U64") || str_eq(ty, "Size") {
        Some((0, Some(0xffff_ffff_ffff_ffff)))
    } else if str_eq(ty, "I8") {
        Some((-0x80, Some(0x7f)))
    } else if str_eq(ty, "I16") {
        Some((-0x8000, Some(0x7fff)))
    } else if str_eq(ty, "I32") {
        Some((-0x8000_0000, Some(0x7fff_ffff)))
    } else if str_eq(ty, "I64") {
        Some((-0x8000_0000_0000_0000, Some(0x7fff_ffff_ffff_ffff)))
    } else {
        None
    }
}

pub open spec fn container(ty: Seq<char>) -> bool {
    ty == "Vec"@ || ty == "Str"@ || ty == "List"@ || ty == "Slice"@
}

pub fn is_container(ty: &str) -> (r: bool)
    ensures
        r == container(ty@),
{
    str_eq(ty, "Vec") || str_eq(ty, "Str") || str_eq(ty, "List") || str_eq(ty, "Slice")
}

/// The sort of a type whose values the solver can talk about directly;
/// `None` when the value is opaque, so only its length and its invariant
/// travel.
pub open spec fn scalar_sort_of(ty: Seq<char>) -> Option<Sort> {
    if ty == "F32"@ || ty == "F64"@ {
        Some(Sort::Real)
    } else if ty == "Bool"@ {
        Some(Sort::Bool)
    } else if int_range(ty) is Some {
        Some(Sort::Int)
    } else {
        None
    }
}

pub fn scalar_sort(ty: &str) -> (r: Option<Sort>)
    ensures
        r == scalar_sort_of(ty@),
{
    if str_eq(ty, "F32") || str_eq(ty, "F64") {
        Some(Sort::Real)
    } else if str_eq(ty, "Bool") {
        Some(Sort::Bool)
    } else if range(ty).is_some() {
        Some(Sort::Int)
    } else {
        None
    }
}

/// One conjunct as it is; several as `(and ...)`.
pub open spec fn conj_text(parts: Seq<Seq<char>>) -> Seq<char> {
    if parts.len() == 1 {
        parts[0]
    } else {
        "(and "@ + join(parts, " "@) + ")"@
    }
}

pub fn conj(parts: Vec<String>) -> (r: String)
    ensures
        r@ == conj_text(parts@.map_values(|p: String| p@)),
{
    let mut parts = parts;
    if parts.len() == 1 {
        let p = parts.pop().unwrap();
        return p;
    }
    let mut s = owned("(and ");
    push_joined(&mut s, parts.as_slice(), " ");
    push_str(&mut s, ")");
    s
}

pub open spec fn unsigned(ty: Seq<char>) -> bool {
    ty == "Nat"@ || ty == "U8"@ || ty == "U16"@ || ty == "U32"@ || ty == "U64"@ || ty == "Size"@
}

pub fn is_unsigned(ty: &str) -> (r: bool)
    ensures
        r == unsigned(ty@),
{
    str_eq(ty, "Nat") || str_eq(ty, "U8") || str_eq(ty, "U16") || str_eq(ty, "U32") || str_eq(
        ty,
        "U64",
    ) || str_eq(ty, "Size")
}

/// The type a conversion function converts to; conversions are the identity
/// on the value, only the sort changes.
pub open spec fn conv_target(name: Seq<char>) -> Option<Seq<char>> {
    if name == "f32"@ || name == "f64"@ {
        Some("F64"@)
    } else if name == "i8"@ || name == "i16"@ || name == "i32"@ || name == "i64"@ {
        Some("I64"@)
    } else if name == "u8"@ || name == "u16"@ || name == "u32"@ || name == "u64"@ || name
        == "size"@ {
        Some("U64"@)
    } else {
        None
    }
}

pub fn conv(name: &str) -> (r: Option<&'static str>)
    ensures
        match r {
            Some(t) => conv_target(name@) == Some(t@),
            None => conv_target(name@) is None,
        },
{
    if str_eq(name, "f32") || str_eq(name, "f64") {
        Some("F64")
    } else if str_eq(name, "i8") || str_eq(name, "i16") || str_eq(name, "i32") || str_eq(
        name,
        "i64",
    ) {
        Some("I64")
    } else if str_eq(name, "u8") || str_eq(name, "u16") || str_eq(name, "u32") || str_eq(
        name,
        "u64",
    ) || str_eq(name, "size") {
        Some("U64")
    } else {
        None
    }
}

/// The checked arithmetic functions, which can never fail: `add_checked`.
pub fn is_checked(name: &str) -> (r: bool)
    ensures
        r == has_suffix(name@, "_checked"@),
{
    ends_with(name, "_checked")
}

// ------------------------------------------------------------------ terms

/// An integer literal in SMT-LIB: negatives as `(- n)`.
pub open spec fn int_lit_text(n: int) -> Seq<char> {
    if n < 0 {
        "(- "@ + decimal((-n) as nat) + ")"@
    } else {
        decimal(n as nat)
    }
}

pub fn int_lit(n: i128) -> (r: String)
    requires
        n > i128::MIN,
    ensures
        r@ == int_lit_text(n as int),
{
    let mut s = String::new();
    if n < 0 {
        push_str(&mut s, "(- ");
        push_decimal_wide(&mut s, (-n) as u128);
        push_str(&mut s, ")");
    } else {
        push_decimal_wide(&mut s, n as u128);
    }
    s
}

/// A term moved between sorts: `to_real` and `to_int` where the sorts are
/// `Int` and `Real`, the term itself otherwise.
pub open spec fn cast_text(t: Seq<char>, from: Sort, to: Sort) -> Seq<char> {
    match (from, to) {
        (Sort::Int, Sort::Real) => "(to_real "@ + t + ")"@,
        (Sort::Real, Sort::Int) => "(to_int "@ + t + ")"@,
        _ => t,
    }
}

pub fn cast(t: String, from: Sort, to: Sort) -> (r: String)
    ensures
        r@ == cast_text(t@, from, to),
{
    match (from, to) {
        (Sort::Int, Sort::Real) => {
            let mut s = owned("(to_real ");
            push_str(&mut s, t.as_str());
            push_str(&mut s, ")");
            s
        },
        (Sort::Real, Sort::Int) => {
            let mut s = owned("(to_int ");
            push_str(&mut s, t.as_str());
            push_str(&mut s, ")");
            s
        },
        _ => t,
    }
}

/// No symbol character stands at `j` of `b`: a token boundary.
pub open spec fn boundary_at(b: Seq<char>, j: int) -> bool {
    !(0 <= j < b.len() && (alphanumeric(b[j]) || b[j] == '_'))
}

/// `b` from `i` on, with each whole-token occurrence of `f` replaced by `to`,
/// scanning left to right.
pub open spec fn replaced_from(b: Seq<char>, f: Seq<char>, to: Seq<char>, i: int) -> Seq<char>
    recommends
        f.len() > 0,
    decreases b.len() - i,
{
    if i < 0 || i >= b.len() || f.len() == 0 {
        Seq::empty()
    } else if occurs_at(b, f, i) && boundary_at(b, i - 1) && boundary_at(b, i + f.len()) {
        to + replaced_from(b, f, to, i + f.len())
    } else {
        seq![b[i]] + replaced_from(b, f, to, i + 1)
    }
}

fn boundary(b: &[char], j: usize, before: bool) -> (r: bool)
    requires
        before ==> 0 < j <= b@.len(),
    ensures
        r == boundary_at(b@, if before { j - 1 } else { j as int }),
{
    let k = if before { j - 1 } else { j };
    if k >= b.len() {
        return true;
    }
    let c = b[k];
    !(is_alphanumeric(c) || c == '_')
}

/// Replaces whole-token occurrences of `from` in an SMT term.
pub fn replace_sym(t: &str, from: &str, to: &str) -> (r: String)
    requires
        from@.len() > 0,
    ensures
        r@ == replaced_from(t@, from@, to@, 0),
{
    let b = chars_of(t);
    let f = chars_of(from);
    let mut out = String::new();
    let mut i: usize = 0;
    while i < b.len()
        invariant
            b@ == t@,
            f@ == from@,
            f@.len() > 0,
            i <= b@.len(),
            out@ + replaced_from(b@, f@, to@, i as int) == replaced_from(b@, f@, to@, 0),
        decreases b@.len() - i,
    {
        let ghost before = out@;
        if occurs(b.as_slice(), f.as_slice(), i) && (i == 0 || boundary(b.as_slice(), i, true))
            && boundary(b.as_slice(), i + f.len(), false) {
            assert(i == 0 ==> boundary_at(b@, i - 1));
            push_str(&mut out, to);
            assert(out@ + replaced_from(b@, f@, to@, i + f@.len()) =~= before + replaced_from(
                b@,
                f@,
                to@,
                i as int,
            ));
            i += f.len();
        } else {
            proof {
                if i == 0 {
                    assert(boundary_at(b@, i - 1));
                }
            }
            push_char(&mut out, b[i]);
            assert(out@ + replaced_from(b@, f@, to@, i + 1) =~= before + replaced_from(
                b@,
                f@,
                to@,
                i as int,
            ));
            i += 1;
        }
    }
    assert(replaced_from(b@, f@, to@, i as int) == Seq::<char>::empty());
    assert(out@ =~= replaced_from(b@, f@, to@, 0));
    out
}

// ------------------------------------------------------------ solver output

/// How deep inside parentheses the end of `s` sits.
pub open spec fn depth(s: Seq<char>) -> int
    decreases s.len(),
{
    if s.len() == 0 {
        0
    } else {
        depth(s.drop_last()) + if s.last() == '(' {
            1int
        } else if s.last() == ')' {
            -1int
        } else {
            0int
        }
    }
}

/// The first index at or after `i` where the parentheses opened since the
/// start of `s` are all closed again.
pub open spec fn closing_from(s: Seq<char>, i: int) -> Option<int>
    decreases s.len() - i,
{
    if i < 0 || i >= s.len() {
        None
    } else if depth(s.take(i + 1)) == 0 {
        Some(i)
    } else {
        closing_from(s, i + 1)
    }
}

/// How many characters `s` starts with before whitespace or a `)`.
pub open spec fn atom_len(s: Seq<char>) -> nat
    decreases s.len(),
{
    if s.len() > 0 && !is_ws(s[0]) && s[0] != ')' {
        1 + atom_len(s.drop_first())
    } else {
        0
    }
}

/// The first term of a solver value: an atom up to whitespace or `)`, or a
/// balanced parenthesised term with `(- 3)` flattened to `-3`, `(/ a b)` to
/// `a/b`, and any other term's whitespace collapsed to single spaces.
pub open spec fn value_text(s: Seq<char>) -> Option<Seq<char>> {
    if s.len() == 0 || s[0] != '(' {
        let a = s.take(atom_len(s) as int);
        if a.len() == 0 {
            None
        } else {
            Some(a)
        }
    } else {
        match closing_from(s, 0) {
            None => None,
            Some(i) => {
                let toks = words(trim(s.subrange(1, i)));
                if toks.len() == 2 && toks[0] == "-"@ {
                    Some("-"@ + toks[1])
                } else if toks.len() == 3 && toks[0] == "/"@ {
                    Some(toks[1] + "/"@ + toks[2])
                } else {
                    Some(join(words(s.take(i + 1)), " "@))
                }
            },
        }
    }
}

/// One `(define-fun name () Sort value)` entry, as `name=value`: the name is
/// the chunk's first word, the sort is the first word after the first `)`,
/// and the value is what follows it.
pub open spec fn entry_text(chunk: Seq<char>) -> Option<Seq<char>> {
    let ws = words(chunk);
    if ws.len() == 0 {
        None
    } else {
        match next_occ(chunk, seq![')'], 0) {
            None => None,
            Some(p) => {
                let rest = trim_start(chunk.skip(p + 1));
                let sorts = words(rest);
                if sorts.len() == 0 || sorts[0].len() > rest.len() || rest.take(sorts[0].len() as int)
                    != sorts[0] {
                    None
                } else {
                    match value_text(trim_start(rest.skip(sorts[0].len() as int))) {
                        None => None,
                        Some(v) => Some(ws[0] + "="@ + v),
                    }
                }
            },
        }
    }
}

/// The entries of all the chunks, or nothing if one of them has none.
pub open spec fn entries_text(chunks: Seq<Seq<char>>) -> Option<Seq<Seq<char>>>
    decreases chunks.len(),
{
    if chunks.len() == 0 {
        Some(Seq::empty())
    } else {
        match (entries_text(chunks.drop_last()), entry_text(chunks.last())) {
            (Some(es), Some(e)) => Some(es.push(e)),
            _ => None,
        }
    }
}

/// The counterexample in a solver's model: `(define-fun x () Int 3)` gives
/// `x=3`, the entries joined by `, `. A scanner, not an s-expression parser;
/// enough for the shape a solver prints for a flat model.
pub open spec fn model_text(out: Seq<char>) -> Option<Seq<char>> {
    match entries_text(pieces_from(out, "(define-fun "@, 0).drop_first()) {
        None => None,
        Some(es) => if es.len() == 0 {
            None
        } else {
            Some(join(es, ", "@))
        },
    }
}

proof fn lemma_entries_none(chunks: Seq<Seq<char>>, j: int, k: int)
    requires
        0 <= j <= k <= chunks.len(),
        entries_text(chunks.take(j)) is None,
    ensures
        entries_text(chunks.take(k)) is None,
    decreases k - j,
{
    if j < k {
        assert(chunks.take(j + 1).drop_last() == chunks.take(j));
        lemma_entries_none(chunks, j + 1, k);
    }
}

proof fn lemma_skip_skip(s: Seq<char>, a: int, b: int)
    requires
        0 <= a,
        0 <= b,
        a + b <= s.len(),
    ensures
        s.skip(a).skip(b) == s.skip(a + b),
{
    assert(s.skip(a).skip(b) =~= s.skip(a + b));
}

/// The first term of `cs[from..]`; see `value_text`.
fn value_at(cs: &[char], from: usize) -> (r: Option<String>)
    requires
        from <= cs@.len(),
    ensures
        match r {
            Some(v) => value_text(cs@.skip(from as int)) == Some(v@),
            None => value_text(cs@.skip(from as int)) is None,
        },
{
    let n = cs.len();
    let ghost t = cs@.skip(from as int);
    if from == n || cs[from] != '(' {
        let mut k = from;
        while k < n && !(is_whitespace(cs[k]) || cs[k] == ')')
            invariant
                from <= k <= n == cs@.len(),
                t == cs@.skip(from as int),
                atom_len(t) == (k - from) + atom_len(cs@.skip(k as int)),
            decreases n - k,
        {
            assert(cs@.skip(k as int).drop_first() == cs@.skip(k + 1));
            k += 1;
        }
        proof {
            assert(atom_len(cs@.skip(k as int)) == 0);
            assert(t.take(k - from) == cs@.subrange(from as int, k as int));
        }
        if k == from {
            return None;
        }
        return Some(string_of_range(cs, from, k));
    }
    match closing_at(cs, from) {
        None => None,
        Some(end) => Some(term_at(cs, from, end)),
    }
}

/// Where the term opened at `cs[from]` closes: one past its `)`.
fn closing_at(cs: &[char], from: usize) -> (r: Option<usize>)
    requires
        from < cs@.len(),
        cs@[from as int] == '(',
    ensures
        match r {
            Some(end) => from + 2 <= end <= cs@.len() && closing_from(cs@.skip(from as int), 0)
                == Some(end - 1 - from),
            None => closing_from(cs@.skip(from as int), 0) is None,
        },
{
    let n = cs.len();
    let ghost t = cs@.skip(from as int);
    let mut d: usize = 0;
    let mut i = from;
    let mut end: usize = 0;
    let mut found = false;
    while i < n && !found
        invariant
            from <= i <= n == cs@.len(),
            t == cs@.skip(from as int),
            t[0] == '(',
            d <= i - from,
            !found ==> d == depth(t.take(i - from)),
            !found ==> (i > from ==> d >= 1),
            !found ==> closing_from(t, 0) == closing_from(t, i - from),
            found ==> end == i && from + 2 <= end && closing_from(t, 0) == Some(end - 1 - from),
        decreases n - i,
    {
        let c = cs[i];
        assert(t.take(i + 1 - from).drop_last() == t.take(i - from));
        assert(t[i - from] == c);
        if c == '(' {
            d += 1;
        } else if c == ')' {
            d -= 1;
            if d == 0 {
                end = i + 1;
                found = true;
            }
        }
        i += 1;
    }
    if !found {
        return None;
    }
    Some(end)
}

/// The parenthesised term `cs[from..end]`, shaped as `value_text` says.
fn term_at(cs: &[char], from: usize, end: usize) -> (r: String)
    requires
        from + 2 <= end <= cs@.len(),
        cs@[from as int] == '(',
        closing_from(cs@.skip(from as int), 0) == Some(end - 1 - from),
    ensures
        value_text(cs@.skip(from as int)) == Some(r@),
{
    let ghost t = cs@.skip(from as int);
    proof {
        reveal_strlit("-");
        reveal_strlit("/");
    }
    let close = end - 1;
    let a = skip_ws(cs, from + 1, close);
    let b = trim_end_index(cs, a, close);
    proof {
        let inner = t.subrange(1, close - from);
        assert(inner == cs@.subrange(from + 1, close as int));
        assert(trim_start(inner) == cs@.subrange(a as int, close as int));
        assert(trim(inner) == cs@.subrange(a as int, b as int));
    }
    let toks = words_of(cs, a, b);
    let ghost tv = toks@.map_values(|w: Vec<char>| w@);
    if toks.len() == 2 && toks[0].len() == 1 && toks[0][0] == '-' {
        assert(tv[0] =~= "-"@);
        let mut v = owned("-");
        let t1 = string_of(toks[1].as_slice());
        push_str(&mut v, t1.as_str());
        assert(tv[1] == toks@[1]@);
        return v;
    }
    if toks.len() == 3 && toks[0].len() == 1 && toks[0][0] == '/' {
        assert(tv[0] =~= "/"@);
        let mut v = string_of(toks[1].as_slice());
        push_str(&mut v, "/");
        let t2 = string_of(toks[2].as_slice());
        push_str(&mut v, t2.as_str());
        assert(tv[1] == toks@[1]@);
        assert(tv[2] == toks@[2]@);
        return v;
    }
    proof {
        if toks@.len() == 2 && tv[0] == "-"@ {
            assert(tv[0].len() == 1 && tv[0][0] == '-');
        }
        if toks@.len() == 3 && tv[0] == "/"@ {
            assert(tv[0].len() == 1 && tv[0][0] == '/');
        }
    }
    let all = words_of(cs, from, end);
    assert(cs@.subrange(from as int, end as int) == t.take(end - from));
    let strs = strings_of(&all);
    let mut v = String::new();
    push_joined(&mut v, strs.as_slice(), " ");
    v
}

/// The first term of a solver value; see `value_text`.
pub fn value(s: &str) -> (r: Option<String>)
    ensures
        match r {
            Some(v) => value_text(s@) == Some(v@),
            None => value_text(s@) is None,
        },
{
    let cs = chars_of(s);
    assert(cs@.skip(0) == cs@);
    value_at(cs.as_slice(), 0)
}

/// Whether `c[rs..]` starts with its own first word, and that word's length
/// (`strip_prefix` of the first of `split_whitespace`).
fn first_word_len(c: &[char], rs: usize) -> (r: Option<usize>)
    requires
        rs <= c@.len(),
    ensures
        ({
            let rest = c@.skip(rs as int);
            let sorts = words(rest);
            match r {
                Some(w) => sorts.len() > 0 && w == sorts[0].len() && sorts[0].len() <= rest.len()
                    && rest.take(w as int) == sorts[0],
                None => sorts.len() == 0 || sorts[0].len() > rest.len() || rest.take(
                    sorts[0].len() as int,
                ) != sorts[0],
            }
        }),
{
    let n = c.len();
    let ghost rest = c@.skip(rs as int);
    let sorts = words_of(c, rs, n);
    assert(c@.subrange(rs as int, n as int) == rest);
    if sorts.len() == 0 {
        return None;
    }
    let w0: &Vec<char> = &sorts[0];
    let w = w0.len();
    assert(w0@ == words(rest)[0]);
    if w > n - rs {
        return None;
    }
    let mut k: usize = 0;
    while k < w
        invariant
            w == w0@.len(),
            rs + w <= n == c@.len(),
            rest == c@.skip(rs as int),
            words(rest).len() > 0,
            w0@ == words(rest)[0],
            k <= w,
            forall|j: int| 0 <= j < k ==> c@[rs + j] == w0@[j],
        decreases w - k,
    {
        if c[rs + k] != w0[k] {
            assert(rest.take(w as int)[k as int] != w0@[k as int]);
            return None;
        }
        k += 1;
    }
    assert(rest.take(w as int) =~= w0@);
    Some(w)
}

/// A copy of `cs[from..to]`.
fn chars_range(cs: &[char], from: usize, to: usize) -> (r: Vec<char>)
    requires
        from <= to <= cs@.len(),
    ensures
        r@ == cs@.subrange(from as int, to as int),
{
    let mut v: Vec<char> = Vec::new();
    for k in from..to
        invariant
            from <= to <= cs@.len(),
            v@ == cs@.subrange(from as int, k as int),
    {
        v.push(cs[k]);
        assert(v@ =~= cs@.subrange(from as int, k + 1));
    }
    v
}

/// The entry of `cs[from..to]`; see `entry_text`.
fn entry_at(cs: &[char], from: usize, to: usize) -> (r: Option<String>)
    requires
        from <= to <= cs@.len(),
    ensures
        match r {
            Some(v) => entry_text(cs@.subrange(from as int, to as int)) == Some(v@),
            None => entry_text(cs@.subrange(from as int, to as int)) is None,
        },
{
    let chunk = chars_range(cs, from, to);
    let ghost c = chunk@;
    let n = chunk.len();
    let ws = words_of(chunk.as_slice(), 0, n);
    assert(c.subrange(0, n as int) == c);
    if ws.len() == 0 {
        return None;
    }
    let mut close: Vec<char> = Vec::new();
    close.push(')');
    assert(close@ =~= seq![')']);
    let p = match find_pat(chunk.as_slice(), close.as_slice(), 0) {
        Some(p) => p,
        None => return None,
    };
    proof {
        crate::text::lemma_next_occ_after(c, seq![')'], 0);
    }
    let rs = skip_ws(chunk.as_slice(), p + 1, n);
    proof {
        assert(c.subrange(p + 1, n as int) == c.skip(p + 1));
        lemma_skip_skip(c, p + 1, rs - p - 1);
        assert(trim_start(c.skip(p + 1)) == c.skip(rs as int));
        assert(c.subrange(rs as int, n as int) == c.skip(rs as int));
    }
    let w = match first_word_len(chunk.as_slice(), rs) {
        Some(w) => w,
        None => return None,
    };
    let vs = skip_ws(chunk.as_slice(), rs + w, n);
    proof {
        lemma_skip_skip(c, rs as int, w as int);
        assert(c.subrange(rs + w, n as int) == c.skip(rs + w));
        lemma_skip_skip(c, rs + w, vs - rs - w);
        assert(trim_start(c.skip(rs as int).skip(w as int)) == c.skip(vs as int));
    }
    let v = match value_at(chunk.as_slice(), vs) {
        Some(v) => v,
        None => return None,
    };
    let mut out = string_of(ws[0].as_slice());
    push_str(&mut out, "=");
    push_str(&mut out, v.as_str());
    assert(ws@[0]@ == words(c)[0]);
    Some(out)
}

/// The counterexample in a solver's output; see `model_text`.
pub fn model(out: &str) -> (r: Option<String>)
    ensures
        match r {
            Some(m) => model_text(out@) == Some(m@),
            None => model_text(out@) is None,
        },
{
    let cs = chars_of(out);
    let pat = chars_of("(define-fun ");
    proof {
        reveal_strlit("(define-fun ");
    }
    let chunks = split_at_pattern(cs.as_slice(), pat.as_slice());
    let ghost ps = pieces_from(cs@, pat@, 0);
    let ghost chs = ps.drop_first();
    let mut parts: Vec<String> = Vec::new();
    let mut i: usize = 1;
    assert(chunks@.len() >= 1) by {
        assert(ps.len() >= 1) by {
            crate::text::lemma_pieces_nonempty(cs@, pat@, 0);
        }
    }
    while i < chunks.len()
        invariant
            1 <= i <= chunks@.len(),
            ranges_hold(cs@, chunks@, ps),
            chs == ps.drop_first(),
            ps == pieces_from(out@, "(define-fun "@, 0),
            entries_text(chs.take(i - 1)) == Some(parts@.map_values(|p: String| p@)),
        decreases chunks@.len() - i,
    {
        let (a, b) = chunks[i];
        assert(range_holds(cs@, chunks@[i as int], ps[i as int]));
        assert(chs.take(i as int).drop_last() == chs.take(i - 1));
        assert(chs.take(i as int).last() == ps[i as int]);
        match entry_at(cs.as_slice(), a, b) {
            None => {
                proof {
                    assert(entries_text(chs.take(i as int)) is None);
                    lemma_entries_none(chs, i as int, chs.len() as int);
                    assert(chs.take(chs.len() as int) == chs);
                }
                return None;
            },
            Some(e) => {
                let ghost prev = parts@.map_values(|p: String| p@);
                parts.push(e);
                assert(parts@.map_values(|p: String| p@) =~= prev.push(e@));
            },
        }
        i += 1;
    }
    assert(chs.take(chunks@.len() - 1) == chs);
    if parts.len() == 0 {
        return None;
    }
    let mut m = String::new();
    push_joined(&mut m, parts.as_slice(), ", ");
    Some(m)
}


// ------------------------------------------------------------ postconditions

/// Names with a bound each, by their views.
pub open spec fn bounds_view(v: Seq<(String, usize)>) -> Seq<(Seq<char>, nat)> {
    v.map_values(|e: (String, usize)| (e.0@, e.1 as nat))
}

/// The bound a name has, the latest given, or 0 for none.
pub open spec fn bound_of(env: Seq<(Seq<char>, nat)>, n: Seq<char>) -> nat
    decreases env.len(),
{
    if env.len() == 0 {
        0
    } else if env.last().0 == n {
        env.last().1
    } else {
        bound_of(env.drop_last(), n)
    }
}

/// The bounds without any for `n`.
pub open spec fn without(env: Seq<(Seq<char>, nat)>, n: Seq<char>) -> Seq<(Seq<char>, nat)>
    decreases env.len(),
{
    if env.len() == 0 {
        env
    } else if env.last().0 == n {
        without(env.drop_last(), n)
    } else {
        without(env.drop_last(), n).push(env.last())
    }
}

/// The bounds without any for the names `ns`.
pub open spec fn without_all(env: Seq<(Seq<char>, nat)>, ns: Seq<Seq<char>>) -> Seq<(Seq<char>, nat)>
    decreases ns.len(),
{
    if ns.len() == 0 {
        env
    } else {
        without(without_all(env, ns.drop_last()), ns.last())
    }
}

/// Where the first entry for `c` is, or -1.
pub open spec fn slot(out: Seq<(Seq<char>, nat)>, c: Seq<char>) -> int
    decreases out.len(),
{
    if out.len() == 0 {
        -1
    } else if slot(out.drop_last(), c) >= 0 {
        slot(out.drop_last(), c)
    } else if out.last().0 == c {
        out.len() - 1
    } else {
        -1
    }
}

/// `out` once a path returning `c` with payload bound `k` is seen: the
/// bound kept for `c` is the least over its paths.
pub open spec fn record_min(out: Seq<(Seq<char>, nat)>, c: Seq<char>, k: nat) -> Seq<(Seq<char>, nat)> {
    let i = slot(out, c);
    if i >= 0 {
        out.update(i, (c, if out[i].1 <= k { out[i].1 } else { k }))
    } else {
        out.push((c, k))
    }
}

/// An application taken apart: its head, and all its arguments in order.
pub open spec fn flat(e: Expr) -> (Expr, Seq<Expr>)
    decreases e,
{
    match e.kind {
        ExprKind::App(f, args) => {
            let (h, acc) = flat(*f);
            (h, acc + args@)
        },
        _ => (e, Seq::empty()),
    }
}

/// An expression under its borrows.
pub open spec fn stripped(e: Expr) -> Expr
    decreases e,
{
    match e.kind {
        ExprKind::Borrow(i) => stripped(*i),
        _ => e,
    }
}

/// The name an expression is, under its borrows.
pub open spec fn name_of(e: Expr) -> Option<Seq<char>> {
    match stripped(e).kind {
        ExprKind::Var(n) => Some(n@),
        ExprKind::Ctor(n) => Some(n@),
        _ => None,
    }
}

/// The arm patterns are wildcards or names.
pub open spec fn irrefutable_all(ps: Seq<PatV>) -> bool {
    forall|j: int| 0 <= j < ps.len() ==> (#[trigger] ps[j] is Wild || ps[j] is Var)
}

/// The lengths the arms `above` rule out for the payload of `c`: each arm
/// `c [p1..pn]` whose sub-patterns all match anything rules out `n`.
pub open spec fn excluded_lens(above: Seq<(Pat, Expr)>, c: Seq<char>) -> Seq<nat>
    decreases above.len(),
{
    if above.len() == 0 {
        Seq::empty()
    } else {
        let rest = excluded_lens(above.drop_last(), c);
        match above.last().0@ {
            PatV::Ctor(d, qs) => if d == c && qs.len() == 1 && qs[0] is List && irrefutable_all(qs[0]->List_0) {
                rest.push(qs[0]->List_0.len())
            } else {
                rest
            },
            _ => rest,
        }
    }
}

/// The bounds in force in an arm with pattern `p`, below the arms `above`:
/// the names it binds lose their bounds, and an arm `C x` below arms that
/// ruled out the lengths `0..k` of `C`'s payload gives `x` the bound `k`.
pub open spec fn arm_env(p: PatV, above: Seq<(Pat, Expr)>, env: Seq<(Seq<char>, nat)>) -> Seq<(Seq<char>, nat)> {
    let env1 = without_all(env, pat_names_of(p));
    match p {
        PatV::Ctor(c, args) => if args.len() == 1 && args[0] is Var {
            let k = gap_from(excluded_lens(above, c), 0);
            if k > 0 {
                without(env1, args[0]->Var_0).push((args[0]->Var_0, k))
            } else {
                env1
            }
        } else {
            env1
        },
        _ => env1,
    }
}


proof fn lemma_bound_without(env: Seq<(Seq<char>, nat)>, n: Seq<char>)
    ensures
        bound_of(without(env, n), n) == 0,
    decreases env.len(),
{
    if env.len() > 0 {
        lemma_bound_without(env.drop_last(), n);
        if env.last().0 != n {
            assert(without(env, n).drop_last() == without(env.drop_last(), n));
        }
    }
}

/// In an arm `C x`, the bound `x` gets is the least payload length that no
/// arm above rules out: every shorter length is ruled out by an arm
/// `C [p1..pn]` of wildcards and names above it, so every value reaching the
/// arm has a payload at least that long, and the bound itself is not ruled
/// out, so no longer bound would hold.
pub proof fn lemma_arm_bound_is_least_free_length(
    c: Seq<char>,
    x: Seq<char>,
    above: Seq<(Pat, Expr)>,
    env: Seq<(Seq<char>, nat)>,
)
    ensures
        forall|j: nat| j < bound_of(arm_env(PatV::Ctor(c, seq![PatV::Var(x)]), above, env), x) ==> excluded_lens(
            above,
            c,
        ).contains(j),
        !excluded_lens(above, c).contains(bound_of(arm_env(PatV::Ctor(c, seq![PatV::Var(x)]), above, env), x)),
{
    let p = PatV::Ctor(c, seq![PatV::Var(x)]);
    let lens = excluded_lens(above, c);
    crate::types::lemma_gap_is_least_free(lens);
    let k = gap_from(lens, 0);
    let env1 = without_all(env, pat_names_of(p));
    assert(pat_names_of(p) =~= seq![x]) by {
        assert(crate::ast::pats_names_of(seq![PatV::Var(x)]) =~= crate::ast::pats_names_of(Seq::<PatV>::empty()) + seq![x]) by {
            assert(seq![PatV::Var(x)].drop_last() =~= Seq::<PatV>::empty());
            assert(seq![PatV::Var(x)].last() == PatV::Var(x));
            assert(pat_names_of(PatV::Var(x)) == seq![x]);
            assert(crate::ast::pats_names_of(Seq::<PatV>::empty()) == Seq::<Seq<char>>::empty());
        }
    }
    assert(without_all(env, seq![x]) == without(without_all(env, Seq::<Seq<char>>::empty()), x)) by {
        assert(seq![x].drop_last() =~= Seq::<Seq<char>>::empty());
    }
    if k > 0 {
        let r = without(env1, x).push((x, k));
        assert(arm_env(p, above, env) == r);
        assert(r.drop_last() == without(env1, x));
        assert(bound_of(r, x) == k);
    } else {
        lemma_bound_without(env, x);
        assert(arm_env(p, above, env) == env1);
        assert(bound_of(env1, x) == 0);
    }
}


/// Arm pattern `p` is `c [p1..pn]` with every `pi` a wildcard or a name, and
/// so matches every `c` whose payload has length `n`.
pub open spec fn rules_out(p: PatV, c: Seq<char>, n: nat) -> bool {
    p matches PatV::Ctor(d, qs) && d == c && qs.len() == 1 && qs[0] is List && irrefutable_all(qs[0]->List_0)
        && qs[0]->List_0.len() == n
}

/// The lengths ruled out for `c` above an arm are exactly those of the arms
/// above it that match every `c` of one length.
pub proof fn lemma_excluded_are_ruled_out(above: Seq<(Pat, Expr)>, c: Seq<char>, n: nat)
    ensures
        excluded_lens(above, c).contains(n) <==> exists|i: int| 0 <= i < above.len() && rules_out(#[trigger] above[i].0@, c, n),
    decreases above.len(),
{
    if above.len() > 0 {
        let d = above.drop_last();
        lemma_excluded_are_ruled_out(d, c, n);
        let r = excluded_lens(d, c);
        let last = above.last().0@;
        if excluded_lens(above, c).contains(n) {
            let j = choose|j: int| 0 <= j < excluded_lens(above, c).len() && excluded_lens(above, c)[j] == n;
            if j < r.len() && excluded_lens(above, c)[j] == r[j] {
                assert(r.contains(n));
                let i = choose|i: int| 0 <= i < d.len() && rules_out(#[trigger] d[i].0@, c, n);
                assert(above[i] == d[i]);
            } else {
                assert(rules_out(above[above.len() - 1].0@, c, n));
            }
        }
        if exists|i: int| 0 <= i < above.len() && rules_out(#[trigger] above[i].0@, c, n) {
            let i = choose|i: int| 0 <= i < above.len() && rules_out(#[trigger] above[i].0@, c, n);
            if i < above.len() - 1 {
                assert(d[i] == above[i]);
                assert(r.contains(n));
                let j = choose|j: int| 0 <= j < r.len() && r[j] == n;
                match last {
                    PatV::Ctor(dd, qs) => {
                        if dd == c && qs.len() == 1 && qs[0] is List && irrefutable_all(qs[0]->List_0) {
                            assert(r.push(qs[0]->List_0.len())[j] == n);
                        }
                    },
                    _ => {},
                }
            } else {
                let e = excluded_lens(above, c);
                assert(e == r.push(n));
                assert(e[r.len() as int] == n);
            }
        }
    }
}

/// Every tail position of `e`, in order, with the bounds `env` in force:
/// whether each is a constructor applied to arguments (stopping at the
/// first that is not), and `out` with the bound each such path gives its
/// constructor.
pub open spec fn tails(e: Expr, env: Seq<(Seq<char>, nat)>, out: Seq<(Seq<char>, nat)>) -> (bool, Seq<(Seq<char>, nat)>)
    decreases e, 0int, 0int,
{
    match e.kind {
        ExprKind::Bind(n, _, rest) => tails(*rest, without(env, n@), out),
        ExprKind::Let(n, _, rest) => tails(*rest, without(env, n@), out),
        ExprKind::Arena(n, rest) => tails(*rest, without(env, n@), out),
        ExprKind::Match(_, arms) => tails_arms(arms@, 0, env, out),
        _ => {
            let (h, args) = flat(e);
            match h.kind {
                ExprKind::Ctor(c) => {
                    let k = if args.len() == 1 {
                        match name_of(args[0]) {
                            Some(n) => bound_of(env, n),
                            None => 0,
                        }
                    } else {
                        0
                    };
                    (true, record_min(out, c@, k))
                },
                _ => (false, out),
            }
        },
    }
}

pub open spec fn tails_arms(arms: Seq<(Pat, Expr)>, i: int, env: Seq<(Seq<char>, nat)>, out: Seq<(Seq<char>, nat)>) -> (
    bool,
    Seq<(Seq<char>, nat)>,
)
    decreases arms, 1int, arms.len() - i,
{
    if i < 0 || i >= arms.len() {
        (true, out)
    } else {
        let (ok, out1) = tails(arms[i].1, arm_env(arms[i].0@, arms.take(i), env), out);
        if ok {
            tails_arms(arms, i + 1, env, out1)
        } else {
            (false, out1)
        }
    }
}

/// The bound kept for `c` in `out`, if `out` has an entry for it.
pub open spec fn kept(out: Seq<(Seq<char>, nat)>, c: Seq<char>) -> Option<nat> {
    if slot(out, c) >= 0 {
        Some(out[slot(out, c)].1)
    } else {
        None
    }
}

/// The lesser of two bounds, where a missing one bounds nothing.
pub open spec fn min_opt(a: Option<nat>, b: Option<nat>) -> Option<nat> {
    match (a, b) {
        (Some(x), Some(y)) => Some(if x <= y { x } else { y }),
        (Some(x), None) => Some(x),
        (None, Some(y)) => Some(y),
        (None, None) => None,
    }
}

proof fn lemma_slot_at(out: Seq<(Seq<char>, nat)>, c: Seq<char>)
    ensures
        slot(out, c) >= 0 ==> slot(out, c) < out.len() && out[slot(out, c)].0 == c,
        slot(out, c) >= -1,
    decreases out.len(),
{
    if out.len() > 0 {
        lemma_slot_at(out.drop_last(), c);
    }
}

proof fn lemma_slot_push(out: Seq<(Seq<char>, nat)>, x: (Seq<char>, nat), d: Seq<char>)
    ensures
        slot(out.push(x), d) == (if slot(out, d) >= 0 { slot(out, d) } else if x.0 == d { out.len() as int } else { -1 }),
{
    assert(out.push(x).drop_last() =~= out);
}

proof fn lemma_slot_update(out: Seq<(Seq<char>, nat)>, i: int, v: nat, d: Seq<char>)
    requires
        0 <= i < out.len(),
    ensures
        slot(out.update(i, (out[i].0, v)), d) == slot(out, d),
    decreases out.len(),
{
    let r = out.update(i, (out[i].0, v));
    if i == out.len() - 1 {
        assert(r.drop_last() =~= out.drop_last());
    } else {
        assert(r.drop_last() =~= out.drop_last().update(i, (out[i].0, v)));
        lemma_slot_update(out.drop_last(), i, v, d);
    }
}

/// Seeing a path that returns `c` with bound `k` lowers the bound kept for
/// `c` to `k` if it was higher, and keeps every other bound.
pub proof fn lemma_record_min_kept(out: Seq<(Seq<char>, nat)>, c: Seq<char>, k: nat, d: Seq<char>)
    ensures
        kept(record_min(out, c, k), d) == min_opt(kept(out, d), if d == c { Some(k) } else { None }),
{
    let i = slot(out, c);
    lemma_slot_at(out, c);
    lemma_slot_at(out, d);
    if i >= 0 {
        let m: nat = if out[i].1 <= k { out[i].1 } else { k };
        lemma_slot_update(out, i, m, d);
        assert(out[i].0 == c);
        assert(record_min(out, c, k) == out.update(i, (out[i].0, m)));
    } else {
        lemma_slot_push(out, (c, k), d);
    }
}

/// What `tails` keeps does not depend on `out` but for what `out` held:
/// the bound kept for each constructor is the lesser of `out`'s and the
/// one the paths of `e` alone give; and whether every path is a
/// constructor does not depend on `out` at all.
pub proof fn lemma_tails_acc(e: Expr, env: Seq<(Seq<char>, nat)>, out: Seq<(Seq<char>, nat)>)
    ensures
        tails(e, env, out).0 == tails(e, env, Seq::empty()).0,
        forall|d: Seq<char>| #[trigger] kept(tails(e, env, out).1, d) == min_opt(kept(out, d), kept(tails(e, env, Seq::empty()).1, d)),
    decreases e, 0int, 0int,
{
    let z = Seq::<(Seq<char>, nat)>::empty();
    match e.kind {
        ExprKind::Bind(n, _, rest) => { lemma_tails_acc(*rest, without(env, n@), out); lemma_tails_acc(*rest, without(env, n@), z); },
        ExprKind::Let(n, _, rest) => { lemma_tails_acc(*rest, without(env, n@), out); lemma_tails_acc(*rest, without(env, n@), z); },
        ExprKind::Arena(n, rest) => { lemma_tails_acc(*rest, without(env, n@), out); lemma_tails_acc(*rest, without(env, n@), z); },
        ExprKind::Match(_, arms) => {
            lemma_tails_arms_acc(arms@, 0, env, out);
        },
        _ => {
            let (h, args) = flat(e);
            match h.kind {
                ExprKind::Ctor(c) => {
                    let k: nat = if args.len() == 1 {
                        match name_of(args[0]) {
                            Some(n) => bound_of(env, n),
                            None => 0,
                        }
                    } else {
                        0
                    };
                    assert forall|d: Seq<char>| #[trigger] kept(tails(e, env, out).1, d) == min_opt(kept(out, d), kept(tails(e, env, z).1, d)) by {
                        lemma_record_min_kept(out, c@, k, d);
                        lemma_record_min_kept(z, c@, k, d);
                        assert(slot(z, d) == -1);
                    }
                },
                _ => {
                    assert forall|d: Seq<char>| #[trigger] kept(tails(e, env, out).1, d) == min_opt(kept(out, d), kept(tails(e, env, z).1, d)) by {
                        assert(slot(z, d) == -1);
                    }
                },
            }
        },
    }
}

pub proof fn lemma_tails_arms_acc(arms: Seq<(Pat, Expr)>, i: int, env: Seq<(Seq<char>, nat)>, out: Seq<(Seq<char>, nat)>)
    ensures
        tails_arms(arms, i, env, out).0 == tails_arms(arms, i, env, Seq::empty()).0,
        forall|d: Seq<char>| #[trigger] kept(tails_arms(arms, i, env, out).1, d) == min_opt(kept(out, d), kept(tails_arms(arms, i, env, Seq::empty()).1, d)),
    decreases arms, 1int, arms.len() - i,
{
    let z = Seq::<(Seq<char>, nat)>::empty();
    if i < 0 || i >= arms.len() {
        assert forall|d: Seq<char>| #[trigger] kept(tails_arms(arms, i, env, out).1, d) == min_opt(kept(out, d), kept(tails_arms(arms, i, env, z).1, d)) by {
            assert(slot(z, d) == -1);
        }
    } else {
        let ei = arm_env(arms[i].0@, arms.take(i), env);
        let t_out = tails(arms[i].1, ei, out);
        let t_z = tails(arms[i].1, ei, z);
        lemma_tails_acc(arms[i].1, ei, out);
        if t_z.0 {
            lemma_tails_arms_acc(arms, i + 1, env, t_out.1);
            lemma_tails_arms_acc(arms, i + 1, env, t_z.1);
            assert forall|d: Seq<char>| #[trigger] kept(tails_arms(arms, i, env, out).1, d) == min_opt(kept(out, d), kept(tails_arms(arms, i, env, z).1, d)) by {
                assert(kept(t_out.1, d) == min_opt(kept(out, d), kept(t_z.1, d)));
                assert(kept(tails_arms(arms, i + 1, env, t_out.1).1, d) == min_opt(kept(t_out.1, d), kept(tails_arms(arms, i + 1, env, z).1, d)));
                assert(kept(tails_arms(arms, i + 1, env, t_z.1).1, d) == min_opt(kept(t_z.1, d), kept(tails_arms(arms, i + 1, env, z).1, d)));
            }
        } else {
            assert forall|d: Seq<char>| #[trigger] kept(tails_arms(arms, i, env, out).1, d) == min_opt(kept(out, d), kept(tails_arms(arms, i, env, z).1, d)) by {
                assert(kept(t_out.1, d) == min_opt(kept(out, d), kept(t_z.1, d)));
            }
        }
    }
}

proof fn lemma_arms_from(arms: Seq<(Pat, Expr)>, j: int, env: Seq<(Seq<char>, nat)>, x: Seq<(Seq<char>, nat)>, i: int, c: Seq<char>)
    requires
        0 <= j <= i < arms.len(),
        tails_arms(arms, j, env, x).0,
    ensures
        tails(arms[i].1, arm_env(arms[i].0@, arms.take(i), env), Seq::empty()).0,
        kept(tails(arms[i].1, arm_env(arms[i].0@, arms.take(i), env), Seq::empty()).1, c) matches Some(k)
            ==> kept(tails_arms(arms, j, env, x).1, c) matches Some(m) && m <= k,
    decreases i - j,
{
    let ej = arm_env(arms[j].0@, arms.take(j), env);
    let t = tails(arms[j].1, ej, x);
    lemma_tails_acc(arms[j].1, ej, x);
    assert(t.0);
    assert(tails_arms(arms, j, env, x) == tails_arms(arms, j + 1, env, t.1));
    if j == i {
        lemma_tails_arms_acc(arms, i + 1, env, t.1);
        assert(kept(t.1, c) == min_opt(kept(x, c), kept(tails(arms[j].1, ej, Seq::empty()).1, c)));
        assert(kept(tails_arms(arms, i + 1, env, t.1).1, c) == min_opt(kept(t.1, c), kept(tails_arms(arms, i + 1, env, Seq::empty()).1, c)));
    } else {
        lemma_arms_from(arms, j + 1, env, t.1, i, c);
    }
}

/// Soundness of the bounds a match's return paths give: when every arm
/// ends in a constructor, every arm is one of the paths, and the bound kept
/// for a constructor is at most what any single arm gives it.
pub proof fn lemma_every_arm_bounds(arms: Seq<(Pat, Expr)>, env: Seq<(Seq<char>, nat)>, out: Seq<(Seq<char>, nat)>, i: int, c: Seq<char>)
    requires
        0 <= i < arms.len(),
        tails_arms(arms, 0, env, out).0,
    ensures
        tails(arms[i].1, arm_env(arms[i].0@, arms.take(i), env), Seq::empty()).0,
        kept(tails(arms[i].1, arm_env(arms[i].0@, arms.take(i), env), Seq::empty()).1, c) matches Some(k)
            ==> kept(tails_arms(arms, 0, env, out).1, c) matches Some(m) && m <= k,
{
    lemma_arms_from(arms, 0, env, out, i, c);
}

/// The bounds above zero, in order.
pub open spec fn positive(out: Seq<(Seq<char>, nat)>) -> Seq<(Seq<char>, nat)>
    decreases out.len(),
{
    if out.len() == 0 {
        out
    } else if out.last().1 > 0 {
        positive(out.drop_last()).push(out.last())
    } else {
        positive(out.drop_last())
    }
}

/// The postconditions of the functions `fs`, in order: for each function
/// whose every tail position is a constructor application, and for which
/// some constructor's payload has a bound above zero on every path, its
/// name and those bounds.
pub open spec fn posts(fs: Seq<FunDecl>) -> Seq<(Seq<char>, Seq<(Seq<char>, nat)>)>
    decreases fs.len(),
{
    if fs.len() == 0 {
        Seq::empty()
    } else {
        let rest = posts(fs.drop_last());
        let f = fs.last();
        let (ok, out) = tails(f.body, Seq::empty(), Seq::empty());
        if ok && positive(out).len() > 0 {
            rest.push((f.name@, positive(out)))
        } else {
            rest
        }
    }
}

proof fn lemma_slot(out: Seq<(Seq<char>, nat)>, c: Seq<char>, i: int)
    requires
        -1 <= i < out.len(),
        forall|j: int| 0 <= j < out.len() && (i < 0 || j < i) ==> out[j].0 != c,
        i >= 0 ==> out[i].0 == c,
    ensures
        slot(out, c) == i,
    decreases out.len(),
{
    if out.len() > 0 {
        let d = out.drop_last();
        if i == out.len() - 1 {
            lemma_slot(d, c, -1);
        } else {
            assert forall|j: int| 0 <= j < d.len() && (i < 0 || j < i) implies d[j].0 != c by {
                assert(d[j] == out[j]);
            }
            if i >= 0 {
                assert(d[i] == out[i]);
            }
            lemma_slot(d, c, i);
        }
    }
}

fn bound_in(env: &Vec<(String, usize)>, n: &str) -> (r: usize)
    ensures
        r as nat == bound_of(bounds_view(env@), n@),
{
    let ghost ev = bounds_view(env@);
    let mut k = env.len();
    assert(ev.take(k as int) =~= ev);
    while k > 0
        invariant
            k <= env@.len(),
            ev == bounds_view(env@),
            bound_of(ev, n@) == bound_of(ev.take(k as int), n@),
        decreases k,
    {
        assert(ev.take(k as int).drop_last() =~= ev.take(k - 1));
        assert(ev.take(k as int).last() == ev[k - 1]);
        k -= 1;
        if str_eq(env[k].0.as_str(), n) {
            return env[k].1;
        }
    }
    0
}

fn drop_name(env: &Vec<(String, usize)>, n: &str) -> (r: Vec<(String, usize)>)
    ensures
        bounds_view(r@) == without(bounds_view(env@), n@),
{
    let ghost ev = bounds_view(env@);
    let mut out: Vec<(String, usize)> = Vec::new();
    assert(ev.take(0) =~= Seq::<(Seq<char>, nat)>::empty());
    for i in 0..env.len()
        invariant
            ev == bounds_view(env@),
            bounds_view(out@) == without(ev.take(i as int), n@),
    {
        assert(ev.take(i + 1).drop_last() =~= ev.take(i as int));
        assert(ev.take(i + 1).last() == ev[i as int]);
        if !str_eq(env[i].0.as_str(), n) {
            let e = (env[i].0.clone(), env[i].1);
            out.push(e);
            assert(bounds_view(out@) =~= without(ev.take(i as int), n@).push(ev[i as int]));
        }
    }
    assert(ev.take(env@.len() as int) =~= ev);
    out
}

fn drop_names(env: &Vec<(String, usize)>, ns: &Vec<String>) -> (r: Vec<(String, usize)>)
    ensures
        bounds_view(r@) == without_all(bounds_view(env@), ns@.map_values(|s: String| s@)),
{
    let ghost nv = ns@.map_values(|s: String| s@);
    let mut cur: Vec<(String, usize)> = Vec::new();
    for j in 0..env.len()
        invariant
            bounds_view(cur@) == bounds_view(env@).take(j as int),
    {
        let e = (env[j].0.clone(), env[j].1);
        let ghost prev = cur@;
        cur.push(e);
        assert(bounds_view(env@)[j as int] == (e.0@, e.1 as nat));
        assert(bounds_view(cur@) =~= bounds_view(prev).push((e.0@, e.1 as nat)));
        assert(bounds_view(env@).take(j + 1) =~= bounds_view(env@).take(j as int).push((e.0@, e.1 as nat)));
    }
    assert(bounds_view(env@).take(env@.len() as int) =~= bounds_view(env@));
    assert(nv.take(0) =~= Seq::<Seq<char>>::empty());
    for i in 0..ns.len()
        invariant
            nv == ns@.map_values(|s: String| s@),
            bounds_view(cur@) == without_all(bounds_view(env@), nv.take(i as int)),
    {
        assert(nv.take(i + 1).drop_last() =~= nv.take(i as int));
        assert(nv.take(i + 1).last() == ns@[i as int]@);
        cur = drop_name(&cur, ns[i].as_str());
    }
    assert(nv.take(ns@.len() as int) =~= nv);
    cur
}

fn note_min(out: &mut Vec<(String, usize)>, c: &str, k: usize)
    ensures
        bounds_view(final(out)@) == record_min(bounds_view(old(out)@), c@, k as nat),
{
    let ghost ov = bounds_view(out@);
    let n = out.len();
    for i in 0..n
        invariant
            n == out@.len(),
            ov == bounds_view(old(out)@),
            out@ == old(out)@,
            forall|j: int| 0 <= j < i ==> ov[j].0 != c@,
    {
        assert(ov[i as int] == (out@[i as int].0@, out@[i as int].1 as nat));
        if str_eq(out[i].0.as_str(), c) {
            proof {
                lemma_slot(ov, c@, i as int);
            }
            let m = if out[i].1 <= k { out[i].1 } else { k };
            let e = (out[i].0.clone(), m);
            out.set(i, e);
            assert(bounds_view(out@) =~= ov.update(i as int, (c@, m as nat)));
            return;
        }
    }
    proof {
        lemma_slot(ov, c@, -1);
    }
    out.push((crate::text::owned(c), k));
    assert(bounds_view(out@) =~= ov.push((c@, k as nat)));
}

fn flat_head(e: &Expr) -> (r: &Expr)
    ensures
        *r == flat(*e).0,
    decreases e,
{
    match &e.kind {
        ExprKind::App(f, _) => flat_head(f),
        _ => e,
    }
}

fn no_args(e: &Expr) -> (r: bool)
    ensures
        r == (flat(*e).1.len() == 0),
    decreases e,
{
    match &e.kind {
        ExprKind::App(f, args) => args.len() == 0 && no_args(f),
        _ => true,
    }
}

/// The only argument of an application, if it has exactly one.
fn one_arg(e: &Expr) -> (r: Option<&Expr>)
    ensures
        match r {
            Some(a) => flat(*e).1.len() == 1 && *a == flat(*e).1[0],
            None => flat(*e).1.len() != 1,
        },
    decreases e,
{
    match &e.kind {
        ExprKind::App(f, args) => {
            if args.len() == 1 && no_args(f) {
                assert(flat(**f).1 + args@ =~= args@);
                Some(&args[0])
            } else if args.len() == 0 {
                assert(flat(**f).1 + args@ =~= flat(**f).1);
                one_arg(f)
            } else {
                None
            }
        },
        _ => None,
    }
}

fn strip_borrows(e: &Expr) -> (r: &Expr)
    ensures
        *r == stripped(*e),
    decreases e,
{
    match &e.kind {
        ExprKind::Borrow(i) => strip_borrows(i),
        _ => e,
    }
}

fn name_in(e: &Expr) -> (r: Option<String>)
    ensures
        match r {
            Some(n) => name_of(*e) == Some(n@),
            None => name_of(*e) is None,
        },
{
    match &strip_borrows(e).kind {
        ExprKind::Var(n) | ExprKind::Ctor(n) => Some(n.clone()),
        _ => None,
    }
}

fn all_irrefutable(ps: &Vec<Pat>) -> (r: bool)
    ensures
        r == irrefutable_all(pats_view(ps@)),
{
    proof {
        lemma_pats_view(ps@);
    }
    for j in 0..ps.len()
        invariant
            pats_view(ps@).len() == ps@.len(),
            forall|q: int| 0 <= q < ps@.len() ==> #[trigger] pats_view(ps@)[q] == ps@[q]@,
            forall|q: int| 0 <= q < j ==> (#[trigger] pats_view(ps@)[q] is Wild || pats_view(ps@)[q] is Var),
    {
        let ok = match &ps[j] {
            Pat::Wild | Pat::Var(_) => true,
            _ => false,
        };
        if !ok {
            assert(!(pats_view(ps@)[j as int] is Wild || pats_view(ps@)[j as int] is Var));
            return false;
        }
    }
    true
}

fn excluded(arms: &Vec<(Pat, Expr)>, upto: usize, c: &str) -> (r: Vec<usize>)
    requires
        upto <= arms@.len(),
    ensures
        r@.map_values(|x: usize| x as nat) == excluded_lens(arms@.take(upto as int), c@),
{
    let mut out: Vec<usize> = Vec::new();
    assert(arms@.take(0) =~= Seq::<(Pat, Expr)>::empty());
    for i in 0..upto
        invariant
            upto <= arms@.len(),
            out@.map_values(|x: usize| x as nat) == excluded_lens(arms@.take(i as int), c@),
    {
        assert(arms@.take(i + 1).drop_last() =~= arms@.take(i as int));
        assert(arms@.take(i + 1).last() == arms@[i as int]);
        let ghost prev = out@;
        match &arms[i].0 {
            Pat::Ctor(d, qs) => {
                proof {
                    lemma_pats_view(qs@);
                }
                if str_eq(d.as_str(), c) && qs.len() == 1 {
                    match &qs[0] {
                        Pat::List(ps) => {
                            if all_irrefutable(ps) {
                                proof {
                                    lemma_pats_view(ps@);
                                }
                                out.push(ps.len());
                                assert(out@.map_values(|x: usize| x as nat) =~= prev.map_values(|x: usize| x as nat).push(
                                    ps@.len() as nat,
                                ));
                            }
                        },
                        _ => {},
                    }
                }
            },
            _ => {},
        }
    }
    out
}

fn env_in_arm(arms: &Vec<(Pat, Expr)>, i: usize, env: &Vec<(String, usize)>) -> (r: Vec<(String, usize)>)
    requires
        i < arms@.len(),
    ensures
        bounds_view(r@) == arm_env(arms@[i as int].0@, arms@.take(i as int), bounds_view(env@)),
{
    let p = &arms[i].0;
    let names = crate::infer::pat_names(p);
    proof {
        assert(crate::types::texts(names@) == names@.map_values(|s: String| s@));
    }
    let env1 = drop_names(env, &names);
    match p {
        Pat::Ctor(c, args) => {
            proof {
                lemma_pats_view(args@);
            }
            if args.len() == 1 {
                match &args[0] {
                    Pat::Var(n) => {
                        let lens = excluded(arms, i, c.as_str());
                        let k = crate::types::first_gap(&lens);
                        if k > 0 {
                            let mut env2 = drop_name(&env1, n.as_str());
                            env2.push((n.clone(), k));
                            assert(bounds_view(env2@) =~= without(bounds_view(env1@), n@).push((n@, k as nat)));
                            return env2;
                        }
                        env1
                    },
                    _ => env1,
                }
            } else {
                env1
            }
        },
        _ => env1,
    }
}

fn tails_of(e: &Expr, env: &Vec<(String, usize)>, out: &mut Vec<(String, usize)>) -> (r: bool)
    ensures
        (r, bounds_view(final(out)@)) == tails(*e, bounds_view(env@), bounds_view(old(out)@)),
    decreases e, 0int, 0int,
{
    match &e.kind {
        ExprKind::Bind(n, _, rest) | ExprKind::Let(n, _, rest) | ExprKind::Arena(n, rest) => {
            let env1 = drop_name(env, n.as_str());
            tails_of(rest, &env1, out)
        },
        ExprKind::Match(_, arms) => tails_of_arms(arms, env, out),
        _ => {
            let h = flat_head(e);
            match &h.kind {
                ExprKind::Ctor(c) => {
                    let k = match one_arg(e) {
                        Some(a) => match name_in(a) {
                            Some(n) => bound_in(env, n.as_str()),
                            None => 0,
                        },
                        None => 0,
                    };
                    note_min(out, c.as_str(), k);
                    true
                },
                _ => false,
            }
        },
    }
}

fn tails_of_arms(arms: &Vec<(Pat, Expr)>, env: &Vec<(String, usize)>, out: &mut Vec<(String, usize)>) -> (r: bool)
    ensures
        (r, bounds_view(final(out)@)) == tails_arms(arms@, 0, bounds_view(env@), bounds_view(old(out)@)),
    decreases arms, 1int, arms@.len(),
{
    let ghost ev = bounds_view(env@);
    let ghost whole = tails_arms(arms@, 0, ev, bounds_view(out@));
    for i in 0..arms.len()
        invariant
            ev == bounds_view(env@),
            whole == tails_arms(arms@, 0, ev, bounds_view(old(out)@)),
            whole == tails_arms(arms@, i as int, ev, bounds_view(out@)),
    {
        proof {
            assert(decreases_to!(arms => arms@[i as int]));
            assert(decreases_to!(arms@[i as int] => arms@[i as int].1));
        }
        let ghost before = bounds_view(out@);
        let env1 = env_in_arm(arms, i, env);
        let ok = tails_of(&arms[i].1, &env1, out);
        proof {
            let t = tails(arms@[i as int].1, arm_env(arms@[i as int].0@, arms@.take(i as int), ev), before);
            assert(t == (ok, bounds_view(out@)));
            assert(tails_arms(arms@, i as int, ev, before) == if t.0 {
                tails_arms(arms@, i + 1, ev, t.1)
            } else {
                (false, t.1)
            });
        }
        if !ok {
            return false;
        }
    }
    true
}

/// The postconditions the bodies of the module's functions show: for each
/// function whose every tail position is a constructor application, the
/// constructors whose payload has a length bound above zero on every path,
/// each with the least such bound; the functions in order, and a function
/// with none left out.
pub fn postconditions(m: &crate::ast::Module) -> (r: Vec<(String, Vec<(String, usize)>)>)
    ensures
        r@.map_values(|e: (String, Vec<(String, usize)>)| (e.0@, bounds_view(e.1@))) == posts(
            crate::ast::funs_of(m.decls@),
        ),
{
    let fs = m.funs();
    let ghost fv = crate::ast::funs_of(m.decls@);
    let mut res: Vec<(String, Vec<(String, usize)>)> = Vec::new();
    assert(fv.take(0) =~= Seq::<FunDecl>::empty());
    for i in 0..fs.len()
        invariant
            fv == fs@.map_values(|f: &FunDecl| *f),
            res@.map_values(|e: (String, Vec<(String, usize)>)| (e.0@, bounds_view(e.1@))) == posts(fv.take(i as int)),
    {
        assert(fv.take(i + 1).drop_last() =~= fv.take(i as int));
        assert(fv.take(i + 1).last() == fv[i as int]);
        assert(fv[i as int] == *fs@[i as int]);
        let f = fs[i];
        let empty: Vec<(String, usize)> = Vec::new();
        let mut out: Vec<(String, usize)> = Vec::new();
        assert(bounds_view(empty@) =~= Seq::<(Seq<char>, nat)>::empty());
        assert(bounds_view(out@) =~= Seq::<(Seq<char>, nat)>::empty());
        let ok = tails_of(&f.body, &empty, &mut out);
        if ok {
            let ghost ov = bounds_view(out@);
            let mut kept: Vec<(String, usize)> = Vec::new();
            assert(ov.take(0) =~= Seq::<(Seq<char>, nat)>::empty());
            for j in 0..out.len()
                invariant
                    ov == bounds_view(out@),
                    bounds_view(kept@) == positive(ov.take(j as int)),
            {
                assert(ov.take(j + 1).drop_last() =~= ov.take(j as int));
                assert(ov.take(j + 1).last() == ov[j as int]);
                if out[j].1 > 0 {
                    let e = (out[j].0.clone(), out[j].1);
                    kept.push(e);
                    assert(bounds_view(kept@) =~= positive(ov.take(j as int)).push(ov[j as int]));
                }
            }
            assert(ov.take(out@.len() as int) =~= ov);
            if kept.len() > 0 {
                let ghost prev = res@;
                let entry = (f.name.clone(), kept);
                res.push(entry);
                assert(res@.map_values(|e: (String, Vec<(String, usize)>)| (e.0@, bounds_view(e.1@))) =~= prev.map_values(
                    |e: (String, Vec<(String, usize)>)| (e.0@, bounds_view(e.1@)),
                ).push((f.name@, bounds_view(entry.1@))));
            }
        }
    }
    assert(fv.take(fs@.len() as int) =~= fv);
    res
}

} // verus!
