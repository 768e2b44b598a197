//! What ownership reads off written types and prelude signatures, and where
//! an owned value dies.

use vstd::prelude::*;
use crate::ast::{Ty, TyV, tys_view};
use crate::diag::{Diag, Span, opt_view};
use crate::types::{is_num, numeric};
use crate::text::{chars_of, decimal, is_ws, owned, push_decimal_wide, push_str, str_eq, trim_start, ws_prefix_len, skip_ws};

verus! {

/// One place an owned value stops being its scope's to free: the binder's
/// name, the span the drop goes after, and the function it is in.
#[derive(Clone, Debug)]
pub struct DropSite {
    pub name: String,
    pub at: Span,
    pub path: String,
    pub when: DropWhen,
}

/// Where the free goes relative to the expression at `at`.
#[derive(Clone, Copy, Debug, PartialEq, Eq, Structural)]
pub enum DropWhen {
    /// after the expression at `at`, which is the end of the value's scope
    ScopeEnd,
    /// before the parameter assignments of the self-tail-call at `at`
    BackEdge,
    /// after the call that borrowed the unnamed value computed at `at`: a
    /// borrow lives only for the call that lent it
    Temp,
}

/// A borrowed type, `&T`.
pub open spec fn is_ref(t: TyV) -> bool {
    t is Ref
}

/// For each parameter of a function type, whether it is a borrow.
pub open spec fn borrows_of(t: TyV) -> Seq<bool>
    decreases t,
{
    match t {
        TyV::Fun(a, b) => seq![is_ref(*a)] + borrows_of(*b),
        _ => Seq::empty(),
    }
}

pub fn ty_borrows(t: &Ty) -> (r: Vec<bool>)
    ensures
        r@ == borrows_of(t@),
    decreases t,
{
    match t {
        Ty::Fun(a, b) => {
            let r = match &**a {
                Ty::Ref(_) => true,
                _ => false,
            };
            assert(r == is_ref(a@));
            let mut rest = ty_borrows(b);
            let ghost before = rest@;
            rest.insert(0, r);
            assert(rest@ =~= seq![r] + before);
            rest
        },
        _ => {
            let v: Vec<bool> = Vec::new();
            assert(v@ =~= Seq::<bool>::empty());
            v
        },
    }
}

/// A parameter written in a signature is a borrow: its text, once leading
/// whitespace is gone, starts with `&`.
pub open spec fn written_borrow(seg: Seq<char>) -> bool {
    trim_start(seg).len() > 0 && trim_start(seg)[0] == '&'
}

/// The borrows of a written signature, from `i` on: split at each `->`
/// outside parentheses, the result dropped. `depth` never goes below zero.
pub open spec fn sig_walk(s: Seq<char>, i: int, depth: nat, start: int, out: Seq<bool>) -> Seq<bool>
    decreases s.len() - i,
{
    if i < 0 || i >= s.len() {
        out
    } else if s[i] == '(' {
        sig_walk(s, i + 1, depth + 1, start, out)
    } else if s[i] == ')' {
        sig_walk(s, i + 1, if depth > 0 { (depth - 1) as nat } else { 0 }, start, out)
    } else if s[i] == '-' && depth == 0 && i + 1 < s.len() && s[i + 1] == '>' {
        sig_walk(s, i + 2, depth, i + 2, out.push(written_borrow(s.subrange(start, i))))
    } else {
        sig_walk(s, i + 1, depth, start, out)
    }
}

pub open spec fn sig_borrows_of(sig: Seq<char>) -> Seq<bool> {
    sig_walk(sig, 0, 0, 0, Seq::empty())
}

pub fn sig_borrows(sig: &str) -> (r: Vec<bool>)
    ensures
        r@ == sig_borrows_of(sig@),
{
    let b = chars_of(sig);
    let mut depth: usize = 0;
    let mut start: usize = 0;
    let mut i: usize = 0;
    let mut out: Vec<bool> = Vec::new();
    while i < b.len()
        invariant
            b@ == sig@,
            start <= i <= b@.len(),
            depth <= i,
            sig_walk(b@, i as int, depth as nat, start as int, out@) == sig_borrows_of(sig@),
        decreases b@.len() - i,
    {
        let c = b[i];
        if c == '(' {
            depth += 1;
            i += 1;
        } else if c == ')' {
            if depth > 0 {
                depth -= 1;
            }
            i += 1;
        } else if c == '-' && depth == 0 && i + 1 < b.len() && b[i + 1] == '>' {
            let k = skip_ws(b.as_slice(), start, i);
            let amp = k < i && b[k] == '&';
            proof {
                let seg = b@.subrange(start as int, i as int);
                assert(trim_start(seg) == b@.subrange(k as int, i as int));
                if k < i {
                    assert(trim_start(seg)[0] == b@[k as int]);
                }
            }
            out.push(amp);
            i += 2;
            start = i;
        } else {
            i += 1;
        }
    }
    out
}

/// The scalar type names of written types, which are copied rather than
/// moved.
pub open spec fn copied_written(n: Seq<char>) -> bool {
    numeric(n) || n == "Bool"@ || n == "Char"@ || n == "Unit"@ || n == "Nat"@ || n == "Size"@ || n
        == "CStr"@ || n == "Ptr"@
}

/// Whether a value of a written type is moved rather than copied: scalars
/// and borrows are copied, everything with a payload is moved.
pub open spec fn affine(t: TyV) -> bool
    decreases t, 0int,
{
    match t {
        TyV::Ref(_) => false,
        TyV::Con(n, _) => !copied_written(n),
        TyV::Var(_) => true,
        TyV::Tuple(ts) => any_affine(ts),
        TyV::Fun(_, _) => false,
        TyV::Eff(_) => false,
    }
}

pub open spec fn any_affine(ts: Seq<TyV>) -> bool
    decreases ts, 1int,
{
    if ts.len() == 0 {
        false
    } else {
        any_affine(ts.drop_last()) || affine(ts.last())
    }
}

pub fn is_affine(t: &Ty) -> (r: bool)
    ensures
        r == affine(t@),
    decreases t, 0int,
{
    match t {
        Ty::Ref(_) => false,
        Ty::Con(n, _) => {
            let n = n.as_str();
            !(is_num(n) || str_eq(n, "Bool") || str_eq(n, "Char") || str_eq(n, "Unit") || str_eq(
                n,
                "Nat",
            ) || str_eq(n, "Size") || str_eq(n, "CStr") || str_eq(n, "Ptr"))
        },
        Ty::Var(_) => true,
        Ty::Tuple(ts) => any_is_affine(ts),
        Ty::Fun(_, _) | Ty::Eff(_) => false,
    }
}

fn any_is_affine(ts: &Vec<Ty>) -> (r: bool)
    ensures
        r == any_affine(tys_view(ts@)),
    decreases ts, 1int,
{
    let mut found = false;
    for i in 0..ts.len()
        invariant
            found == any_affine(tys_view(ts@.take(i as int))),
    {
        proof {
            assert(decreases_to!(ts => ts@[i as int]));
            assert(ts@.take(i + 1).drop_last() == ts@.take(i as int));
            let v1 = tys_view(ts@.take(i + 1));
            assert(v1.drop_last() == tys_view(ts@.take(i as int)));
            assert(v1.last() == ts@[i as int]@);
        }
        let a = is_affine(&ts[i]);
        found = found || a;
    }
    assert(ts@.take(ts@.len() as int) == ts@);
    found
}


// ------------------------------------------------------------ uses of owned values

/// How a position uses a value.
#[derive(Clone, Copy, PartialEq, Eq, Structural)]
pub enum Mode {
    /// The value is consumed by this position.
    Own,
    /// The value is only read for the duration of the expression.
    Borrow,
}

/// What the ownership pass knows of a function's owned values as it walks
/// its body: where each was moved, which were updated in place as the base
/// of a `{r with ...}`, and the reports so far.
pub struct Moves {
    pub moved: Vec<(String, Span)>,
    pub mutated: Vec<(String, Span)>,
    pub errors: Vec<Diag>,
    /// the semantic path of the function, for the reports
    pub path: String,
}

pub open spec fn spans_view(v: Seq<(String, Span)>) -> Seq<(Seq<char>, Span)> {
    v.map_values(|e: (String, Span)| (e.0@, e.1))
}

/// Where `n` was recorded, the latest entry.
pub open spec fn span_for(v: Seq<(Seq<char>, Span)>, n: Seq<char>) -> Option<Span>
    decreases v.len(),
{
    if v.len() == 0 {
        None
    } else if v.last().0 == n {
        Some(v.last().1)
    } else {
        span_for(v.drop_last(), n)
    }
}

/// `what` at the line and column (counted from one) of `s`.
pub open spec fn at_text(what: Seq<char>, s: Span) -> Seq<char> {
    what + " at line "@ + decimal(s.line as nat) + ", column "@ + decimal(s.col as nat + 1)
}

/// The report of a use of `n` at `span`: its code, its message, where
/// `when` happened to the value first, and the fix.
pub open spec fn use_report(code: Seq<char>, n: Seq<char>, span: Span, path: Seq<char>, what: Seq<char>, when: Seq<char>, first: Span, fix: Seq<char>, d: Diag) -> bool {
    &&& d.span == span
    &&& d.code@ == code
    &&& d.msg@ == "`"@ + n + what
    &&& opt_view(d.path) == Some(path)
    &&& opt_view(d.witness) == Some(at_text(when, first))
    &&& opt_view(d.fix) == Some(fix)
}

fn span_in(v: &Vec<(String, Span)>, n: &str) -> (r: Option<Span>)
    ensures
        r == span_for(spans_view(v@), n@),
{
    let ghost sv = spans_view(v@);
    let mut k = v.len();
    assert(sv.take(k as int) =~= sv);
    while k > 0
        invariant
            k <= v@.len(),
            sv == spans_view(v@),
            span_for(sv, n@) == span_for(sv.take(k as int), n@),
        decreases k,
    {
        assert(sv.take(k as int).drop_last() =~= sv.take(k - 1));
        assert(sv.take(k as int).last() == sv[k - 1]);
        k -= 1;
        if str_eq(v[k].0.as_str(), n) {
            return Some(v[k].1);
        }
    }
    None
}

fn holds_str(v: &[String], n: &str) -> (r: bool)
    ensures
        r == v@.map_values(|s: String| s@).contains(n@),
{
    for i in 0..v.len()
        invariant
            forall|j: int| 0 <= j < i ==> v@[j]@ != n@,
    {
        if str_eq(v[i].as_str(), n) {
            assert(v@.map_values(|s: String| s@)[i as int] == n@);
            return true;
        }
    }
    let ghost w = v@.map_values(|s: String| s@);
    assert forall|j: int| 0 <= j < w.len() implies #[trigger] w[j] != n@ by {
        assert(w[j] == v@[j]@);
    }
    false
}

/// A fix, with copying by `dup` offered too when the value is a `Str`.
pub open spec fn dup_fix(base: Seq<char>, n: Seq<char>, is_str: bool) -> Seq<char> {
    if is_str {
        base + ", or copy it with `dup "@ + n + "`"@
    } else {
        base
    }
}

fn push_dup(fix: &mut String, n: &str, is_str: bool)
    ensures
        final(fix)@ == dup_fix(old(fix)@, n@, is_str),
{
    if is_str {
        push_str(fix, ", or copy it with `dup ");
        push_str(fix, n);
        push_str(fix, "`");
    }
}

fn at_line(what: &str, s: Span) -> (r: String)
    ensures
        r@ == at_text(what@, s),
{
    let mut w = owned(what);
    push_str(&mut w, " at line ");
    push_decimal_wide(&mut w, s.line as u128);
    push_str(&mut w, ", column ");
    push_decimal_wide(&mut w, s.col as u128 + 1);
    proof {
        reveal_strlit(" at line ");
        reveal_strlit(", column ");
    }
    w
}

impl Moves {
    /// A function's walk before any use: nothing moved or updated.
    pub fn new(path: &str) -> (r: Moves)
        ensures
            r.moved@.len() == 0,
            r.mutated@.len() == 0,
            r.errors@.len() == 0,
            r.path@ == path@,
    {
        Moves { moved: Vec::new(), mutated: Vec::new(), errors: Vec::new(), path: owned(path) }
    }

    /// A use of the name `n` at `span`, where `owners` are the names whose
    /// values this function owns. A name not owned here is none of this
    /// pass's business. A borrow consumes nothing but must find the value
    /// still there: not updated in place, not moved. An owning use moves
    /// the value, and a second one is reported. `is_str` says whether the
    /// value is a `Str`: only then is copying it with `dup` (which is
    /// `&Str -> Str`) offered as a fix, since a fix must type-check.
    pub fn use_var(&mut self, n: &str, span: Span, mode: Mode, owners: &[String], is_str: bool)
        ensures
            final(self).path == old(self).path,
            final(self).mutated == old(self).mutated,
            final(self).errors@.take(old(self).errors@.len() as int) == old(self).errors@,
            ({
                let mv = spans_view(old(self).moved@);
                let mu = spans_view(old(self).mutated@);
                let p = old(self).path@;
                if !owners@.map_values(|s: String| s@).contains(n@) {
                    final(self).moved == old(self).moved && final(self).errors == old(self).errors
                } else if mode == Mode::Borrow {
                    &&& final(self).moved == old(self).moved
                    &&& match (span_for(mu, n@), span_for(mv, n@)) {
                        (Some(first), _) => final(self).errors@.len() == old(self).errors@.len() + 1 && use_report(
                            "own.use_after_update"@,
                            n@,
                            span,
                            p,
                            "` was updated in place"@,
                            "updated"@,
                            first,
                            "read `"@ + n@ + "` before the update"@,
                            final(self).errors@.last(),
                        ),
                        (None, Some(first)) => final(self).errors@.len() == old(self).errors@.len() + 1 && use_report(
                            "own.borrow_after_move"@,
                            n@,
                            span,
                            p,
                            "` was already moved"@,
                            "first moved"@,
                            first,
                            dup_fix("read `"@ + n@ + "` before the move"@, n@, is_str),
                            final(self).errors@.last(),
                        ),
                        (None, None) => final(self).errors == old(self).errors,
                    }
                } else {
                    match span_for(mv, n@) {
                        Some(first) => final(self).moved == old(self).moved && final(self).errors@.len()
                            == old(self).errors@.len() + 1 && use_report(
                            "own.use_after_move"@,
                            n@,
                            span,
                            p,
                            "` was already moved"@,
                            "first moved"@,
                            first,
                            dup_fix("borrow it here with `&"@ + n@ + "`"@, n@, is_str),
                            final(self).errors@.last(),
                        ),
                        None => spans_view(final(self).moved@) == mv.push((n@, span)) && final(self).errors
                            == old(self).errors,
                    }
                }
            }),
    {
        if !holds_str(owners, n) {
            return;
        }
        let ghost e0 = self.errors@;
        if mode == Mode::Borrow {
            match span_in(&self.mutated, n) {
                Some(first) => {
                    let mut msg = owned("`");
                    push_str(&mut msg, n);
                    push_str(&mut msg, "` was updated in place");
                    let w = at_line("updated", first);
                    let mut fix = owned("read `");
                    push_str(&mut fix, n);
                    push_str(&mut fix, "` before the update");
                    let d = Diag::error(span, "own.use_after_update", msg.as_str()).with_path(self.path.as_str()).with_witness(
                        w.as_str(),
                    ).with_fix(fix.as_str());
                    self.errors.push(d);
                    assert(self.errors@.take(e0.len() as int) =~= e0);
                    return;
                },
                None => {},
            }
            match span_in(&self.moved, n) {
                Some(first) => {
                    let mut msg = owned("`");
                    push_str(&mut msg, n);
                    push_str(&mut msg, "` was already moved");
                    let w = at_line("first moved", first);
                    let mut fix = owned("read `");
                    push_str(&mut fix, n);
                    push_str(&mut fix, "` before the move");
                    push_dup(&mut fix, n, is_str);
                    let d = Diag::error(span, "own.borrow_after_move", msg.as_str()).with_path(self.path.as_str()).with_witness(
                        w.as_str(),
                    ).with_fix(fix.as_str());
                    self.errors.push(d);
                    assert(self.errors@.take(e0.len() as int) =~= e0);
                },
                None => {
                    assert(self.errors@.take(e0.len() as int) =~= e0);
                },
            }
            return;
        }
        match span_in(&self.moved, n) {
            Some(first) => {
                let mut msg = owned("`");
                push_str(&mut msg, n);
                push_str(&mut msg, "` was already moved");
                let w = at_line("first moved", first);
                let mut fix = owned("borrow it here with `&");
                push_str(&mut fix, n);
                push_str(&mut fix, "`");
                push_dup(&mut fix, n, is_str);
                let d = Diag::error(span, "own.use_after_move", msg.as_str()).with_path(self.path.as_str()).with_witness(
                    w.as_str(),
                ).with_fix(fix.as_str());
                self.errors.push(d);
                assert(self.errors@.take(e0.len() as int) =~= e0);
            },
            None => {
                let ghost mv = spans_view(self.moved@);
                self.moved.push((owned(n), span));
                assert(spans_view(self.moved@) =~= mv.push((n@, span)));
                assert(self.errors@.take(e0.len() as int) =~= e0);
            },
        }
    }
}

} // verus!
