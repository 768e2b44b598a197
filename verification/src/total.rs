//! Termination measures as linear forms: a measure is
//! `sum(coefficient * atom) + constant`, where an atom is a parameter or an
//! opaque sub-expression keyed by how it is written.

use vstd::prelude::*;
use vstd::relations::{sorted_by, total_ordering};
use crate::text::{decimal, join, owned, push_decimal, push_joined, push_signed, push_str, signed_decimal};
use crate::ast::{Expr, ExprKind, ExprV, FunDecl, FunDeclV, KindV, Module, Pat, PatV, TyV, arms_view, exprs_view, fields_view, funs_of, kind_view};
use crate::diag::{Diag, Span, opt_view};
use crate::mangle::names;

verus! {

broadcast use vstd::seq_lib::group_to_multiset_ensures;

// ------------------------------------------------------------ text order

/// The order of texts `String` sorts by: character by character, a prefix
/// first.
pub open spec fn text_le(a: Seq<char>, b: Seq<char>) -> bool
    decreases a.len(),
{
    if a.len() == 0 {
        true
    } else if b.len() == 0 {
        false
    } else if a[0] != b[0] {
        (a[0] as int) < (b[0] as int)
    } else {
        text_le(a.drop_first(), b.drop_first())
    }
}

pub open spec fn text_order() -> spec_fn(Seq<char>, Seq<char>) -> bool {
    |a: Seq<char>, b: Seq<char>| text_le(a, b)
}

proof fn lemma_text_le_refl(a: Seq<char>)
    ensures
        text_le(a, a),
    decreases a.len(),
{
    if a.len() > 0 {
        lemma_text_le_refl(a.drop_first());
    }
}

proof fn lemma_text_le_antisym(a: Seq<char>, b: Seq<char>)
    requires
        text_le(a, b),
        text_le(b, a),
    ensures
        a == b,
    decreases a.len(),
{
    if a.len() > 0 && b.len() > 0 {
        lemma_text_le_antisym(a.drop_first(), b.drop_first());
        assert(a =~= seq![a[0]] + a.drop_first());
        assert(b =~= seq![b[0]] + b.drop_first());
    } else {
        assert(a.len() == 0 && b.len() == 0);
        assert(a =~= b);
    }
}

proof fn lemma_text_le_trans(a: Seq<char>, b: Seq<char>, c: Seq<char>)
    requires
        text_le(a, b),
        text_le(b, c),
    ensures
        text_le(a, c),
    decreases a.len(),
{
    if a.len() > 0 && b.len() > 0 && c.len() > 0 && a[0] == b[0] && b[0] == c[0] {
        lemma_text_le_trans(a.drop_first(), b.drop_first(), c.drop_first());
    }
}

proof fn lemma_text_le_total(a: Seq<char>, b: Seq<char>)
    ensures
        text_le(a, b) || text_le(b, a),
    decreases a.len(),
{
    if a.len() > 0 && b.len() > 0 && a[0] == b[0] {
        lemma_text_le_total(a.drop_first(), b.drop_first());
    }
}

/// Texts are totally ordered.
pub proof fn lemma_text_order_total()
    ensures
        total_ordering(text_order()),
{
    assert forall|a: Seq<char>| #[trigger] text_order()(a, a) by {
        lemma_text_le_refl(a);
    }
    assert forall|a: Seq<char>, b: Seq<char>|
        #[trigger] text_order()(a, b) && #[trigger] text_order()(b, a) implies a == b by {
        lemma_text_le_antisym(a, b);
    }
    assert forall|a: Seq<char>, b: Seq<char>, c: Seq<char>|
        #[trigger] text_order()(a, b) && #[trigger] text_order()(b, c) implies text_order()(a, c) by {
        lemma_text_le_trans(a, b, c);
    }
    assert forall|a: Seq<char>, b: Seq<char>| #[trigger] text_order()(a, b) || text_order()(b, a) by {
        lemma_text_le_total(a, b);
    }
}

fn text_le_exec(a: &str, b: &str) -> (r: bool)
    ensures
        r == text_le(a@, b@),
{
    let x = crate::text::chars_of(a);
    let y = crate::text::chars_of(b);
    let mut i: usize = 0;
    assert(a@.skip(0) == a@ && b@.skip(0) == b@);
    while i < x.len() && i < y.len() && x[i] == y[i]
        invariant
            x@ == a@,
            y@ == b@,
            i <= x@.len(),
            i <= y@.len(),
            text_le(a@, b@) == text_le(a@.skip(i as int), b@.skip(i as int)),
        decreases x@.len() - i,
    {
        assert(a@.skip(i as int).drop_first() == a@.skip(i + 1));
        assert(b@.skip(i as int).drop_first() == b@.skip(i + 1));
        i += 1;
    }
    if i == x.len() {
        true
    } else if i == y.len() {
        false
    } else {
        assert(a@.skip(i as int)[0] == x@[i as int]);
        assert(b@.skip(i as int)[0] == y@[i as int]);
        x[i] < y[i]
    }
}

/// `v` sorted by `text_le`.
pub(crate) fn sort_texts(v: Vec<String>) -> (r: Vec<String>)
    ensures
        r@.map_values(|s: String| s@) == v@.map_values(|s: String| s@).sort_by(text_order()),
{
    let ghost want = v@.map_values(|s: String| s@);
    proof {
        lemma_text_order_total();
    }
    let mut out: Vec<String> = Vec::new();
    let mut i: usize = 0;
    while i < v.len()
        invariant
            want == v@.map_values(|s: String| s@),
            i <= v@.len(),
            total_ordering(text_order()),
            sorted_by(out@.map_values(|s: String| s@), text_order()),
            out@.map_values(|s: String| s@).to_multiset() == want.take(i as int).to_multiset(),
        decreases v@.len() - i,
    {
        let x = v[i].clone();
        let ghost ov = out@.map_values(|s: String| s@);
        let mut j: usize = 0;
        while j < out.len() && text_le_exec(out[j].as_str(), x.as_str())
            invariant
                ov == out@.map_values(|s: String| s@),
                j <= out@.len(),
                forall|k: int| 0 <= k < j ==> text_le(#[trigger] ov[k], x@),
            decreases out@.len() - j,
        {
            j += 1;
        }
        proof {
            if j < out@.len() {
                lemma_text_le_total(ov[j as int], x@);
            }
        }
        out.insert(j, x);
        proof {
            let nv = out@.map_values(|s: String| s@);
            assert(nv =~= ov.insert(j as int, x@));
            assert forall|a: int, b: int| 0 <= a < b < nv.len() implies #[trigger] text_order()(nv[a], nv[b]) by {
                if b < j {
                } else if a < j && b == j {
                } else if a < j && b > j {
                    assert(text_le(ov[a], x@));
                    assert(text_le(x@, ov[j as int]));
                    lemma_text_le_trans(ov[a], x@, ov[j as int]);
                    if j as int == b - 1 {
                        lemma_text_le_refl(ov[j as int]);
                    } else {
                        assert(text_order()(ov[j as int], ov[b - 1]));
                    }
                    lemma_text_le_trans(ov[a], ov[j as int], ov[b - 1]);
                } else if a == j {
                    assert(text_le(x@, ov[j as int]));
                    if j as int == b - 1 {
                        lemma_text_le_refl(ov[j as int]);
                    } else {
                        assert(text_order()(ov[j as int], ov[b - 1]));
                    }
                    lemma_text_le_trans(x@, ov[j as int], ov[b - 1]);
                } else {
                    assert(text_order()(ov[a - 1], ov[b - 1]));
                }
            }
            assert(want.take(i + 1) =~= want.take(i as int).push(x@));
            vstd::seq_lib::to_multiset_insert(ov, j as int, x@);
        }
        i += 1;
    }
    proof {
        assert(want.take(v@.len() as int) =~= want);
        want.lemma_sort_by_ensures(text_order());
        vstd::seq_lib::lemma_sorted_unique(out@.map_values(|s: String| s@), want.sort_by(text_order()), text_order());
    }
    out
}


// ------------------------------------------------------------ linear forms

/// The coefficient of atom `a` among the terms `ts`: the sum of the
/// coefficients written for it (there is at most one).
pub open spec fn coeff_in(ts: Seq<(Seq<char>, int)>, a: Seq<char>) -> int
    decreases ts.len(),
{
    if ts.len() == 0 {
        0
    } else {
        coeff_in(ts.drop_last(), a) + if ts.last().0 == a {
            ts.last().1
        } else {
            0
        }
    }
}

/// No atom is written twice, and none with a zero coefficient.
pub open spec fn terms_ok(ts: Seq<(Seq<char>, int)>) -> bool {
    &&& forall|i: int, j: int| 0 <= i < j < ts.len() ==> #[trigger] ts[i].0 != #[trigger] ts[j].0
    &&& forall|i: int| 0 <= i < ts.len() ==> #[trigger] ts[i].1 != 0
}

proof fn lemma_coeff_absent(ts: Seq<(Seq<char>, int)>, a: Seq<char>)
    requires
        forall|i: int| 0 <= i < ts.len() ==> #[trigger] ts[i].0 != a,
    ensures
        coeff_in(ts, a) == 0,
    decreases ts.len(),
{
    if ts.len() > 0 {
        lemma_coeff_absent(ts.drop_last(), a);
    }
}

proof fn lemma_coeff_at(ts: Seq<(Seq<char>, int)>, i: int)
    requires
        0 <= i < ts.len(),
        terms_ok(ts),
    ensures
        coeff_in(ts, ts[i].0) == ts[i].1,
    decreases ts.len(),
{
    let a = ts[i].0;
    if i == ts.len() - 1 {
        assert forall|j: int| 0 <= j < ts.drop_last().len() implies #[trigger] ts.drop_last()[j].0 != a by {
            assert(ts[j].0 != ts[i].0);
        }
        lemma_coeff_absent(ts.drop_last(), a);
    } else {
        lemma_coeff_at(ts.drop_last(), i);
        assert(ts.last().0 != a);
    }
}

proof fn lemma_coeff_update(ts: Seq<(Seq<char>, int)>, i: int, v: int, a: Seq<char>)
    requires
        0 <= i < ts.len(),
    ensures
        coeff_in(ts.update(i, (ts[i].0, v)), a) == coeff_in(ts, a) + if ts[i].0 == a {
            v - ts[i].1
        } else {
            0
        },
    decreases ts.len(),
{
    let u = ts.update(i, (ts[i].0, v));
    if i == ts.len() - 1 {
        assert(u.drop_last() =~= ts.drop_last());
    } else {
        assert(u.drop_last() =~= ts.drop_last().update(i, (ts[i].0, v)));
        lemma_coeff_update(ts.drop_last(), i, v, a);
    }
}

proof fn lemma_coeff_remove(ts: Seq<(Seq<char>, int)>, i: int, a: Seq<char>)
    requires
        0 <= i < ts.len(),
    ensures
        coeff_in(ts.remove(i), a) == coeff_in(ts, a) - if ts[i].0 == a {
            ts[i].1
        } else {
            0
        },
    decreases ts.len(),
{
    if i == ts.len() - 1 {
        assert(ts.remove(i) =~= ts.drop_last());
    } else {
        assert(ts.remove(i).drop_last() =~= ts.drop_last().remove(i));
        assert(ts.remove(i).last() == ts.last());
        lemma_coeff_remove(ts.drop_last(), i, a);
    }
}


/// The 64-bit two's-complement value of `x`: what the form's arithmetic
/// leaves in an `i64` once it has wrapped.
pub open spec fn wrap(x: int) -> int {
    let r = x % 0x1_0000_0000_0000_0000int;
    if r > 0x7fff_ffff_ffff_ffffint {
        r - 0x1_0000_0000_0000_0000int
    } else {
        r
    }
}

proof fn lemma_wrap_fits(x: int)
    ensures
        fits_i64(wrap(x)),
{
    vstd::arithmetic::div_mod::lemma_fundamental_div_mod(x, 0x1_0000_0000_0000_0000int);
}

proof fn lemma_wrap_fixed(v: int)
    requires
        fits_i64(v),
    ensures
        wrap(v) == v,
{
    let m = 0x1_0000_0000_0000_0000int;
    if v < 0 {
        vstd::arithmetic::div_mod::lemma_mod_multiples_vanish(1, v, m);
        vstd::arithmetic::div_mod::lemma_small_mod((v + m) as nat, m as nat);
        assert(m * 1 + v == v + m);
    } else {
        vstd::arithmetic::div_mod::lemma_small_mod(v as nat, m as nat);
    }
}

proof fn lemma_wrap_shift(x: int, t: int)
    ensures
        wrap(x + 0x1_0000_0000_0000_0000int * t) == wrap(x),
{
    let m = 0x1_0000_0000_0000_0000int;
    vstd::arithmetic::div_mod::lemma_mod_multiples_vanish(t, x, m);
    assert(m * t + x == x + m * t);
}

/// `wrap(x)` differs from `x` by a whole number of wraps.
proof fn lemma_wrap_rep(x: int) -> (q: int)
    ensures
        wrap(x) == x - 0x1_0000_0000_0000_0000int * q,
{
    let m = 0x1_0000_0000_0000_0000int;
    vstd::arithmetic::div_mod::lemma_fundamental_div_mod(x, m);
    if x % m > 0x7fff_ffff_ffff_ffffint {
        x / m + 1
    } else {
        x / m
    }
}

/// Wrapping after every step gives what wrapping once at the end gives.
proof fn lemma_wrap_sum(x: int, y: int)
    ensures
        wrap(x + wrap(y)) == wrap(x + y),
{
    let q = lemma_wrap_rep(y);
    lemma_wrap_shift(x + y, -q);
    assert(x + y + 0x1_0000_0000_0000_0000int * (-q) == x + wrap(y));
}

proof fn lemma_wrap_product(b: int, k: int)
    ensures
        wrap(wrap(b) * k) == wrap(b * k),
{
    let m = 0x1_0000_0000_0000_0000int;
    let q = lemma_wrap_rep(b);
    assert((b - m * q) * k == b * k + m * (-(q * k))) by (nonlinear_arith);
    lemma_wrap_shift(b * k, -(q * k));
}

proof fn lemma_wrapping_add(x: i64, y: i64)
    ensures
        vstd::wrapping::i64_specs::wrapping_add(x, y) as int == wrap(x + y),
{
    let m = 0x1_0000_0000_0000_0000int;
    if x + y > i64::MAX {
        lemma_wrap_fixed(x + y - m);
        lemma_wrap_shift(x + y - m, 1);
    } else if x + y < i64::MIN {
        lemma_wrap_fixed(x + y + m);
        lemma_wrap_shift(x + y + m, -1);
    } else {
        lemma_wrap_fixed(x + y);
    }
}

proof fn lemma_wrapping_sub(x: i64, y: i64)
    ensures
        vstd::wrapping::i64_specs::wrapping_sub(x, y) as int == wrap(x - y),
{
    let m = 0x1_0000_0000_0000_0000int;
    if x - y > i64::MAX {
        lemma_wrap_fixed(x - y - m);
        lemma_wrap_shift(x - y - m, 1);
    } else if x - y < i64::MIN {
        lemma_wrap_fixed(x - y + m);
        lemma_wrap_shift(x - y + m, -1);
    } else {
        lemma_wrap_fixed(x - y);
    }
}

proof fn lemma_wrapping_mul(x: i64, y: i64)
    ensures
        vstd::wrapping::i64_specs::wrapping_mul(x, y) as int == wrap(x * y),
{
    lemma_wrap_fits(x * y);
}

proof fn lemma_coeff_fits(ts: Seq<(Seq<char>, int)>, a: Seq<char>)
    requires
        terms_ok(ts),
        forall|i: int| 0 <= i < ts.len() ==> fits_i64(#[trigger] ts[i].1),
    ensures
        fits_i64(coeff_in(ts, a)),
{
    if exists|i: int| 0 <= i < ts.len() && ts[i].0 == a {
        let i = choose|i: int| 0 <= i < ts.len() && ts[i].0 == a;
        lemma_coeff_at(ts, i);
    } else {
        lemma_coeff_absent(ts, a);
    }
}

pub open spec fn fits_i64(x: int) -> bool {
    i64::MIN <= x <= i64::MAX
}

/// A measure as `sum(coefficient * atom) + constant`. Atoms are parameters,
/// or opaque sub-expressions keyed by how they are written.
pub struct Lin {
    terms: Vec<(String, i64)>,
    c: i64,
}

impl Lin {
    /// The terms, as atoms and coefficients.
    pub closed spec fn terms_view(&self) -> Seq<(Seq<char>, int)> {
        self.terms@.map_values(|p: (String, i64)| (p.0@, p.1 as int))
    }

    /// The coefficient of atom `a`; zero for an atom the form does not hold.
    pub open spec fn coeff(&self, a: Seq<char>) -> int {
        coeff_in(self.terms_view(), a)
    }

    pub closed spec fn constant(&self) -> int {
        self.c as int
    }

    /// Every atom appears once, with a coefficient that is not zero.
    pub closed spec fn wf(&self) -> bool {
        terms_ok(self.terms_view())
    }

    /// The constant `n`, with no atoms: what an integer literal measures.
    pub fn num(n: i64) -> (l: Lin)
        ensures
            l.wf(),
            l.constant() == n,
            forall|a: Seq<char>| #[trigger] l.coeff(a) == 0,
    {
        let l = Lin { terms: Vec::new(), c: n };
        assert(l.terms_view() =~= Seq::<(Seq<char>, int)>::empty());
        l
    }

    /// The atom `name` with coefficient one.
    pub fn var(name: &str) -> (l: Lin)
        ensures
            l.wf(),
            l.constant() == 0,
            l.coeff(name@) == 1,
            forall|a: Seq<char>| a != name@ ==> l.coeff(a) == 0,
    {
        let mut terms: Vec<(String, i64)> = Vec::new();
        terms.push((owned(name), 1));
        let l = Lin { terms, c: 0 };
        assert(l.terms_view() =~= seq![(name@, 1int)]);
        assert(l.terms_view().drop_last() =~= Seq::<(Seq<char>, int)>::empty());
        assert forall|a: Seq<char>| #[trigger] l.coeff(a) == (if a == name@ { 1int } else { 0int }) by {
            assert(coeff_in(l.terms_view().drop_last(), a) == 0);
        }
        l
    }

    /// Adds `vk` to the coefficient of `a`, dropping the atom when it
    /// reaches zero.
    fn add_term(&mut self, a: &str, vk: i64)
        requires
            old(self).wf(),
        ensures
            final(self).wf(),
            final(self).c == old(self).c,
            forall|b: Seq<char>| #[trigger] final(self).coeff(b) == if b == a@ {
                wrap(old(self).coeff(b) + vk)
            } else {
                old(self).coeff(b)
            },
    {
        let ghost cur = self.terms_view();
            // where the atom already stands, if anywhere
            let mut at: Option<usize> = None;
            let mut i: usize = 0;
            while i < self.terms.len()
                invariant
                    cur == self.terms_view(),
                    i <= cur.len(),
                    match at {
                        Some(q) => q < cur.len() && cur[q as int].0 == a@,
                        None => forall|q: int| 0 <= q < i ==> #[trigger] cur[q].0 != a@,
                    },
                decreases cur.len() - i,
            {
                if at.is_none() && crate::text::str_eq(self.terms[i].0.as_str(), a) {
                    assert(cur[i as int].0 == a@);
                    at = Some(i);
                }
                i += 1;
            }
            match at {
                Some(i) => {
                    proof {
                        lemma_coeff_at(cur, i as int);
                    }
                    let nv = self.terms[i].1.wrapping_add(vk);
                    proof {
                        lemma_wrapping_add(self.terms@[i as int].1, vk);
                    }
                    if nv == 0 {
                        self.terms.remove(i);
                        proof {
                            assert(self.terms_view() =~= cur.remove(i as int));
                            let nw = self.terms_view();
                            assert forall|p: int, q: int| 0 <= p < q < nw.len() implies #[trigger] nw[p].0 != #[trigger] nw[q].0 by {
                                let pp = if p < i { p } else { p + 1 };
                                let qq = if q < i { q } else { q + 1 };
                                assert(nw[p] == cur[pp] && nw[q] == cur[qq]);
                            }
                            assert forall|p: int| 0 <= p < nw.len() implies #[trigger] nw[p].1 != 0 by {
                                let pp = if p < i { p } else { p + 1 };
                                assert(nw[p] == cur[pp]);
                            }
                            assert forall|b: Seq<char>| #[trigger] self.coeff(b) == if b == a@ { wrap(coeff_in(cur, b) + vk) } else { coeff_in(cur, b) } by {
                                lemma_coeff_remove(cur, i as int, b);
                            }
                        }
                    } else {
                        let name = self.terms[i].0.clone();
                        self.terms.set(i, (name, nv));
                        proof {
                            assert(self.terms_view() =~= cur.update(i as int, (cur[i as int].0, nv as int)));
                            let nw = self.terms_view();
                            assert forall|p: int, q: int| 0 <= p < q < nw.len() implies #[trigger] nw[p].0 != #[trigger] nw[q].0 by {
                                assert(nw[p].0 == cur[p].0 && nw[q].0 == cur[q].0);
                            }
                            assert forall|b: Seq<char>| #[trigger] self.coeff(b) == if b == a@ { wrap(coeff_in(cur, b) + vk) } else { coeff_in(cur, b) } by {
                                lemma_coeff_update(cur, i as int, nv as int, b);
                            }
                        }
                    }
                },
                None => {
                    proof {
                        lemma_coeff_absent(cur, a@);
                        lemma_wrap_fixed(vk as int);
                    }
                    if vk != 0 {
                        self.terms.push((owned(a), vk));
                        proof {
                            assert(self.terms_view().drop_last() =~= cur);
                            assert(self.terms_view() =~= cur.push((a@, vk as int)));
                        }
                    }
                },
            }
    }

    /// Adds `k` times `o`: every coefficient and the constant move by `k`
    /// times `o`'s, and an atom whose coefficient reaches zero is dropped.
    #[verifier::spinoff_prover]
    pub fn add_scaled(&mut self, o: &Lin, k: i64)
        requires
            old(self).wf(),
            o.wf(),
        ensures
            final(self).wf(),
            final(self).constant() == wrap(old(self).constant() + o.constant() * k),
            forall|a: Seq<char>| #[trigger] final(self).coeff(a) == wrap(old(self).coeff(a) + o.coeff(a) * k),
    {
        let ghost ov = o.terms_view();
        let ghost start = self.terms_view();
        proof {
            lemma_wrapping_mul(o.c, k);
        }
        let oc = o.c.wrapping_mul(k);
        proof {
            lemma_wrapping_add(self.c, oc);
            lemma_wrap_sum(self.c as int, o.c * k);
        }
        self.c = self.c.wrapping_add(oc);
        proof {
            assert forall|i: int| 0 <= i < start.len() implies fits_i64(#[trigger] start[i].1) by {
                assert(start[i] == (old(self).terms@[i].0@, old(self).terms@[i].1 as int));
            }
            assert(ov.take(0) =~= Seq::<(Seq<char>, int)>::empty());
            assert forall|a: Seq<char>| #[trigger] coeff_in(self.terms_view(), a) == wrap(coeff_in(start, a)
                + coeff_in(ov.take(0), a) * k) by {
                lemma_coeff_fits(start, a);
                lemma_wrap_fixed(coeff_in(start, a));
            }
        }
        for j in 0..o.terms.len()
            invariant
                ov == o.terms_view(),
                terms_ok(ov),
                terms_ok(self.terms_view()),
                self.c == wrap(old(self).c + o.c * k),
                start == old(self).terms_view(),
                terms_ok(start),
                forall|i: int| 0 <= i < start.len() ==> fits_i64(#[trigger] start[i].1),
                forall|a: Seq<char>| #[trigger] coeff_in(self.terms_view(), a) == wrap(coeff_in(start, a)
                    + coeff_in(ov.take(j as int), a) * k),
        {
            let ghost cur = self.terms_view();
            let a = o.terms[j].0.as_str();
            let v = o.terms[j].1;
            proof {
                assert(ov[j as int] == (a@, v as int));
                lemma_coeff_at(ov, j as int);
                assert(ov.take(j + 1).drop_last() == ov.take(j as int));
                assert forall|i: int| 0 <= i < ov.take(j as int).len() implies #[trigger] ov.take(j as int)[i].0 != a@ by {
                    assert(ov[i].0 != ov[j as int].0);
                }
                lemma_coeff_absent(ov.take(j as int), a@);
            }
            proof {
                lemma_wrapping_mul(v, k);
            }
            let vk = v.wrapping_mul(k);
            self.add_term(a, vk);
            proof {
                assert forall|b: Seq<char>| #[trigger] coeff_in(self.terms_view(), b) == wrap(coeff_in(start, b)
                    + coeff_in(ov.take(j + 1), b) * k) by {
                    assert(ov.take(j + 1).last() == ov[j as int]);
                    assert(ov.take(j + 1).drop_last() =~= ov.take(j as int));
                    assert(self.coeff(b) == coeff_in(self.terms_view(), b));
                    if b == a@ {
                        let x = coeff_in(ov.take(j as int), b);
                        assert(x == 0);
                        assert(x * k == 0) by (nonlinear_arith)
                            requires
                                x == 0,
                        ;
                        lemma_coeff_fits(start, b);
                        lemma_wrap_fixed(coeff_in(start, b));
                        assert(coeff_in(cur, b) == coeff_in(start, b));
                        assert(coeff_in(ov.take(j + 1), b) == v);
                        assert(coeff_in(self.terms_view(), b) == wrap(coeff_in(cur, b) + vk));
                        assert(vk as int == wrap(v * k));
                        lemma_wrap_sum(coeff_in(start, b), v * k);
                        assert(coeff_in(self.terms_view(), b) == wrap(coeff_in(start, b) + v * k));
                    } else {
                        assert(coeff_in(ov.take(j + 1), b) == coeff_in(ov.take(j as int), b));
                    }
                }
            }
        }
        proof {
            assert(ov.take(o.terms@.len() as int) =~= ov);
        }
    }

    /// The coefficient of atom `a`.
    pub fn get(&self, a: &str) -> (r: i64)
        requires
            self.wf(),
        ensures
            r as int == self.coeff(a@),
    {
        let ghost tv = self.terms_view();
        for i in 0..self.terms.len()
            invariant
                tv == self.terms_view(),
                terms_ok(tv),
                forall|q: int| 0 <= q < i ==> #[trigger] tv[q].0 != a@,
        {
            assert(tv[i as int] == (self.terms@[i as int].0@, self.terms@[i as int].1 as int));
            if crate::text::str_eq(self.terms[i].0.as_str(), a) {
                proof {
                    lemma_coeff_at(tv, i as int);
                }
                return self.terms[i].1;
            }
        }
        proof {
            lemma_coeff_absent(tv, a@);
        }
        0
    }

    /// The constant.
    pub fn constant_value(&self) -> (r: i64)
        ensures
            r as int == self.constant(),
    {
        self.c
    }

    /// Whether every atom with a coefficient is one of `ps`.
    pub fn atoms_within(&self, ps: &Vec<String>) -> (r: bool)
        requires
            self.wf(),
        ensures
            r == forall|a: Seq<char>| #[trigger] self.coeff(a) != 0 ==> crate::mangle::names(ps@).contains(a),
    {
        let ghost tv = self.terms_view();
        for i in 0..self.terms.len()
            invariant
                tv == self.terms_view(),
                terms_ok(tv),
                forall|q: int| 0 <= q < i ==> crate::mangle::names(ps@).contains(#[trigger] tv[q].0),
        {
            assert(tv[i as int] == (self.terms@[i as int].0@, self.terms@[i as int].1 as int));
            let mut found = false;
            for j in 0..ps.len()
                invariant
                    i < self.terms@.len(),
                    tv == self.terms_view(),
                    tv[i as int].0 == self.terms@[i as int].0@,
                    found == exists|q: int| 0 <= q < j && #[trigger] crate::mangle::names(ps@)[q] == tv[i as int].0,
            {
                assert(crate::mangle::names(ps@)[j as int] == ps@[j as int]@);
                if crate::text::str_eq(ps[j].as_str(), self.terms[i].0.as_str()) {
                    found = true;
                }
            }
            if !found {
                proof {
                    lemma_coeff_at(tv, i as int);
                    assert(self.coeff(tv[i as int].0) != 0);
                }
                return false;
            }
        }
        proof {
            assert forall|a: Seq<char>| #[trigger] self.coeff(a) != 0 implies crate::mangle::names(ps@).contains(a) by {
                if forall|q: int| 0 <= q < tv.len() ==> #[trigger] tv[q].0 != a {
                    lemma_coeff_absent(tv, a);
                }
            }
        }
        true
    }

    /// Whether no atom has a coefficient.
    pub fn is_level(&self) -> (r: bool)
        requires
            self.wf(),
        ensures
            r == forall|a: Seq<char>| #[trigger] self.coeff(a) == 0,
    {
        let ghost tv = self.terms_view();
        if self.terms.len() == 0 {
            proof {
                assert forall|a: Seq<char>| #[trigger] self.coeff(a) == 0 by {
                    lemma_coeff_absent(tv, a);
                }
            }
            true
        } else {
            proof {
                lemma_coeff_at(tv, 0);
                assert(self.coeff(tv[0].0) != 0);
            }
            false
        }
    }

    /// A copy, with the same coefficients and constant.
    pub fn copy(&self) -> (r: Lin)
        ensures
            r.wf() == self.wf(),
            r.constant() == self.constant(),
            forall|a: Seq<char>| #[trigger] r.coeff(a) == self.coeff(a),
    {
        let mut terms: Vec<(String, i64)> = Vec::new();
        for i in 0..self.terms.len()
            invariant
                terms@.len() == i,
                forall|q: int| 0 <= q < i ==> (#[trigger] terms@[q]).0@ == self.terms@[q].0@ && terms@[q].1 == self.terms@[q].1,
        {
            terms.push((self.terms[i].0.clone(), self.terms[i].1));
        }
        let r = Lin { terms, c: self.c };
        assert(r.terms_view() =~= self.terms_view());
        r
    }

    /// Takes `c` away from the constant.
    pub fn sub_constant(&mut self, c: i64)
        requires
            old(self).wf(),
        ensures
            final(self).wf(),
            final(self).constant() == wrap(old(self).constant() - c),
            forall|a: Seq<char>| #[trigger] final(self).coeff(a) == old(self).coeff(a),
    {
        proof {
            lemma_wrapping_sub(self.c, c);
        }
        self.c = self.c.wrapping_sub(c);
    }

    /// Every coefficient and the constant are 64-bit values.
    pub proof fn lemma_fits(&self)
        requires
            self.wf(),
        ensures
            fits_i64(self.constant()),
            forall|a: Seq<char>| #[trigger] fits_i64(self.coeff(a)),
    {
        let tv = self.terms_view();
        assert forall|i: int| 0 <= i < tv.len() implies fits_i64(#[trigger] tv[i].1) by {
            assert(tv[i] == (self.terms@[i].0@, self.terms@[i].1 as int));
        }
        assert forall|a: Seq<char>| #[trigger] fits_i64(self.coeff(a)) by {
            lemma_coeff_fits(tv, a);
        }
    }

    /// The terms as they print: `coefficient*atom`, in the order they are
    /// kept.
    pub closed spec fn shown_terms(&self) -> Seq<Seq<char>> {
        self.terms_view().map_values(|t: (Seq<char>, int)| term_text(t))
    }

    /// The terms kept are exactly the atoms with a coefficient, each with its
    /// coefficient; the order they are kept in is not part of the form.
    pub proof fn lemma_terms_are_the_coefficients(&self)
        requires
            self.wf(),
        ensures
            self.shown_terms().len() == self.terms_view().len(),
            forall|i: int| 0 <= i < self.shown_terms().len() ==> #[trigger] self.shown_terms()[i]
                == term_text((self.terms_view()[i].0, self.coeff(self.terms_view()[i].0))),
            forall|a: Seq<char>| #[trigger] self.coeff(a) != 0 ==> exists|i: int|
                0 <= i < self.terms_view().len() && self.terms_view()[i].0 == a,
    {
        assert forall|i: int| 0 <= i < self.shown_terms().len() implies #[trigger] self.shown_terms()[i]
            == term_text((self.terms_view()[i].0, self.coeff(self.terms_view()[i].0))) by {
            lemma_coeff_at(self.terms_view(), i);
        }
        assert forall|a: Seq<char>| #[trigger] self.coeff(a) != 0 implies exists|i: int|
            0 <= i < self.terms_view().len() && self.terms_view()[i].0 == a by {
            if !exists|i: int| 0 <= i < self.terms_view().len() && self.terms_view()[i].0 == a {
                lemma_coeff_absent(self.terms_view(), a);
            }
        }
    }

    /// `2*n + -1*k + 3`: the terms sorted as text, then the constant, which
    /// is left out when it is zero and there are terms.
    pub fn show(&self) -> (r: String)
        ensures
            r@ == lin_text(self.shown_terms().sort_by(text_order()), self.constant()),
    {
        let mut parts: Vec<String> = Vec::new();
        for i in 0..self.terms.len()
            invariant
                parts@.len() == i,
                parts@.map_values(|p: String| p@) == self.shown_terms().take(i as int),
        {
            let mut t = String::new();
            push_signed(&mut t, self.terms[i].1);
            push_str(&mut t, "*");
            push_str(&mut t, self.terms[i].0.as_str());
            assert(self.terms_view()[i as int] == (self.terms@[i as int].0@, self.terms@[i as int].1 as int));
            assert(self.shown_terms()[i as int] == t@);
            let ghost prev = parts@;
            parts.push(t);
            assert(forall|q: int| 0 <= q < i ==> parts@[q] == prev[q]);
            assert(parts@.map_values(|p: String| p@) =~= self.shown_terms().take(i + 1));
        }
        assert(self.shown_terms().take(self.terms@.len() as int) =~= self.shown_terms());
        let mut parts = sort_texts(parts);
        let ghost sorted = parts@.map_values(|p: String| p@);
        if self.c != 0 || parts.len() == 0 {
            let mut t = String::new();
            push_signed(&mut t, self.c);
            parts.push(t);
            assert(parts@.map_values(|p: String| p@) =~= sorted.push(signed_decimal(self.c as int)));
        }
        let mut s = String::new();
        push_joined(&mut s, parts.as_slice(), " + ");
        s
    }
}

impl Default for Lin {
    /// The zero form: no atoms, constant zero.
    fn default() -> (l: Lin)
        ensures
            l.wf(),
            l.constant() == 0,
            forall|a: Seq<char>| #[trigger] l.coeff(a) == 0,
    {
        Lin::num(0)
    }
}

/// Adding `k` times a form and then `-k` times the same form gives back the
/// coefficients and the constant one started from.
pub proof fn lemma_add_scaled_undone(l0: &Lin, l1: &Lin, l2: &Lin, o: &Lin, k: int)
    requires
        l0.wf(),
        l1.constant() == wrap(l0.constant() + o.constant() * k),
        forall|a: Seq<char>| #[trigger] l1.coeff(a) == wrap(l0.coeff(a) + o.coeff(a) * k),
        l2.constant() == wrap(l1.constant() + o.constant() * (-k)),
        forall|a: Seq<char>| #[trigger] l2.coeff(a) == wrap(l1.coeff(a) + o.coeff(a) * (-k)),
    ensures
        l2.constant() == l0.constant(),
        forall|a: Seq<char>| #[trigger] l2.coeff(a) == l0.coeff(a),
{
    assert(o.constant() * k + o.constant() * (-k) == 0) by (nonlinear_arith);
    lemma_wrap_sum(o.constant() * (-k), l0.constant() + o.constant() * k);
    lemma_wrap_fixed(l0.constant());
    assert forall|i: int| 0 <= i < l0.terms_view().len() implies fits_i64(#[trigger] l0.terms_view()[i].1) by {
        assert(l0.terms_view()[i] == (l0.terms@[i].0@, l0.terms@[i].1 as int));
    }
    assert forall|a: Seq<char>| #[trigger] l2.coeff(a) == l0.coeff(a) by {
        assert(l1.coeff(a) == wrap(l0.coeff(a) + o.coeff(a) * k));
        assert(o.coeff(a) * k + o.coeff(a) * (-k) == 0) by (nonlinear_arith);
        lemma_wrap_sum(o.coeff(a) * (-k), l0.coeff(a) + o.coeff(a) * k);
        lemma_coeff_fits(l0.terms_view(), a);
        lemma_wrap_fixed(l0.coeff(a));
    }
}

/// How one term prints.
pub open spec fn term_text(t: (Seq<char>, int)) -> Seq<char> {
    signed_decimal(t.1) + "*"@ + t.0
}

/// The terms, then the constant unless it is zero and there are terms,
/// joined by ` + `.
pub open spec fn lin_text(parts: Seq<Seq<char>>, c: int) -> Seq<char> {
    join(
        if c != 0 || parts.len() == 0 {
            parts.push(signed_decimal(c))
        } else {
            parts
        },
        " + "@,
    )
}

/// A lexicographic measure, its components printed and joined by `, `.
pub fn show_lex(m: &[Lin]) -> (r: String)
    ensures
        r@ == join(
            m@.map_values(|l: Lin| lin_text(l.shown_terms().sort_by(text_order()), l.constant())),
            ", "@,
        ),
{
    let mut parts: Vec<String> = Vec::new();
    for i in 0..m.len()
        invariant
            parts@.len() == i,
            parts@.map_values(|p: String| p@) == m@.take(i as int).map_values(
                |l: Lin| lin_text(l.shown_terms().sort_by(text_order()), l.constant()),
            ),
    {
        let t = m[i].show();
        let ghost prev = parts@;
        parts.push(t);
        assert(forall|q: int| 0 <= q < i ==> parts@[q] == prev[q]);
        proof {
            let f = |l: Lin| lin_text(l.shown_terms().sort_by(text_order()), l.constant());
            let ov = parts@.map_values(|p: String| p@);
            let want = m@.take(i + 1).map_values(f);
            let had = m@.take(i as int).map_values(f);
            assert forall|q: int| 0 <= q < i + 1 implies ov[q] == want[q] by {
                if q < i {
                    assert(prev.map_values(|p: String| p@)[q] == had[q]);
                } else {
                    assert(want[q] == f(m@[i as int]));
                }
            }
            assert(ov =~= want);
        }
        assert(parts@.map_values(|p: String| p@) =~= m@.take(i + 1).map_values(
            |l: Lin| lin_text(l.shown_terms().sort_by(text_order()), l.constant()),
        ));
    }
    assert(m@.take(m@.len() as int) =~= m@);
    let mut s = String::new();
    push_joined(&mut s, parts.as_slice(), ", ");
    s
}


// ------------------------------------------------------------ measures of expressions

/// The text Rust's derived `Debug` gives an expression form.
pub uninterp spec fn kind_debug(k: KindV) -> Seq<char>;

/// `{:?}` on an expression form; its text is named, not stated: what the
/// derived `Debug` prints for each form is left unsaid here.
#[verifier::external_body]
fn debug_text(k: &ExprKind) -> (r: String)
    ensures
        r@ == kind_debug(kind_view(*k)),
{
    format!("{:?}", k)
}

/// An expression as diagnostics print it, and as an opaque atom of a
/// measure is keyed: two sub-expressions share an atom only when they are
/// written the same way.
pub open spec fn show_e(e: ExprV) -> Seq<char>
    decreases e, 0int,
{
    match e.kind {
        KindV::Int(n) => decimal(n as nat),
        KindV::Var(n) => n,
        KindV::Ctor(n) => n,
        KindV::Neg(a) => "-"@ + show_e(*a),
        KindV::Binop(op, a, b) => "("@ + show_e(*a) + " "@ + op + " "@ + show_e(*b) + ")"@,
        KindV::Field(a, f) => show_e(*a) + "."@ + f,
        KindV::Borrow(a) => "&"@ + show_e(*a),
        KindV::App(h, xs) => "("@ + show_e(*h) + " "@ + join(shows_es(xs), " "@) + ")"@,
        _ => kind_debug(e.kind),
    }
}

pub open spec fn shows_es(xs: Seq<ExprV>) -> Seq<Seq<char>>
    decreases xs, 1int,
{
    if xs.len() == 0 {
        Seq::empty()
    } else {
        shows_es(xs.drop_last()).push(show_e(xs.last()))
    }
}

/// Prints `e` the way `show_e` says.
pub fn show(e: &Expr) -> (r: String)
    ensures
        r@ == show_e(e@),
    decreases e,
{
    proof {
        reveal_strlit("-");
        reveal_strlit("(");
        reveal_strlit(")");
        reveal_strlit(" ");
        reveal_strlit(".");
        reveal_strlit("&");
    }
    match &e.kind {
        ExprKind::Int(n) => {
            let mut s = String::new();
            push_decimal(&mut s, *n);
            assert(s@ =~= decimal(*n as nat));
            s
        },
        ExprKind::Var(n) => owned(n.as_str()),
        ExprKind::Ctor(n) => owned(n.as_str()),
        ExprKind::Neg(a) => {
            let mut s = owned("-");
            let t = show(a);
            push_str(&mut s, t.as_str());
            s
        },
        ExprKind::Binop(op, a, b) => {
            let mut s = owned("(");
            let t = show(a);
            push_str(&mut s, t.as_str());
            push_str(&mut s, " ");
            push_str(&mut s, op.as_str());
            push_str(&mut s, " ");
            let u = show(b);
            push_str(&mut s, u.as_str());
            push_str(&mut s, ")");
            s
        },
        ExprKind::Field(a, f) => {
            let mut s = show(a);
            push_str(&mut s, ".");
            push_str(&mut s, f.as_str());
            s
        },
        ExprKind::Borrow(a) => {
            let mut s = owned("&");
            let t = show(a);
            push_str(&mut s, t.as_str());
            s
        },
        ExprKind::App(h, xs) => {
            let parts = show_all(xs);
            let mut s = owned("(");
            let t = show(h);
            push_str(&mut s, t.as_str());
            push_str(&mut s, " ");
            push_joined(&mut s, parts.as_slice(), " ");
            push_str(&mut s, ")");
            s
        },
        _ => debug_text(&e.kind),
    }
}

fn show_all(xs: &Vec<Expr>) -> (r: Vec<String>)
    ensures
        r@.map_values(|p: String| p@) == shows_es(exprs_view(xs@)),
    decreases xs,
{
    let mut parts: Vec<String> = Vec::new();
    for i in 0..xs.len()
        invariant
            parts@.map_values(|p: String| p@) == shows_es(exprs_view(xs@.take(i as int))),
    {
        proof {
            assert(decreases_to!(xs => xs@[i as int]));
            assert(xs@.take(i + 1).drop_last() =~= xs@.take(i as int));
            assert(xs@.take(i + 1).last() == xs@[i as int]);
            let v = exprs_view(xs@.take(i as int));
            assert(exprs_view(xs@.take(i + 1)) == v.push(xs@[i as int]@));
            assert(v.push(xs@[i as int]@).drop_last() =~= v);
        }
        let t = show(&xs[i]);
        let ghost prev = parts@.map_values(|p: String| p@);
        parts.push(t);
        assert(parts@.map_values(|p: String| p@) =~= prev.push(t@));
    }
    assert(xs@.take(xs@.len() as int) =~= xs@);
    parts
}

/// The coefficient of atom `a` in the linear form of `e`, before it is
/// kept in 64 bits: `+`, `-` and a literal factor are linear; any other
/// expression is an atom of its own, keyed by its text.
pub open spec fn lin_k(e: ExprV, a: Seq<char>) -> int
    decreases e,
{
    match e.kind {
        KindV::Int(_) => 0,
        KindV::Var(n) => if a == n { 1 } else { 0 },
        KindV::Neg(x) => -lin_k(*x, a),
        KindV::Binop(op, x, y) => if op == "+"@ {
            lin_k(*x, a) + lin_k(*y, a)
        } else if op == "-"@ {
            lin_k(*x, a) - lin_k(*y, a)
        } else if op == "*"@ {
            match (x.kind, y.kind) {
                (KindV::Int(k), _) => k * lin_k(*y, a),
                (_, KindV::Int(k)) => k * lin_k(*x, a),
                _ => if a == show_e(e) { 1 } else { 0 },
            }
        } else if a == show_e(e) {
            1
        } else {
            0
        },
        _ => if a == show_e(e) { 1 } else { 0 },
    }
}

/// The constant of the linear form of `e`, before it is kept in 64 bits.
pub open spec fn lin_c(e: ExprV) -> int
    decreases e,
{
    match e.kind {
        KindV::Int(n) => n,
        KindV::Neg(x) => -lin_c(*x),
        KindV::Binop(op, x, y) => if op == "+"@ {
            lin_c(*x) + lin_c(*y)
        } else if op == "-"@ {
            lin_c(*x) - lin_c(*y)
        } else if op == "*"@ {
            match (x.kind, y.kind) {
                (KindV::Int(k), _) => k * lin_c(*y),
                (_, KindV::Int(k)) => k * lin_c(*x),
                _ => 0,
            }
        } else {
            0
        },
        _ => 0,
    }
}

/// A linear form: a coefficient for every atom, and a constant.
pub open spec fn form_of(e: ExprV) -> (spec_fn(Seq<char>) -> int, int) {
    (|a: Seq<char>| lin_k(e, a), lin_c(e))
}

/// `l` is the form `f`, kept in 64 bits.
pub open spec fn holds_form(l: Lin, f: (spec_fn(Seq<char>) -> int, int)) -> bool {
    &&& l.wf()
    &&& l.constant() == wrap(f.1)
    &&& forall|a: Seq<char>| #[trigger] l.coeff(a) == wrap((f.0)(a))
}

proof fn lemma_mul_expand(y: int, s: int, m: int, a: int, b: int)
    ensures
        (y - m * a) * (s - m * b) == y * s + m * (-(a * s) - y * b + m * a * b),
{
    let p = y - m * a;
    assert(p * (s - m * b) == p * s - p * (m * b)) by (nonlinear_arith);
    assert(p * s == y * s - (m * a) * s) by (nonlinear_arith)
        requires
            p == y - m * a,
    ;
    assert(p * (m * b) == y * (m * b) - (m * a) * (m * b)) by (nonlinear_arith)
        requires
            p == y - m * a,
    ;
    assert((m * a) * s == m * (a * s)) by (nonlinear_arith);
    assert(y * (m * b) == m * (y * b)) by (nonlinear_arith);
    assert((m * a) * (m * b) == m * (m * a * b)) by (nonlinear_arith);
    assert(m * (-(a * s) - y * b + m * a * b) == -(m * (a * s)) - m * (y * b) + m * (m * a * b)) by (nonlinear_arith);
}

proof fn lemma_wrap_step(x: int, y: int, s: int)
    ensures
        wrap(wrap(x) + wrap(y) * wrap(s)) == wrap(x + y * s),
{
    let m = 0x1_0000_0000_0000_0000int;
    let q1 = lemma_wrap_rep(x);
    let q2 = lemma_wrap_rep(y);
    let q3 = lemma_wrap_rep(s);
    lemma_mul_expand(y, s, m, q2, q3);
    lemma_wrap_shift(x + y * s, -q1 - q2 * s - y * q3 + m * q2 * q3);
}

/// `n` kept in 64 bits.
fn wrap_u64(n: u64) -> (r: i64)
    ensures
        r as int == wrap(n as int),
{
    if n <= 0x7fff_ffff_ffff_ffff {
        proof {
            lemma_wrap_fixed(n as int);
        }
        n as i64
    } else {
        let h = (n - 0x8000_0000_0000_0000) as i64;
        let r = h - 0x7fff_ffff_ffff_ffff - 1;
        proof {
            lemma_wrap_fixed(r as int);
            lemma_wrap_shift(r as int, 1);
        }
        r
    }
}

proof fn lemma_wrap_small()
    ensures
        wrap(0) == 0,
        wrap(1) == 1,
        wrap(-1) == -1,
{
    lemma_wrap_fixed(0);
    lemma_wrap_fixed(1);
    lemma_wrap_fixed(-1);
}

/// The linear form of `e`, kept in 64 bits.
pub fn lin(e: &Expr) -> (l: Lin)
    ensures
        holds_form(l, form_of(e@)),
    decreases e,
{
    proof {
        lemma_wrap_small();
        reveal_strlit("+");
        reveal_strlit("-");
        reveal_strlit("*");
    }
    match &e.kind {
        ExprKind::Int(n) => {
            let l = Lin::num(wrap_u64(*n));
            l
        },
        ExprKind::Var(n) => Lin::var(n.as_str()),
        ExprKind::Neg(x) => {
            let mut l = Lin::num(0);
            let lx = lin(x);
            l.add_scaled(&lx, -1);
            proof {
                lemma_wrap_step(0, lin_c(x@), -1);
                assert forall|a: Seq<char>| #[trigger] l.coeff(a) == wrap(lin_k(e@, a)) by {
                    lemma_wrap_step(0, lin_k(x@, a), -1);
                }
            }
            l
        },
        ExprKind::Binop(op, x, y) => {
            if crate::text::str_eq(op.as_str(), "+") || crate::text::str_eq(op.as_str(), "-") {
                let sg: i64 = if crate::text::str_eq(op.as_str(), "+") { 1 } else { -1 };
                let mut l = Lin::num(0);
                let lx = lin(x);
                l.add_scaled(&lx, 1);
                let ly = lin(y);
                l.add_scaled(&ly, sg);
                proof {
                    lemma_wrap_step(0, lin_c(x@), 1);
                    lemma_wrap_step(lin_c(x@), lin_c(y@), sg as int);
                    assert forall|a: Seq<char>| #[trigger] l.coeff(a) == wrap(lin_k(e@, a)) by {
                        lemma_wrap_step(0, lin_k(x@, a), 1);
                        lemma_wrap_step(lin_k(x@, a), lin_k(y@, a), sg as int);
                    }
                }
                l
            } else if crate::text::str_eq(op.as_str(), "*") {
                if let ExprKind::Int(k) = &x.kind {
                    let kk = wrap_u64(*k);
                    let mut l = Lin::num(0);
                    let ly = lin(y);
                    l.add_scaled(&ly, kk);
                    proof {
                        lemma_wrap_step(0, lin_c(y@), *k as int);
                        assert(lin_c(y@) * (*k as int) == (*k as int) * lin_c(y@)) by (nonlinear_arith);
                        assert forall|a: Seq<char>| #[trigger] l.coeff(a) == wrap(lin_k(e@, a)) by {
                            lemma_wrap_step(0, lin_k(y@, a), *k as int);
                            assert(lin_k(y@, a) * (*k as int) == (*k as int) * lin_k(y@, a)) by (nonlinear_arith);
                        }
                    }
                    l
                } else if let ExprKind::Int(k) = &y.kind {
                    let kk = wrap_u64(*k);
                    let mut l = Lin::num(0);
                    let lx = lin(x);
                    l.add_scaled(&lx, kk);
                    proof {
                        lemma_wrap_step(0, lin_c(x@), *k as int);
                        assert(lin_c(x@) * (*k as int) == (*k as int) * lin_c(x@)) by (nonlinear_arith);
                        assert forall|a: Seq<char>| #[trigger] l.coeff(a) == wrap(lin_k(e@, a)) by {
                            lemma_wrap_step(0, lin_k(x@, a), *k as int);
                            assert(lin_k(x@, a) * (*k as int) == (*k as int) * lin_k(x@, a)) by (nonlinear_arith);
                        }
                    }
                    l
                } else {
                    let t = show(e);
                    Lin::var(t.as_str())
                }
            } else {
                let t = show(e);
                Lin::var(t.as_str())
            }
        },
        _ => {
            let t = show(e);
            Lin::var(t.as_str())
        },
    }
}

/// The form a kept `Lin` holds.
pub open spec fn lin_form(l: Lin) -> (spec_fn(Seq<char>) -> int, int) {
    (|a: Seq<char>| l.coeff(a), l.constant())
}

/// The form of `e` as 64 bits keep it.
pub open spec fn wform(e: ExprV) -> (spec_fn(Seq<char>) -> int, int) {
    (|a: Seq<char>| wrap(lin_k(e, a)), wrap(lin_c(e)))
}

proof fn lemma_lin_form(l: Lin, e: ExprV)
    requires
        holds_form(l, form_of(e)),
    ensures
        lin_form(l) == wform(e),
{
    assert(lin_form(l).0 =~= wform(e).0);
}

/// `ps[j]` is the first parameter under its name.
pub open spec fn first_at(ps: Seq<Seq<char>>, j: int) -> bool {
    forall|i: int| 0 <= i < j ==> ps[i] != ps[j]
}

/// What the first `j` parameters contribute once the arguments stand in for
/// them, each scaled by the callee's coefficient for it.
pub open spec fn dsum_k(f: (spec_fn(Seq<char>) -> int, int), ps: Seq<Seq<char>>, args: Seq<ExprV>, j: int, a: Seq<char>) -> int
    decreases j,
{
    if j <= 0 {
        0
    } else {
        dsum_k(f, ps, args, j - 1, a) + if first_at(ps, j - 1) {
            wrap((f.0)(ps[j - 1])) * lin_k(args[j - 1], a)
        } else {
            0
        }
    }
}

pub open spec fn dsum_c(f: (spec_fn(Seq<char>) -> int, int), ps: Seq<Seq<char>>, args: Seq<ExprV>, j: int) -> int
    decreases j,
{
    if j <= 0 {
        0
    } else {
        dsum_c(f, ps, args, j - 1) + if first_at(ps, j - 1) {
            wrap((f.0)(ps[j - 1])) * lin_c(args[j - 1])
        } else {
            0
        }
    }
}

/// How far the callee's component sits below the caller's once the call
/// arguments stand in for the callee's parameters; `None` when the call is
/// partial, when the callee's form has an atom that is no parameter, or when
/// the other atoms do not cancel.
pub open spec fn delta_s(
    caller: (spec_fn(Seq<char>) -> int, int),
    callee: (spec_fn(Seq<char>) -> int, int),
    ps: Seq<Seq<char>>,
    args: Seq<ExprV>,
) -> Option<int> {
    if args.len() != ps.len() {
        None
    } else if !(forall|a: Seq<char>| wrap((callee.0)(a)) != 0 ==> ps.contains(a)) {
        None
    } else if forall|a: Seq<char>| wrap((caller.0)(a) - dsum_k(callee, ps, args, ps.len() as int, a)) == 0 {
        Some(wrap(caller.1 - dsum_c(callee, ps, args, ps.len() as int) - callee.1))
    } else {
        None
    }
}

fn first_exec(ps: &Vec<String>, j: usize) -> (r: bool)
    requires
        j < ps@.len(),
    ensures
        r == first_at(crate::mangle::names(ps@), j as int),
{
    let ghost nv = crate::mangle::names(ps@);
    for i in 0..j
        invariant
            j < ps@.len(),
            nv == crate::mangle::names(ps@),
            forall|q: int| 0 <= q < i ==> nv[q] != nv[j as int],
    {
        if crate::text::str_eq(ps[i].as_str(), ps[j].as_str()) {
            assert(nv[i as int] == nv[j as int]);
            return false;
        }
    }
    true
}

/// How far the callee's component sits below the caller's at a call.
pub fn delta(caller: &Lin, callee: &Lin, ps: &Vec<String>, args: &Vec<Expr>) -> (r: Option<i64>)
    requires
        caller.wf(),
        callee.wf(),
    ensures
        match r {
            Some(d) => delta_s(lin_form(*caller), lin_form(*callee), crate::mangle::names(ps@), exprs_view(args@))
                == Some(d as int),
            None => delta_s(lin_form(*caller), lin_form(*callee), crate::mangle::names(ps@), exprs_view(args@)) is None,
        },
{
    let ghost pv = crate::mangle::names(ps@);
    let ghost av = exprs_view(args@);
    let ghost fc = lin_form(*caller);
    let ghost fe = lin_form(*callee);
    proof {
        crate::ast::lemma_exprs_view(args@);
        caller.lemma_fits();
        callee.lemma_fits();
    }
    if args.len() != ps.len() {
        return None;
    }
    if !callee.atoms_within(ps) {
        proof {
            let a = choose|a: Seq<char>| #[trigger] callee.coeff(a) != 0 && !pv.contains(a);
            lemma_wrap_fixed(callee.coeff(a));
        }
        return None;
    }
    proof {
        assert forall|a: Seq<char>| wrap((fe.0)(a)) != 0 implies pv.contains(a) by {
            lemma_wrap_fixed(callee.coeff(a));
        }
    }
    let mut d = caller.copy();
    proof {
        lemma_wrap_fixed(caller.constant());
        assert forall|a: Seq<char>| #[trigger] d.coeff(a) == wrap(caller.coeff(a) - dsum_k(fe, pv, av, 0, a)) by {
            lemma_wrap_fixed(caller.coeff(a));
        }
    }
    for j in 0..ps.len()
        invariant
            pv == crate::mangle::names(ps@),
            av == exprs_view(args@),
            av.len() == ps@.len(),
            fe == lin_form(*callee),
            callee.wf(),
            d.wf(),
            d.constant() == wrap(caller.constant() - dsum_c(fe, pv, av, j as int)),
            forall|a: Seq<char>| #[trigger] d.coeff(a) == wrap(caller.coeff(a) - dsum_k(fe, pv, av, j as int, a)),
    {
        if first_exec(ps, j) {
            let kc = callee.get(ps[j].as_str());
            proof {
                assert(pv[j as int] == ps@[j as int]@);
                lemma_wrap_fixed(kc as int);
                lemma_wrapping_sub(0, kc);
                crate::ast::lemma_exprs_view(args@);
            }
            let la = lin(&args[j]);
            let nk = 0i64.wrapping_sub(kc);
            let ghost d0 = d;
            d.add_scaled(&la, nk);
            proof {
                let ar = av[j as int];
                assert(ar == args@[j as int]@);
                let s0 = dsum_c(fe, pv, av, j as int);
                lemma_wrap_step(caller.constant() - s0, lin_c(ar), -kc);
                assert(lin_c(ar) * (-kc) == -(kc * lin_c(ar))) by (nonlinear_arith);
                assert forall|a: Seq<char>| #[trigger] d.coeff(a) == wrap(caller.coeff(a) - dsum_k(fe, pv, av, j + 1, a)) by {
                    let s = dsum_k(fe, pv, av, j as int, a);
                    assert(d0.coeff(a) == wrap(caller.coeff(a) - s));
                    lemma_wrap_step(caller.coeff(a) - s, lin_k(ar, a), -kc);
                    assert(lin_k(ar, a) * (-kc) == -(kc * lin_k(ar, a))) by (nonlinear_arith);
                }
            }
        } else {
            proof {
                assert forall|a: Seq<char>| #[trigger] d.coeff(a) == wrap(caller.coeff(a) - dsum_k(fe, pv, av, j + 1, a)) by {
                    assert(dsum_k(fe, pv, av, j + 1, a) == dsum_k(fe, pv, av, j as int, a));
                }
            }
        }
    }
    let cc = callee.constant_value();
    let ghost d1 = d;
    d.sub_constant(cc);
    let ghost x = caller.constant() - dsum_c(fe, pv, av, ps@.len() as int);
    proof {
        lemma_wrap_sum(-callee.constant(), x);
        assert(d.constant() == wrap(d1.constant() - cc));
        assert(d1.constant() - cc == -callee.constant() + wrap(x));
        assert(-callee.constant() + x == (fc.1) - dsum_c(fe, pv, av, pv.len() as int) - (fe.1));
    }
    if d.is_level() {
        proof {
            assert forall|a: Seq<char>| wrap((fc.0)(a) - dsum_k(fe, pv, av, pv.len() as int, a)) == 0 by {
                assert(d.coeff(a) == 0);
                assert(d1.coeff(a) == d.coeff(a));
            }
        }
        Some(d.constant_value())
    } else {
        proof {
            let a = choose|a: Seq<char>| #[trigger] d.coeff(a) != 0;
            assert(d1.coeff(a) == d.coeff(a));
            assert(wrap((fc.0)(a) - dsum_k(fe, pv, av, pv.len() as int, a)) != 0);
        }
        None
    }
}

/// The forms kept `Lin`s hold.
pub open spec fn lin_forms(ls: Seq<Lin>) -> Seq<(spec_fn(Seq<char>) -> int, int)> {
    ls.map_values(|l: Lin| lin_form(l))
}

/// Lexicographic order from component `i` on: one component drops by a
/// positive amount and none before it grows.
pub open spec fn lex_from(
    mi: Seq<(spec_fn(Seq<char>) -> int, int)>,
    mj: Seq<(spec_fn(Seq<char>) -> int, int)>,
    ps: Seq<Seq<char>>,
    args: Seq<ExprV>,
    i: int,
) -> bool
    decreases mi.len() - i,
{
    if i < 0 || i >= mi.len() {
        false
    } else {
        match delta_s(mi[i], mj[i], ps, args) {
            Some(d) => if d > 0 {
                true
            } else if d == 0 {
                lex_from(mi, mj, ps, args, i + 1)
            } else {
                false
            },
            None => false,
        }
    }
}

/// The callee's measure is below the caller's at a call; measures of
/// different widths are not comparable.
pub open spec fn lex_s(
    mi: Seq<(spec_fn(Seq<char>) -> int, int)>,
    mj: Seq<(spec_fn(Seq<char>) -> int, int)>,
    ps: Seq<Seq<char>>,
    args: Seq<ExprV>,
) -> bool {
    mi.len() == mj.len() && lex_from(mi, mj, ps, args, 0)
}

pub open spec fn all_wf(ls: Seq<Lin>) -> bool {
    forall|i: int| 0 <= i < ls.len() ==> (#[trigger] ls[i]).wf()
}

/// Whether the callee's measure is below the caller's at a call.
pub fn lex_decreases(mi: &Vec<Lin>, mj: &Vec<Lin>, ps: &Vec<String>, args: &Vec<Expr>) -> (r: bool)
    requires
        all_wf(mi@),
        all_wf(mj@),
    ensures
        r == lex_s(lin_forms(mi@), lin_forms(mj@), crate::mangle::names(ps@), exprs_view(args@)),
{
    let ghost fi = lin_forms(mi@);
    let ghost fj = lin_forms(mj@);
    if mi.len() != mj.len() {
        return false;
    }
    let mut i: usize = 0;
    while i < mi.len()
        invariant
            fi == lin_forms(mi@),
            fj == lin_forms(mj@),
            mi@.len() == mj@.len(),
            all_wf(mi@),
            all_wf(mj@),
            i <= mi@.len(),
            lex_s(fi, fj, crate::mangle::names(ps@), exprs_view(args@)) == lex_from(fi, fj, crate::mangle::names(ps@), exprs_view(args@), i as int),
        decreases mi@.len() - i,
    {
        assert(fi[i as int] == lin_form(mi@[i as int]));
        assert(fj[i as int] == lin_form(mj@[i as int]));
        match delta(&mi[i], &mj[i], ps, args) {
            Some(d) => {
                if d > 0 {
                    return true;
                } else if d == 0 {
                    i += 1;
                } else {
                    return false;
                }
            },
            None => {
                return false;
            },
        }
    }
    false
}


// ------------------------------------------------------------ calls

/// A way a body reaches a module function: a direct call with its
/// arguments, or a mention of the name as a value, with none.
pub struct Call {
    pub callee: usize,
    pub args: Vec<Expr>,
    pub span: Span,
}

pub open spec fn call_view(c: Call) -> (int, Seq<ExprV>, Span) {
    (c.callee as int, exprs_view(c.args@), c.span)
}

pub open spec fn calls_view(cs: Seq<Call>) -> Seq<(int, Seq<ExprV>, Span)> {
    cs.map_values(|c: Call| call_view(c))
}

/// The function a name denotes: the last one declared under it.
pub open spec fn index_from(ns: Seq<Seq<char>>, n: Seq<char>, j: int) -> Option<int>
    decreases j,
{
    if j <= 0 {
        None
    } else if ns[j - 1] == n {
        Some(j - 1)
    } else {
        index_from(ns, n, j - 1)
    }
}

pub open spec fn index_in(ns: Seq<Seq<char>>, n: Seq<char>) -> Option<int> {
    index_from(ns, n, ns.len() as int)
}

/// Every way `e` reaches one of the functions named `ns`, in evaluation
/// order: a saturated call once, with its arguments, and a name used as a
/// value, without.
pub open spec fn calls_e(e: ExprV, ns: Seq<Seq<char>>) -> Seq<(int, Seq<ExprV>, Span)>
    decreases e, 0int,
{
    match e.kind {
        KindV::App(h, xs) => match h.kind {
            KindV::Var(n) => match index_in(ns, n) {
                Some(i) => seq![(i, xs, e.span)] + calls_es(xs, ns),
                None => calls_e(*h, ns) + calls_es(xs, ns),
            },
            _ => calls_e(*h, ns) + calls_es(xs, ns),
        },
        KindV::Var(n) => match index_in(ns, n) {
            Some(i) => seq![(i, Seq::empty(), e.span)],
            None => Seq::empty(),
        },
        KindV::Binop(_, a, b) => calls_e(*a, ns) + calls_e(*b, ns),
        KindV::Bind(_, a, b) => calls_e(*a, ns) + calls_e(*b, ns),
        KindV::Let(_, a, b) => calls_e(*a, ns) + calls_e(*b, ns),
        KindV::Neg(a) => calls_e(*a, ns),
        KindV::Not(a) => calls_e(*a, ns),
        KindV::Borrow(a) => calls_e(*a, ns),
        KindV::Field(a, _) => calls_e(*a, ns),
        KindV::Lambda(_, a) => calls_e(*a, ns),
        KindV::Arena(_, a) => calls_e(*a, ns),
        KindV::Match(x, arms) => calls_e(*x, ns) + calls_arms(arms, ns),
        KindV::Record(base, fs) => match base {
            Some(b) => calls_e(*b, ns) + calls_fs(fs, ns),
            None => calls_fs(fs, ns),
        },
        KindV::Tuple(xs) => calls_es(xs, ns),
        KindV::List(xs) => calls_es(xs, ns),
        _ => Seq::empty(),
    }
}

pub open spec fn calls_es(xs: Seq<ExprV>, ns: Seq<Seq<char>>) -> Seq<(int, Seq<ExprV>, Span)>
    decreases xs, 1int,
{
    if xs.len() == 0 {
        Seq::empty()
    } else {
        calls_es(xs.drop_last(), ns) + calls_e(xs.last(), ns)
    }
}

pub open spec fn calls_arms(xs: Seq<(PatV, ExprV)>, ns: Seq<Seq<char>>) -> Seq<(int, Seq<ExprV>, Span)>
    decreases xs, 1int,
{
    if xs.len() == 0 {
        Seq::empty()
    } else {
        calls_arms(xs.drop_last(), ns) + calls_e(xs.last().1, ns)
    }
}

pub open spec fn calls_fs(xs: Seq<(Seq<char>, ExprV)>, ns: Seq<Seq<char>>) -> Seq<(int, Seq<ExprV>, Span)>
    decreases xs, 1int,
{
    if xs.len() == 0 {
        Seq::empty()
    } else {
        calls_fs(xs.drop_last(), ns) + calls_e(xs.last().1, ns)
    }
}

proof fn lemma_calls_es_has(xs: Seq<ExprV>, ns: Seq<Seq<char>>, j: int)
    requires
        0 <= j < xs.len(),
    ensures
        forall|q: (int, Seq<ExprV>, Span)| calls_e(xs[j], ns).contains(q) ==> #[trigger] calls_es(xs, ns).contains(q),
    decreases xs.len(),
{
    crate::ast::lemma_in_concat(calls_es(xs.drop_last(), ns), calls_e(xs.last(), ns));
    if j < xs.len() - 1 {
        lemma_calls_es_has(xs.drop_last(), ns, j);
        assert(xs.drop_last()[j] == xs[j]);
    }
}

proof fn lemma_calls_arms_has(xs: Seq<(PatV, ExprV)>, ns: Seq<Seq<char>>, j: int)
    requires
        0 <= j < xs.len(),
    ensures
        forall|q: (int, Seq<ExprV>, Span)| calls_e(xs[j].1, ns).contains(q) ==> #[trigger] calls_arms(xs, ns).contains(q),
    decreases xs.len(),
{
    crate::ast::lemma_in_concat(calls_arms(xs.drop_last(), ns), calls_e(xs.last().1, ns));
    if j < xs.len() - 1 {
        lemma_calls_arms_has(xs.drop_last(), ns, j);
        assert(xs.drop_last()[j] == xs[j]);
    }
}

proof fn lemma_calls_fs_has(xs: Seq<(Seq<char>, ExprV)>, ns: Seq<Seq<char>>, j: int)
    requires
        0 <= j < xs.len(),
    ensures
        forall|q: (int, Seq<ExprV>, Span)| calls_e(xs[j].1, ns).contains(q) ==> #[trigger] calls_fs(xs, ns).contains(q),
    decreases xs.len(),
{
    crate::ast::lemma_in_concat(calls_fs(xs.drop_last(), ns), calls_e(xs.last().1, ns));
    if j < xs.len() - 1 {
        lemma_calls_fs_has(xs.drop_last(), ns, j);
        assert(xs.drop_last()[j] == xs[j]);
    }
}

/// `e` applies a name of `ns` to arguments.
pub open spec fn is_saturated_call(e: ExprV, ns: Seq<Seq<char>>) -> bool {
    match e.kind {
        KindV::App(h, _) => match h.kind {
            KindV::Var(n) => index_in(ns, n) is Some,
            _ => false,
        },
        _ => false,
    }
}

/// A name of `ns` applied to arguments is one saturated call, with those
/// arguments and the application's span.
pub proof fn lemma_saturated_call_is_seen(e: ExprV, ns: Seq<Seq<char>>)
    requires
        is_saturated_call(e, ns),
    ensures
        ({
            let (h, xs) = (e.kind->App_0, e.kind->App_1);
            calls_e(e, ns).contains((index_in(ns, h.kind->Var_0).unwrap(), xs, e.span))
        }),
{
    let (h, xs) = (e.kind->App_0, e.kind->App_1);
    let i = index_in(ns, h.kind->Var_0).unwrap();
    assert(calls_e(e, ns)[0] == (i, xs, e.span));
}

/// Every call that a sub-expression makes, `e` makes too: in the head and
/// every argument of an application, both sides of an operator, the value
/// and the rest of a binding, the scrutinee and every arm of a match, and
/// so on. The one exception is the head of a saturated call, which is not
/// a separate use of the name but the call itself.
pub proof fn lemma_calls_reach_every_child(e: ExprV, ns: Seq<Seq<char>>)
    ensures
        forall|c: int, q: (int, Seq<ExprV>, Span)|
            0 <= c < crate::ast::children_v(e).len()
                && !(c == 0 && is_saturated_call(e, ns))
                && #[trigger] calls_e(crate::ast::children_v(e)[c], ns).contains(q)
                ==> calls_e(e, ns).contains(q),
{
    let ch = crate::ast::children_v(e);
    assert forall|c: int, q: (int, Seq<ExprV>, Span)|
        0 <= c < ch.len()
            && !(c == 0 && is_saturated_call(e, ns))
            && #[trigger] calls_e(ch[c], ns).contains(q)
        implies calls_e(e, ns).contains(q) by {
        match e.kind {
            KindV::App(h, xs) => {
                if is_saturated_call(e, ns) {
                    let i = index_in(ns, h.kind->Var_0).unwrap();
                    assert(calls_e(e, ns) == seq![(i, xs, e.span)] + calls_es(xs, ns));
                    crate::ast::lemma_in_concat(seq![(i, xs, e.span)], calls_es(xs, ns));
                } else {
                    assert(calls_e(e, ns) == calls_e(*h, ns) + calls_es(xs, ns));
                    crate::ast::lemma_in_concat(calls_e(*h, ns), calls_es(xs, ns));
                    if c == 0 {
                        assert(ch[c] == *h);
                    }
                }
                if c > 0 {
                    assert(ch[c] == xs[c - 1]);
                    lemma_calls_es_has(xs, ns, c - 1);
                }
                assert(calls_e(e, ns).contains(q));
            },
            KindV::Binop(_, a, b) => {
                crate::ast::lemma_in_concat(calls_e(*a, ns), calls_e(*b, ns));
                assert(calls_e(e, ns).contains(q));
            },
            KindV::Bind(_, a, b) => {
                crate::ast::lemma_in_concat(calls_e(*a, ns), calls_e(*b, ns));
                assert(calls_e(e, ns).contains(q));
            },
            KindV::Let(_, a, b) => {
                crate::ast::lemma_in_concat(calls_e(*a, ns), calls_e(*b, ns));
                assert(calls_e(e, ns).contains(q));
            },
            KindV::Match(x, arms) => {
                crate::ast::lemma_in_concat(calls_e(*x, ns), calls_arms(arms, ns));
                if c > 0 {
                    assert(ch[c] == arms[c - 1].1);
                    lemma_calls_arms_has(arms, ns, c - 1);
                }
                assert(calls_e(e, ns).contains(q));
            },
            KindV::Record(base, fs) => {
                match base {
                    Some(b) => {
                        crate::ast::lemma_in_concat(calls_e(*b, ns), calls_fs(fs, ns));
                        assert(calls_e(e, ns) == calls_e(*b, ns) + calls_fs(fs, ns));
                        if c > 0 {
                            assert(ch[c] == fs[c - 1].1);
                            lemma_calls_fs_has(fs, ns, c - 1);
                        }
                    },
                    None => {
                        assert(ch =~= fs.map_values(|f: (Seq<char>, ExprV)| f.1));
                        assert(ch[c] == fs[c].1);
                        assert(calls_e(e, ns) == calls_fs(fs, ns));
                        lemma_calls_fs_has(fs, ns, c);
                    },
                }
                assert(calls_e(e, ns).contains(q));
            },
            KindV::Tuple(xs) => {
                assert(ch[c] == xs[c]);
                assert(calls_e(e, ns) == calls_es(xs, ns));
                lemma_calls_es_has(xs, ns, c);
                assert(calls_e(e, ns).contains(q));
            },
            KindV::List(xs) => {
                assert(ch[c] == xs[c]);
                assert(calls_e(e, ns) == calls_es(xs, ns));
                lemma_calls_es_has(xs, ns, c);
                assert(calls_e(e, ns).contains(q));
            },
            KindV::Neg(a) => {
                assert(ch[c] == *a);
                assert(calls_e(e, ns).contains(q));
            },
            KindV::Not(a) => {
                assert(ch[c] == *a);
                assert(calls_e(e, ns).contains(q));
            },
            KindV::Borrow(a) => {
                assert(ch[c] == *a);
                assert(calls_e(e, ns).contains(q));
            },
            KindV::Field(a, _) => {
                assert(ch[c] == *a);
                assert(calls_e(e, ns).contains(q));
            },
            KindV::Lambda(_, a) => {
                assert(ch[c] == *a);
                assert(calls_e(e, ns).contains(q));
            },
            KindV::Arena(_, a) => {
                assert(ch[c] == *a);
                assert(calls_e(e, ns).contains(q));
            },
            _ => {},
        }
    }
}

fn index_of(ns: &Vec<String>, n: &str) -> (r: Option<usize>)
    ensures
        match r {
            Some(i) => i < ns@.len() && index_in(names(ns@), n@) == Some(i as int),
            None => index_in(names(ns@), n@) is None,
        },
{
    let ghost nv = names(ns@);
    let mut j = ns.len();
    while j > 0
        invariant
            j <= ns@.len(),
            nv == names(ns@),
            index_in(nv, n@) == index_from(nv, n@, j as int),
        decreases j,
    {
        assert(nv[j - 1] == ns@[j - 1]@);
        if crate::text::str_eq(ns[j - 1].as_str(), n) {
            return Some(j - 1);
        }
        j -= 1;
    }
    None
}

/// Every call names one of the `n` functions.
pub open spec fn below(cs: Seq<Call>, n: nat) -> bool {
    forall|q: int| 0 <= q < cs.len() ==> (#[trigger] cs[q]).callee < n
}

proof fn lemma_calls_push(o: Seq<Call>, c: Call)
    ensures
        calls_view(o.push(c)) == calls_view(o) + seq![call_view(c)],
{
    assert(calls_view(o.push(c)) =~= calls_view(o) + seq![call_view(c)]);
}

/// Adds every way `e` reaches one of the functions named `ns` to `out`.
pub fn scan(e: &Expr, ns: &Vec<String>, out: &mut Vec<Call>)
    requires
        below(old(out)@, ns@.len()),
    ensures
        calls_view(final(out)@) == calls_view(old(out)@) + calls_e(e@, names(ns@)),
        below(final(out)@, ns@.len()),
    decreases e,
{
    let ghost o = calls_view(out@);
    let ghost nv = names(ns@);
    match &e.kind {
        ExprKind::App(h, xs) => {
            if let ExprKind::Var(n) = &h.kind {
                if let Some(i) = index_of(ns, n.as_str()) {
                    let c = Call { callee: i, args: crate::mangle::copy_exprs(xs), span: e.span };
                    proof {
                        lemma_calls_push(out@, c);
                    }
                    out.push(c);
                    let ghost o1 = calls_view(out@);
                    assert(o1 == o + seq![(i as int, exprs_view(xs@), e.span)]);
                    scan_all(xs, ns, out);
                    assert(h@.kind == KindV::Var(n@));
                    assert(e@.kind == KindV::App(Box::new(h@), exprs_view(xs@)));
                    assert(calls_e(e@, nv) == seq![(i as int, exprs_view(xs@), e.span)] + calls_es(exprs_view(xs@), nv));
                    assert(calls_view(out@) =~= o + calls_e(e@, nv));
                    return;
                }
            }
            scan(h, ns, out);
            scan_all(xs, ns, out);
            assert(calls_view(out@) =~= o + calls_e(e@, nv));
        },
        ExprKind::Var(n) => {
            if let Some(i) = index_of(ns, n.as_str()) {
                let c = Call { callee: i, args: Vec::new(), span: e.span };
                proof {
                    lemma_calls_push(out@, c);
                    assert(exprs_view(c.args@) =~= Seq::<ExprV>::empty());
                }
                out.push(c);
            } else {
                assert(o + calls_e(e@, nv) =~= o);
            }
        },
        ExprKind::Binop(_, a, b) | ExprKind::Bind(_, a, b) | ExprKind::Let(_, a, b) => {
            scan(a, ns, out);
            scan(b, ns, out);
            assert(calls_view(out@) =~= o + calls_e(e@, nv));
        },
        ExprKind::Neg(a) | ExprKind::Not(a) | ExprKind::Borrow(a) | ExprKind::Field(a, _) | ExprKind::Lambda(_, a)
        | ExprKind::Arena(_, a) => {
            scan(a, ns, out);
        },
        ExprKind::Match(x, arms) => {
            scan(x, ns, out);
            scan_arms(arms, ns, out);
            assert(calls_view(out@) =~= o + calls_e(e@, nv));
        },
        ExprKind::Record(base, fs) => {
            match base {
                Some(b) => {
                    scan(b, ns, out);
                },
                None => {},
            }
            scan_fields(fs, ns, out);
            assert(calls_view(out@) =~= o + calls_e(e@, nv));
        },
        ExprKind::Tuple(xs) | ExprKind::List(xs) => {
            scan_all(xs, ns, out);
        },
        _ => {
            assert(o + calls_e(e@, nv) =~= o);
        },
    }
}

fn scan_all(xs: &Vec<Expr>, ns: &Vec<String>, out: &mut Vec<Call>)
    requires
        below(old(out)@, ns@.len()),
    ensures
        calls_view(final(out)@) == calls_view(old(out)@) + calls_es(exprs_view(xs@), names(ns@)),
        below(final(out)@, ns@.len()),
    decreases xs,
{
    let ghost o = calls_view(out@);
    assert(xs@.take(0) =~= Seq::<Expr>::empty());
    assert(o + calls_es(exprs_view(xs@.take(0)), names(ns@)) =~= o);
    for i in 0..xs.len()
        invariant
            calls_view(out@) == o + calls_es(exprs_view(xs@.take(i as int)), names(ns@)),
            below(out@, ns@.len()),
    {
        proof {
            assert(decreases_to!(xs => xs@[i as int]));
            assert(xs@.take(i + 1).drop_last() =~= xs@.take(i as int));
            assert(xs@.take(i + 1).last() == xs@[i as int]);
            let v = exprs_view(xs@.take(i as int));
            assert(exprs_view(xs@.take(i + 1)) == v.push(xs@[i as int]@));
            assert(v.push(xs@[i as int]@).drop_last() =~= v);
        }
        scan(&xs[i], ns, out);
        assert(calls_view(out@) =~= o + calls_es(exprs_view(xs@.take(i + 1)), names(ns@)));
    }
    assert(xs@.take(xs@.len() as int) =~= xs@);
}

fn scan_arms(xs: &Vec<(Pat, Expr)>, ns: &Vec<String>, out: &mut Vec<Call>)
    requires
        below(old(out)@, ns@.len()),
    ensures
        calls_view(final(out)@) == calls_view(old(out)@) + calls_arms(arms_view(xs@), names(ns@)),
        below(final(out)@, ns@.len()),
    decreases xs,
{
    let ghost o = calls_view(out@);
    assert(xs@.take(0) =~= Seq::<(Pat, Expr)>::empty());
    assert(o + calls_arms(arms_view(xs@.take(0)), names(ns@)) =~= o);
    for i in 0..xs.len()
        invariant
            calls_view(out@) == o + calls_arms(arms_view(xs@.take(i as int)), names(ns@)),
            below(out@, ns@.len()),
    {
        proof {
            assert(decreases_to!(xs => xs@[i as int]));
            assert(decreases_to!(xs@[i as int] => xs@[i as int].1));
            assert(xs@.take(i + 1).drop_last() =~= xs@.take(i as int));
            assert(xs@.take(i + 1).last() == xs@[i as int]);
            let v = arms_view(xs@.take(i as int));
            assert(arms_view(xs@.take(i + 1)) == v.push((xs@[i as int].0@, xs@[i as int].1@)));
            assert(v.push((xs@[i as int].0@, xs@[i as int].1@)).drop_last() =~= v);
        }
        scan(&xs[i].1, ns, out);
        assert(calls_view(out@) =~= o + calls_arms(arms_view(xs@.take(i + 1)), names(ns@)));
    }
    assert(xs@.take(xs@.len() as int) =~= xs@);
}

fn scan_fields(xs: &Vec<(String, Expr)>, ns: &Vec<String>, out: &mut Vec<Call>)
    requires
        below(old(out)@, ns@.len()),
    ensures
        calls_view(final(out)@) == calls_view(old(out)@) + calls_fs(fields_view(xs@), names(ns@)),
        below(final(out)@, ns@.len()),
    decreases xs,
{
    let ghost o = calls_view(out@);
    assert(xs@.take(0) =~= Seq::<(String, Expr)>::empty());
    assert(o + calls_fs(fields_view(xs@.take(0)), names(ns@)) =~= o);
    for i in 0..xs.len()
        invariant
            calls_view(out@) == o + calls_fs(fields_view(xs@.take(i as int)), names(ns@)),
            below(out@, ns@.len()),
    {
        proof {
            assert(decreases_to!(xs => xs@[i as int]));
            assert(decreases_to!(xs@[i as int] => xs@[i as int].1));
            assert(xs@.take(i + 1).drop_last() =~= xs@.take(i as int));
            assert(xs@.take(i + 1).last() == xs@[i as int]);
            let v = fields_view(xs@.take(i as int));
            assert(fields_view(xs@.take(i + 1)) == v.push((xs@[i as int].0@, xs@[i as int].1@)));
            assert(v.push((xs@[i as int].0@, xs@[i as int].1@)).drop_last() =~= v);
        }
        scan(&xs[i].1, ns, out);
        assert(calls_view(out@) =~= o + calls_fs(fields_view(xs@.take(i + 1)), names(ns@)));
    }
    assert(xs@.take(xs@.len() as int) =~= xs@);
}


// ------------------------------------------------------------ the call graph

pub open spec fn calls_all(cs: Seq<Vec<Call>>) -> Seq<Seq<(int, Seq<ExprV>, Span)>> {
    cs.map_values(|v: Vec<Call>| calls_view(v@))
}

/// Function `i` reaches function `j` by one call or mention.
pub open spec fn edge(cs: Seq<Seq<(int, Seq<ExprV>, Span)>>, i: int, j: int) -> bool {
    exists|q: int| 0 <= q < cs[i].len() && (#[trigger] cs[i][q]).0 == j
}

/// Function `i` reaches function `j` through functions below `k` only.
pub open spec fn fw(cs: Seq<Seq<(int, Seq<ExprV>, Span)>>, k: int, i: int, j: int) -> bool
    decreases k,
{
    if k <= 0 {
        edge(cs, i, j)
    } else {
        fw(cs, k - 1, i, j) || (fw(cs, k - 1, i, k - 1) && fw(cs, k - 1, k - 1, j))
    }
}

fn has_edge(cs: &Vec<Call>, j: usize) -> (r: bool)
    ensures
        r == exists|q: int| 0 <= q < calls_view(cs@).len() && (#[trigger] calls_view(cs@)[q]).0 == j,
{
    for q in 0..cs.len()
        invariant
            forall|p: int| 0 <= p < q ==> (#[trigger] calls_view(cs@)[p]).0 != j,
    {
        assert(calls_view(cs@)[q as int] == call_view(cs@[q as int]));
        if cs[q].callee == j {
            return true;
        }
    }
    false
}

/// Which functions reach which, through any number of calls.
pub fn closure(calls: &Vec<Vec<Call>>) -> (r: Vec<Vec<bool>>)
    ensures
        r@.len() == calls@.len(),
        forall|i: int| 0 <= i < calls@.len() ==> (#[trigger] r@[i])@.len() == calls@.len(),
        forall|i: int, j: int| 0 <= i < calls@.len() && 0 <= j < calls@.len() ==> r@[i]@[j] == fw(
            calls_all(calls@),
            calls@.len() as int,
            i,
            j,
        ),
{
    let n = calls.len();
    let ghost cs = calls_all(calls@);
    let mut r: Vec<Vec<bool>> = Vec::new();
    for i in 0..n
        invariant
            n == calls@.len(),
            cs == calls_all(calls@),
            r@.len() == i,
            forall|a: int| 0 <= a < i ==> (#[trigger] r@[a])@.len() == n,
            forall|a: int, b: int| 0 <= a < i && 0 <= b < n ==> r@[a]@[b] == fw(cs, 0, a, b),
    {
        let mut row: Vec<bool> = Vec::new();
        for j in 0..n
            invariant
                n == calls@.len(),
                i < n,
                cs == calls_all(calls@),
                row@.len() == j,
                forall|b: int| 0 <= b < j ==> row@[b] == fw(cs, 0, i as int, b),
        {
            let e = has_edge(&calls[i], j);
            assert(cs[i as int] == calls_view(calls@[i as int]@));
            row.push(e);
        }
        r.push(row);
    }
    let mut k: usize = 0;
    while k < n
        invariant
            n == calls@.len(),
            k <= n,
            cs == calls_all(calls@),
            r@.len() == n,
            forall|a: int| 0 <= a < n ==> (#[trigger] r@[a])@.len() == n,
            forall|a: int, b: int| 0 <= a < n && 0 <= b < n ==> r@[a]@[b] == fw(cs, k as int, a, b),
        decreases n - k,
    {
        let mut next: Vec<Vec<bool>> = Vec::new();
        for i in 0..n
            invariant
                n == calls@.len(),
                k < n,
                r@.len() == n,
                cs == calls_all(calls@),
                forall|a: int, b: int| 0 <= a < n && 0 <= b < n ==> r@[a]@[b] == fw(cs, k as int, a, b),
                forall|a: int| 0 <= a < n ==> (#[trigger] r@[a])@.len() == n,
                next@.len() == i,
                forall|a: int| 0 <= a < i ==> (#[trigger] next@[a])@.len() == n,
                forall|a: int, b: int| 0 <= a < i && 0 <= b < n ==> next@[a]@[b] == (r@[a]@[b] || (r@[a]@[k as int]
                    && r@[k as int]@[b])),
        {
            let mut row: Vec<bool> = Vec::new();
            for j in 0..n
                invariant
                    n == calls@.len(),
                    k < n,
                    i < n,
                    r@.len() == n,
                    forall|a: int| 0 <= a < n ==> (#[trigger] r@[a])@.len() == n,
                    row@.len() == j,
                    forall|b: int| 0 <= b < j ==> row@[b] == (r@[i as int]@[b] || (r@[i as int]@[k as int] && r@[k as int]@[b])),
            {
                let v = r[i][j] || (r[i][k] && r[k][j]);
                row.push(v);
            }
            next.push(row);
        }
        proof {
            assert forall|a: int, b: int| 0 <= a < n && 0 <= b < n implies next@[a]@[b] == fw(cs, k + 1, a, b) by {
                assert(next@[a]@[b] == (r@[a]@[b] || (r@[a]@[k as int] && r@[k as int]@[b])));
                assert(r@[a]@[b] == fw(cs, k as int, a, b));
                assert(r@[a]@[k as int] == fw(cs, k as int, a, k as int));
                assert(r@[k as int]@[b] == fw(cs, k as int, k as int, b));
                assert(fw(cs, k + 1, a, b) == (fw(cs, k as int, a, b) || (fw(cs, k as int, a, k as int) && fw(
                    cs,
                    k as int,
                    k as int,
                    b,
                ))));
            }
        }
        r = next;
        k += 1;
    }
    r
}


// ------------------------------------------------------------ termination

/// Whether a declared result type announces an effect at its end: such a
/// function may diverge, since divergence is one of its effects.
pub open spec fn effectful(t: TyV) -> bool
    decreases t,
{
    match t {
        TyV::Eff(_) => true,
        TyV::Fun(_, r) => effectful(*r),
        _ => false,
    }
}

pub open spec fn diverges_s(f: FunDeclV) -> bool {
    match f.ret {
        Some(t) => effectful(t),
        None => false,
    }
}

/// The components of a measure: a tuple is lexicographic, anything else is
/// a tuple of one.
pub open spec fn components_s(e: ExprV) -> Seq<ExprV> {
    match e.kind {
        KindV::Tuple(xs) => xs,
        _ => seq![e],
    }
}

/// Every atom of every component is a parameter.
pub open spec fn arith_ok(e: ExprV, ps: Seq<Seq<char>>) -> bool {
    forall|c: int, a: Seq<char>| 0 <= c < components_s(e).len() && #[trigger] wrap(lin_k(components_s(e)[c], a)) != 0
        ==> ps.contains(a)
}

pub open spec fn measure_forms(e: ExprV) -> Seq<(spec_fn(Seq<char>) -> int, int)> {
    components_s(e).map_values(|c: ExprV| wform(c))
}

/// The form of a parameter alone.
pub open spec fn var_form(p: Seq<char>) -> (spec_fn(Seq<char>) -> int, int) {
    (|a: Seq<char>| if a == p { 1int } else { 0int }, 0int)
}

/// Every call function `i` makes is to itself.
pub open spec fn solo_s(cs: Seq<(int, Seq<ExprV>, Span)>, i: int) -> bool {
    forall|q: int| 0 <= q < cs.len() ==> (#[trigger] cs[q]).0 == i
}

/// Parameter `p` drops by a positive amount at every call.
pub open spec fn drops_at(cs: Seq<(int, Seq<ExprV>, Span)>, ps: Seq<Seq<char>>, p: Seq<char>) -> bool {
    forall|q: int| 0 <= q < cs.len() ==> (delta_s(var_form(p), var_form(p), ps, (#[trigger] cs[q]).1) matches Some(d) && d > 0)
}

/// The first parameter from position `j` on that drops at every call of a
/// function that calls only itself.
pub open spec fn infer_from(cs: Seq<(int, Seq<ExprV>, Span)>, i: int, ps: Seq<Seq<char>>, j: int) -> Option<Seq<char>>
    decreases ps.len() - j,
{
    if j < 0 || j >= ps.len() {
        None
    } else if solo_s(cs, i) && drops_at(cs, ps, ps[j]) {
        Some(ps[j])
    } else {
        infer_from(cs, i, ps, j + 1)
    }
}

pub open spec fn fun_names(fs: Seq<FunDeclV>) -> Seq<Seq<char>> {
    fs.map_values(|f: FunDeclV| f.name)
}

/// What each function's body reaches.
pub open spec fn calls_of(fs: Seq<FunDeclV>) -> Seq<Seq<(int, Seq<ExprV>, Span)>> {
    Seq::new(fs.len(), |i: int| calls_e(fs[i].body, fun_names(fs)))
}

pub open spec fn params_of(f: FunDeclV) -> Seq<Seq<char>> {
    crate::mangle::param_names(f.params)
}

pub open spec fn recursive_s(fs: Seq<FunDeclV>, i: int) -> bool {
    fw(calls_of(fs), fs.len() as int, i, i)
}

/// The measure of function `i`: none for a function that does not recur
/// or may diverge; the written one when it is arithmetic over the
/// parameters; else the parameter that drops at every call, if there is one.
pub open spec fn measure_s(fs: Seq<FunDeclV>, i: int) -> Option<Seq<(spec_fn(Seq<char>) -> int, int)>> {
    let f = fs[i];
    if !recursive_s(fs, i) || diverges_s(f) {
        None
    } else {
        match f.measure {
            Some(e) => if arith_ok(e, params_of(f)) {
                Some(measure_forms(e))
            } else {
                None
            },
            None => match infer_from(calls_of(fs)[i], i, params_of(f), 0) {
                Some(p) => Some(seq![var_form(p)]),
                None => None,
            },
        }
    }
}

/// A termination report, before it is worded.
pub enum TotalReport {
    /// The written measure is not arithmetic over the parameters: its span,
    /// the function, its path and the measure as written.
    NotArithmetic(Span, Seq<char>, Seq<char>, Seq<char>),
    /// No measure, and none inferred: the function's span, name and path,
    /// and whether it calls only itself.
    NoMeasure(Span, Seq<char>, Seq<char>, bool),
    /// The measure does not drop at a call: the call's span, the caller, the
    /// callee, the caller's path and the caller's measure.
    NotDecreasing(Span, Seq<char>, Seq<char>, Seq<char>, Seq<(spec_fn(Seq<char>) -> int, int)>),
}

pub open spec fn path_of(f: FunDeclV) -> Seq<char> {
    f.home + "."@ + f.name
}

pub open spec fn report1(fs: Seq<FunDeclV>, i: int) -> Seq<TotalReport> {
    let f = fs[i];
    if !recursive_s(fs, i) || diverges_s(f) {
        Seq::empty()
    } else {
        match f.measure {
            Some(e) => if arith_ok(e, params_of(f)) {
                Seq::empty()
            } else {
                seq![TotalReport::NotArithmetic(e.span, f.name, path_of(f), show_e(e))]
            },
            None => if infer_from(calls_of(fs)[i], i, params_of(f), 0) is Some {
                Seq::empty()
            } else {
                seq![TotalReport::NoMeasure(f.span, f.name, path_of(f), solo_s(calls_of(fs)[i], i))]
            },
        }
    }
}

pub open spec fn pass1(fs: Seq<FunDeclV>, i: int) -> Seq<TotalReport>
    decreases i,
{
    if i <= 0 {
        Seq::empty()
    } else {
        pass1(fs, i - 1) + report1(fs, i - 1)
    }
}

/// Functions `i` and `j` reach each other.
pub open spec fn same_group(fs: Seq<FunDeclV>, i: int, j: int) -> bool {
    i == j || (fw(calls_of(fs), fs.len() as int, i, j) && fw(calls_of(fs), fs.len() as int, j, i))
}

pub open spec fn report2(fs: Seq<FunDeclV>, i: int, q: int) -> Seq<TotalReport> {
    let c = calls_of(fs)[i][q];
    let j = c.0;
    if measure_s(fs, i) is Some && same_group(fs, i, j) && measure_s(fs, j) is Some && !lex_s(
        measure_s(fs, i).unwrap(),
        measure_s(fs, j).unwrap(),
        params_of(fs[j]),
        c.1,
    ) {
        seq![TotalReport::NotDecreasing(c.2, fs[i].name, fs[j].name, path_of(fs[i]), measure_s(fs, i).unwrap())]
    } else {
        Seq::empty()
    }
}

pub open spec fn pass2_calls(fs: Seq<FunDeclV>, i: int, q: int) -> Seq<TotalReport>
    decreases q,
{
    if q <= 0 {
        Seq::empty()
    } else {
        pass2_calls(fs, i, q - 1) + report2(fs, i, q - 1)
    }
}

pub open spec fn pass2(fs: Seq<FunDeclV>, i: int) -> Seq<TotalReport>
    decreases i,
{
    if i <= 0 {
        Seq::empty()
    } else {
        pass2(fs, i - 1) + pass2_calls(fs, i - 1, calls_of(fs)[i - 1].len() as int)
    }
}

/// Every termination report for the functions `fs`: first a measure for
/// each pure recursive function, then every call inside a recursive group
/// that does not make the measure drop.
pub open spec fn totality_reports(fs: Seq<FunDeclV>) -> Seq<TotalReport> {
    pass1(fs, fs.len() as int) + pass2(fs, fs.len() as int)
}

/// A lexicographic measure as the witness prints it.
pub open spec fn lex_text(ls: Seq<Lin>) -> Seq<char> {
    join(ls.map_values(|l: Lin| lin_text(l.shown_terms().sort_by(text_order()), l.constant())), ", "@)
}

/// The diagnostic `d` words the report `r`.
pub open spec fn is_report(d: Diag, r: TotalReport) -> bool {
    match r {
        TotalReport::NotArithmetic(sp, name, path, w) => {
            &&& d.span == sp
            &&& d.code@ == "total.no_measure"@
            &&& d.msg@ == "the measure of `"@ + name + "` is not arithmetic over its parameters"@
            &&& opt_view(d.path) == Some(path)
            &&& opt_view(d.witness) == Some(w)
            &&& opt_view(d.fix) == Some(
                "write the measure with `+`/`-` over scalar parameters, e.g. `%(n-k)`, or as a tuple, e.g. `%(n, k)`"@,
            )
        },
        TotalReport::NoMeasure(sp, name, path, solo) => {
            &&& d.span == sp
            &&& d.code@ == "total.no_measure"@
            &&& d.msg@ == (if solo {
                "`"@ + name + "` is recursive and no parameter decreases at every call"@
            } else {
                "`"@ + name + "` is mutually recursive, so its measure is not inferred"@
            })
            &&& opt_view(d.path) == Some(path)
            &&& d.witness is None
            &&& opt_view(d.fix) == Some(
                if solo {
                    "add a measure after the body, e.g. `%(n-k)`"@
                } else {
                    "give every member of the group a measure, as a lexicographic tuple if the component that shrinks changes, e.g. `%(n, k)`"@
                },
            )
        },
        TotalReport::NotDecreasing(sp, ni, nj, path, mi) => {
            &&& d.span == sp
            &&& d.code@ == "total.not_decreasing"@
            &&& d.msg@ == "the measure of `"@ + ni + "` does not decrease at this call to `"@ + nj + "`"@
            &&& opt_view(d.path) == Some(path)
            &&& exists|ls: Seq<Lin>| all_wf(ls) && lin_forms(ls) == mi && opt_view(d.witness) == Some("measure "@ + lex_text(ls))
            &&& opt_view(d.fix) == Some("make an argument shrink, or give a measure that does, e.g. `%(n-k)`"@)
        },
    }
}

pub open spec fn reports_hold(ds: Seq<Diag>, rs: Seq<TotalReport>) -> bool {
    &&& ds.len() == rs.len()
    &&& forall|j: int| 0 <= j < ds.len() ==> is_report(#[trigger] ds[j], rs[j])
}


proof fn lemma_reports_push(ds: Seq<Diag>, rs: Seq<TotalReport>, d: Diag, r: TotalReport)
    requires
        reports_hold(ds, rs),
        is_report(d, r),
    ensures
        reports_hold(ds.push(d), rs + seq![r]),
{
    assert forall|j: int| 0 <= j < ds.push(d).len() implies is_report(#[trigger] ds.push(d)[j], (rs + seq![r])[j]) by {
        if j < ds.len() {
            assert(ds.push(d)[j] == ds[j]);
        }
    }
}

fn effectful_exec(t: &crate::ast::Ty) -> (r: bool)
    ensures
        r == effectful(t@),
    decreases t,
{
    match t {
        crate::ast::Ty::Eff(_) => true,
        crate::ast::Ty::Fun(_, r) => effectful_exec(r),
        _ => false,
    }
}

fn diverges(f: &FunDecl) -> (r: bool)
    ensures
        r == diverges_s(f@),
{
    match &f.ret {
        Some(t) => effectful_exec(t),
        None => false,
    }
}

/// The names a function's parameters bind, in order.
fn param_names_exec(f: &FunDecl) -> (r: Vec<String>)
    ensures
        names(r@) == params_of(f@),
{
    let ghost pv = f@.params;
    let mut out: Vec<String> = Vec::new();
    assert(pv.take(0) =~= Seq::<crate::ast::ParamV>::empty());
    assert(names(out@) =~= Seq::<Seq<char>>::empty());
    for i in 0..f.params.len()
        invariant
            pv == f@.params,
            names(out@) == crate::mangle::param_names(pv.take(i as int)),
    {
        assert(pv[i as int] == f.params@[i as int]@);
        assert(pv.take(i + 1).drop_last() =~= pv.take(i as int));
        let ns = &f.params[i].names;
        let ghost o = names(out@);
        for k in 0..ns.len()
            invariant
                names(out@) == o + crate::ast::texts_of(ns@.take(k as int)),
        {
            let ghost p = names(out@);
            out.push(ns[k].clone());
            assert(names(out@) =~= p.push(ns@[k as int]@));
            assert(crate::ast::texts_of(ns@.take(k + 1)) =~= crate::ast::texts_of(ns@.take(k as int)).push(ns@[k as int]@));
        }
        assert(ns@.take(ns@.len() as int) =~= ns@);
    }
    assert(pv.take(pv.len() as int) =~= pv);
    out
}

/// The measure written for a function, as forms, when it is arithmetic over
/// the parameters `ps`.
fn written_measure(e: &Expr, ps: &Vec<String>) -> (r: Option<Vec<Lin>>)
    ensures
        match r {
            Some(ls) => arith_ok(e@, names(ps@)) && all_wf(ls@) && lin_forms(ls@) == measure_forms(e@),
            None => !arith_ok(e@, names(ps@)),
        },
{
    let ghost cv = components_s(e@);
    let mut ls: Vec<Lin> = Vec::new();
    match &e.kind {
        ExprKind::Tuple(xs) => {
            proof {
                crate::ast::lemma_exprs_view(xs@);
            }
            for i in 0..xs.len()
                invariant
                    cv == components_s(e@),
                    cv == exprs_view(xs@),
                    cv.len() == xs@.len(),
                    ls@.len() == i,
                    all_wf(ls@),
                    forall|c: int| 0 <= c < i ==> lin_form(#[trigger] ls@[c]) == wform(cv[c]),
                    forall|c: int, a: Seq<char>| 0 <= c < i && #[trigger] wrap(lin_k(cv[c], a)) != 0 ==> names(ps@).contains(a),
            {
                proof {
                    crate::ast::lemma_exprs_view(xs@);
                }
                let l = lin(&xs[i]);
                assert(cv[i as int] == xs@[i as int]@);
                if !l.atoms_within(ps) {
                    proof {
                        let a = choose|a: Seq<char>| #[trigger] l.coeff(a) != 0 && !names(ps@).contains(a);
                        assert(wrap(lin_k(cv[i as int], a)) != 0);
                    }
                    return None;
                }
                proof {
                    lemma_lin_form(l, xs@[i as int]@);
                    assert forall|a: Seq<char>| #[trigger] wrap(lin_k(cv[i as int], a)) != 0 implies names(ps@).contains(a) by {
                        assert(l.coeff(a) == wrap(lin_k(cv[i as int], a)));
                    }
                }
                ls.push(l);
            }
        },
        _ => {
            assert(cv == seq![e@]);
            let l = lin(e);
            if !l.atoms_within(ps) {
                proof {
                    let a = choose|a: Seq<char>| #[trigger] l.coeff(a) != 0 && !names(ps@).contains(a);
                    assert(wrap(lin_k(cv[0], a)) != 0);
                }
                return None;
            }
            proof {
                lemma_lin_form(l, e@);
                assert forall|a: Seq<char>| #[trigger] wrap(lin_k(cv[0], a)) != 0 implies names(ps@).contains(a) by {
                    assert(l.coeff(a) == wrap(lin_k(cv[0], a)));
                }
            }
            ls.push(l);
        },
    }
    assert(lin_forms(ls@) =~= measure_forms(e@));
    Some(ls)
}

proof fn lemma_var_form(l: Lin, p: Seq<char>)
    requires
        l.constant() == 0,
        l.coeff(p) == 1,
        forall|a: Seq<char>| a != p ==> l.coeff(a) == 0,
    ensures
        lin_form(l) == var_form(p),
{
    assert(lin_form(l).0 =~= var_form(p).0);
}

fn solo_exec(cs: &Vec<Call>, i: usize) -> (r: bool)
    ensures
        r == solo_s(calls_view(cs@), i as int),
{
    for q in 0..cs.len()
        invariant
            forall|p: int| 0 <= p < q ==> (#[trigger] calls_view(cs@)[p]).0 == i,
    {
        assert(calls_view(cs@)[q as int] == call_view(cs@[q as int]));
        if cs[q].callee != i {
            return false;
        }
    }
    true
}

/// The parameter, by position, that a function calling only itself drops at
/// every call, the first there is.
fn infer_measure(cs: &Vec<Call>, i: usize, ps: &Vec<String>) -> (r: Option<usize>)
    ensures
        match r {
            Some(j) => j < ps@.len() && infer_from(calls_view(cs@), i as int, names(ps@), 0) == Some(names(ps@)[j as int]),
            None => infer_from(calls_view(cs@), i as int, names(ps@), 0) is None,
        },
{
    let ghost cv = calls_view(cs@);
    let ghost pv = names(ps@);
    let solo = solo_exec(cs, i);
    for j in 0..ps.len()
        invariant
            cv == calls_view(cs@),
            pv == names(ps@),
            solo == solo_s(cv, i as int),
            infer_from(cv, i as int, pv, 0) == infer_from(cv, i as int, pv, j as int),
    {
        let v = Lin::var(ps[j].as_str());
        proof {
            lemma_var_form(v, ps@[j as int]@);
            assert(pv[j as int] == ps@[j as int]@);
        }
        let mut all = solo;
        if solo {
            for q in 0..cs.len()
                invariant
                    cv == calls_view(cs@),
                    pv == names(ps@),
                    v.wf(),
                    lin_form(v) == var_form(pv[j as int]),
                    all ==> forall|p: int| 0 <= p < q ==> (delta_s(var_form(pv[j as int]), var_form(pv[j as int]), pv, (#[trigger] cv[p]).1) matches Some(d) && d > 0),
                    !all ==> !drops_at(cv, pv, pv[j as int]),
            {
                if all {
                    assert(cv[q as int] == call_view(cs@[q as int]));
                    match delta(&v, &v, ps, &cs[q].args) {
                        Some(d) => {
                            if d <= 0 {
                                all = false;
                            }
                        },
                        None => {
                            all = false;
                        },
                    }
                }
            }
        }
        if all {
            return Some(j);
        }
    }
    None
}

fn not_arithmetic(e: &Expr, name: &str, path: &str) -> (d: Diag)
    ensures
        is_report(d, TotalReport::NotArithmetic(e.span, name@, path@, show_e(e@))),
{
    let mut msg = owned("the measure of `");
    push_str(&mut msg, name);
    push_str(&mut msg, "` is not arithmetic over its parameters");
    let w = show(e);
    proof {
        reveal_strlit("the measure of `");
        reveal_strlit("` is not arithmetic over its parameters");
        reveal_strlit("total.no_measure");
        reveal_strlit("write the measure with `+`/`-` over scalar parameters, e.g. `%(n-k)`, or as a tuple, e.g. `%(n, k)`");
    }
    assert(msg@ =~= "the measure of `"@ + name@ + "` is not arithmetic over its parameters"@);
    Diag::error(e.span, "total.no_measure", msg.as_str()).with_path(path).with_witness(w.as_str()).with_fix(
        "write the measure with `+`/`-` over scalar parameters, e.g. `%(n-k)`, or as a tuple, e.g. `%(n, k)`",
    )
}

fn no_measure(span: Span, name: &str, path: &str, solo: bool) -> (d: Diag)
    ensures
        is_report(d, TotalReport::NoMeasure(span, name@, path@, solo)),
{
    proof {
        reveal_strlit("`");
        reveal_strlit("` is recursive and no parameter decreases at every call");
        reveal_strlit("` is mutually recursive, so its measure is not inferred");
        reveal_strlit("total.no_measure");
        reveal_strlit("add a measure after the body, e.g. `%(n-k)`");
        reveal_strlit("give every member of the group a measure, as a lexicographic tuple if the component that shrinks changes, e.g. `%(n, k)`");
    }
    let mut msg = owned("`");
    push_str(&mut msg, name);
    if solo {
        push_str(&mut msg, "` is recursive and no parameter decreases at every call");
        assert(msg@ =~= "`"@ + name@ + "` is recursive and no parameter decreases at every call"@);
        Diag::error(span, "total.no_measure", msg.as_str()).with_path(path).with_fix("add a measure after the body, e.g. `%(n-k)`")
    } else {
        push_str(&mut msg, "` is mutually recursive, so its measure is not inferred");
        assert(msg@ =~= "`"@ + name@ + "` is mutually recursive, so its measure is not inferred"@);
        Diag::error(span, "total.no_measure", msg.as_str()).with_path(path).with_fix(
            "give every member of the group a measure, as a lexicographic tuple if the component that shrinks changes, e.g. `%(n, k)`",
        )
    }
}

fn not_decreasing(span: Span, ni: &str, nj: &str, path: &str, mi: &Vec<Lin>) -> (d: Diag)
    ensures
        is_report(d, TotalReport::NotDecreasing(span, ni@, nj@, path@, lin_forms(mi@))) || !all_wf(mi@),
{
    proof {
        reveal_strlit("the measure of `");
        reveal_strlit("` does not decrease at this call to `");
        reveal_strlit("`");
        reveal_strlit("measure ");
        reveal_strlit("total.not_decreasing");
        reveal_strlit("make an argument shrink, or give a measure that does, e.g. `%(n-k)`");
    }
    let mut msg = owned("the measure of `");
    push_str(&mut msg, ni);
    push_str(&mut msg, "` does not decrease at this call to `");
    push_str(&mut msg, nj);
    push_str(&mut msg, "`");
    let mut w = owned("measure ");
    let t = show_lex(mi.as_slice());
    push_str(&mut w, t.as_str());
    assert(msg@ =~= "the measure of `"@ + ni@ + "` does not decrease at this call to `"@ + nj@ + "`"@);
    assert(w@ =~= "measure "@ + lex_text(mi@));
    let d = Diag::error(span, "total.not_decreasing", msg.as_str()).with_path(path).with_witness(w.as_str()).with_fix(
        "make an argument shrink, or give a measure that does, e.g. `%(n-k)`",
    );
    assert(all_wf(mi@) ==> (all_wf(mi@) && lin_forms(mi@) == lin_forms(mi@) && opt_view(d.witness) == Some("measure "@ + lex_text(mi@))));
    d
}

/// The functions of a module, as views.
pub open spec fn fview(m: Module) -> Seq<FunDeclV> {
    funs_of(m.decls@).map_values(|f: FunDecl| f@)
}

/// Checks that every pure recursive function of `m` terminates: it needs a
/// measure, written after `%` or inferred from a parameter that drops at
/// every call, and the measure must drop at every call inside its group.
/// A function whose result is effectful may diverge and is exempt.
pub fn check(m: &Module) -> (r: Vec<Diag>)
    ensures
        reports_hold(r@, totality_reports(fview(*m))),
{
    let funs = m.funs();
    let ghost fs = fview(*m);
    let n = funs.len();
    proof {
        assert(funs@.map_values(|f: &FunDecl| *f) == funs_of(m.decls@));
        assert forall|i: int| 0 <= i < n implies #[trigger] fs[i] == funs@[i]@ by {
            assert(funs@.map_values(|f: &FunDecl| *f)[i] == *funs@[i]);
        }
    }
    let mut ns: Vec<String> = Vec::new();
    for i in 0..n
        invariant
            n == funs@.len(),
            fs.len() == n,
            forall|i2: int| 0 <= i2 < n ==> #[trigger] fs[i2] == funs@[i2]@,
            names(ns@) == fun_names(fs).take(i as int),
    {
        let ghost o = names(ns@);
        ns.push(funs[i].name.clone());
        assert(fs[i as int] == funs@[i as int]@);
        assert(fun_names(fs)[i as int] == funs@[i as int].name@);
        assert(names(ns@) =~= o.push(funs@[i as int].name@));
        assert(names(ns@) =~= fun_names(fs).take(i + 1));
    }
    assert(fun_names(fs).take(n as int) =~= fun_names(fs));
    let ghost cs = calls_of(fs);
    let mut params: Vec<Vec<String>> = Vec::new();
    let mut calls: Vec<Vec<Call>> = Vec::new();
    for i in 0..n
        invariant
            n == funs@.len(),
            fs.len() == n,
            forall|i2: int| 0 <= i2 < n ==> #[trigger] fs[i2] == funs@[i2]@,
            names(ns@) == fun_names(fs),
            ns@.len() == n,
            cs == calls_of(fs),
            params@.len() == i,
            calls@.len() == i,
            forall|i2: int| 0 <= i2 < i ==> names((#[trigger] params@[i2])@) == params_of(fs[i2]),
            forall|i2: int| 0 <= i2 < i ==> calls_view((#[trigger] calls@[i2])@) == cs[i2],
            forall|i2: int| 0 <= i2 < i ==> below((#[trigger] calls@[i2])@, n as nat),
    {
        params.push(param_names_exec(funs[i]));
        let mut c: Vec<Call> = Vec::new();
        scan(&funs[i].body, &ns, &mut c);
        assert(calls_view(c@) =~= cs[i as int]);
        calls.push(c);
    }
    assert(calls_all(calls@) =~= cs);
    let reach = closure(&calls);
    let mut measures: Vec<Option<Vec<Lin>>> = Vec::new();
    let mut ds: Vec<Diag> = Vec::new();
    for i in 0..n
        invariant
            n == funs@.len(),
            fs.len() == n,
            forall|i2: int| 0 <= i2 < n ==> #[trigger] fs[i2] == funs@[i2]@,
            cs == calls_of(fs),
            params@.len() == n,
            calls@.len() == n,
            forall|i2: int| 0 <= i2 < n ==> names((#[trigger] params@[i2])@) == params_of(fs[i2]),
            forall|i2: int| 0 <= i2 < n ==> calls_view((#[trigger] calls@[i2])@) == cs[i2],
            reach@.len() == n,
            forall|a: int| 0 <= a < n ==> (#[trigger] reach@[a])@.len() == n,
            forall|a: int, b: int| 0 <= a < n && 0 <= b < n ==> reach@[a]@[b] == fw(cs, n as int, a, b),
            measures@.len() == i,
            forall|i2: int| 0 <= i2 < i ==> match #[trigger] measures@[i2] {
                Some(ls) => all_wf(ls@) && measure_s(fs, i2) == Some(lin_forms(ls@)),
                None => measure_s(fs, i2) is None,
            },
            reports_hold(ds@, pass1(fs, i as int)),
    {
        let f = funs[i];
        assert(fs[i as int] == f@);
        assert(pass1(fs, i + 1) == pass1(fs, i as int) + report1(fs, i as int));
        if !reach[i][i] || diverges(f) {
            assert(report1(fs, i as int) =~= Seq::<TotalReport>::empty());
            assert(pass1(fs, i + 1) =~= pass1(fs, i as int));
            measures.push(None);
        } else {
            let mut path = owned(f.home.as_str());
            push_str(&mut path, ".");
            push_str(&mut path, f.name.as_str());
            proof {
                reveal_strlit(".");
            }
            assert(path@ =~= path_of(f@));
            match &f.measure {
                Some(e) => {
                    match written_measure(e, &params[i]) {
                        Some(ls) => {
                            assert(pass1(fs, i + 1) =~= pass1(fs, i as int));
                            measures.push(Some(ls));
                        },
                        None => {
                            let d = not_arithmetic(e, f.name.as_str(), path.as_str());
                            proof {
                                lemma_reports_push(ds@, pass1(fs, i as int), d, report1(fs, i as int)[0]);
                                assert(pass1(fs, i as int) + seq![report1(fs, i as int)[0]] =~= pass1(fs, i + 1));
                            }
                            ds.push(d);
                            measures.push(None);
                        },
                    }
                },
                None => {
                    match infer_measure(&calls[i], i, &params[i]) {
                        Some(j) => {
                            let l = Lin::var(params[i][j].as_str());
                            proof {
                                lemma_var_form(l, params@[i as int]@[j as int]@);
                                assert(names(params@[i as int]@)[j as int] == params@[i as int]@[j as int]@);
                            }
                            let mut ls: Vec<Lin> = Vec::new();
                            ls.push(l);
                            assert(lin_forms(ls@) =~= seq![var_form(params@[i as int]@[j as int]@)]);
                            assert(pass1(fs, i + 1) =~= pass1(fs, i as int));
                            measures.push(Some(ls));
                        },
                        None => {
                            let solo = solo_exec(&calls[i], i);
                            let d = no_measure(f.span, f.name.as_str(), path.as_str(), solo);
                            proof {
                                lemma_reports_push(ds@, pass1(fs, i as int), d, report1(fs, i as int)[0]);
                                assert(pass1(fs, i as int) + seq![report1(fs, i as int)[0]] =~= pass1(fs, i + 1));
                            }
                            ds.push(d);
                            measures.push(None);
                        },
                    }
                },
            }
        }
    }
    let ghost p1 = pass1(fs, n as int);
    assert(p1 + pass2(fs, 0) =~= p1);
    for i in 0..n
        invariant
            n == funs@.len(),
            fs.len() == n,
            forall|i2: int| 0 <= i2 < n ==> #[trigger] fs[i2] == funs@[i2]@,
            cs == calls_of(fs),
            params@.len() == n,
            calls@.len() == n,
            forall|i2: int| 0 <= i2 < n ==> names((#[trigger] params@[i2])@) == params_of(fs[i2]),
            forall|i2: int| 0 <= i2 < n ==> calls_view((#[trigger] calls@[i2])@) == cs[i2],
            forall|i2: int| 0 <= i2 < n ==> below((#[trigger] calls@[i2])@, n as nat),
            reach@.len() == n,
            forall|a: int| 0 <= a < n ==> (#[trigger] reach@[a])@.len() == n,
            forall|a: int, b: int| 0 <= a < n && 0 <= b < n ==> reach@[a]@[b] == fw(cs, n as int, a, b),
            measures@.len() == n,
            forall|i2: int| 0 <= i2 < n ==> match #[trigger] measures@[i2] {
                Some(ls) => all_wf(ls@) && measure_s(fs, i2) == Some(lin_forms(ls@)),
                None => measure_s(fs, i2) is None,
            },
            p1 == pass1(fs, n as int),
            reports_hold(ds@, p1 + pass2(fs, i as int)),
    {
        let ghost base = p1 + pass2(fs, i as int);
        let cl = &calls[i];
        assert(base + pass2_calls(fs, i as int, 0) =~= base);
        for q in 0..cl.len()
            invariant
                n == funs@.len(),
                fs.len() == n,
                i < n,
                forall|i2: int| 0 <= i2 < n ==> #[trigger] fs[i2] == funs@[i2]@,
                cs == calls_of(fs),
                params@.len() == n,
                calls@.len() == n,
                cl == calls@[i as int],
                forall|i2: int| 0 <= i2 < n ==> names((#[trigger] params@[i2])@) == params_of(fs[i2]),
                calls_view(cl@) == cs[i as int],
                below(cl@, n as nat),
                reach@.len() == n,
                forall|a: int| 0 <= a < n ==> (#[trigger] reach@[a])@.len() == n,
                forall|a: int, b: int| 0 <= a < n && 0 <= b < n ==> reach@[a]@[b] == fw(cs, n as int, a, b),
                measures@.len() == n,
                forall|i2: int| 0 <= i2 < n ==> match #[trigger] measures@[i2] {
                    Some(ls) => all_wf(ls@) && measure_s(fs, i2) == Some(lin_forms(ls@)),
                    None => measure_s(fs, i2) is None,
                },
                reports_hold(ds@, base + pass2_calls(fs, i as int, q as int)),
        {
            let c = &cl[q];
            let j = c.callee;
            assert(cs[i as int][q as int] == call_view(cl@[q as int]));
            assert(pass2_calls(fs, i as int, q + 1) == pass2_calls(fs, i as int, q as int) + report2(fs, i as int, q as int));
            let mut hit = false;
            match &measures[i] {
                Some(mi) => {
                    if i == j || (reach[i][j] && reach[j][i]) {
                        match &measures[j] {
                            Some(mj) => {
                                if !lex_decreases(mi, mj, &params[j], &c.args) {
                                    let d = not_decreasing(c.span, funs[i].name.as_str(), funs[j].name.as_str(), &path_text(funs[i]), mi);
                                    proof {
                                        lemma_reports_push(ds@, base + pass2_calls(fs, i as int, q as int), d, report2(fs, i as int, q as int)[0]);
                                        assert(base + pass2_calls(fs, i as int, q as int) + seq![report2(fs, i as int, q as int)[0]] =~= base + pass2_calls(fs, i as int, q + 1));
                                    }
                                    ds.push(d);
                                    hit = true;
                                }
                            },
                            None => {},
                        }
                    }
                },
                None => {},
            }
            if !hit {
                assert(report2(fs, i as int, q as int) =~= Seq::<TotalReport>::empty());
                assert(base + pass2_calls(fs, i as int, q + 1) =~= base + pass2_calls(fs, i as int, q as int));
            }
        }
        assert(base + pass2_calls(fs, i as int, cs[i as int].len() as int) =~= p1 + pass2(fs, i + 1));
    }
    ds
}

fn path_text(f: &FunDecl) -> (r: String)
    ensures
        r@ == path_of(f@),
{
    let mut path = owned(f.home.as_str());
    push_str(&mut path, ".");
    push_str(&mut path, f.name.as_str());
    proof {
        reveal_strlit(".");
    }
    assert(path@ =~= path_of(f@));
    path
}

proof fn lemma_pass1_prefix(fs: Seq<FunDeclV>, i: int, j: int)
    requires
        0 <= i <= j,
    ensures
        pass1(fs, j).len() >= pass1(fs, i).len(),
        pass1(fs, j).take(pass1(fs, i).len() as int) == pass1(fs, i),
    decreases j - i,
{
    if i < j {
        lemma_pass1_prefix(fs, i, j - 1);
        assert(pass1(fs, j) == pass1(fs, j - 1) + report1(fs, j - 1));
        assert(pass1(fs, j).take(pass1(fs, i).len() as int) =~= pass1(fs, j - 1).take(pass1(fs, i).len() as int));
    } else {
        assert(pass1(fs, j).take(pass1(fs, i).len() as int) =~= pass1(fs, i));
    }
}

/// A pure recursive function with no written measure and no parameter that
/// drops at every call is refused with `total.no_measure`.
pub proof fn lemma_no_measure_is_refused(fs: Seq<FunDeclV>, i: int)
    requires
        0 <= i < fs.len(),
        recursive_s(fs, i),
        !diverges_s(fs[i]),
        fs[i].measure is None,
        infer_from(calls_of(fs)[i], i, params_of(fs[i]), 0) is None,
    ensures
        totality_reports(fs).contains(
            TotalReport::NoMeasure(fs[i].span, fs[i].name, path_of(fs[i]), solo_s(calls_of(fs)[i], i)),
        ),
{
    let r = TotalReport::NoMeasure(fs[i].span, fs[i].name, path_of(fs[i]), solo_s(calls_of(fs)[i], i));
    assert(report1(fs, i) == seq![r]);
    assert(pass1(fs, i + 1) == pass1(fs, i) + seq![r]);
    lemma_pass1_prefix(fs, i + 1, fs.len() as int);
    let k = pass1(fs, i).len() as int;
    assert(pass1(fs, i + 1)[k] == r);
    assert(pass1(fs, fs.len() as int).take(pass1(fs, i + 1).len() as int)[k] == r);
    assert(totality_reports(fs)[k] == r);
}

/// A function whose result is effectful may diverge: it needs no measure,
/// and no call it makes is held to one.
pub proof fn lemma_effectful_is_exempt(fs: Seq<FunDeclV>, i: int, q: int)
    requires
        0 <= i < fs.len(),
        diverges_s(fs[i]),
    ensures
        report1(fs, i).len() == 0,
        measure_s(fs, i) is None,
        report2(fs, i, q).len() == 0,
{
}

// ------------------------------------------------------------ what a decrease is

proof fn lemma_lex_from(
    mi: Seq<(spec_fn(Seq<char>) -> int, int)>,
    mj: Seq<(spec_fn(Seq<char>) -> int, int)>,
    ps: Seq<Seq<char>>,
    args: Seq<ExprV>,
    i: int,
)
    requires
        0 <= i,
    ensures
        lex_from(mi, mj, ps, args, i) <==> exists|j: int|
            i <= j < mi.len() && (#[trigger] delta_s(mi[j], mj[j], ps, args) matches Some(d) && d > 0) && forall|k: int|
                i <= k < j ==> delta_s(mi[k], mj[k], ps, args) == Some(0int),
    decreases mi.len() - i,
{
    if i < mi.len() {
        lemma_lex_from(mi, mj, ps, args, i + 1);
        if lex_from(mi, mj, ps, args, i) {
            match delta_s(mi[i], mj[i], ps, args) {
                Some(d) => {
                    if d > 0 {
                        assert(forall|k: int| i <= k < i ==> delta_s(mi[k], mj[k], ps, args) == Some(0int));
                    } else {
                        let j = choose|j: int|
                            i + 1 <= j < mi.len() && (#[trigger] delta_s(mi[j], mj[j], ps, args) matches Some(d) && d > 0)
                                && forall|k: int| i + 1 <= k < j ==> delta_s(mi[k], mj[k], ps, args) == Some(0int);
                        assert(forall|k: int| i <= k < j ==> delta_s(mi[k], mj[k], ps, args) == Some(0int));
                    }
                },
                None => {},
            }
        } else {
            if exists|j: int|
                i <= j < mi.len() && (#[trigger] delta_s(mi[j], mj[j], ps, args) matches Some(d) && d > 0) && forall|k: int|
                    i <= k < j ==> delta_s(mi[k], mj[k], ps, args) == Some(0int) {
                let j = choose|j: int|
                    i <= j < mi.len() && (#[trigger] delta_s(mi[j], mj[j], ps, args) matches Some(d) && d > 0) && forall|k: int|
                        i <= k < j ==> delta_s(mi[k], mj[k], ps, args) == Some(0int);
                if j > i {
                    assert(delta_s(mi[i], mj[i], ps, args) == Some(0int));
                    assert(forall|k: int| i + 1 <= k < j ==> delta_s(mi[k], mj[k], ps, args) == Some(0int));
                }
            }
        }
    }
}

/// A call is accepted exactly when the two measures are as wide and one
/// component drops by a positive amount while every component before it
/// stays level.
pub proof fn lemma_accepted_calls_drop(
    mi: Seq<(spec_fn(Seq<char>) -> int, int)>,
    mj: Seq<(spec_fn(Seq<char>) -> int, int)>,
    ps: Seq<Seq<char>>,
    args: Seq<ExprV>,
)
    ensures
        lex_s(mi, mj, ps, args) <==> (mi.len() == mj.len() && exists|j: int|
            0 <= j < mi.len() && (#[trigger] delta_s(mi[j], mj[j], ps, args) matches Some(d) && d > 0) && forall|k: int|
                0 <= k < j ==> delta_s(mi[k], mj[k], ps, args) == Some(0int)),
{
    lemma_lex_from(mi, mj, ps, args, 0);
}

/// A measure that stays level at a call, or grows in some component before
/// any drop, is never accepted: the order must be well founded.
pub proof fn lemma_level_measure_is_refused(
    mi: Seq<(spec_fn(Seq<char>) -> int, int)>,
    mj: Seq<(spec_fn(Seq<char>) -> int, int)>,
    ps: Seq<Seq<char>>,
    args: Seq<ExprV>,
)
    requires
        forall|k: int| 0 <= k < mi.len() ==> #[trigger] delta_s(mi[k], mj[k], ps, args) == Some(0int),
    ensures
        !lex_s(mi, mj, ps, args),
{
    lemma_lex_from(mi, mj, ps, args, 0);
    if lex_s(mi, mj, ps, args) {
        let j = choose|j: int|
            0 <= j < mi.len() && (#[trigger] delta_s(mi[j], mj[j], ps, args) matches Some(d) && d > 0) && forall|k: int|
                0 <= k < j ==> delta_s(mi[k], mj[k], ps, args) == Some(0int);
        assert(delta_s(mi[j], mj[j], ps, args) == Some(0int));
    }
}

proof fn lemma_pass2_calls_prefix(fs: Seq<FunDeclV>, i: int, q: int, q2: int)
    requires
        0 <= q <= q2,
    ensures
        pass2_calls(fs, i, q2).len() >= pass2_calls(fs, i, q).len(),
        pass2_calls(fs, i, q2).take(pass2_calls(fs, i, q).len() as int) == pass2_calls(fs, i, q),
    decreases q2 - q,
{
    if q < q2 {
        lemma_pass2_calls_prefix(fs, i, q, q2 - 1);
        assert(pass2_calls(fs, i, q2).take(pass2_calls(fs, i, q).len() as int) =~= pass2_calls(fs, i, q2 - 1).take(
            pass2_calls(fs, i, q).len() as int,
        ));
    } else {
        assert(pass2_calls(fs, i, q2).take(pass2_calls(fs, i, q).len() as int) =~= pass2_calls(fs, i, q));
    }
}

proof fn lemma_pass2_prefix(fs: Seq<FunDeclV>, i: int, j: int)
    requires
        0 <= i <= j,
    ensures
        pass2(fs, j).len() >= pass2(fs, i).len(),
        pass2(fs, j).take(pass2(fs, i).len() as int) == pass2(fs, i),
    decreases j - i,
{
    if i < j {
        lemma_pass2_prefix(fs, i, j - 1);
        assert(pass2(fs, j).take(pass2(fs, i).len() as int) =~= pass2(fs, j - 1).take(pass2(fs, i).len() as int));
    } else {
        assert(pass2(fs, j).take(pass2(fs, i).len() as int) =~= pass2(fs, i));
    }
}

/// A call inside a recursive group at which the caller's measure does not
/// drop below the callee's, in the lexicographic order, is reported
/// `total.not_decreasing`; with `lemma_level_measure_is_refused`, so is a
/// call at which the measure stays level.
pub proof fn lemma_undropped_call_is_reported(fs: Seq<FunDeclV>, i: int, q: int)
    requires
        0 <= i < fs.len(),
        0 <= q < calls_of(fs)[i].len(),
        measure_s(fs, i) is Some,
        same_group(fs, i, calls_of(fs)[i][q].0),
        measure_s(fs, calls_of(fs)[i][q].0) is Some,
        !lex_s(
            measure_s(fs, i).unwrap(),
            measure_s(fs, calls_of(fs)[i][q].0).unwrap(),
            params_of(fs[calls_of(fs)[i][q].0]),
            calls_of(fs)[i][q].1,
        ),
    ensures
        totality_reports(fs).contains(
            TotalReport::NotDecreasing(
                calls_of(fs)[i][q].2,
                fs[i].name,
                fs[calls_of(fs)[i][q].0].name,
                path_of(fs[i]),
                measure_s(fs, i).unwrap(),
            ),
        ),
{
    let c = calls_of(fs)[i][q];
    let r = TotalReport::NotDecreasing(c.2, fs[i].name, fs[c.0].name, path_of(fs[i]), measure_s(fs, i).unwrap());
    assert(report2(fs, i, q) == seq![r]);
    let n = fs.len() as int;
    let cl = calls_of(fs)[i].len() as int;
    let a = pass2_calls(fs, i, q);
    assert(pass2_calls(fs, i, q + 1) == a + seq![r]);
    lemma_pass2_calls_prefix(fs, i, q + 1, cl);
    let k = a.len() as int;
    assert(pass2_calls(fs, i, cl).take(pass2_calls(fs, i, q + 1).len() as int)[k] == r);
    assert(pass2_calls(fs, i, cl)[k] == r);
    let b = pass2(fs, i);
    assert(pass2(fs, i + 1) == b + pass2_calls(fs, i, cl));
    assert(pass2(fs, i + 1)[b.len() + k] == r);
    lemma_pass2_prefix(fs, i + 1, n);
    assert(pass2(fs, n).take(pass2(fs, i + 1).len() as int)[b.len() + k] == r);
    let p1 = pass1(fs, n);
    assert(totality_reports(fs)[p1.len() + b.len() + k] == r);
}

} // verus!
