//! Whether the arms of a match, taken together, leave a value unmatched.
//!
//! The arms form a matrix of patterns, one row per arm. The first column is
//! split by the constructors that can stand there (the two booleans, the one
//! shape of a tuple, the constructors of a variant type), and the rows that
//! can match each constructor are checked on their own, with its payloads in
//! place of the column. A column whose values have no finite set of
//! constructors (numbers, strings, lists) is covered only by the rows that
//! match anything there.

use vstd::prelude::*;
use crate::ast::{Pat, PatV, pats_view, lemma_pats_view};
use crate::text::str_eq;
use crate::types::{texts, variants_view};

verus! {

/// A constructor that a column of patterns is split by, by its view.
pub enum KeyV {
    Flag(bool),
    Named(Seq<char>),
    Tup,
}

/// A constructor that a column of patterns is split by.
pub enum Key {
    Flag(bool),
    Named(String),
    Tup,
}

impl View for Key {
    type V = KeyV;

    open spec fn view(&self) -> KeyV {
        match self {
            Key::Flag(b) => KeyV::Flag(*b),
            Key::Named(n) => KeyV::Named(n@),
            Key::Tup => KeyV::Tup,
        }
    }
}

pub open spec fn opt_key(k: Option<Key>) -> Option<KeyV> {
    match k {
        Some(x) => Some(x@),
        None => None,
    }
}

pub open spec fn keys_view(ks: Seq<Key>) -> Seq<KeyV> {
    ks.map_values(|k: Key| k@)
}

pub open spec fn opt_keys(ks: Option<Vec<Key>>) -> Option<Seq<KeyV>> {
    match ks {
        Some(v) => Some(keys_view(v@)),
        None => None,
    }
}

/// A pattern that matches anything.
pub open spec fn wild(p: PatV) -> bool {
    p is Wild || p is Var
}

/// The constructor a pattern starts with, where the values it stands among
/// have a finite set of constructors.
pub open spec fn key_of(p: PatV) -> Option<KeyV> {
    match p {
        PatV::Bool(b) => Some(KeyV::Flag(b)),
        PatV::Ctor(c, _) => if c == "True"@ || c == "False"@ {
            Some(KeyV::Flag(c == "True"@))
        } else {
            Some(KeyV::Named(c))
        },
        PatV::Tuple(_) => Some(KeyV::Tup),
        _ => None,
    }
}

/// What a pattern that starts with `k` asks of the parts of the value.
pub open spec fn payload(p: PatV, k: KeyV) -> Option<Seq<PatV>> {
    match k {
        KeyV::Flag(b) => if key_of(p) == Some(KeyV::Flag(b)) {
            Some(Seq::empty())
        } else {
            None
        },
        KeyV::Named(c) => if p is Ctor && key_of(p) == Some(KeyV::Named(c)) {
            Some(p->Ctor_1)
        } else {
            None
        },
        KeyV::Tup => match p {
            PatV::Tuple(ps) => Some(ps),
            _ => None,
        },
    }
}

/// The number of pattern nodes that are not wildcards.
pub open spec fn hsize(p: PatV) -> nat
    decreases p,
{
    match p {
        PatV::Wild => 0,
        PatV::Var(_) => 0,
        PatV::Ctor(_, ps) => 1 + psize(ps),
        PatV::List(ps) => 1 + psize(ps),
        PatV::Tuple(ps) => 1 + psize(ps),
        _ => 1,
    }
}

pub open spec fn psize(ps: Seq<PatV>) -> nat
    decreases ps,
{
    if ps.len() == 0 {
        0
    } else {
        psize(ps.drop_last()) + hsize(ps.last())
    }
}

/// The size of a matrix: its pattern nodes that are not wildcards.
pub open spec fn msize(rows: Seq<Seq<PatV>>) -> nat
    decreases rows.len(),
{
    if rows.len() == 0 {
        0
    } else {
        msize(rows.drop_last()) + psize(rows.last())
    }
}

/// The number of cells of a matrix.
pub open spec fn cells(rows: Seq<Seq<PatV>>) -> nat
    decreases rows.len(),
{
    if rows.len() == 0 {
        0
    } else {
        cells(rows.drop_last()) + rows.last().len()
    }
}

pub open spec fn wilds(n: nat) -> Seq<PatV> {
    Seq::new(n, |i: int| PatV::Wild)
}

/// The rows that can match a value built by `k` with `ar` parts, each with
/// the parts in place of its first cell.
pub open spec fn specialize(rows: Seq<Seq<PatV>>, k: KeyV, ar: nat) -> Seq<Seq<PatV>>
    decreases rows.len(),
{
    if rows.len() == 0 {
        Seq::empty()
    } else {
        let rest = specialize(rows.drop_last(), k, ar);
        let r = rows.last();
        if r.len() == 0 {
            rest
        } else if wild(r[0]) {
            rest.push(wilds(ar) + r.drop_first())
        } else {
            match payload(r[0], k) {
                Some(ps) => if ps.len() == ar {
                    rest.push(ps + r.drop_first())
                } else {
                    rest
                },
                None => rest,
            }
        }
    }
}

/// The rows whose first cell matches anything, without it.
pub open spec fn default_rows(rows: Seq<Seq<PatV>>) -> Seq<Seq<PatV>>
    decreases rows.len(),
{
    if rows.len() == 0 {
        Seq::empty()
    } else {
        let rest = default_rows(rows.drop_last());
        let r = rows.last();
        if r.len() > 0 && wild(r[0]) {
            rest.push(r.drop_first())
        } else {
            rest
        }
    }
}

/// The number of parts of `k` in the first row that starts with it.
pub open spec fn first_arity(rows: Seq<Seq<PatV>>, k: KeyV) -> Option<nat>
    decreases rows.len(),
{
    if rows.len() == 0 {
        None
    } else if rows[0].len() > 0 && payload(rows[0][0], k) is Some {
        Some(payload(rows[0][0], k)->0.len())
    } else {
        first_arity(rows.drop_first(), k)
    }
}

/// The constructor that the first row starting with one starts with.
pub open spec fn first_key(rows: Seq<Seq<PatV>>) -> Option<KeyV>
    decreases rows.len(),
{
    if rows.len() == 0 {
        None
    } else if rows[0].len() > 0 && key_of(rows[0][0]) is Some {
        key_of(rows[0][0])
    } else {
        first_key(rows.drop_first())
    }
}

/// The constructors of the latest variant type that has one named `c`.
pub open spec fn variant_holding(vs: Seq<(Seq<char>, Seq<Seq<char>>)>, c: Seq<char>) -> Option<
    Seq<Seq<char>>,
>
    decreases vs.len(),
{
    if vs.len() == 0 {
        None
    } else if vs.last().1.contains(c) {
        Some(vs.last().1)
    } else {
        variant_holding(vs.drop_last(), c)
    }
}

/// All the constructors the first column can hold, where they are finitely
/// many.
pub open spec fn family(rows: Seq<Seq<PatV>>, vs: Seq<(Seq<char>, Seq<Seq<char>>)>) -> Option<Seq<KeyV>> {
    match first_key(rows) {
        Some(KeyV::Flag(_)) => Some(seq![KeyV::Flag(true), KeyV::Flag(false)]),
        Some(KeyV::Tup) => Some(seq![KeyV::Tup]),
        Some(KeyV::Named(c)) => match variant_holding(vs, c) {
            Some(cs) => Some(cs.map_values(|n: Seq<char>| KeyV::Named(n))),
            None => None,
        },
        None => None,
    }
}

/// Every value matches some row.
pub open spec fn exhaustive(rows: Seq<Seq<PatV>>, vs: Seq<(Seq<char>, Seq<Seq<char>>)>) -> bool
    decreases msize(rows), cells(rows), 1nat, 0nat,
{
    if rows.len() == 0 {
        false
    } else if rows[0].len() == 0 {
        true
    } else {
        match family(rows, vs) {
            Some(fam) => all_cover(rows, fam, vs),
            None => {
                proof {
                    lemma_default_size(rows);
                }
                exhaustive(default_rows(rows), vs)
            },
        }
    }
}

/// Every value built by one of `fam` matches some row.
pub open spec fn all_cover(rows: Seq<Seq<PatV>>, fam: Seq<KeyV>, vs: Seq<(Seq<char>, Seq<Seq<char>>)>) -> bool
    decreases msize(rows), cells(rows), 0nat, fam.len() + 1,
{
    if fam.len() == 0 {
        true
    } else {
        all_cover(rows, fam.drop_last(), vs) && cover_member(rows, fam.last(), vs)
    }
}

/// Every value built by `k` matches some row.
pub open spec fn cover_member(rows: Seq<Seq<PatV>>, k: KeyV, vs: Seq<(Seq<char>, Seq<Seq<char>>)>) -> bool
    decreases msize(rows), cells(rows), 0nat, 0nat,
{
    if rows.len() == 0 || rows[0].len() == 0 {
        rows.len() > 0
    } else {
        match first_arity(rows, k) {
            Some(ar) => {
                proof {
                    lemma_first_arity_row(rows, k);
                    lemma_specialize_size(rows, k, ar);
                }
                exhaustive(specialize(rows, k, ar), vs)
            },
            None => {
                proof {
                    lemma_default_size(rows);
                }
                exhaustive(default_rows(rows), vs)
            },
        }
    }
}

/// The patterns of a match as a matrix of one column.
pub open spec fn column(ps: Seq<PatV>) -> Seq<Seq<PatV>> {
    ps.map_values(|p: PatV| seq![p])
}

// ------------------------------------------------------------ sizes

proof fn lemma_psize_concat(a: Seq<PatV>, b: Seq<PatV>)
    ensures
        psize(a + b) == psize(a) + psize(b),
    decreases b.len(),
{
    if b.len() == 0 {
        assert(a + b =~= a);
    } else {
        assert((a + b).drop_last() =~= a + b.drop_last());
        assert((a + b).last() == b.last());
        lemma_psize_concat(a, b.drop_last());
    }
}

proof fn lemma_psize_first(r: Seq<PatV>)
    requires
        r.len() > 0,
    ensures
        psize(r) == hsize(r[0]) + psize(r.drop_first()),
{
    assert(r =~= seq![r[0]] + r.drop_first());
    lemma_psize_concat(seq![r[0]], r.drop_first());
    assert(seq![r[0]].drop_last() =~= Seq::<PatV>::empty());
    assert(psize(Seq::<PatV>::empty()) == 0);
    assert(psize(seq![r[0]]) == hsize(r[0]));
}

proof fn lemma_psize_wilds(n: nat)
    ensures
        psize(wilds(n)) == 0,
    decreases n,
{
    if n > 0 {
        assert(wilds(n).drop_last() =~= wilds((n - 1) as nat));
        assert(hsize(wilds(n).last()) == 0);
        lemma_psize_wilds((n - 1) as nat);
    }
}

proof fn lemma_payload_size(p: PatV, k: KeyV)
    ensures
        payload(p, k) matches Some(ps) ==> psize(ps) + 1 <= hsize(p),
{
    if let Some(ps) = payload(p, k) {
        if k is Flag {
            assert(psize(ps) == 0);
        }
    }
}

/// Row `i` starts with `k` with `ar` parts.
pub open spec fn opens_at(rows: Seq<Seq<PatV>>, i: int, k: KeyV, ar: nat) -> bool {
    &&& 0 <= i < rows.len()
    &&& rows[i].len() > 0
    &&& payload(rows[i][0], k) is Some
    &&& payload(rows[i][0], k)->0.len() == ar
}

/// A constructor with a first arity starts some row.
pub proof fn lemma_first_arity_row(rows: Seq<Seq<PatV>>, k: KeyV)
    ensures
        first_arity(rows, k) is Some ==> exists|i: int| opens_at(rows, i, k, first_arity(rows, k)->0),
    decreases rows.len(),
{
    if rows.len() > 0 {
        if rows[0].len() > 0 && payload(rows[0][0], k) is Some {
            assert(first_arity(rows, k) == Some(payload(rows[0][0], k)->0.len()));
            assert(opens_at(rows, 0, k, first_arity(rows, k)->0));
        } else {
            assert(first_arity(rows, k) == first_arity(rows.drop_first(), k));
            let d = rows.drop_first();
            lemma_first_arity_row(d, k);
            if first_arity(d, k) is Some {
                let ar = first_arity(d, k)->0;
                let j = choose|j: int| opens_at(d, j, k, ar);
                assert(d[j] == rows[j + 1]);
                assert(opens_at(rows, j + 1, k, ar));
                assert(first_arity(rows, k)->0 == ar);
            }
        }
    }
}

/// Splitting off a constructor never grows the matrix, and shrinks it
/// where some row starts with that constructor.
pub proof fn lemma_specialize_size(rows: Seq<Seq<PatV>>, k: KeyV, ar: nat)
    ensures
        msize(specialize(rows, k, ar)) <= msize(rows),
        forall|i: int| #[trigger] opens_at(rows, i, k, ar) ==> msize(specialize(rows, k, ar)) < msize(rows),
    decreases rows.len(),
{
    if rows.len() > 0 {
        let d = rows.drop_last();
        lemma_specialize_size(d, k, ar);
        let r = rows.last();
        assert forall|i: int| opens_at(rows, i, k, ar) && i < rows.len() - 1 implies opens_at(d, i, k, ar) by {
            assert(d[i] == rows[i]);
        }
        let sd = specialize(d, k, ar);
        if r.len() > 0 {
            lemma_psize_first(r);
            if wild(r[0]) {
                lemma_psize_concat(wilds(ar), r.drop_first());
                lemma_psize_wilds(ar);
                assert(hsize(r[0]) == 0);
                let x = wilds(ar) + r.drop_first();
                assert(sd.push(x).drop_last() =~= sd);
            } else {
                lemma_payload_size(r[0], k);
                if let Some(ps) = payload(r[0], k) {
                    lemma_psize_concat(ps, r.drop_first());
                    let x = ps + r.drop_first();
                    assert(sd.push(x).drop_last() =~= sd);
                }
            }
        }
    }
}

/// Dropping the first column never grows the matrix.
pub proof fn lemma_default_size(rows: Seq<Seq<PatV>>)
    ensures
        msize(default_rows(rows)) <= msize(rows),
        cells(default_rows(rows)) <= cells(rows),
        forall|i: int| 0 <= i < rows.len() && (#[trigger] rows[i]).len() > 0 ==> cells(default_rows(rows))
            < cells(rows),
    decreases rows.len(),
{
    if rows.len() > 0 {
        let d = rows.drop_last();
        lemma_default_size(d);
        let r = rows.last();
        assert forall|i: int| 0 <= i < rows.len() - 1 && (#[trigger] rows[i]).len() > 0 implies d[i].len() > 0 by {
            assert(d[i] == rows[i]);
        }
        let dd = default_rows(d);
        if r.len() > 0 {
            lemma_psize_first(r);
            assert(dd.push(r.drop_first()).drop_last() =~= dd);
        }
    }
}

/// `all_cover` asks `cover_member` of each constructor in turn.
pub proof fn lemma_all_cover(rows: Seq<Seq<PatV>>, fam: Seq<KeyV>, vs: Seq<(Seq<char>, Seq<Seq<char>>)>)
    ensures
        all_cover(rows, fam, vs) == forall|j: int| 0 <= j < fam.len() ==> cover_member(rows, #[trigger] fam[j], vs),
    decreases fam.len(),
{
    if fam.len() > 0 {
        let d = fam.drop_last();
        lemma_all_cover(rows, d, vs);
        assert forall|j: int| 0 <= j < d.len() implies d[j] == fam[j] by {}
        if all_cover(rows, fam, vs) {
            assert forall|j: int| 0 <= j < fam.len() implies cover_member(rows, #[trigger] fam[j], vs) by {
                if j < d.len() {
                    assert(d[j] == fam[j]);
                }
            }
        }
        if forall|j: int| 0 <= j < fam.len() ==> cover_member(rows, #[trigger] fam[j], vs) {
            assert forall|j: int| 0 <= j < d.len() implies cover_member(rows, #[trigger] d[j], vs) by {
                assert(d[j] == fam[j]);
            }
            assert(cover_member(rows, fam[fam.len() - 1], vs));
        }
    }
}

// ------------------------------------------------------------ a row of wildcards covers everything

/// Every row has `w` cells.
pub open spec fn uniform(rows: Seq<Seq<PatV>>, w: int) -> bool {
    forall|i: int| 0 <= i < rows.len() ==> (#[trigger] rows[i]).len() == w
}

/// Every cell of `r` matches anything.
pub open spec fn all_wild(r: Seq<PatV>) -> bool {
    forall|j: int| 0 <= j < r.len() ==> wild(#[trigger] r[j])
}

/// Some row of `rows` matches anything.
pub open spec fn has_wild_row(rows: Seq<Seq<PatV>>) -> bool {
    exists|i: int| 0 <= i < rows.len() && all_wild(#[trigger] rows[i])
}

proof fn lemma_specialize_shape(rows: Seq<Seq<PatV>>, k: KeyV, ar: nat, w: int)
    requires
        w > 0,
        uniform(rows, w),
    ensures
        uniform(specialize(rows, k, ar), ar + w - 1),
        has_wild_row(rows) ==> has_wild_row(specialize(rows, k, ar)),
    decreases rows.len(),
{
    if rows.len() > 0 {
        let d = rows.drop_last();
        assert forall|i: int| 0 <= i < d.len() implies (#[trigger] d[i]).len() == w by {
            assert(d[i] == rows[i]);
        }
        lemma_specialize_shape(d, k, ar, w);
        let r = rows.last();
        assert(r.len() == w);
        let sd = specialize(d, k, ar);
        if has_wild_row(rows) {
            let i = choose|i: int| 0 <= i < rows.len() && all_wild(#[trigger] rows[i]);
            if i < rows.len() - 1 {
                assert(d[i] == rows[i]);
                assert(has_wild_row(d));
            } else {
                assert(wild(r[0]));
                let x = wilds(ar) + r.drop_first();
                assert(all_wild(x)) by {
                    assert forall|j: int| 0 <= j < x.len() implies wild(#[trigger] x[j]) by {
                        if j >= ar {
                            assert(x[j] == r[j - ar + 1]);
                        }
                    }
                }
                assert(sd.push(x)[sd.len() as int] == x);
            }
        }
        if r.len() > 0 && !wild(r[0]) {
            if let Some(ps) = payload(r[0], k) {
                if ps.len() == ar {
                    let x = ps + r.drop_first();
                    assert forall|i: int| 0 <= i < sd.push(x).len() implies (#[trigger] sd.push(x)[i]).len() == ar + w - 1 by {
                        if i < sd.len() {
                            assert(sd.push(x)[i] == sd[i]);
                        }
                    }
                    if has_wild_row(sd) {
                        let i = choose|i: int| 0 <= i < sd.len() && all_wild(#[trigger] sd[i]);
                        assert(sd.push(x)[i] == sd[i]);
                    }
                }
            }
        } else if r.len() > 0 {
            let x = wilds(ar) + r.drop_first();
            assert forall|i: int| 0 <= i < sd.push(x).len() implies (#[trigger] sd.push(x)[i]).len() == ar + w - 1 by {
                if i < sd.len() {
                    assert(sd.push(x)[i] == sd[i]);
                }
            }
            if has_wild_row(sd) {
                let i = choose|i: int| 0 <= i < sd.len() && all_wild(#[trigger] sd[i]);
                assert(sd.push(x)[i] == sd[i]);
            }
        }
    }
}

proof fn lemma_default_shape(rows: Seq<Seq<PatV>>, w: int)
    requires
        w > 0,
        uniform(rows, w),
    ensures
        uniform(default_rows(rows), w - 1),
        has_wild_row(rows) ==> has_wild_row(default_rows(rows)),
    decreases rows.len(),
{
    if rows.len() > 0 {
        let d = rows.drop_last();
        assert forall|i: int| 0 <= i < d.len() implies (#[trigger] d[i]).len() == w by {
            assert(d[i] == rows[i]);
        }
        lemma_default_shape(d, w);
        let r = rows.last();
        assert(r.len() == w);
        let dd = default_rows(d);
        if has_wild_row(rows) {
            let i = choose|i: int| 0 <= i < rows.len() && all_wild(#[trigger] rows[i]);
            if i < rows.len() - 1 {
                assert(d[i] == rows[i]);
                assert(has_wild_row(d));
            } else {
                assert(wild(r[0]));
                let x = r.drop_first();
                assert(all_wild(x)) by {
                    assert forall|j: int| 0 <= j < x.len() implies wild(#[trigger] x[j]) by {
                        assert(x[j] == r[j + 1]);
                    }
                }
                assert(dd.push(x)[dd.len() as int] == x);
            }
        }
        if r.len() > 0 && wild(r[0]) {
            let x = r.drop_first();
            assert forall|i: int| 0 <= i < dd.push(x).len() implies (#[trigger] dd.push(x)[i]).len() == w - 1 by {
                if i < dd.len() {
                    assert(dd.push(x)[i] == dd[i]);
                }
            }
            if has_wild_row(dd) {
                let i = choose|i: int| 0 <= i < dd.len() && all_wild(#[trigger] dd[i]);
                assert(dd.push(x)[i] == dd[i]);
            }
        }
    }
}

/// A match with an arm that matches anything in every position leaves no
/// value unmatched, whatever its other arms.
pub proof fn lemma_wild_row_covers(rows: Seq<Seq<PatV>>, w: int, vs: Seq<(Seq<char>, Seq<Seq<char>>)>)
    requires
        uniform(rows, w),
        has_wild_row(rows),
    ensures
        exhaustive(rows, vs),
    decreases msize(rows), cells(rows), 1nat, 0nat,
{
    let i = choose|i: int| 0 <= i < rows.len() && all_wild(#[trigger] rows[i]);
    assert(rows[0].len() == w);
    if w > 0 {
        match family(rows, vs) {
            Some(fam) => {
                lemma_all_cover(rows, fam, vs);
                assert forall|j: int| 0 <= j < fam.len() implies cover_member(rows, #[trigger] fam[j], vs) by {
                    lemma_wild_row_covers_member(rows, w, fam[j], vs);
                }
            },
            None => {
                lemma_default_size(rows);
                lemma_default_shape(rows, w);
                lemma_wild_row_covers(default_rows(rows), w - 1, vs);
            },
        }
    }
}

proof fn lemma_wild_row_covers_member(rows: Seq<Seq<PatV>>, w: int, k: KeyV, vs: Seq<(Seq<char>, Seq<Seq<char>>)>)
    requires
        w > 0,
        uniform(rows, w),
        has_wild_row(rows),
    ensures
        cover_member(rows, k, vs),
    decreases msize(rows), cells(rows), 0nat, 0nat,
{
    let i = choose|i: int| 0 <= i < rows.len() && all_wild(#[trigger] rows[i]);
    assert(rows[0].len() == w);
    match first_arity(rows, k) {
        Some(ar) => {
            lemma_first_arity_row(rows, k);
            lemma_specialize_size(rows, k, ar);
            lemma_specialize_shape(rows, k, ar, w);
            lemma_wild_row_covers(specialize(rows, k, ar), ar + w - 1, vs);
        },
        None => {
            lemma_default_size(rows);
            lemma_default_shape(rows, w);
            lemma_wild_row_covers(default_rows(rows), w - 1, vs);
        },
    }
}

/// A match with an arm that matches anything covers every value.
pub proof fn lemma_catch_all_covers(ps: Seq<PatV>, vs: Seq<(Seq<char>, Seq<Seq<char>>)>)
    requires
        exists|k: int| 0 <= k < ps.len() && wild(#[trigger] ps[k]),
    ensures
        exhaustive(column(ps), vs),
{
    let rows = column(ps);
    let k = choose|k: int| 0 <= k < ps.len() && wild(#[trigger] ps[k]);
    assert(rows[k] == seq![ps[k]]);
    assert(all_wild(rows[k]));
    assert forall|i: int| 0 <= i < rows.len() implies (#[trigger] rows[i]).len() == 1 by {
        assert(rows[i] == seq![ps[i]]);
    }
    lemma_wild_row_covers(rows, 1, vs);
}

// ------------------------------------------------------------ the checks

/// A matrix of patterns by its view.
pub open spec fn rows_view(rows: Seq<Vec<Pat>>) -> Seq<Seq<PatV>> {
    rows.map_values(|r: Vec<Pat>| pats_view(r@))
}

proof fn lemma_pats_view_push(s: Seq<Pat>, x: Pat)
    ensures
        pats_view(s.push(x)) == pats_view(s).push(x@),
{
    assert(s.push(x).drop_last() =~= s);
}

/// A copy of `p`, equal to it.
pub fn copy_pat(p: &Pat) -> (r: Pat)
    ensures
        r@ == p@,
    decreases p,
{
    match p {
        Pat::Wild => Pat::Wild,
        Pat::Var(n) => Pat::Var(n.clone()),
        Pat::Int(n) => Pat::Int(*n),
        Pat::Float(x) => Pat::Float(x.clone()),
        Pat::Str(x) => Pat::Str(x.clone()),
        Pat::Char(c) => Pat::Char(*c),
        Pat::Bool(b) => Pat::Bool(*b),
        Pat::Ctor(n, ps) => Pat::Ctor(n.clone(), copy_pats(ps)),
        Pat::List(ps) => Pat::List(copy_pats(ps)),
        Pat::Tuple(ps) => Pat::Tuple(copy_pats(ps)),
    }
}

/// A copy of every pattern in `ps`.
pub fn copy_pats(ps: &Vec<Pat>) -> (r: Vec<Pat>)
    ensures
        pats_view(r@) == pats_view(ps@),
    decreases ps,
{
    let mut out: Vec<Pat> = Vec::new();
    for i in 0..ps.len()
        invariant
            pats_view(out@) == pats_view(ps@.take(i as int)),
    {
        proof {
            assert(decreases_to!(ps => ps@[i as int]));
        }
        let ghost prev = out@;
        let c = copy_pat(&ps[i]);
        out.push(c);
        proof {
            lemma_pats_view_push(prev, c);
            assert(ps@.take(i + 1) =~= ps@.take(i as int).push(ps@[i as int]));
            lemma_pats_view_push(ps@.take(i as int), ps@[i as int]);
        }
    }
    assert(ps@.take(ps@.len() as int) =~= ps@);
    out
}

fn bool_name(c: &str) -> (r: Option<bool>)
    ensures
        r == (if c@ == "True"@ || c@ == "False"@ {
            Some(c@ == "True"@)
        } else {
            None::<bool>
        }),
{
    if str_eq(c, "True") {
        Some(true)
    } else if str_eq(c, "False") {
        Some(false)
    } else {
        None
    }
}

fn key_of_pat(p: &Pat) -> (r: Option<Key>)
    ensures
        opt_key(r) == key_of(p@),
{
    match p {
        Pat::Bool(b) => Some(Key::Flag(*b)),
        Pat::Ctor(c, _) => match bool_name(c.as_str()) {
            Some(b) => Some(Key::Flag(b)),
            None => Some(Key::Named(c.clone())),
        },
        Pat::Tuple(_) => Some(Key::Tup),
        _ => None,
    }
}

fn payload_of(p: &Pat, k: &Key) -> (r: Option<Vec<Pat>>)
    ensures
        match r {
            Some(ps) => payload(p@, k@) == Some(pats_view(ps@)),
            None => payload(p@, k@) is None,
        },
{
    match k {
        Key::Flag(b) => {
            let hit = match key_of_pat(p) {
                Some(Key::Flag(x)) => x == *b,
                _ => false,
            };
            if hit {
                let v: Vec<Pat> = Vec::new();
                assert(pats_view(v@) =~= Seq::<PatV>::empty());
                Some(v)
            } else {
                None
            }
        },
        Key::Named(c) => match p {
            Pat::Ctor(d, ps) => {
                if bool_name(d.as_str()).is_none() && str_eq(d.as_str(), c.as_str()) {
                    Some(copy_pats(ps))
                } else {
                    None
                }
            },
            _ => None,
        },
        Key::Tup => match p {
            Pat::Tuple(ps) => Some(copy_pats(ps)),
            _ => None,
        },
    }
}

fn is_wild(p: &Pat) -> (r: bool)
    ensures
        r == wild(p@),
{
    match p {
        Pat::Wild | Pat::Var(_) => true,
        _ => false,
    }
}

fn first_key_of(rows: &Vec<Vec<Pat>>) -> (r: Option<Key>)
    ensures
        opt_key(r) == first_key(rows_view(rows@)),
{
    let ghost rv = rows_view(rows@);
    assert(rv.subrange(0, rv.len() as int) =~= rv);
    for i in 0..rows.len()
        invariant
            rv == rows_view(rows@),
            rv.len() == rows@.len(),
            first_key(rv) == first_key(rv.subrange(i as int, rv.len() as int)),
    {
        let ghost sub = rv.subrange(i as int, rv.len() as int);
        proof {
            assert(sub[0] == rv[i as int]);
            assert(sub.drop_first() =~= rv.subrange(i + 1, rv.len() as int));
            lemma_pats_view(rows@[i as int]@);
        }
        if rows[i].len() > 0 {
            let k = key_of_pat(&rows[i][0]);
            if k.is_some() {
                return k;
            }
        }
    }
    assert(rv.subrange(rv.len() as int, rv.len() as int) =~= Seq::<Seq<PatV>>::empty());
    None
}

fn first_arity_of(rows: &Vec<Vec<Pat>>, k: &Key) -> (r: Option<usize>)
    ensures
        match r {
            Some(n) => first_arity(rows_view(rows@), k@) == Some(n as nat),
            None => first_arity(rows_view(rows@), k@) is None,
        },
{
    let ghost rv = rows_view(rows@);
    assert(rv.subrange(0, rv.len() as int) =~= rv);
    for i in 0..rows.len()
        invariant
            rv == rows_view(rows@),
            rv.len() == rows@.len(),
            first_arity(rv, k@) == first_arity(rv.subrange(i as int, rv.len() as int), k@),
    {
        let ghost sub = rv.subrange(i as int, rv.len() as int);
        proof {
            assert(sub[0] == rv[i as int]);
            assert(sub.drop_first() =~= rv.subrange(i + 1, rv.len() as int));
            lemma_pats_view(rows@[i as int]@);
        }
        if rows[i].len() > 0 {
            match payload_of(&rows[i][0], k) {
                Some(ps) => {
                    proof {
                        lemma_pats_view(ps@);
                    }
                    return Some(ps.len());
                },
                None => {},
            }
        }
    }
    assert(rv.subrange(rv.len() as int, rv.len() as int) =~= Seq::<Seq<PatV>>::empty());
    None
}

fn holds_name(names: &Vec<String>, c: &str) -> (r: bool)
    ensures
        r == texts(names@).contains(c@),
{
    for i in 0..names.len()
        invariant
            forall|j: int| 0 <= j < i ==> texts(names@)[j] != c@,
    {
        if str_eq(names[i].as_str(), c) {
            assert(texts(names@)[i as int] == c@);
            return true;
        }
    }
    false
}

fn holding_variant(vs: &Vec<(String, Vec<String>)>, c: &str) -> (r: Option<usize>)
    ensures
        match r {
            Some(j) => j < vs@.len() && variant_holding(variants_view(vs@), c@) == Some(texts(vs@[j as int].1@)),
            None => variant_holding(variants_view(vs@), c@) is None,
        },
{
    let mut k = vs.len();
    assert(variants_view(vs@).take(vs@.len() as int) =~= variants_view(vs@));
    while k > 0
        invariant
            k <= vs@.len(),
            variant_holding(variants_view(vs@), c@) == variant_holding(variants_view(vs@).take(k as int), c@),
        decreases k,
    {
        assert(variants_view(vs@).take(k as int).drop_last() =~= variants_view(vs@).take(k - 1));
        k -= 1;
        if holds_name(&vs[k].1, c) {
            return Some(k);
        }
    }
    assert(variants_view(vs@).take(0) =~= Seq::<(Seq<char>, Seq<Seq<char>>)>::empty());
    None
}

fn family_of(rows: &Vec<Vec<Pat>>, vs: &Vec<(String, Vec<String>)>) -> (r: Option<Vec<Key>>)
    ensures
        opt_keys(r) == family(rows_view(rows@), variants_view(vs@)),
{
    match first_key_of(rows) {
        Some(Key::Flag(_)) => {
            let mut f: Vec<Key> = Vec::new();
            f.push(Key::Flag(true));
            f.push(Key::Flag(false));
            assert(keys_view(f@) =~= seq![KeyV::Flag(true), KeyV::Flag(false)]);
            Some(f)
        },
        Some(Key::Tup) => {
            let mut f: Vec<Key> = Vec::new();
            f.push(Key::Tup);
            assert(keys_view(f@) =~= seq![KeyV::Tup]);
            Some(f)
        },
        Some(Key::Named(c)) => match holding_variant(vs, c.as_str()) {
            Some(j) => {
                let names = &vs[j].1;
                let ghost want = texts(names@).map_values(|n: Seq<char>| KeyV::Named(n));
                let mut f: Vec<Key> = Vec::new();
                for i in 0..names.len()
                    invariant
                        want == texts(names@).map_values(|n: Seq<char>| KeyV::Named(n)),
                        keys_view(f@) == want.take(i as int),
                {
                    assert(want[i as int] == KeyV::Named(names@[i as int]@));
                    let ghost prev = f@;
                    f.push(Key::Named(names[i].clone()));
                    assert(keys_view(f@) =~= keys_view(prev).push(KeyV::Named(names@[i as int]@)));
                    assert(keys_view(f@) =~= want.take(i + 1));
                }
                assert(want.take(names@.len() as int) =~= want);
                Some(f)
            },
            None => None,
        },
        None => None,
    }
}

/// The row `pre` followed by every cell of `r` but its first.
fn joined_row(pre: Vec<Pat>, r: &Vec<Pat>) -> (out: Vec<Pat>)
    requires
        r@.len() > 0,
    ensures
        pats_view(out@) == pats_view(pre@) + pats_view(r@).drop_first(),
{
    proof {
        lemma_pats_view(r@);
    }
    let mut out = pre;
    let ghost p0 = pats_view(pre@);
    assert(pats_view(r@).subrange(1, 1) =~= Seq::<PatV>::empty());
    assert(p0 + Seq::<PatV>::empty() =~= p0);
    for j in 1..r.len()
        invariant
            pats_view(r@).len() == r@.len(),
            forall|q: int| 0 <= q < r@.len() ==> #[trigger] pats_view(r@)[q] == r@[q]@,
            pats_view(out@) == p0 + pats_view(r@).subrange(1, j as int),
    {
        let ghost prev = out@;
        let c = copy_pat(&r[j]);
        out.push(c);
        proof {
            lemma_pats_view_push(prev, c);
            assert(p0 + pats_view(r@).subrange(1, j + 1) =~= (p0 + pats_view(r@).subrange(1, j as int)).push(
                r@[j as int]@,
            ));
        }
    }
    assert(pats_view(r@).subrange(1, r@.len() as int) =~= pats_view(r@).drop_first());
    out
}

fn wild_vec(n: usize) -> (r: Vec<Pat>)
    ensures
        pats_view(r@) == wilds(n as nat),
{
    let mut out: Vec<Pat> = Vec::new();
    for i in 0..n
        invariant
            pats_view(out@) == wilds(i as nat),
    {
        let ghost prev = out@;
        out.push(Pat::Wild);
        proof {
            lemma_pats_view_push(prev, Pat::Wild);
            assert(wilds((i + 1) as nat) =~= wilds(i as nat).push(PatV::Wild));
        }
    }
    out
}

fn specialize_rows(rows: &Vec<Vec<Pat>>, k: &Key, ar: usize) -> (r: Vec<Vec<Pat>>)
    ensures
        rows_view(r@) == specialize(rows_view(rows@), k@, ar as nat),
{
    let ghost rv = rows_view(rows@);
    let mut out: Vec<Vec<Pat>> = Vec::new();
    assert(rv.take(0) =~= Seq::<Seq<PatV>>::empty());
    for i in 0..rows.len()
        invariant
            rv == rows_view(rows@),
            rv.len() == rows@.len(),
            rows_view(out@) == specialize(rv.take(i as int), k@, ar as nat),
    {
        proof {
            assert(rv.take(i + 1).drop_last() =~= rv.take(i as int));
            assert(rv.take(i + 1).last() == rv[i as int]);
            lemma_pats_view(rows@[i as int]@);
        }
        let ghost prev = out@;
        let r = &rows[i];
        if r.len() > 0 {
            if is_wild(&r[0]) {
                let row = joined_row(wild_vec(ar), r);
                out.push(row);
                assert(rows_view(out@) =~= rows_view(prev).push(pats_view(row@)));
            } else {
                match payload_of(&r[0], k) {
                    Some(ps) => {
                        proof {
                            lemma_pats_view(ps@);
                        }
                        if ps.len() == ar {
                            let row = joined_row(ps, r);
                            out.push(row);
                            assert(rows_view(out@) =~= rows_view(prev).push(pats_view(row@)));
                        }
                    },
                    None => {},
                }
            }
        }
    }
    assert(rv.take(rv.len() as int) =~= rv);
    out
}

fn default_of(rows: &Vec<Vec<Pat>>) -> (r: Vec<Vec<Pat>>)
    ensures
        rows_view(r@) == default_rows(rows_view(rows@)),
{
    let ghost rv = rows_view(rows@);
    let mut out: Vec<Vec<Pat>> = Vec::new();
    assert(rv.take(0) =~= Seq::<Seq<PatV>>::empty());
    for i in 0..rows.len()
        invariant
            rv == rows_view(rows@),
            rv.len() == rows@.len(),
            rows_view(out@) == default_rows(rv.take(i as int)),
    {
        proof {
            assert(rv.take(i + 1).drop_last() =~= rv.take(i as int));
            assert(rv.take(i + 1).last() == rv[i as int]);
            lemma_pats_view(rows@[i as int]@);
        }
        let ghost prev = out@;
        let r = &rows[i];
        if r.len() > 0 && is_wild(&r[0]) {
            let v: Vec<Pat> = Vec::new();
            assert(pats_view(v@) =~= Seq::<PatV>::empty());
            let row = joined_row(v, r);
            assert(pats_view(row@) =~= pats_view(r@).drop_first());
            out.push(row);
            assert(rows_view(out@) =~= rows_view(prev).push(pats_view(row@)));
        }
    }
    assert(rv.take(rv.len() as int) =~= rv);
    out
}

/// Whether every value matches some row of `rows`.
pub fn exhaustive_rows(rows: &Vec<Vec<Pat>>, vs: &Vec<(String, Vec<String>)>) -> (r: bool)
    ensures
        r == exhaustive(rows_view(rows@), variants_view(vs@)),
    decreases msize(rows_view(rows@)), cells(rows_view(rows@)), 1nat, 0nat,
{
    let ghost rv = rows_view(rows@);
    if rows.len() == 0 {
        return false;
    }
    proof {
        lemma_pats_view(rows@[0]@);
    }
    if rows[0].len() == 0 {
        return true;
    }
    match family_of(rows, vs) {
        Some(fam) => covers_all(rows, &fam, vs),
        None => {
            let d = default_of(rows);
            proof {
                lemma_default_size(rv);
            }
            exhaustive_rows(&d, vs)
        },
    }
}

fn covers_all(rows: &Vec<Vec<Pat>>, fam: &Vec<Key>, vs: &Vec<(String, Vec<String>)>) -> (r: bool)
    ensures
        r == all_cover(rows_view(rows@), keys_view(fam@), variants_view(vs@)),
    decreases msize(rows_view(rows@)), cells(rows_view(rows@)), 0nat, 1nat,
{
    let ghost kv = keys_view(fam@);
    proof {
        lemma_all_cover(rows_view(rows@), kv, variants_view(vs@));
    }
    for i in 0..fam.len()
        invariant
            kv == keys_view(fam@),
            kv.len() == fam@.len(),
            all_cover(rows_view(rows@), kv, variants_view(vs@)) == forall|j: int|
                0 <= j < kv.len() ==> cover_member(rows_view(rows@), #[trigger] kv[j], variants_view(vs@)),
            forall|j: int| 0 <= j < i ==> cover_member(rows_view(rows@), #[trigger] kv[j], variants_view(vs@)),
    {
        if !covers_one(rows, &fam[i], vs) {
            assert(!cover_member(rows_view(rows@), kv[i as int], variants_view(vs@)));
            return false;
        }
    }
    true
}

/// Whether every value built by `k` matches some row of `rows`.
pub fn covers_one(rows: &Vec<Vec<Pat>>, k: &Key, vs: &Vec<(String, Vec<String>)>) -> (r: bool)
    ensures
        r == cover_member(rows_view(rows@), k@, variants_view(vs@)),
    decreases msize(rows_view(rows@)), cells(rows_view(rows@)), 0nat, 0nat,
{
    let ghost rv = rows_view(rows@);
    if rows.len() == 0 {
        return false;
    }
    proof {
        lemma_pats_view(rows@[0]@);
    }
    if rows[0].len() == 0 {
        return true;
    }
    match first_arity_of(rows, k) {
        Some(ar) => {
            let s = specialize_rows(rows, k, ar);
            proof {
                lemma_first_arity_row(rv, k@);
                lemma_specialize_size(rv, k@, ar as nat);
            }
            exhaustive_rows(&s, vs)
        },
        None => {
            let d = default_of(rows);
            proof {
                lemma_default_size(rv);
            }
            exhaustive_rows(&d, vs)
        },
    }
}

/// The patterns of a match as a matrix of one column.
pub fn column_of(ps: &Vec<Pat>) -> (r: Vec<Vec<Pat>>)
    ensures
        rows_view(r@) == column(pats_view(ps@)),
{
    proof {
        lemma_pats_view(ps@);
    }
    let ghost want = column(pats_view(ps@));
    let mut out: Vec<Vec<Pat>> = Vec::new();
    for i in 0..ps.len()
        invariant
            want == column(pats_view(ps@)),
            pats_view(ps@).len() == ps@.len(),
            forall|q: int| 0 <= q < ps@.len() ==> #[trigger] pats_view(ps@)[q] == ps@[q]@,
            rows_view(out@) == want.take(i as int),
    {
        let mut row: Vec<Pat> = Vec::new();
        let ghost e = row@;
        let c = copy_pat(&ps[i]);
        row.push(c);
        proof {
            lemma_pats_view_push(e, c);
            assert(e =~= Seq::<Pat>::empty());
            assert(pats_view(e) =~= Seq::<PatV>::empty());
            assert(pats_view(row@) =~= seq![ps@[i as int]@]);
        }
        let ghost prev = out@;
        out.push(row);
        assert(rows_view(out@) =~= want.take(i + 1)) by {
            assert(rows_view(out@) =~= rows_view(prev).push(pats_view(row@)));
        }
    }
    assert(want.take(ps@.len() as int) =~= want);
    out
}

} // verus!
