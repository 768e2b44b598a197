//! Which functions can be trusted to free what they allocated. A pointer
//! escapes the compiler's sight in one way only: handed to C, which may keep
//! it as long as it likes. So a function is trustworthy when neither it nor
//! anything it can reach calls an `ext c` symbol.

use vstd::prelude::*;
use crate::ast::{Expr, ExprKind, FunDecl, Module, Pat, funs_of};
use crate::text::str_eq;

verus! {

/// Every name an expression mentions, variables and constructors, in order:
/// a name that is not a call costs a comparison and never correctness.
pub open spec fn mentions(e: Expr) -> Seq<Seq<char>>
    decreases e, 0int,
{
    match e.kind {
        ExprKind::Var(n) => seq![n@],
        ExprKind::Ctor(n) => seq![n@],
        ExprKind::App(h, args) => mentions(*h) + mentions_list(args@),
        ExprKind::Binop(_, a, b) => mentions(*a) + mentions(*b),
        ExprKind::Bind(_, a, b) => mentions(*a) + mentions(*b),
        ExprKind::Let(_, a, b) => mentions(*a) + mentions(*b),
        ExprKind::Neg(a) => mentions(*a),
        ExprKind::Not(a) => mentions(*a),
        ExprKind::Borrow(a) => mentions(*a),
        ExprKind::Field(a, _) => mentions(*a),
        ExprKind::Lambda(_, a) => mentions(*a),
        ExprKind::Arena(_, a) => mentions(*a),
        ExprKind::Match(s, arms) => mentions(*s) + mentions_arms(arms@),
        ExprKind::Record(base, fields) => (match base {
            Some(b) => mentions(*b),
            None => Seq::empty(),
        }) + mentions_fields(fields@),
        ExprKind::Tuple(xs) => mentions_list(xs@),
        ExprKind::List(xs) => mentions_list(xs@),
        _ => Seq::empty(),
    }
}

pub open spec fn mentions_list(xs: Seq<Expr>) -> Seq<Seq<char>>
    decreases xs, 1int,
{
    if xs.len() == 0 {
        Seq::empty()
    } else {
        mentions_list(xs.drop_last()) + mentions(xs.last())
    }
}

pub open spec fn mentions_arms(xs: Seq<(Pat, Expr)>) -> Seq<Seq<char>>
    decreases xs, 1int,
{
    if xs.len() == 0 {
        Seq::empty()
    } else {
        mentions_arms(xs.drop_last()) + mentions(xs.last().1)
    }
}

pub open spec fn mentions_fields(xs: Seq<(String, Expr)>) -> Seq<Seq<char>>
    decreases xs, 1int,
{
    if xs.len() == 0 {
        Seq::empty()
    } else {
        mentions_fields(xs.drop_last()) + mentions(xs.last().1)
    }
}

/// Some name of `a` is in `b`.
pub open spec fn meets(a: Seq<Seq<char>>, b: Seq<Seq<char>>) -> bool {
    exists|i: int| 0 <= i < a.len() && b.contains(#[trigger] a[i])
}

/// Function `i` is the last declared under its name: the one whose calls
/// the name stands for.
pub open spec fn last_of_name(fs: Seq<FunDecl>, i: int) -> bool {
    forall|j: int| i < j < fs.len() ==> #[trigger] fs[j].name@ != fs[i].name@
}

/// The functions that call an `ext c` symbol themselves, in order.
pub open spec fn direct(fs: Seq<FunDecl>, exts: Seq<Seq<char>>) -> Seq<Seq<char>>
    decreases fs.len(),
{
    if fs.len() == 0 {
        Seq::empty()
    } else {
        let r = direct(fs.drop_last(), exts);
        if meets(mentions(fs.last().body), exts) {
            r.push(fs.last().name@)
        } else {
            r
        }
    }
}

/// One round of taint: `t`, and after it the names (by their last
/// declaration, among the first `k` functions) that mention a tainted name
/// and are not tainted yet.
pub open spec fn spread(all: Seq<FunDecl>, t: Seq<Seq<char>>, k: int) -> Seq<Seq<char>>
    decreases k,
{
    if k <= 0 {
        t
    } else {
        let r = spread(all, t, k - 1);
        let f = all[k - 1];
        if last_of_name(all, k - 1) && !t.contains(f.name@) && meets(mentions(f.body), t) {
            r.push(f.name@)
        } else {
            r
        }
    }
}

/// The taint after `n` rounds: a caller of a tainted function is tainted,
/// since a release above the frame that handed the pointer out would free
/// what C still holds.
pub open spec fn tainted_after(fs: Seq<FunDecl>, exts: Seq<Seq<char>>, n: nat) -> Seq<Seq<char>>
    decreases n,
{
    if n == 0 {
        direct(fs, exts)
    } else {
        spread(fs, tainted_after(fs, exts, (n - 1) as nat), fs.len() as int)
    }
}

/// The tainted names: as many rounds as there are functions, enough for a
/// chain of callers through every one of them.
pub open spec fn tainted(fs: Seq<FunDecl>, exts: Seq<Seq<char>>) -> Seq<Seq<char>> {
    tainted_after(fs, exts, fs.len())
}

/// The functions, in order, that are not ghosts and not tainted.
pub open spec fn trusted(fs: Seq<FunDecl>, t: Seq<Seq<char>>, k: int) -> Seq<Seq<char>>
    decreases k,
{
    if k <= 0 {
        Seq::empty()
    } else {
        let r = trusted(fs, t, k - 1);
        let f = fs[k - 1];
        if !f.is_ghost && !t.contains(f.name@) {
            r.push(f.name@)
        } else {
            r
        }
    }
}


proof fn lemma_mentions_list_has(xs: Seq<Expr>, j: int)
    requires
        0 <= j < xs.len(),
    ensures
        forall|q: Seq<char>| mentions(xs[j]).contains(q) ==> #[trigger] mentions_list(xs).contains(q),
    decreases xs.len(),
{
    crate::ast::lemma_in_concat(mentions_list(xs.drop_last()), mentions(xs.last()));
    if j < xs.len() - 1 {
        lemma_mentions_list_has(xs.drop_last(), j);
        assert(xs.drop_last()[j] == xs[j]);
    }
}

proof fn lemma_mentions_arms_has(xs: Seq<(Pat, Expr)>, j: int)
    requires
        0 <= j < xs.len(),
    ensures
        forall|q: Seq<char>| mentions(xs[j].1).contains(q) ==> #[trigger] mentions_arms(xs).contains(q),
    decreases xs.len(),
{
    crate::ast::lemma_in_concat(mentions_arms(xs.drop_last()), mentions(xs.last().1));
    if j < xs.len() - 1 {
        lemma_mentions_arms_has(xs.drop_last(), j);
        assert(xs.drop_last()[j] == xs[j]);
    }
}

proof fn lemma_mentions_fields_has(xs: Seq<(String, Expr)>, j: int)
    requires
        0 <= j < xs.len(),
    ensures
        forall|q: Seq<char>| mentions(xs[j].1).contains(q) ==> #[trigger] mentions_fields(xs).contains(q),
    decreases xs.len(),
{
    crate::ast::lemma_in_concat(mentions_fields(xs.drop_last()), mentions(xs.last().1));
    if j < xs.len() - 1 {
        lemma_mentions_fields_has(xs.drop_last(), j);
        assert(xs.drop_last()[j] == xs[j]);
    }
}

/// Every name a sub-expression mentions, `e` mentions too: a call into C
/// anywhere in a body, in any argument, binding or arm, taints it.
pub proof fn lemma_mentions_reach_every_child(e: Expr)
    ensures
        forall|c: int, q: Seq<char>|
            0 <= c < crate::ast::children(e).len() && #[trigger] mentions(crate::ast::children(e)[c]).contains(q) ==> mentions(e).contains(q),
{
    let ch = crate::ast::children(e);
    assert forall|c: int, q: Seq<char>| 0 <= c < ch.len() && #[trigger] mentions(ch[c]).contains(q) implies mentions(e).contains(q) by {
        match e.kind {
            ExprKind::App(h, xs) => {
                crate::ast::lemma_in_concat(mentions(*h), mentions_list(xs@));
                if c > 0 {
                    assert(ch[c] == xs@[c - 1]);
                    lemma_mentions_list_has(xs@, c - 1);
                }
            },
            ExprKind::Binop(_, a, b) => {
                crate::ast::lemma_in_concat(mentions(*a), mentions(*b));
            },
            ExprKind::Bind(_, a, b) => {
                crate::ast::lemma_in_concat(mentions(*a), mentions(*b));
            },
            ExprKind::Let(_, a, b) => {
                crate::ast::lemma_in_concat(mentions(*a), mentions(*b));
            },
            ExprKind::Match(x, arms) => {
                crate::ast::lemma_in_concat(mentions(*x), mentions_arms(arms@));
                if c > 0 {
                    assert(ch[c] == arms@[c - 1].1);
                    lemma_mentions_arms_has(arms@, c - 1);
                }
            },
            ExprKind::Record(base, fs) => {
                let bq = match base {
                    Some(b) => mentions(*b),
                    None => Seq::empty(),
                };
                crate::ast::lemma_in_concat(bq, mentions_fields(fs@));
                match base {
                    Some(b) => {
                        if c > 0 {
                            assert(ch[c] == fs@[c - 1].1);
                            lemma_mentions_fields_has(fs@, c - 1);
                        }
                    },
                    None => {
                        assert(ch[c] == fs@[c].1);
                        lemma_mentions_fields_has(fs@, c);
                    },
                }
            },
            ExprKind::Tuple(xs) => {
                lemma_mentions_list_has(xs@, c);
                assert(ch[c] == xs@[c]);
                assert(mentions(e) == mentions_list(xs@));
                assert(mentions_list(xs@).contains(q));
            },
            ExprKind::List(xs) => {
                lemma_mentions_list_has(xs@, c);
                assert(ch[c] == xs@[c]);
                assert(mentions(e) == mentions_list(xs@));
                assert(mentions_list(xs@).contains(q));
            },
            
            ExprKind::Neg(a) => {
                assert(ch[c] == *a);
                assert(mentions(e) == mentions(*a));
            },
            ExprKind::Not(a) => {
                assert(ch[c] == *a);
                assert(mentions(e) == mentions(*a));
            },
            ExprKind::Borrow(a) => {
                assert(ch[c] == *a);
                assert(mentions(e) == mentions(*a));
            },
            ExprKind::Lambda(_, a) => {
                assert(ch[c] == *a);
                assert(mentions(e) == mentions(*a));
            },
            ExprKind::Arena(_, a) => {
                assert(ch[c] == *a);
                assert(mentions(e) == mentions(*a));
            },
            ExprKind::Field(a, _) => {
                assert(ch[c] == *a);
                assert(mentions(e) == mentions(*a));
            },
            _ => {},
        }
    }
}

// ------------------------------------------------------------ the taint is closed

proof fn lemma_spread_grows(all: Seq<FunDecl>, t: Seq<Seq<char>>, k: int)
    requires
        0 <= k <= all.len(),
    ensures
        spread(all, t, k).len() >= t.len(),
        spread(all, t, k).take(t.len() as int) == t,
        forall|j: int| t.len() <= j < spread(all, t, k).len() ==> !t.contains(#[trigger] spread(all, t, k)[j]) && exists|i: int|
            0 <= i < k && spread(all, t, k)[j] == #[trigger] all[i].name@,
        spread(all, t, k).len() == t.len() ==> forall|i: int|
            0 <= i < k && last_of_name(all, i) && meets(mentions(#[trigger] all[i].body), t) ==> t.contains(all[i].name@),
    decreases k,
{
    if k <= 0 {
        assert(t.take(t.len() as int) =~= t);
    } else {
        lemma_spread_grows(all, t, k - 1);
        let r = spread(all, t, k - 1);
        let s = spread(all, t, k);
        let f = all[k - 1];
        if last_of_name(all, k - 1) && !t.contains(f.name@) && meets(mentions(f.body), t) {
            assert(s == r.push(f.name@));
            assert(s.take(t.len() as int) =~= r.take(t.len() as int));
            assert forall|j: int| t.len() <= j < s.len() implies !t.contains(#[trigger] s[j]) && exists|i: int|
                0 <= i < k && s[j] == #[trigger] all[i].name@ by {
                if j < r.len() {
                    assert(s[j] == r[j]);
                    let i = choose|i: int| 0 <= i < k - 1 && r[j] == #[trigger] all[i].name@;
                    assert(0 <= i < k && s[j] == all[i].name@);
                } else {
                    assert(s[j] == all[k - 1].name@);
                }
            }
        } else {
            assert forall|j: int| t.len() <= j < s.len() implies !t.contains(#[trigger] s[j]) && exists|i: int|
                0 <= i < k && s[j] == #[trigger] all[i].name@ by {
                let i = choose|i: int| 0 <= i < k - 1 && r[j] == #[trigger] all[i].name@;
                assert(0 <= i < k && s[j] == all[i].name@);
            }
        }
    }
}

proof fn lemma_direct_names(fs: Seq<FunDecl>, exts: Seq<Seq<char>>)
    ensures
        forall|j: int| 0 <= j < direct(fs, exts).len() ==> fun_names_of(fs).contains(#[trigger] direct(fs, exts)[j]),
    decreases fs.len(),
{
    if fs.len() > 0 {
        let d = fs.drop_last();
        lemma_direct_names(d, exts);
        let r = direct(d, exts);
        assert forall|j: int| 0 <= j < direct(fs, exts).len() implies fun_names_of(fs).contains(#[trigger] direct(fs, exts)[j]) by {
            let x = direct(fs, exts)[j];
            if j < r.len() {
                assert(x == r[j]);
                let q = choose|q: int| 0 <= q < fun_names_of(d).len() && fun_names_of(d)[q] == x;
                assert(fun_names_of(fs)[q] == x);
            } else {
                assert(fun_names_of(fs)[fs.len() - 1] == x);
            }
        }
    }
}

/// The names of the functions, in order.
pub open spec fn fun_names_of(fs: Seq<FunDecl>) -> Seq<Seq<char>> {
    fs.map_values(|f: FunDecl| f.name@)
}

proof fn lemma_seq_in_set(a: Seq<Seq<char>>, b: Seq<Seq<char>>)
    requires
        forall|j: int| 0 <= j < a.len() ==> b.contains(#[trigger] a[j]),
    ensures
        a.to_set().subset_of(b.to_set()),
{
    assert forall|y: Seq<char>| a.to_set().contains(y) implies b.to_set().contains(y) by {
        let q = choose|q: int| 0 <= q < a.len() && a[q] == y;
        assert(b.contains(a[q]));
    }
}

proof fn lemma_empty_rounds(fs: Seq<FunDecl>, exts: Seq<Seq<char>>, n: nat)
    requires
        tainted_after(fs, exts, 0).len() == 0,
    ensures
        tainted_after(fs, exts, n).len() == 0,
    decreases n,
{
    if n > 0 {
        let p = (n - 1) as nat;
        lemma_empty_rounds(fs, exts, p);
        let tp = tainted_after(fs, exts, p);
        lemma_spread_nothing(fs, tp, fs.len() as int);
    }
}

proof fn lemma_spread_nothing(all: Seq<FunDecl>, t: Seq<Seq<char>>, k: int)
    requires
        t.len() == 0,
    ensures
        spread(all, t, k).len() == 0,
    decreases k,
{
    if k > 0 {
        lemma_spread_nothing(all, t, k - 1);
        assert(!meets(mentions(all[k - 1].body), t));
    }
}

proof fn lemma_rounds(fs: Seq<FunDecl>, exts: Seq<Seq<char>>, n: nat)
    ensures
        forall|j: int| 0 <= j < tainted_after(fs, exts, n).len() ==> fun_names_of(fs).contains(
            #[trigger] tainted_after(fs, exts, n)[j],
        ),
        tainted_after(fs, exts, n + 1) == tainted_after(fs, exts, n) || tainted_after(fs, exts, n).to_set().len()
            >= n + tainted_after(fs, exts, 0).to_set().len(),
    decreases n,
{
    let tn = tainted_after(fs, exts, n);
    let tn1 = tainted_after(fs, exts, n + 1);
    lemma_spread_grows(fs, tn, fs.len() as int);
    if n == 0 {
        lemma_direct_names(fs, exts);
    } else {
        let p = (n - 1) as nat;
        lemma_rounds(fs, exts, p);
        let tp = tainted_after(fs, exts, p);
        lemma_spread_grows(fs, tp, fs.len() as int);
        assert forall|j: int| 0 <= j < tn.len() implies fun_names_of(fs).contains(#[trigger] tn[j]) by {
            if j < tp.len() {
                assert(tn.take(tp.len() as int)[j] == tp[j]);
                assert(tn[j] == tp[j]);
            } else {
                let i = choose|i: int| 0 <= i < fs.len() && tn[j] == #[trigger] fs[i].name@;
                assert(fun_names_of(fs)[i] == tn[j]);
            }
        }
        if tn == tp {
            assert(tn1 == tn);
        } else {
            assert(tn.len() > tp.len()) by {
                if tn.len() == tp.len() {
                    assert(tn =~= tn.take(tp.len() as int));
                }
            }
            let x = tn[tp.len() as int];
            assert(!tp.contains(x));
            vstd::seq_lib::seq_to_set_is_finite(tp);
            vstd::seq_lib::seq_to_set_is_finite(tn);
            assert(tp.to_set().insert(x).subset_of(tn.to_set())) by {
                assert forall|y: Seq<char>| tp.to_set().insert(x).contains(y) implies tn.to_set().contains(y) by {
                    if y == x {
                        assert(tn.contains(x));
                    } else {
                        let q = choose|q: int| 0 <= q < tp.len() && tp[q] == y;
                        assert(tn.take(tp.len() as int)[q] == y);
                        assert(tn[q] == y);
                        assert(tn.contains(y));
                    }
                }
            }
            assert(!tp.to_set().contains(x));
            vstd::set_lib::lemma_len_subset(tp.to_set().insert(x), tn.to_set());
        }
    }
}

/// The taint is closed: every function whose calls name a tainted function
/// is tainted itself, so running more rounds would add nothing.
pub proof fn lemma_taint_closed(fs: Seq<FunDecl>, exts: Seq<Seq<char>>)
    ensures
        forall|i: int|
            0 <= i < fs.len() && last_of_name(fs, i) && meets(mentions(#[trigger] fs[i].body), tainted(fs, exts))
                ==> tainted(fs, exts).contains(fs[i].name@),
{
    let n = fs.len();
    let t = tainted(fs, exts);
    let t0 = tainted_after(fs, exts, 0);
    lemma_rounds(fs, exts, n);
    lemma_spread_grows(fs, t, n as int);
    if t0.len() == 0 {
        lemma_empty_rounds(fs, exts, n);
        lemma_empty_rounds(fs, exts, n + 1);
        assert(tainted_after(fs, exts, n + 1) =~= t);
    }
    if tainted_after(fs, exts, n + 1) != t {
        // every round added a name: more names than there are functions
        assert(t0.len() > 0);
        vstd::seq_lib::seq_to_set_is_finite(t0);
        assert(t0.to_set().contains(t0[0]));
        vstd::set_lib::lemma_set_empty_equivalency_len(t0.to_set());
        assert(t0.to_set().len() >= 1);
        lemma_seq_in_set(t, fun_names_of(fs));
        vstd::seq_lib::seq_to_set_is_finite(fun_names_of(fs));
        vstd::set_lib::lemma_len_subset(t.to_set(), fun_names_of(fs).to_set());
        fun_names_of(fs).lemma_cardinality_of_set();
        assert(false);
    }
}

pub open spec fn views(v: Seq<String>) -> Seq<Seq<char>> {
    v.map_values(|s: String| s@)
}

proof fn lemma_views_push(v: Seq<String>, s: String)
    ensures
        views(v.push(s)) == views(v).push(s@),
{
    assert(views(v.push(s)) =~= views(v).push(s@));
}

fn push_mentions(e: &Expr, out: &mut Vec<String>)
    ensures
        views(final(out)@) == views(old(out)@) + mentions(*e),
    decreases e, 0int,
{
    let ghost o = views(out@);
    match &e.kind {
        ExprKind::Var(n) | ExprKind::Ctor(n) => {
            let s = n.clone();
            proof {
                lemma_views_push(out@, s);
            }
            out.push(s);
            assert(views(out@) =~= o + seq![n@]);
        },
        ExprKind::App(h, args) => {
            push_mentions(h, out);
            push_mentions_list(args, out);
            assert(views(out@) =~= o + (mentions(**h) + mentions_list(args@)));
        },
        ExprKind::Binop(_, a, b) | ExprKind::Bind(_, a, b) | ExprKind::Let(_, a, b) => {
            push_mentions(a, out);
            push_mentions(b, out);
            assert(views(out@) =~= o + (mentions(**a) + mentions(**b)));
        },
        ExprKind::Neg(a) | ExprKind::Not(a) | ExprKind::Borrow(a) | ExprKind::Field(a, _) | ExprKind::Lambda(_, a)
        | ExprKind::Arena(_, a) => {
            push_mentions(a, out);
        },
        ExprKind::Match(s, arms) => {
            push_mentions(s, out);
            push_mentions_arms(arms, out);
            assert(views(out@) =~= o + (mentions(**s) + mentions_arms(arms@)));
        },
        ExprKind::Record(base, fields) => {
            match base {
                Some(b) => {
                    push_mentions(b, out);
                },
                None => {
                    assert(o + Seq::<Seq<char>>::empty() =~= o);
                },
            }
            push_mentions_fields(fields, out);
            assert(views(out@) =~= o + ((match base {
                Some(b) => mentions(**b),
                None => Seq::<Seq<char>>::empty(),
            }) + mentions_fields(fields@)));
        },
        ExprKind::Tuple(xs) | ExprKind::List(xs) => {
            push_mentions_list(xs, out);
        },
        _ => {
            assert(views(out@) =~= o + Seq::<Seq<char>>::empty());
        },
    }
}

fn push_mentions_list(xs: &Vec<Expr>, out: &mut Vec<String>)
    ensures
        views(final(out)@) == views(old(out)@) + mentions_list(xs@),
    decreases xs, 1int,
{
    let ghost o = views(out@);
    assert(xs@.take(0) =~= Seq::<Expr>::empty());
    assert(o + Seq::<Seq<char>>::empty() =~= o);
    for i in 0..xs.len()
        invariant
            views(out@) == o + mentions_list(xs@.take(i as int)),
    {
        proof {
            assert(decreases_to!(xs => xs@[i as int]));
            assert(xs@.take(i + 1).drop_last() =~= xs@.take(i as int));
        }
        push_mentions(&xs[i], out);
        assert(views(out@) =~= o + mentions_list(xs@.take(i + 1)));
    }
    assert(xs@.take(xs@.len() as int) =~= xs@);
}

fn push_mentions_arms(xs: &Vec<(Pat, Expr)>, out: &mut Vec<String>)
    ensures
        views(final(out)@) == views(old(out)@) + mentions_arms(xs@),
    decreases xs, 1int,
{
    let ghost o = views(out@);
    assert(xs@.take(0) =~= Seq::<(Pat, Expr)>::empty());
    assert(o + Seq::<Seq<char>>::empty() =~= o);
    for i in 0..xs.len()
        invariant
            views(out@) == o + mentions_arms(xs@.take(i as int)),
    {
        proof {
            assert(decreases_to!(xs => xs@[i as int]));
            assert(decreases_to!(xs@[i as int] => xs@[i as int].1));
            assert(xs@.take(i + 1).drop_last() =~= xs@.take(i as int));
        }
        push_mentions(&xs[i].1, out);
        assert(views(out@) =~= o + mentions_arms(xs@.take(i + 1)));
    }
    assert(xs@.take(xs@.len() as int) =~= xs@);
}

fn push_mentions_fields(xs: &Vec<(String, Expr)>, out: &mut Vec<String>)
    ensures
        views(final(out)@) == views(old(out)@) + mentions_fields(xs@),
    decreases xs, 1int,
{
    let ghost o = views(out@);
    assert(xs@.take(0) =~= Seq::<(String, Expr)>::empty());
    assert(o + Seq::<Seq<char>>::empty() =~= o);
    for i in 0..xs.len()
        invariant
            views(out@) == o + mentions_fields(xs@.take(i as int)),
    {
        proof {
            assert(decreases_to!(xs => xs@[i as int]));
            assert(decreases_to!(xs@[i as int] => xs@[i as int].1));
            assert(xs@.take(i + 1).drop_last() =~= xs@.take(i as int));
        }
        push_mentions(&xs[i].1, out);
        assert(views(out@) =~= o + mentions_fields(xs@.take(i + 1)));
    }
    assert(xs@.take(xs@.len() as int) =~= xs@);
}

fn holds(v: &Vec<String>, n: &str) -> (r: bool)
    ensures
        r == views(v@).contains(n@),
{
    for i in 0..v.len()
        invariant
            forall|j: int| 0 <= j < i ==> views(v@)[j] != n@,
    {
        if str_eq(v[i].as_str(), n) {
            assert(views(v@)[i as int] == n@);
            return true;
        }
    }
    false
}

fn meets_exec(a: &Vec<String>, b: &Vec<String>) -> (r: bool)
    ensures
        r == meets(views(a@), views(b@)),
{
    for i in 0..a.len()
        invariant
            forall|j: int| 0 <= j < i ==> !views(b@).contains(#[trigger] views(a@)[j]),
    {
        assert(views(a@)[i as int] == a@[i as int]@);
        if holds(b, a[i].as_str()) {
            return true;
        }
    }
    false
}

fn is_last(fs: &Vec<&FunDecl>, i: usize) -> (r: bool)
    requires
        i < fs@.len(),
    ensures
        r == last_of_name(fs@.map_values(|f: &FunDecl| *f), i as int),
{
    let ghost fv = fs@.map_values(|f: &FunDecl| *f);
    let len = fs.len();
    let mut j = i + 1;
    while j < fs.len()
        invariant
            fv == fs@.map_values(|f: &FunDecl| *f),
            i < j <= fs@.len(),
            forall|q: int| i < q < j ==> #[trigger] fv[q].name@ != fv[i as int].name@,
        decreases fs@.len() - j,
    {
        assert(fv[j as int] == *fs@[j as int]);
        assert(fv[i as int] == *fs@[i as int]);
        if str_eq(fs[j].name.as_str(), fs[i].name.as_str()) {
            return false;
        }
        j += 1;
    }
    true
}

/// The names of the module's functions that cannot have handed a pointer to
/// C, in order: not ghosts, and neither calling an `ext c` symbol (one of
/// `exts`) nor reaching, through their calls, a function that does.
pub fn releasable(m: &Module, exts: &Vec<String>) -> (r: Vec<String>)
    ensures
        views(r@) == ({
            let fs = funs_of(m.decls@);
            trusted(fs, tainted(fs, views(exts@)), fs.len() as int)
        }),
{
    let fs = m.funs();
    let ghost fv = funs_of(m.decls@);
    let ghost ev = views(exts@);
    assert(fs@.map_values(|f: &FunDecl| *f) == fv);
    let mut named: Vec<Vec<String>> = Vec::new();
    let mut t: Vec<String> = Vec::new();
    assert(fv.take(0) =~= Seq::<FunDecl>::empty());
    for i in 0..fs.len()
        invariant
            fv == fs@.map_values(|f: &FunDecl| *f),
            ev == views(exts@),
            named@.len() == i,
            forall|j: int| 0 <= j < i ==> views(#[trigger] named@[j]@) == mentions(fv[j].body),
            views(t@) == direct(fv.take(i as int), ev),
    {
        assert(fv[i as int] == *fs@[i as int]);
        assert(fv.take(i + 1).drop_last() =~= fv.take(i as int));
        assert(fv.take(i + 1).last() == fv[i as int]);
        let mut ms: Vec<String> = Vec::new();
        push_mentions(&fs[i].body, &mut ms);
        assert(views(ms@) =~= mentions(fv[i as int].body));
        if meets_exec(&ms, exts) {
            let s = fs[i].name.clone();
            proof {
                lemma_views_push(t@, s);
            }
            t.push(s);
        }
        named.push(ms);
    }
    assert(fv.take(fs@.len() as int) =~= fv);
    let n = fs.len();
    for round in 0..n
        invariant
            n == fv.len(),
            fv == fs@.map_values(|f: &FunDecl| *f),
            ev == views(exts@),
            named@.len() == n,
            forall|j: int| 0 <= j < n ==> views(#[trigger] named@[j]@) == mentions(fv[j].body),
            views(t@) == tainted_after(fv, ev, round as nat),
    {
        let ghost tv = views(t@);
        let mut next: Vec<String> = Vec::new();
        for j in 0..t.len()
            invariant
                views(next@) == views(t@).take(j as int),
        {
            let s = t[j].clone();
            proof {
                lemma_views_push(next@, s);
            }
            next.push(s);
            assert(views(t@).take(j + 1) =~= views(t@).take(j as int).push(t@[j as int]@));
        }
        assert(views(t@).take(t@.len() as int) =~= views(t@));
        for k in 0..n
            invariant
                n == fv.len(),
                fv == fs@.map_values(|f: &FunDecl| *f),
                named@.len() == n,
                forall|j: int| 0 <= j < n ==> views(#[trigger] named@[j]@) == mentions(fv[j].body),
                tv == views(t@),
                views(next@) == spread(fv, tv, k as int),
        {
            assert(fv[k as int] == *fs@[k as int]);
            let f = fs[k];
            if is_last(&fs, k) && !holds(&t, f.name.as_str()) && meets_exec(&named[k], &t) {
                let s = f.name.clone();
                proof {
                    lemma_views_push(next@, s);
                }
                next.push(s);
            }
        }
        t = next;
    }
    let ghost tv = views(t@);
    let mut out: Vec<String> = Vec::new();
    for k in 0..n
        invariant
            n == fv.len(),
            fv == fs@.map_values(|f: &FunDecl| *f),
            tv == views(t@),
            views(out@) == trusted(fv, tv, k as int),
    {
        assert(fv[k as int] == *fs@[k as int]);
        let f = fs[k];
        if !f.is_ghost && !holds(&t, f.name.as_str()) {
            let s = f.name.clone();
            proof {
                lemma_views_push(out@, s);
            }
            out.push(s);
        }
    }
    out
}

proof fn lemma_trusted_untainted(fs: Seq<FunDecl>, t: Seq<Seq<char>>, k: int)
    ensures
        forall|j: int| 0 <= j < trusted(fs, t, k).len() ==> !t.contains(#[trigger] trusted(fs, t, k)[j]),
    decreases k,
{
    if k > 0 {
        lemma_trusted_untainted(fs, t, k - 1);
        let r = trusted(fs, t, k - 1);
        let tr = trusted(fs, t, k);
        assert forall|j: int| 0 <= j < tr.len() implies !t.contains(#[trigger] tr[j]) by {
            if j < r.len() {
                assert(tr[j] == r[j]);
            }
        }
    }
}

proof fn lemma_direct_has(fs: Seq<FunDecl>, exts: Seq<Seq<char>>, i: int)
    requires
        0 <= i < fs.len(),
        meets(mentions(fs[i].body), exts),
    ensures
        direct(fs, exts).contains(fs[i].name@),
    decreases fs.len(),
{
    let r = direct(fs.drop_last(), exts);
    if i == fs.len() - 1 {
        assert(direct(fs, exts) == r.push(fs[i].name@));
        assert(direct(fs, exts)[r.len() as int] == fs[i].name@);
    } else {
        lemma_direct_has(fs.drop_last(), exts, i);
        assert(fs.drop_last()[i] == fs[i]);
        crate::ast::lemma_in_concat(r, seq![fs.last().name@]);
        assert(r.push(fs.last().name@) == r + seq![fs.last().name@]);
    }
}

proof fn lemma_taint_keeps_direct(fs: Seq<FunDecl>, exts: Seq<Seq<char>>, n: nat, x: Seq<char>)
    requires
        direct(fs, exts).contains(x),
    ensures
        tainted_after(fs, exts, n).contains(x),
    decreases n,
{
    if n > 0 {
        lemma_taint_keeps_direct(fs, exts, (n - 1) as nat, x);
        let t = tainted_after(fs, exts, (n - 1) as nat);
        lemma_spread_grows(fs, t, fs.len() as int);
        let sp = spread(fs, t, fs.len() as int);
        let i = choose|i: int| 0 <= i < t.len() && t[i] == x;
        assert(sp.take(t.len() as int)[i] == x);
        assert(sp[i] == x);
    }
}

/// A function whose own body mentions an `ext c` symbol, anywhere in it, has
/// handed C a pointer and is never released.
pub proof fn lemma_c_callers_are_held(fs: Seq<FunDecl>, exts: Seq<Seq<char>>, i: int)
    requires
        0 <= i < fs.len(),
        meets(mentions(fs[i].body), exts),
    ensures
        !trusted(fs, tainted(fs, exts), fs.len() as int).contains(fs[i].name@),
{
    lemma_direct_has(fs, exts, i);
    lemma_taint_keeps_direct(fs, exts, fs.len(), fs[i].name@);
    lemma_trusted_untainted(fs, tainted(fs, exts), fs.len() as int);
}

} // verus!
