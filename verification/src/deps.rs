//! `vibe deps`: for every function, the functions it calls and the functions
//! that call it.

use vstd::prelude::*;
use crate::ast::{Expr, ExprKind, FunDecl, Module, Pat, funs_of};
use crate::patch::{has_dot, join_names, joined_names};
use crate::text::{owned, push_str, str_eq};
use crate::total::{sort_texts, text_order};

verus! {

/// The names an expression mentions as callees, in the order they are
/// written: every variable and constructor, and `M.f` for a field of a
/// constructor, which names a function of the module `M` (the module name is
/// then not a callee of its own).
pub open spec fn callees(e: Expr) -> Seq<Seq<char>>
    decreases e, 0int,
{
    match e.kind {
        ExprKind::Field(b, n) => match b.kind {
            ExprKind::Ctor(m) => seq![m@ + "."@ + n@],
            _ => callees(*b),
        },
        ExprKind::Var(n) => seq![n@],
        ExprKind::Ctor(n) => seq![n@],
        ExprKind::App(h, args) => callees(*h) + callees_list(args@),
        ExprKind::Binop(_, a, b) => callees(*a) + callees(*b),
        ExprKind::Neg(a) => callees(*a),
        ExprKind::Not(a) => callees(*a),
        ExprKind::Borrow(a) => callees(*a),
        ExprKind::Match(s, arms) => callees(*s) + callees_arms(arms@),
        ExprKind::Bind(_, v, r) => callees(*v) + callees(*r),
        ExprKind::Let(_, v, r) => callees(*v) + callees(*r),
        ExprKind::Lambda(_, b) => callees(*b),
        ExprKind::Arena(_, b) => callees(*b),
        ExprKind::Record(base, fields) => (match base {
            Some(b) => callees(*b),
            None => Seq::empty(),
        }) + callees_fields(fields@),
        ExprKind::Tuple(xs) => callees_list(xs@),
        ExprKind::List(xs) => callees_list(xs@),
        _ => Seq::empty(),
    }
}

pub open spec fn callees_list(xs: Seq<Expr>) -> Seq<Seq<char>>
    decreases xs, 1int,
{
    if xs.len() == 0 {
        Seq::empty()
    } else {
        callees_list(xs.drop_last()) + callees(xs.last())
    }
}

pub open spec fn callees_arms(xs: Seq<(Pat, Expr)>) -> Seq<Seq<char>>
    decreases xs, 1int,
{
    if xs.len() == 0 {
        Seq::empty()
    } else {
        callees_arms(xs.drop_last()) + callees(xs.last().1)
    }
}

pub open spec fn callees_fields(xs: Seq<(String, Expr)>) -> Seq<Seq<char>>
    decreases xs, 1int,
{
    if xs.len() == 0 {
        Seq::empty()
    } else {
        callees_fields(xs.drop_last()) + callees(xs.last().1)
    }
}


proof fn lemma_callees_list_has(xs: Seq<Expr>, j: int)
    requires
        0 <= j < xs.len(),
    ensures
        forall|q: Seq<char>| callees(xs[j]).contains(q) ==> #[trigger] callees_list(xs).contains(q),
    decreases xs.len(),
{
    crate::ast::lemma_in_concat(callees_list(xs.drop_last()), callees(xs.last()));
    if j < xs.len() - 1 {
        lemma_callees_list_has(xs.drop_last(), j);
        assert(xs.drop_last()[j] == xs[j]);
    }
}

proof fn lemma_callees_arms_has(xs: Seq<(Pat, Expr)>, j: int)
    requires
        0 <= j < xs.len(),
    ensures
        forall|q: Seq<char>| callees(xs[j].1).contains(q) ==> #[trigger] callees_arms(xs).contains(q),
    decreases xs.len(),
{
    crate::ast::lemma_in_concat(callees_arms(xs.drop_last()), callees(xs.last().1));
    if j < xs.len() - 1 {
        lemma_callees_arms_has(xs.drop_last(), j);
        assert(xs.drop_last()[j] == xs[j]);
    }
}

proof fn lemma_callees_fields_has(xs: Seq<(String, Expr)>, j: int)
    requires
        0 <= j < xs.len(),
    ensures
        forall|q: Seq<char>| callees(xs[j].1).contains(q) ==> #[trigger] callees_fields(xs).contains(q),
    decreases xs.len(),
{
    crate::ast::lemma_in_concat(callees_fields(xs.drop_last()), callees(xs.last().1));
    if j < xs.len() - 1 {
        lemma_callees_fields_has(xs.drop_last(), j);
        assert(xs.drop_last()[j] == xs[j]);
    }
}

/// Every call a sub-expression makes, `e` makes too, in any argument,
/// binding or arm; a qualified name `Mod.f` is one call, not a mention of
/// `Mod`.
pub proof fn lemma_callees_reach_every_child(e: Expr)
    requires
        !(e.kind matches ExprKind::Field(b, _) && b.kind is Ctor),
    ensures
        forall|c: int, q: Seq<char>|
            0 <= c < crate::ast::children(e).len() && #[trigger] callees(crate::ast::children(e)[c]).contains(q) ==> callees(e).contains(q),
{
    let ch = crate::ast::children(e);
    assert forall|c: int, q: Seq<char>| 0 <= c < ch.len() && #[trigger] callees(ch[c]).contains(q) implies callees(e).contains(q) by {
        match e.kind {
            ExprKind::App(h, xs) => {
                crate::ast::lemma_in_concat(callees(*h), callees_list(xs@));
                if c > 0 {
                    assert(ch[c] == xs@[c - 1]);
                    lemma_callees_list_has(xs@, c - 1);
                }
            },
            ExprKind::Binop(_, a, b) => {
                crate::ast::lemma_in_concat(callees(*a), callees(*b));
            },
            ExprKind::Bind(_, a, b) => {
                crate::ast::lemma_in_concat(callees(*a), callees(*b));
            },
            ExprKind::Let(_, a, b) => {
                crate::ast::lemma_in_concat(callees(*a), callees(*b));
            },
            ExprKind::Match(x, arms) => {
                crate::ast::lemma_in_concat(callees(*x), callees_arms(arms@));
                if c > 0 {
                    assert(ch[c] == arms@[c - 1].1);
                    lemma_callees_arms_has(arms@, c - 1);
                }
            },
            ExprKind::Record(base, fs) => {
                let bq = match base {
                    Some(b) => callees(*b),
                    None => Seq::empty(),
                };
                crate::ast::lemma_in_concat(bq, callees_fields(fs@));
                match base {
                    Some(b) => {
                        if c > 0 {
                            assert(ch[c] == fs@[c - 1].1);
                            lemma_callees_fields_has(fs@, c - 1);
                        }
                    },
                    None => {
                        assert(ch[c] == fs@[c].1);
                        lemma_callees_fields_has(fs@, c);
                    },
                }
            },
            ExprKind::Tuple(xs) => {
                lemma_callees_list_has(xs@, c);
                assert(ch[c] == xs@[c]);
                assert(callees(e) == callees_list(xs@));
                assert(callees_list(xs@).contains(q));
            },
            ExprKind::List(xs) => {
                lemma_callees_list_has(xs@, c);
                assert(ch[c] == xs@[c]);
                assert(callees(e) == callees_list(xs@));
                assert(callees_list(xs@).contains(q));
            },
            
            ExprKind::Neg(a) => {
                assert(ch[c] == *a);
                assert(callees(e) == callees(*a));
            },
            ExprKind::Not(a) => {
                assert(ch[c] == *a);
                assert(callees(e) == callees(*a));
            },
            ExprKind::Borrow(a) => {
                assert(ch[c] == *a);
                assert(callees(e) == callees(*a));
            },
            ExprKind::Lambda(_, a) => {
                assert(ch[c] == *a);
                assert(callees(e) == callees(*a));
            },
            ExprKind::Arena(_, a) => {
                assert(ch[c] == *a);
                assert(callees(e) == callees(*a));
            },
            ExprKind::Field(a, _) => {
                assert(ch[c] == *a);
            },
            _ => {},
        }
    }
}

/// The names that are calls: functions of the module, and qualified names.
pub open spec fn calls_kept(names: Seq<Seq<char>>, known: Seq<Seq<char>>) -> Seq<Seq<char>>
    decreases names.len(),
{
    if names.len() == 0 {
        Seq::empty()
    } else {
        let rest = calls_kept(names.drop_last(), known);
        let n = names.last();
        if known.contains(n) || n.contains('.') {
            rest.push(n)
        } else {
            rest
        }
    }
}

/// `s` without an element equal to the one before it.
pub open spec fn dedup(s: Seq<Seq<char>>) -> Seq<Seq<char>>
    decreases s.len(),
{
    if s.len() == 0 {
        s
    } else {
        let r = dedup(s.drop_last());
        if r.len() > 0 && r.last() == s.last() {
            r
        } else {
            r.push(s.last())
        }
    }
}

/// The names of the functions of a module, in order.
pub open spec fn fun_names(fs: Seq<FunDecl>) -> Seq<Seq<char>> {
    fs.map_values(|f: FunDecl| f.name@)
}

/// What `f` calls: each callee once, in text order.
pub open spec fn calls_of(f: FunDecl, known: Seq<Seq<char>>) -> Seq<Seq<char>> {
    dedup(calls_kept(callees(f.body), known).sort_by(text_order()))
}

/// The functions among `fs` that call `n`, in the order of `fs`, each as
/// often as it is declared.
pub open spec fn callers_raw(fs: Seq<FunDecl>, known: Seq<Seq<char>>, n: Seq<char>) -> Seq<Seq<char>>
    decreases fs.len(),
{
    if fs.len() == 0 {
        Seq::empty()
    } else {
        let rest = callers_raw(fs.drop_last(), known, n);
        if calls_of(fs.last(), known).contains(n) {
            rest.push(fs.last().name@)
        } else {
            rest
        }
    }
}

/// The functions that call `n`: each once, in text order.
pub open spec fn callers_of(fs: Seq<FunDecl>, n: Seq<char>) -> Seq<Seq<char>> {
    dedup(callers_raw(fs, fun_names(fs), n).sort_by(text_order()))
}

/// A function's name as `deps` prints it, with the module it is declared in.
pub open spec fn full_name(f: FunDecl) -> Seq<char> {
    f.home@ + "."@ + f.name@
}

/// The lines `home.f -> callees` for the first `k` functions.
pub open spec fn down_lines(fs: Seq<FunDecl>, m: Seq<char>, k: int) -> Seq<char>
    decreases k,
{
    if k <= 0 {
        Seq::empty()
    } else {
        down_lines(fs, m, k - 1) + full_name(fs[k - 1]) + " -> "@ + joined_names(
            calls_of(fs[k - 1], fun_names(fs)),
            m,
        ) + "\n"@
    }
}

/// The lines `home.f <- callers` for the first `k` functions.
pub open spec fn up_lines(fs: Seq<FunDecl>, m: Seq<char>, k: int) -> Seq<char>
    decreases k,
{
    if k <= 0 {
        Seq::empty()
    } else {
        up_lines(fs, m, k - 1) + full_name(fs[k - 1]) + " <- "@ + joined_names(callers_of(fs, fs[k - 1].name@), m)
            + "\n"@
    }
}

/// The whole report: first what each function calls, then what calls it.
pub open spec fn deps_text(m: Module) -> Seq<char> {
    let fs = funs_of(m.decls@);
    down_lines(fs, m.name@, fs.len() as int) + up_lines(fs, m.name@, fs.len() as int)
}

pub open spec fn views(v: Seq<String>) -> Seq<Seq<char>> {
    v.map_values(|s: String| s@)
}

proof fn lemma_views_push(v: Seq<String>, s: String)
    ensures
        views(v.push(s)) == views(v).push(s@),
{
    assert(views(v.push(s)) =~= views(v).push(s@));
}

fn push_callees(e: &Expr, out: &mut Vec<String>)
    ensures
        views(final(out)@) == views(old(out)@) + callees(*e),
    decreases e, 0int,
{
    let ghost o = views(out@);
    match &e.kind {
        ExprKind::Field(b, n) => {
            match &b.kind {
                ExprKind::Ctor(m) => {
                    let mut s = owned(m.as_str());
                    push_str(&mut s, ".");
                    push_str(&mut s, n.as_str());
                    proof {
                        reveal_strlit(".");
                        lemma_views_push(out@, s);
                    }
                    out.push(s);
                    assert(views(out@) =~= o + seq![m@ + "."@ + n@]);
                },
                _ => {
                    push_callees(b, out);
                },
            }
        },
        ExprKind::Var(n) | ExprKind::Ctor(n) => {
            let s = n.clone();
            proof {
                lemma_views_push(out@, s);
            }
            out.push(s);
            assert(views(out@) =~= o + seq![n@]);
        },
        ExprKind::App(h, args) => {
            push_callees(h, out);
            push_callees_list(args, out);
            assert(views(out@) =~= o + (callees(**h) + callees_list(args@)));
        },
        ExprKind::Binop(_, a, b) | ExprKind::Bind(_, a, b) | ExprKind::Let(_, a, b) => {
            push_callees(a, out);
            push_callees(b, out);
            assert(views(out@) =~= o + (callees(**a) + callees(**b)));
        },
        ExprKind::Neg(a) | ExprKind::Not(a) | ExprKind::Borrow(a) | ExprKind::Lambda(_, a) | ExprKind::Arena(
            _,
            a,
        ) => {
            push_callees(a, out);
        },
        ExprKind::Match(s, arms) => {
            push_callees(s, out);
            push_callees_arms(arms, out);
            assert(views(out@) =~= o + (callees(**s) + callees_arms(arms@)));
        },
        ExprKind::Record(base, fields) => {
            match base {
                Some(b) => {
                    push_callees(b, out);
                },
                None => {
                    assert(o + Seq::<Seq<char>>::empty() =~= o);
                },
            }
            push_callees_fields(fields, out);
            assert(views(out@) =~= o + ((match base {
                Some(b) => callees(**b),
                None => Seq::<Seq<char>>::empty(),
            }) + callees_fields(fields@)));
        },
        ExprKind::Tuple(xs) | ExprKind::List(xs) => {
            push_callees_list(xs, out);
        },
        _ => {
            assert(views(out@) =~= o + Seq::<Seq<char>>::empty());
        },
    }
}

fn push_callees_list(xs: &Vec<Expr>, out: &mut Vec<String>)
    ensures
        views(final(out)@) == views(old(out)@) + callees_list(xs@),
    decreases xs, 1int,
{
    let ghost o = views(out@);
    assert(xs@.take(0) =~= Seq::<Expr>::empty());
    assert(o + Seq::<Seq<char>>::empty() =~= o);
    for i in 0..xs.len()
        invariant
            views(out@) == o + callees_list(xs@.take(i as int)),
    {
        proof {
            assert(decreases_to!(xs => xs@[i as int]));
            assert(xs@.take(i + 1).drop_last() =~= xs@.take(i as int));
        }
        push_callees(&xs[i], out);
        assert(views(out@) =~= o + callees_list(xs@.take(i + 1)));
    }
    assert(xs@.take(xs@.len() as int) =~= xs@);
}

fn push_callees_arms(xs: &Vec<(Pat, Expr)>, out: &mut Vec<String>)
    ensures
        views(final(out)@) == views(old(out)@) + callees_arms(xs@),
    decreases xs, 1int,
{
    let ghost o = views(out@);
    assert(xs@.take(0) =~= Seq::<(Pat, Expr)>::empty());
    assert(o + Seq::<Seq<char>>::empty() =~= o);
    for i in 0..xs.len()
        invariant
            views(out@) == o + callees_arms(xs@.take(i as int)),
    {
        proof {
            assert(decreases_to!(xs => xs@[i as int]));
            assert(decreases_to!(xs@[i as int] => xs@[i as int].1));
            assert(xs@.take(i + 1).drop_last() =~= xs@.take(i as int));
        }
        push_callees(&xs[i].1, out);
        assert(views(out@) =~= o + callees_arms(xs@.take(i + 1)));
    }
    assert(xs@.take(xs@.len() as int) =~= xs@);
}

fn push_callees_fields(xs: &Vec<(String, Expr)>, out: &mut Vec<String>)
    ensures
        views(final(out)@) == views(old(out)@) + callees_fields(xs@),
    decreases xs, 1int,
{
    let ghost o = views(out@);
    assert(xs@.take(0) =~= Seq::<(String, Expr)>::empty());
    assert(o + Seq::<Seq<char>>::empty() =~= o);
    for i in 0..xs.len()
        invariant
            views(out@) == o + callees_fields(xs@.take(i as int)),
    {
        proof {
            assert(decreases_to!(xs => xs@[i as int]));
            assert(decreases_to!(xs@[i as int] => xs@[i as int].1));
            assert(xs@.take(i + 1).drop_last() =~= xs@.take(i as int));
        }
        push_callees(&xs[i].1, out);
        assert(views(out@) =~= o + callees_fields(xs@.take(i + 1)));
    }
    assert(xs@.take(xs@.len() as int) =~= xs@);
}

fn holds(v: &Vec<String>, n: &str) -> (r: bool)
    ensures
        r == views(v@).contains(n@),
{
    for i in 0..v.len()
        invariant
            forall|j: int| 0 <= j < i ==> views(v@)[j] != n@,
    {
        if str_eq(v[i].as_str(), n) {
            assert(views(v@)[i as int] == n@);
            return true;
        }
    }
    false
}

fn keep_calls(names: &Vec<String>, known: &Vec<String>) -> (r: Vec<String>)
    ensures
        views(r@) == calls_kept(views(names@), views(known@)),
{
    let ghost nv = views(names@);
    let mut out: Vec<String> = Vec::new();
    assert(nv.take(0) =~= Seq::<Seq<char>>::empty());
    for i in 0..names.len()
        invariant
            nv == views(names@),
            views(out@) == calls_kept(nv.take(i as int), views(known@)),
    {
        assert(nv.take(i + 1).drop_last() =~= nv.take(i as int));
        assert(nv.take(i + 1).last() == names@[i as int]@);
        if holds(known, names[i].as_str()) || has_dot(names[i].as_str()) {
            let s = names[i].clone();
            proof {
                lemma_views_push(out@, s);
            }
            out.push(s);
        }
    }
    assert(nv.take(names@.len() as int) =~= nv);
    out
}

fn dedup_texts(v: &Vec<String>) -> (r: Vec<String>)
    ensures
        views(r@) == dedup(views(v@)),
{
    let ghost vv = views(v@);
    let mut out: Vec<String> = Vec::new();
    assert(vv.take(0) =~= Seq::<Seq<char>>::empty());
    for i in 0..v.len()
        invariant
            vv == views(v@),
            views(out@) == dedup(vv.take(i as int)),
    {
        assert(vv.take(i + 1).drop_last() =~= vv.take(i as int));
        assert(vv.take(i + 1).last() == v@[i as int]@);
        let same = out.len() > 0 && str_eq(out[out.len() - 1].as_str(), v[i].as_str());
        if !same {
            let s = v[i].clone();
            proof {
                lemma_views_push(out@, s);
            }
            out.push(s);
        }
    }
    assert(vv.take(v@.len() as int) =~= vv);
    out
}

/// Each text of `v` once, in text order.
fn sorted_once(v: Vec<String>) -> (r: Vec<String>)
    ensures
        views(r@) == dedup(views(v@).sort_by(text_order())),
{
    let s = sort_texts(v);
    assert(views(s@) == s@.map_values(|x: String| x@));
    dedup_texts(&s)
}

fn calls_of_fun(f: &FunDecl, known: &Vec<String>) -> (r: Vec<String>)
    ensures
        views(r@) == calls_of(*f, views(known@)),
{
    let mut all: Vec<String> = Vec::new();
    push_callees(&f.body, &mut all);
    assert(views(all@) =~= callees(f.body));
    let kept = keep_calls(&all, known);
    sorted_once(kept)
}

/// For every function of the module, the functions it calls, then the
/// functions that call it: one line each, `M.f -> M.g M.h` and
/// `M.g <- M.f`, a name qualified with the module unless it already is, and
/// `-` for none.
pub fn deps(m: &Module) -> (r: String)
    ensures
        r@ == deps_text(*m),
{
    let fs = m.funs();
    let ghost fv = funs_of(m.decls@);
    assert(fs@.map_values(|f: &FunDecl| *f) == fv);
    let mut known: Vec<String> = Vec::new();
    for i in 0..fs.len()
        invariant
            fv == fs@.map_values(|f: &FunDecl| *f),
            views(known@) == fun_names(fv).take(i as int),
    {
        assert(fv[i as int] == *fs@[i as int]);
        let s = fs[i].name.clone();
        proof {
            lemma_views_push(known@, s);
        }
        known.push(s);
        assert(views(known@) =~= fun_names(fv).take(i + 1));
    }
    assert(fun_names(fv).take(fs@.len() as int) =~= fun_names(fv));
    let ghost kv = views(known@);
    let mut per: Vec<Vec<String>> = Vec::new();
    for i in 0..fs.len()
        invariant
            fv == fs@.map_values(|f: &FunDecl| *f),
            kv == views(known@),
            kv == fun_names(fv),
            per@.len() == i,
            forall|j: int| 0 <= j < i ==> views(#[trigger] per@[j]@) == calls_of(fv[j], kv),
    {
        assert(fv[i as int] == *fs@[i as int]);
        let c = calls_of_fun(fs[i], &known);
        per.push(c);
    }
    let mut out = String::new();
    let ghost mname = m.name@;
    for i in 0..fs.len()
        invariant
            fv == fs@.map_values(|f: &FunDecl| *f),
            kv == fun_names(fv),
            mname == m.name@,
            per@.len() == fv.len(),
            forall|j: int| 0 <= j < fv.len() ==> views(#[trigger] per@[j]@) == calls_of(fv[j], kv),
            out@ == down_lines(fv, mname, i as int),
    {
        let f = fs[i];
        assert(fv[i as int] == *f);
        push_str(&mut out, f.home.as_str());
        push_str(&mut out, ".");
        push_str(&mut out, f.name.as_str());
        push_str(&mut out, " -> ");
        let j = join_names(per[i].as_slice(), m.name.as_str());
        assert(per@[i as int]@.map_values(|n: String| n@) == views(per@[i as int]@));
        push_str(&mut out, j.as_str());
        push_str(&mut out, "\n");
        proof {
            reveal_strlit(".");
            reveal_strlit(" -> ");
            reveal_strlit("\n");
        }
        assert(out@ =~= down_lines(fv, mname, i + 1));
    }
    let ghost downs = out@;
    for i in 0..fs.len()
        invariant
            fv == fs@.map_values(|f: &FunDecl| *f),
            kv == fun_names(fv),
            mname == m.name@,
            per@.len() == fv.len(),
            forall|j: int| 0 <= j < fv.len() ==> views(#[trigger] per@[j]@) == calls_of(fv[j], kv),
            out@ == downs + up_lines(fv, mname, i as int),
    {
        let f = fs[i];
        assert(fv[i as int] == *f);
        let mut raw: Vec<String> = Vec::new();
        assert(fv.take(0) =~= Seq::<FunDecl>::empty());
        for g in 0..fs.len()
            invariant
                fv == fs@.map_values(|f: &FunDecl| *f),
                kv == fun_names(fv),
                per@.len() == fv.len(),
                forall|j: int| 0 <= j < fv.len() ==> views(#[trigger] per@[j]@) == calls_of(fv[j], kv),
                views(raw@) == callers_raw(fv.take(g as int), kv, f.name@),
        {
            assert(fv.take(g + 1).drop_last() =~= fv.take(g as int));
            assert(fv.take(g + 1).last() == fv[g as int]);
            assert(fv[g as int] == *fs@[g as int]);
            if holds(&per[g], f.name.as_str()) {
                let s = fs[g].name.clone();
                proof {
                    lemma_views_push(raw@, s);
                }
                raw.push(s);
            }
        }
        assert(fv.take(fv.len() as int) =~= fv);
        let up = sorted_once(raw);
        push_str(&mut out, f.home.as_str());
        push_str(&mut out, ".");
        push_str(&mut out, f.name.as_str());
        push_str(&mut out, " <- ");
        let j = join_names(up.as_slice(), m.name.as_str());
        assert(up@.map_values(|n: String| n@) == views(up@));
        push_str(&mut out, j.as_str());
        push_str(&mut out, "\n");
        proof {
            reveal_strlit(".");
            reveal_strlit(" <- ");
            reveal_strlit("\n");
        }
        assert(out@ =~= downs + up_lines(fv, mname, i + 1));
    }
    out
}

proof fn lemma_kept_has(names: Seq<Seq<char>>, known: Seq<Seq<char>>, g: Seq<char>)
    requires
        names.contains(g),
        known.contains(g) || g.contains('.'),
    ensures
        calls_kept(names, known).contains(g),
    decreases names.len(),
{
    let r = calls_kept(names.drop_last(), known);
    if names.last() == g {
        assert(calls_kept(names, known) == r.push(g));
        assert(r.push(g)[r.len() as int] == g);
    } else {
        let i = choose|i: int| 0 <= i < names.len() && names[i] == g;
        assert(names.drop_last()[i] == g);
        lemma_kept_has(names.drop_last(), known, g);
        let j = choose|j: int| 0 <= j < r.len() && r[j] == g;
        if known.contains(names.last()) || names.last().contains('.') {
            assert(r.push(names.last())[j] == g);
        }
    }
}

proof fn lemma_dedup_has(s: Seq<Seq<char>>, g: Seq<char>)
    requires
        s.contains(g),
    ensures
        dedup(s).contains(g),
    decreases s.len(),
{
    let r = dedup(s.drop_last());
    if s.last() == g {
        if r.len() > 0 && r.last() == s.last() {
            assert(r[r.len() - 1] == g);
        } else {
            assert(r.push(g)[r.len() as int] == g);
        }
    } else {
        let i = choose|i: int| 0 <= i < s.len() && s[i] == g;
        assert(s.drop_last()[i] == g);
        lemma_dedup_has(s.drop_last(), g);
        let j = choose|j: int| 0 <= j < r.len() && r[j] == g;
        if !(r.len() > 0 && r.last() == s.last()) {
            assert(r.push(s.last())[j] == g);
        }
    }
}

proof fn lemma_sorted_has(s: Seq<Seq<char>>, g: Seq<char>)
    requires
        s.contains(g),
    ensures
        s.sort_by(text_order()).contains(g),
{
    broadcast use vstd::seq_lib::group_to_multiset_ensures;
    crate::total::lemma_text_order_total();
    s.lemma_sort_by_ensures(text_order());
    assert(s.to_multiset().count(g) > 0);
}

/// A function of the module, or a qualified name, that `f` calls anywhere
/// in its body is listed among `f`'s calls.
pub proof fn lemma_every_call_is_listed(f: FunDecl, known: Seq<Seq<char>>, g: Seq<char>)
    requires
        callees(f.body).contains(g),
        known.contains(g) || g.contains('.'),
    ensures
        calls_of(f, known).contains(g),
{
    lemma_kept_has(callees(f.body), known, g);
    lemma_sorted_has(calls_kept(callees(f.body), known), g);
    lemma_dedup_has(calls_kept(callees(f.body), known).sort_by(text_order()), g);
}

proof fn lemma_callers_raw_has(fs: Seq<FunDecl>, known: Seq<Seq<char>>, n: Seq<char>, i: int)
    requires
        0 <= i < fs.len(),
        calls_of(fs[i], known).contains(n),
    ensures
        callers_raw(fs, known, n).contains(fs[i].name@),
    decreases fs.len(),
{
    let r = callers_raw(fs.drop_last(), known, n);
    if i == fs.len() - 1 {
        assert(callers_raw(fs, known, n) == r.push(fs[i].name@));
        assert(r.push(fs[i].name@)[r.len() as int] == fs[i].name@);
    } else {
        assert(fs.drop_last()[i] == fs[i]);
        lemma_callers_raw_has(fs.drop_last(), known, n, i);
        let j = choose|j: int| 0 <= j < r.len() && r[j] == fs[i].name@;
        if calls_of(fs.last(), known).contains(n) {
            assert(r.push(fs.last().name@)[j] == fs[i].name@);
        }
    }
}

/// A function that calls `g` is listed among `g`'s callers.
pub proof fn lemma_every_caller_is_listed(fs: Seq<FunDecl>, i: int, g: Seq<char>)
    requires
        0 <= i < fs.len(),
        calls_of(fs[i], fun_names(fs)).contains(g),
    ensures
        callers_of(fs, g).contains(fs[i].name@),
{
    lemma_callers_raw_has(fs, fun_names(fs), g, i);
    lemma_sorted_has(callers_raw(fs, fun_names(fs), g), fs[i].name@);
    lemma_dedup_has(callers_raw(fs, fun_names(fs), g).sort_by(text_order()), fs[i].name@);
}

} // verus!
