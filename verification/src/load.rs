//! What the loader reads off names: the file a module's name maps to, and the
//! modules a module names, which it has to load too.

use vstd::prelude::*;
use crate::ast::{Decl, Expr, ExprKind, ExtSig, Module, Param, Pat, Ty, TyV, TypeBody, VariantDef, tys_view};
use crate::patch::decl_span_of;
use crate::diag::Diag;
use crate::view::ty_text;
use crate::diag::Span;
use crate::text::{chars_of, lowercase, push_char, push_str, string_of_range, to_lowercase};

verus! {

/// `s` without underscores, lowercased: case and underscores carry no
/// information in the file-name mapping.
pub open spec fn squashed(s: Seq<char>) -> Seq<char>
    decreases s.len(),
{
    if s.len() == 0 {
        Seq::empty()
    } else {
        squashed(s.drop_last()) + if s.last() == '_' {
            Seq::empty()
        } else {
            lowercase(s.last())
        }
    }
}

pub fn squash(s: &str) -> (r: String)
    ensures
        r@ == squashed(s@),
{
    let cs = chars_of(s);
    let mut out = String::new();
    for i in 0..cs.len()
        invariant
            cs@ == s@,
            out@ == squashed(cs@.take(i as int)),
    {
        assert(cs@.take(i + 1).drop_last() == cs@.take(i as int));
        let c = cs[i];
        if c != '_' {
            let l = to_lowercase(c);
            push_str(&mut out, l.as_str());
        }
        assert(out@ =~= squashed(cs@.take(i + 1)));
    }
    assert(cs@.take(cs@.len() as int) == cs@);
    out
}

/// `TotalOk` -> `total_ok`: an underscore before every ASCII capital but the
/// first character, and every character lowercased.
pub open spec fn snake(s: Seq<char>) -> Seq<char>
    decreases s.len(),
{
    if s.len() == 0 {
        Seq::empty()
    } else {
        snake(s.drop_last()) + (if 'A' <= s.last() && s.last() <= 'Z' && s.len() > 1 {
            seq!['_']
        } else {
            Seq::empty()
        }) + lowercase(s.last())
    }
}

pub fn snake_case(s: &str) -> (r: String)
    ensures
        r@ == snake(s@),
{
    let cs = chars_of(s);
    let mut out = String::new();
    for i in 0..cs.len()
        invariant
            cs@ == s@,
            out@ == snake(cs@.take(i as int)),
    {
        assert(cs@.take(i + 1).drop_last() == cs@.take(i as int));
        let c = cs[i];
        if 'A' <= c && c <= 'Z' && i > 0 {
            push_char(&mut out, '_');
        }
        let l = to_lowercase(c);
        push_str(&mut out, l.as_str());
        assert(out@ =~= snake(cs@.take(i + 1)));
    }
    assert(cs@.take(cs@.len() as int) == cs@);
    out
}

/// Where the first `.` of `n` stands, looking from `i` on.
pub open spec fn first_dot(n: Seq<char>, i: int) -> Option<int>
    decreases n.len() - i,
{
    if i < 0 || i >= n.len() {
        None
    } else if n[i] == '.' {
        Some(i)
    } else {
        first_dot(n, i + 1)
    }
}

/// The module in a dotted name: what comes before its first `.`.
pub open spec fn module_of(n: Seq<char>) -> Option<Seq<char>> {
    match first_dot(n, 0) {
        Some(i) => Some(n.take(i)),
        None => None,
    }
}

pub fn dotted(n: &str) -> (r: Option<String>)
    ensures
        match r {
            Some(m) => module_of(n@) == Some(m@),
            None => module_of(n@) is None,
        },
{
    let cs = chars_of(n);
    let mut i: usize = 0;
    while i < cs.len()
        invariant
            cs@ == n@,
            i <= cs@.len(),
            first_dot(n@, 0) == first_dot(n@, i as int),
        decreases cs@.len() - i,
    {
        if cs[i] == '.' {
            assert(cs@.subrange(0, i as int) == n@.take(i as int));
            return Some(string_of_range(cs.as_slice(), 0, i));
        }
        i += 1;
    }
    None
}

/// The modules a written type names, left to right, each time it names one.
pub open spec fn ty_mods(t: TyV) -> Seq<Seq<char>>
    decreases t, 0int,
{
    match t {
        TyV::Con(n, args) => (match module_of(n) {
            Some(m) => seq![m],
            None => Seq::empty(),
        }) + tys_mods(args),
        TyV::Ref(i) => ty_mods(*i),
        TyV::Eff(i) => ty_mods(*i),
        TyV::Fun(a, b) => ty_mods(*a) + ty_mods(*b),
        TyV::Tuple(xs) => tys_mods(xs),
        TyV::Var(_) => Seq::empty(),
    }
}

pub open spec fn tys_mods(ts: Seq<TyV>) -> Seq<Seq<char>>
    decreases ts, 1int,
{
    if ts.len() == 0 {
        Seq::empty()
    } else {
        tys_mods(ts.drop_last()) + ty_mods(ts.last())
    }
}

/// The modules as a list of qualifiers, each blamed on `span`.
pub open spec fn blamed(ms: Seq<Seq<char>>, span: Span) -> Seq<(Seq<char>, Span)> {
    ms.map_values(|m: Seq<char>| (m, span))
}

pub open spec fn quals_view(out: Seq<(String, Span)>) -> Seq<(Seq<char>, Span)> {
    out.map_values(|p: (String, Span)| (p.0@, p.1))
}

/// Adds every `Mod.name` a written type holds, with the span to blame if
/// `Mod` is missing.
pub fn ty_qualifiers(t: &Ty, span: Span, out: &mut Vec<(String, Span)>)
    ensures
        quals_view(final(out)@) == quals_view(old(out)@) + blamed(ty_mods(t@), span),
    decreases t, 0int,
{
    match t {
        Ty::Con(n, args) => {
            let ghost before = quals_view(out@);
            match dotted(n.as_str()) {
                Some(m) => {
                    out.push((m, span));
                },
                None => {},
            }
            let ghost mid = quals_view(out@);
            assert(mid =~= before + blamed(
                match module_of(n@) {
                    Some(m) => seq![m],
                    None => Seq::empty(),
                },
                span,
            ));
            all_qualifiers(args, span, out);
            assert(quals_view(out@) =~= before + blamed(ty_mods(t@), span));
        },
        Ty::Ref(i) => ty_qualifiers(i, span, out),
        Ty::Eff(i) => ty_qualifiers(i, span, out),
        Ty::Fun(a, b) => {
            let ghost before = quals_view(out@);
            ty_qualifiers(a, span, out);
            ty_qualifiers(b, span, out);
            assert(quals_view(out@) =~= before + blamed(ty_mods(t@), span));
        },
        Ty::Tuple(xs) => all_qualifiers(xs, span, out),
        Ty::Var(_) => {
            assert(quals_view(out@) =~= quals_view(out@) + blamed(ty_mods(t@), span));
        },
    }
}

fn all_qualifiers(ts: &Vec<Ty>, span: Span, out: &mut Vec<(String, Span)>)
    ensures
        quals_view(final(out)@) == quals_view(old(out)@) + blamed(tys_mods(tys_view(ts@)), span),
    decreases ts, 1int,
{
    let ghost start = quals_view(out@);
    for i in 0..ts.len()
        invariant
            quals_view(out@) == start + blamed(tys_mods(tys_view(ts@.take(i as int))), span),
    {
        proof {
            assert(decreases_to!(ts => ts@[i as int]));
        }
        ty_qualifiers(&ts[i], span, out);
        proof {
            assert(ts@.take(i + 1).drop_last() == ts@.take(i as int));
            let v1 = tys_view(ts@.take(i + 1));
            assert(v1.drop_last() == tys_view(ts@.take(i as int)));
            assert(v1.last() == ts@[i as int]@);
        }
        assert(quals_view(out@) =~= start + blamed(tys_mods(tys_view(ts@.take(i + 1))), span));
    }
    assert(ts@.take(ts@.len() as int) == ts@);
}


/// The module of a dotted name, as a qualifier blamed on `span`.
pub open spec fn qual_at(n: Seq<char>, span: Span) -> Seq<(Seq<char>, Span)> {
    match module_of(n) {
        Some(m) => seq![(m, span)],
        None => Seq::empty(),
    }
}

/// The modules the constructors of a pattern name, each blamed on `span`.
pub open spec fn pat_quals(p: Pat, span: Span) -> Seq<(Seq<char>, Span)>
    decreases p, 0int,
{
    match p {
        Pat::Ctor(c, ps) => qual_at(c@, span) + pats_quals(ps@, span),
        Pat::Tuple(ps) => pats_quals(ps@, span),
        Pat::List(ps) => pats_quals(ps@, span),
        _ => Seq::empty(),
    }
}

pub open spec fn pats_quals(ps: Seq<Pat>, span: Span) -> Seq<(Seq<char>, Span)>
    decreases ps, 1int,
{
    if ps.len() == 0 {
        Seq::empty()
    } else {
        pats_quals(ps.drop_last(), span) + pat_quals(ps.last(), span)
    }
}

/// The modules the arm patterns of a match name, blamed on the match.
pub open spec fn arm_pat_quals(arms: Seq<(Pat, Expr)>, span: Span) -> Seq<(Seq<char>, Span)>
    decreases arms.len(),
{
    if arms.len() == 0 {
        Seq::empty()
    } else {
        arm_pat_quals(arms.drop_last(), span) + pat_quals(arms.last().0, span)
    }
}

/// The modules an expression names, outermost first and then its parts in
/// order: `Mod.f` as a field of a constructor, a dotted constructor, and the
/// dotted constructors of a match's patterns, each blamed on the expression
/// that holds it.
pub open spec fn expr_quals(e: Expr) -> Seq<(Seq<char>, Span)>
    decreases e, 0int,
{
    match e.kind {
        ExprKind::Field(b, _) => (match b.kind {
            ExprKind::Ctor(mo) => seq![(mo@, e.span)],
            _ => Seq::empty(),
        }) + expr_quals(*b),
        ExprKind::Ctor(c) => qual_at(c@, e.span),
        ExprKind::Match(s, arms) => arm_pat_quals(arms@, e.span) + expr_quals(*s) + arms_quals(arms@),
        ExprKind::App(h, args) => expr_quals(*h) + exprs_quals(args@),
        ExprKind::Binop(_, a, b) => expr_quals(*a) + expr_quals(*b),
        ExprKind::Bind(_, a, b) => expr_quals(*a) + expr_quals(*b),
        ExprKind::Let(_, a, b) => expr_quals(*a) + expr_quals(*b),
        ExprKind::Neg(a) => expr_quals(*a),
        ExprKind::Not(a) => expr_quals(*a),
        ExprKind::Borrow(a) => expr_quals(*a),
        ExprKind::Lambda(_, a) => expr_quals(*a),
        ExprKind::Arena(_, a) => expr_quals(*a),
        ExprKind::Record(base, fields) => (match base {
            Some(b) => expr_quals(*b),
            None => Seq::empty(),
        }) + fields_quals(fields@),
        ExprKind::Tuple(xs) => exprs_quals(xs@),
        ExprKind::List(xs) => exprs_quals(xs@),
        _ => Seq::empty(),
    }
}

pub open spec fn exprs_quals(xs: Seq<Expr>) -> Seq<(Seq<char>, Span)>
    decreases xs, 1int,
{
    if xs.len() == 0 {
        Seq::empty()
    } else {
        exprs_quals(xs.drop_last()) + expr_quals(xs.last())
    }
}

pub open spec fn arms_quals(xs: Seq<(Pat, Expr)>) -> Seq<(Seq<char>, Span)>
    decreases xs, 1int,
{
    if xs.len() == 0 {
        Seq::empty()
    } else {
        arms_quals(xs.drop_last()) + expr_quals(xs.last().1)
    }
}

pub open spec fn fields_quals(xs: Seq<(String, Expr)>) -> Seq<(Seq<char>, Span)>
    decreases xs, 1int,
{
    if xs.len() == 0 {
        Seq::empty()
    } else {
        fields_quals(xs.drop_last()) + expr_quals(xs.last().1)
    }
}

fn push_qual(n: &str, span: Span, out: &mut Vec<(String, Span)>)
    ensures
        quals_view(final(out)@) == quals_view(old(out)@) + qual_at(n@, span),
{
    let ghost before = quals_view(out@);
    match dotted(n) {
        Some(m) => {
            out.push((m, span));
            assert(quals_view(out@) =~= before + qual_at(n@, span));
        },
        None => {
            assert(quals_view(out@) =~= before + qual_at(n@, span));
        },
    }
}

/// Adds every module the constructors of a pattern name, blamed on `span`.
pub fn pat_qualifiers(p: &Pat, span: Span, out: &mut Vec<(String, Span)>)
    ensures
        quals_view(final(out)@) == quals_view(old(out)@) + pat_quals(*p, span),
    decreases p, 0int,
{
    let ghost before = quals_view(out@);
    match p {
        Pat::Ctor(c, ps) => {
            push_qual(c.as_str(), span, out);
            pats_qualifiers(ps, span, out);
            assert(quals_view(out@) =~= before + pat_quals(*p, span));
        },
        Pat::Tuple(ps) | Pat::List(ps) => {
            pats_qualifiers(ps, span, out);
        },
        _ => {
            assert(quals_view(out@) =~= before + pat_quals(*p, span));
        },
    }
}

fn pats_qualifiers(ps: &Vec<Pat>, span: Span, out: &mut Vec<(String, Span)>)
    ensures
        quals_view(final(out)@) == quals_view(old(out)@) + pats_quals(ps@, span),
    decreases ps, 1int,
{
    let ghost start = quals_view(out@);
    assert(ps@.take(0) =~= Seq::<Pat>::empty());
    assert(start + Seq::<(Seq<char>, Span)>::empty() =~= start);
    for i in 0..ps.len()
        invariant
            quals_view(out@) == start + pats_quals(ps@.take(i as int), span),
    {
        proof {
            assert(decreases_to!(ps => ps@[i as int]));
            assert(ps@.take(i + 1).drop_last() =~= ps@.take(i as int));
        }
        pat_qualifiers(&ps[i], span, out);
        assert(quals_view(out@) =~= start + pats_quals(ps@.take(i + 1), span));
    }
    assert(ps@.take(ps@.len() as int) =~= ps@);
}

fn arm_pat_qualifiers(arms: &Vec<(Pat, Expr)>, span: Span, out: &mut Vec<(String, Span)>)
    ensures
        quals_view(final(out)@) == quals_view(old(out)@) + arm_pat_quals(arms@, span),
{
    let ghost start = quals_view(out@);
    assert(arms@.take(0) =~= Seq::<(Pat, Expr)>::empty());
    assert(start + Seq::<(Seq<char>, Span)>::empty() =~= start);
    for i in 0..arms.len()
        invariant
            quals_view(out@) == start + arm_pat_quals(arms@.take(i as int), span),
    {
        assert(arms@.take(i + 1).drop_last() =~= arms@.take(i as int));
        pat_qualifiers(&arms[i].0, span, out);
        assert(quals_view(out@) =~= start + arm_pat_quals(arms@.take(i + 1), span));
    }
    assert(arms@.take(arms@.len() as int) =~= arms@);
}

/// Adds every module an expression names, blamed on the expression that
/// holds it.
pub fn find_qualifiers(e: &Expr, out: &mut Vec<(String, Span)>)
    ensures
        quals_view(final(out)@) == quals_view(old(out)@) + expr_quals(*e),
    decreases e, 0int,
{
    let ghost o = quals_view(out@);
    match &e.kind {
        ExprKind::Field(b, _) => {
            match &b.kind {
                ExprKind::Ctor(mo) => {
                    out.push((mo.clone(), e.span));
                },
                _ => {},
            }
            let ghost mid = quals_view(out@);
            assert(mid =~= o + (match b.kind {
                ExprKind::Ctor(mo) => seq![(mo@, e.span)],
                _ => Seq::<(Seq<char>, Span)>::empty(),
            }));
            find_qualifiers(b, out);
            assert(quals_view(out@) =~= o + expr_quals(*e));
        },
        ExprKind::Ctor(c) => {
            push_qual(c.as_str(), e.span, out);
        },
        ExprKind::Match(s, arms) => {
            arm_pat_qualifiers(arms, e.span, out);
            find_qualifiers(s, out);
            arms_qualifiers(arms, out);
            assert(quals_view(out@) =~= o + expr_quals(*e));
        },
        ExprKind::App(h, args) => {
            find_qualifiers(h, out);
            exprs_qualifiers(args, out);
            assert(quals_view(out@) =~= o + expr_quals(*e));
        },
        ExprKind::Binop(_, a, b) | ExprKind::Bind(_, a, b) | ExprKind::Let(_, a, b) => {
            find_qualifiers(a, out);
            find_qualifiers(b, out);
            assert(quals_view(out@) =~= o + expr_quals(*e));
        },
        ExprKind::Neg(a) | ExprKind::Not(a) | ExprKind::Borrow(a) | ExprKind::Lambda(_, a) | ExprKind::Arena(
            _,
            a,
        ) => {
            find_qualifiers(a, out);
        },
        ExprKind::Record(base, fields) => {
            match base {
                Some(b) => {
                    find_qualifiers(b, out);
                },
                None => {
                    assert(o + Seq::<(Seq<char>, Span)>::empty() =~= o);
                },
            }
            fields_qualifiers(fields, out);
            assert(quals_view(out@) =~= o + expr_quals(*e));
        },
        ExprKind::Tuple(xs) | ExprKind::List(xs) => {
            exprs_qualifiers(xs, out);
        },
        _ => {
            assert(quals_view(out@) =~= o + expr_quals(*e));
        },
    }
}

fn exprs_qualifiers(xs: &Vec<Expr>, out: &mut Vec<(String, Span)>)
    ensures
        quals_view(final(out)@) == quals_view(old(out)@) + exprs_quals(xs@),
    decreases xs, 1int,
{
    let ghost start = quals_view(out@);
    assert(xs@.take(0) =~= Seq::<Expr>::empty());
    assert(start + Seq::<(Seq<char>, Span)>::empty() =~= start);
    for i in 0..xs.len()
        invariant
            quals_view(out@) == start + exprs_quals(xs@.take(i as int)),
    {
        proof {
            assert(decreases_to!(xs => xs@[i as int]));
            assert(xs@.take(i + 1).drop_last() =~= xs@.take(i as int));
        }
        find_qualifiers(&xs[i], out);
        assert(quals_view(out@) =~= start + exprs_quals(xs@.take(i + 1)));
    }
    assert(xs@.take(xs@.len() as int) =~= xs@);
}

fn arms_qualifiers(xs: &Vec<(Pat, Expr)>, out: &mut Vec<(String, Span)>)
    ensures
        quals_view(final(out)@) == quals_view(old(out)@) + arms_quals(xs@),
    decreases xs, 1int,
{
    let ghost start = quals_view(out@);
    assert(xs@.take(0) =~= Seq::<(Pat, Expr)>::empty());
    assert(start + Seq::<(Seq<char>, Span)>::empty() =~= start);
    for i in 0..xs.len()
        invariant
            quals_view(out@) == start + arms_quals(xs@.take(i as int)),
    {
        proof {
            assert(decreases_to!(xs => xs@[i as int]));
            assert(decreases_to!(xs@[i as int] => xs@[i as int].1));
            assert(xs@.take(i + 1).drop_last() =~= xs@.take(i as int));
        }
        find_qualifiers(&xs[i].1, out);
        assert(quals_view(out@) =~= start + arms_quals(xs@.take(i + 1)));
    }
    assert(xs@.take(xs@.len() as int) =~= xs@);
}

fn fields_qualifiers(xs: &Vec<(String, Expr)>, out: &mut Vec<(String, Span)>)
    ensures
        quals_view(final(out)@) == quals_view(old(out)@) + fields_quals(xs@),
    decreases xs, 1int,
{
    let ghost start = quals_view(out@);
    assert(xs@.take(0) =~= Seq::<(String, Expr)>::empty());
    assert(start + Seq::<(Seq<char>, Span)>::empty() =~= start);
    for i in 0..xs.len()
        invariant
            quals_view(out@) == start + fields_quals(xs@.take(i as int)),
    {
        proof {
            assert(decreases_to!(xs => xs@[i as int]));
            assert(decreases_to!(xs@[i as int] => xs@[i as int].1));
            assert(xs@.take(i + 1).drop_last() =~= xs@.take(i as int));
        }
        find_qualifiers(&xs[i].1, out);
        assert(quals_view(out@) =~= start + fields_quals(xs@.take(i + 1)));
    }
    assert(xs@.take(xs@.len() as int) =~= xs@);
}

/// The modules a list of types names, each blamed on `span`.
pub open spec fn ty_list_quals(ts: Seq<Ty>, span: Span) -> Seq<(Seq<char>, Span)>
    decreases ts.len(),
{
    if ts.len() == 0 {
        Seq::empty()
    } else {
        ty_list_quals(ts.drop_last(), span) + blamed(ty_mods(ts.last()@), span)
    }
}

/// The types the parameters are given, in order.
pub open spec fn param_tys(ps: Seq<Param>) -> Seq<Ty>
    decreases ps.len(),
{
    if ps.len() == 0 {
        Seq::empty()
    } else {
        param_tys(ps.drop_last()) + match ps.last().ty {
            Some(t) => seq![t],
            None => Seq::empty(),
        }
    }
}

/// The payload types of the variants, in order.
pub open spec fn variant_tys(vs: Seq<VariantDef>) -> Seq<Ty>
    decreases vs.len(),
{
    if vs.len() == 0 {
        Seq::empty()
    } else {
        variant_tys(vs.drop_last()) + vs.last().args@
    }
}

/// The types a declaration writes, in order: parameter types then the
/// result type of a function, the payload types of a variant type, the
/// field types of a record, the signature types of an `ext` block.
pub open spec fn decl_types(d: Decl) -> Seq<Ty> {
    match d {
        Decl::Fun(f) => param_tys(f.params@) + match f.ret {
            Some(r) => seq![r],
            None => Seq::empty(),
        },
        Decl::Type(t) => match t.body {
            TypeBody::Variants(vs) => variant_tys(vs@),
            TypeBody::Record(r) => r.fields@.map_values(|f: (String, Ty)| f.1),
            TypeBody::Opaque => Seq::empty(),
        },
        Decl::Ext(e) => e.sigs@.map_values(|s: ExtSig| s.ty),
        Decl::Exp(_, _) => Seq::empty(),
    }
}

/// The qualifiers a declaration holds: the modules its written types name,
/// blamed on the declaration, then those of a function's body.
pub open spec fn decl_quals(d: Decl) -> Seq<(Seq<char>, Span)> {
    ty_list_quals(decl_types(d), decl_span_of(d)) + match d {
        Decl::Fun(f) => expr_quals(f.body),
        _ => Seq::empty(),
    }
}

/// The qualifiers of the first `k` declarations.
pub open spec fn module_quals(ds: Seq<Decl>, k: int) -> Seq<(Seq<char>, Span)>
    decreases k,
{
    if k <= 0 {
        Seq::empty()
    } else {
        module_quals(ds, k - 1) + decl_quals(ds[k - 1])
    }
}

fn push_type_quals(ts: &Vec<&Ty>, span: Span, out: &mut Vec<(String, Span)>)
    ensures
        quals_view(final(out)@) == quals_view(old(out)@) + ty_list_quals(ts@.map_values(|t: &Ty| *t), span),
{
    let ghost start = quals_view(out@);
    let ghost tv = ts@.map_values(|t: &Ty| *t);
    assert(tv.take(0) =~= Seq::<Ty>::empty());
    assert(start + Seq::<(Seq<char>, Span)>::empty() =~= start);
    for i in 0..ts.len()
        invariant
            tv == ts@.map_values(|t: &Ty| *t),
            quals_view(out@) == start + ty_list_quals(tv.take(i as int), span),
    {
        assert(tv.take(i + 1).drop_last() =~= tv.take(i as int));
        assert(tv.take(i + 1).last() == *ts@[i as int]);
        ty_qualifiers(ts[i], span, out);
        assert(quals_view(out@) =~= start + ty_list_quals(tv.take(i + 1), span));
    }
    assert(tv.take(ts@.len() as int) =~= tv);
}

fn types_written(d: &Decl) -> (r: Vec<&Ty>)
    ensures
        r@.map_values(|t: &Ty| *t) == decl_types(*d),
{
    let mut v: Vec<&Ty> = Vec::new();
    match d {
        Decl::Fun(f) => {
            let ghost ps = f.params@;
            assert(ps.take(0) =~= Seq::<Param>::empty());
            for i in 0..f.params.len()
                invariant
                    ps == f.params@,
                    v@.map_values(|t: &Ty| *t) == param_tys(ps.take(i as int)),
            {
                assert(ps.take(i + 1).drop_last() =~= ps.take(i as int));
                assert(ps.take(i + 1).last() == ps[i as int]);
                let ghost prev = v@;
                match &f.params[i].ty {
                    Some(t) => {
                        v.push(t);
                        assert(v@.map_values(|t: &Ty| *t) =~= prev.map_values(|t: &Ty| *t) + seq![*t]);
                    },
                    None => {
                        assert(v@.map_values(|t: &Ty| *t) =~= prev.map_values(|t: &Ty| *t) + Seq::<Ty>::empty());
                    },
                }
            }
            assert(ps.take(ps.len() as int) =~= ps);
            let ghost pre = v@.map_values(|t: &Ty| *t);
            match &f.ret {
                Some(r) => {
                    v.push(r);
                    assert(v@.map_values(|t: &Ty| *t) =~= pre + seq![*r]);
                },
                None => {
                    assert(v@.map_values(|t: &Ty| *t) =~= pre + Seq::<Ty>::empty());
                },
            }
        },
        Decl::Type(t) => match &t.body {
            TypeBody::Variants(vs) => {
                assert(vs@.take(0) =~= Seq::<VariantDef>::empty());
                for i in 0..vs.len()
                    invariant
                        v@.map_values(|t: &Ty| *t) == variant_tys(vs@.take(i as int)),
                {
                    assert(vs@.take(i + 1).drop_last() =~= vs@.take(i as int));
                    assert(vs@.take(i + 1).last() == vs@[i as int]);
                    let args = &vs[i].args;
                    let ghost base = v@.map_values(|t: &Ty| *t);
                    assert(args@.take(0) =~= Seq::<Ty>::empty());
                    assert(base + Seq::<Ty>::empty() =~= base);
                    for j in 0..args.len()
                        invariant
                            v@.map_values(|t: &Ty| *t) == base + args@.take(j as int),
                    {
                        let ghost prev = v@;
                        v.push(&args[j]);
                        assert(v@.map_values(|t: &Ty| *t) =~= prev.map_values(|t: &Ty| *t).push(args@[j as int]));
                        assert(base + args@.take(j + 1) =~= (base + args@.take(j as int)).push(args@[j as int]));
                    }
                    assert(args@.take(args@.len() as int) =~= args@);
                }
                assert(vs@.take(vs@.len() as int) =~= vs@);
            },
            TypeBody::Record(r) => {
                let ghost w = r.fields@.map_values(|f: (String, Ty)| f.1);
                for i in 0..r.fields.len()
                    invariant
                        w == r.fields@.map_values(|f: (String, Ty)| f.1),
                        v@.map_values(|t: &Ty| *t) == w.take(i as int),
                {
                    let ghost prev = v@;
                    v.push(&r.fields[i].1);
                    assert(w[i as int] == r.fields@[i as int].1);
                    assert(v@.map_values(|t: &Ty| *t) =~= prev.map_values(|t: &Ty| *t).push(w[i as int]));
                    assert(w.take(i + 1) =~= w.take(i as int).push(w[i as int]));
                }
                assert(w.take(r.fields@.len() as int) =~= w);
            },
            TypeBody::Opaque => {
                assert(v@.map_values(|t: &Ty| *t) =~= Seq::<Ty>::empty());
            },
        },
        Decl::Ext(e) => {
            let ghost w = e.sigs@.map_values(|s: ExtSig| s.ty);
            for i in 0..e.sigs.len()
                invariant
                    w == e.sigs@.map_values(|s: ExtSig| s.ty),
                    v@.map_values(|t: &Ty| *t) == w.take(i as int),
            {
                let ghost prev = v@;
                v.push(&e.sigs[i].ty);
                assert(w[i as int] == e.sigs@[i as int].ty);
                assert(v@.map_values(|t: &Ty| *t) =~= prev.map_values(|t: &Ty| *t).push(w[i as int]));
                assert(w.take(i + 1) =~= w.take(i as int).push(w[i as int]));
            }
            assert(w.take(e.sigs@.len() as int) =~= w);
        },
        Decl::Exp(_, _) => {
            assert(v@.map_values(|t: &Ty| *t) =~= Seq::<Ty>::empty());
        },
    }
    v
}

/// Every `Mod.name` a module holds, with the declaration or expression to
/// blame when `Mod` cannot be found: the types each declaration writes, then
/// the body of a function. Whether a qualifier names a file is the caller's
/// to find out.
pub fn qualifiers(m: &Module) -> (r: Vec<(String, Span)>)
    ensures
        quals_view(r@) == module_quals(m.decls@, m.decls@.len() as int),
{
    let mut out: Vec<(String, Span)> = Vec::new();
    assert(quals_view(out@) =~= Seq::<(Seq<char>, Span)>::empty());
    for i in 0..m.decls.len()
        invariant
            quals_view(out@) == module_quals(m.decls@, i as int),
    {
        let d = &m.decls[i];
        let ghost before = quals_view(out@);
        let ts = types_written(d);
        push_type_quals(&ts, crate::patch::decl_span(d), &mut out);
        match d {
            Decl::Fun(f) => {
                find_qualifiers(&f.body, &mut out);
            },
            _ => {},
        }
        assert(quals_view(out@) =~= before + decl_quals(*d));
    }
    out
}


// ------------------------------------------------------------ ext symbols across modules

/// The `ext c` signatures of declarations, each with the name of the module
/// that declares it, in order.
pub open spec fn decls_sigs(n: Seq<char>, ds: Seq<Decl>) -> Seq<(Seq<char>, ExtSig)>
    decreases ds.len(),
{
    if ds.len() == 0 {
        Seq::empty()
    } else {
        decls_sigs(n, ds.drop_last()) + match ds.last() {
            Decl::Ext(e) => e.sigs@.map_values(|s: ExtSig| (n, s)),
            _ => Seq::empty(),
        }
    }
}

/// The `ext c` signatures of the modules, in order.
pub open spec fn mods_sigs(ms: Seq<Module>) -> Seq<(Seq<char>, ExtSig)>
    decreases ms.len(),
{
    if ms.len() == 0 {
        Seq::empty()
    } else {
        mods_sigs(ms.drop_last()) + decls_sigs(ms.last().name@, ms.last().decls@)
    }
}

/// The type an `ext c` signature gives its C symbol.
pub open spec fn shape_of(s: ExtSig) -> Seq<char> {
    s.symbol@ + " : "@ + ty_text(s.ty@)
}

/// The module and shape last recorded for the symbol named `n`.
pub open spec fn seen_of(seen: Seq<(Seq<char>, Seq<char>, Seq<char>)>, n: Seq<char>) -> Option<(Seq<char>, Seq<char>)>
    decreases seen.len(),
{
    if seen.len() == 0 {
        None
    } else if seen.last().0 == n {
        Some((seen.last().1, seen.last().2))
    } else {
        seen_of(seen.drop_last(), n)
    }
}


/// The symbols seen and the reports made after the signatures `items`:
/// a signature whose symbol another module declared with another shape is
/// reported; any other is recorded as the latest word on its symbol.
pub open spec fn clash_scan(items: Seq<(Seq<char>, ExtSig)>) -> (Seq<(Seq<char>, Seq<char>, Seq<char>)>, Seq<(Span, Seq<char>, Seq<char>, Seq<char>)>)
    decreases items.len(),
{
    if items.len() == 0 {
        (Seq::empty(), Seq::empty())
    } else {
        let (seen, reps) = clash_scan(items.drop_last());
        let (m, s) = items.last();
        let shape = shape_of(s);
        match seen_of(seen, s.name@) {
            Some((first, was)) => if first != m && was != shape {
                (
                    seen,
                    reps.push(
                        (
                            s.span,
                            "the `ext c` symbol `"@ + s.name@ + "` is declared with two different types, in `"@ + first
                                + "` and `"@ + m + "`"@,
                            m + "."@ + s.name@,
                            "`"@ + first + "` declares "@ + was + "; `"@ + m + "` declares "@ + shape,
                        ),
                    ),
                )
            } else {
                (seen.push((s.name@, m, shape)), reps)
            },
            None => (seen.push((s.name@, m, shape)), reps),
        }
    }
}

/// The diagnostic `d` is the clash report `r`.
pub open spec fn is_clash(d: Diag, r: (Span, Seq<char>, Seq<char>, Seq<char>)) -> bool {
    &&& d.span == r.0
    &&& d.code@ == "mod.duplicate"@
    &&& d.msg@ == r.1
    &&& crate::diag::opt_view(d.path) == Some(r.2)
    &&& crate::diag::opt_view(d.witness) == Some(r.3)
    &&& crate::diag::opt_view(d.fix) == Some("make the two agree: a C symbol has one type, and no module to hide behind"@)
}

fn seen_lookup(seen: &Vec<(String, String, String)>, n: &str) -> (r: Option<usize>)
    ensures
        match r {
            Some(k) => k < seen@.len() && seen_of(trip_view(seen@), n@) == Some((seen@[k as int].1@, seen@[k as int].2@)),
            None => seen_of(trip_view(seen@), n@) is None,
        },
{
    let ghost sv = trip_view(seen@);
    let mut k = seen.len();
    assert(sv.take(k as int) =~= sv);
    while k > 0
        invariant
            k <= seen@.len(),
            sv == trip_view(seen@),
            seen_of(sv, n@) == seen_of(sv.take(k as int), n@),
        decreases k,
    {
        assert(sv.take(k as int).drop_last() =~= sv.take(k - 1));
        assert(sv.take(k as int).last() == sv[k - 1]);
        k -= 1;
        if crate::text::str_eq(seen[k].0.as_str(), n) {
            return Some(k);
        }
    }
    None
}

pub open spec fn trip_view(v: Seq<(String, String, String)>) -> Seq<(Seq<char>, Seq<char>, Seq<char>)> {
    v.map_values(|e: (String, String, String)| (e.0@, e.1@, e.2@))
}

/// Reports each `ext c` symbol that a module declares with a type other
/// than the one an earlier module gave it. The same symbol declared by two
/// modules alike is one C function and no clash; a module that redeclares
/// its own symbol, or agrees with the shape on record, becomes the latest
/// word on it.
pub fn global_clashes(ms: &[Module]) -> (r: Vec<Diag>)
    ensures
        r@.len() == clash_scan(mods_sigs(ms@)).1.len(),
        forall|j: int| 0 <= j < r@.len() ==> is_clash(#[trigger] r@[j], clash_scan(mods_sigs(ms@)).1[j]),
{
    let mut seen: Vec<(String, String, String)> = Vec::new();
    let mut out: Vec<Diag> = Vec::new();
    let ghost mut done: Seq<(Seq<char>, ExtSig)> = Seq::empty();
    assert(ms@.take(0) =~= Seq::<Module>::empty());
    for i in 0..ms.len()
        invariant
            done == mods_sigs(ms@.take(i as int)),
            trip_view(seen@) == clash_scan(done).0,
            out@.len() == clash_scan(done).1.len(),
            forall|j: int| 0 <= j < out@.len() ==> is_clash(#[trigger] out@[j], clash_scan(done).1[j]),
    {
        let m = &ms[i];
        let ghost base = done;
        assert(m.decls@.take(0) =~= Seq::<Decl>::empty());
        assert(base + decls_sigs(m.name@, m.decls@.take(0)) =~= base);
        for k in 0..m.decls.len()
            invariant
                done == base + decls_sigs(m.name@, m.decls@.take(k as int)),
                trip_view(seen@) == clash_scan(done).0,
                out@.len() == clash_scan(done).1.len(),
                forall|j: int| 0 <= j < out@.len() ==> is_clash(#[trigger] out@[j], clash_scan(done).1[j]),
        {
            assert(m.decls@.take(k + 1).drop_last() =~= m.decls@.take(k as int));
            assert(m.decls@.take(k + 1).last() == m.decls@[k as int]);
            match &m.decls[k] {
                Decl::Ext(e) => {
                    let ghost before = done;
                    let ghost sigv = e.sigs@.map_values(|s: ExtSig| (m.name@, s));
                    assert(sigv.take(0) =~= Seq::<(Seq<char>, ExtSig)>::empty());
                    assert(before + sigv.take(0) =~= before);
                    for q in 0..e.sigs.len()
                        invariant
                            sigv == e.sigs@.map_values(|s: ExtSig| (m.name@, s)),
                            done == before + sigv.take(q as int),
                            trip_view(seen@) == clash_scan(done).0,
                            out@.len() == clash_scan(done).1.len(),
                            forall|j: int| 0 <= j < out@.len() ==> is_clash(#[trigger] out@[j], clash_scan(done).1[j]),
                    {
                        let s = &e.sigs[q];
                        let ghost prev = done;
                        proof {
                            done = done.push((m.name@, *s));
                            assert(done.drop_last() =~= prev);
                            assert(sigv[q as int] == (m.name@, *s));
                            assert(before + sigv.take(q + 1) =~= done);
                        }
                        let mut shape = crate::text::owned(s.symbol.as_str());
                        crate::text::push_str(&mut shape, " : ");
                        let t = crate::view::ty(&s.ty);
                        crate::text::push_str(&mut shape, t.as_str());
                        proof {
                            reveal_strlit(" : ");
                        }
                        assert(shape@ == shape_of(*s));
                        let ghost sv0 = trip_view(seen@);
                        let clash = match seen_lookup(&seen, s.name.as_str()) {
                            Some(k2) => {
                                if !crate::text::str_eq(seen[k2].1.as_str(), m.name.as_str()) && !crate::text::str_eq(
                                    seen[k2].2.as_str(),
                                    shape.as_str(),
                                ) {
                                    Some(k2)
                                } else {
                                    None
                                }
                            },
                            None => None,
                        };
                        match clash {
                            Some(k2) => {
                                let first = seen[k2].1.as_str();
                                let was = seen[k2].2.as_str();
                                let mut msg = crate::text::owned("the `ext c` symbol `");
                                crate::text::push_str(&mut msg, s.name.as_str());
                                crate::text::push_str(&mut msg, "` is declared with two different types, in `");
                                crate::text::push_str(&mut msg, first);
                                crate::text::push_str(&mut msg, "` and `");
                                crate::text::push_str(&mut msg, m.name.as_str());
                                crate::text::push_str(&mut msg, "`");
                                let mut path = crate::text::owned(m.name.as_str());
                                crate::text::push_str(&mut path, ".");
                                crate::text::push_str(&mut path, s.name.as_str());
                                let mut wit = crate::text::owned("`");
                                crate::text::push_str(&mut wit, first);
                                crate::text::push_str(&mut wit, "` declares ");
                                crate::text::push_str(&mut wit, was);
                                crate::text::push_str(&mut wit, "; `");
                                crate::text::push_str(&mut wit, m.name.as_str());
                                crate::text::push_str(&mut wit, "` declares ");
                                crate::text::push_str(&mut wit, shape.as_str());
                                let d = Diag::error(s.span, "mod.duplicate", msg.as_str()).with_path(path.as_str()).with_witness(
                                    wit.as_str(),
                                ).with_fix("make the two agree: a C symbol has one type, and no module to hide behind");
                                proof {
                                    reveal_strlit("the `ext c` symbol `");
                                    reveal_strlit("` is declared with two different types, in `");
                                    reveal_strlit("` and `");
                                    reveal_strlit("`");
                                    reveal_strlit(".");
                                    reveal_strlit("` declares ");
                                    reveal_strlit("; `");
                                }
                                let ghost olds = out@;
                                out.push(d);
                                proof {
                                    let r = clash_scan(done).1;
                                    assert(r == clash_scan(prev).1.push(
                                        (
                                            s.span,
                                            "the `ext c` symbol `"@ + s.name@
                                                + "` is declared with two different types, in `"@ + seen@[k2 as int].1@
                                                + "` and `"@ + m.name@ + "`"@,
                                            m.name@ + "."@ + s.name@,
                                            "`"@ + seen@[k2 as int].1@ + "` declares "@ + seen@[k2 as int].2@ + "; `"@
                                                + m.name@ + "` declares "@ + shape_of(*s),
                                        ),
                                    ));
                                    assert(msg@ =~= r.last().1);
                                    assert(path@ =~= r.last().2);
                                    assert(wit@ =~= r.last().3);
                                    assert forall|j: int| 0 <= j < out@.len() implies is_clash(#[trigger] out@[j], r[j]) by {
                                        if j < olds.len() {
                                            assert(out@[j] == olds[j]);
                                        }
                                    }
                                }
                            },
                            None => {
                                let entry = (s.name.clone(), crate::text::owned(m.name.as_str()), shape);
                                seen.push(entry);
                                assert(trip_view(seen@) =~= sv0.push((s.name@, m.name@, shape_of(*s))));
                            },
                        }
                    }
                    assert(sigv.take(e.sigs@.len() as int) =~= sigv);
                    assert(done =~= base + decls_sigs(m.name@, m.decls@.take(k + 1)));
                },
                _ => {
                    assert(done =~= base + decls_sigs(m.name@, m.decls@.take(k + 1)));
                },
            }
        }
        assert(m.decls@.take(m.decls@.len() as int) =~= m.decls@);
        assert(ms@.take(i + 1).drop_last() =~= ms@.take(i as int));
        assert(ms@.take(i + 1).last() == ms@[i as int]);
    }
    assert(ms@.take(ms@.len() as int) =~= ms@);
    out
}



/// Whether a file with stem `stem` may hold module `name`: case and
/// underscores are the only things allowed to differ.
pub fn file_matches(name: &str, stem: &str) -> (r: bool)
    ensures
        r == (squashed(name@) == squashed(stem@)),
{
    let a = squash(name);
    let b = squash(stem);
    crate::text::str_eq(a.as_str(), b.as_str())
}

/// The report that module `name`, declared at `span`, sits in a file whose
/// stem is `stem`.
pub fn name_mismatch(span: Span, name: &str, stem: &str) -> (d: Diag)
    ensures
        d.span == span,
        d.code@ == "mod.name"@,
        d.msg@ == "`mod "@ + name@ + "` does not match the file name `"@ + stem@ + ".vibe`"@,
        d.path is None,
        d.witness is None,
        crate::diag::opt_view(d.fix) == Some("rename the file to "@ + name@ + ".vibe, or the module to "@ + stem@),
{
    let mut msg = crate::text::owned("`mod ");
    push_str(&mut msg, name);
    push_str(&mut msg, "` does not match the file name `");
    push_str(&mut msg, stem);
    push_str(&mut msg, ".vibe`");
    let mut fix = crate::text::owned("rename the file to ");
    push_str(&mut fix, name);
    push_str(&mut fix, ".vibe, or the module to ");
    push_str(&mut fix, stem);
    proof {
        reveal_strlit("`mod ");
        reveal_strlit("` does not match the file name `");
        reveal_strlit(".vibe`");
        reveal_strlit("rename the file to ");
        reveal_strlit(".vibe, or the module to ");
    }
    assert(msg@ =~= "`mod "@ + name@ + "` does not match the file name `"@ + stem@ + ".vibe`"@);
    assert(fix@ =~= "rename the file to "@ + name@ + ".vibe, or the module to "@ + stem@);
    Diag::error(span, "mod.name", msg.as_str()).with_fix(fix.as_str())
}

/// The report that no file holds module `name`, named at `span`, after
/// looking at each of `looked`.
pub fn missing_module(span: Span, name: &str, looked: &[String]) -> (d: Diag)
    ensures
        d.span == span,
        d.code@ == "mod.missing"@,
        d.msg@ == "no module `"@ + name@ + "`: looked in "@ + crate::text::join(looked@.map_values(|l: String| l@), ", "@),
        d.path is None,
        d.witness is None,
        crate::diag::opt_view(d.fix) == Some("create "@ + name@ + ".vibe next to this file, or put it on VIBE_PATH"@),
{
    let mut msg = crate::text::owned("no module `");
    push_str(&mut msg, name);
    push_str(&mut msg, "`: looked in ");
    crate::text::push_joined(&mut msg, looked, ", ");
    let mut fix = crate::text::owned("create ");
    push_str(&mut fix, name);
    push_str(&mut fix, ".vibe next to this file, or put it on VIBE_PATH");
    proof {
        reveal_strlit("no module `");
        reveal_strlit("`: looked in ");
        reveal_strlit("create ");
        reveal_strlit(".vibe next to this file, or put it on VIBE_PATH");
    }
    assert(msg@ =~= "no module `"@ + name@ + "`: looked in "@ + crate::text::join(looked@.map_values(|l: String| l@), ", "@));
    assert(fix@ =~= "create "@ + name@ + ".vibe next to this file, or put it on VIBE_PATH"@);
    Diag::error(span, "mod.missing", msg.as_str()).with_fix(fix.as_str())
}


proof fn lemma_exprs_quals_has(xs: Seq<Expr>, j: int)
    requires
        0 <= j < xs.len(),
    ensures
        forall|q: (Seq<char>, Span)| expr_quals(xs[j]).contains(q) ==> #[trigger] exprs_quals(xs).contains(q),
    decreases xs.len(),
{
    crate::ast::lemma_in_concat(exprs_quals(xs.drop_last()), expr_quals(xs.last()));
    if j < xs.len() - 1 {
        lemma_exprs_quals_has(xs.drop_last(), j);
        assert(xs.drop_last()[j] == xs[j]);
    }
}

proof fn lemma_arms_quals_has(xs: Seq<(Pat, Expr)>, j: int)
    requires
        0 <= j < xs.len(),
    ensures
        forall|q: (Seq<char>, Span)| expr_quals(xs[j].1).contains(q) ==> #[trigger] arms_quals(xs).contains(q),
    decreases xs.len(),
{
    crate::ast::lemma_in_concat(arms_quals(xs.drop_last()), expr_quals(xs.last().1));
    if j < xs.len() - 1 {
        lemma_arms_quals_has(xs.drop_last(), j);
        assert(xs.drop_last()[j] == xs[j]);
    }
}

proof fn lemma_fields_quals_has(xs: Seq<(String, Expr)>, j: int)
    requires
        0 <= j < xs.len(),
    ensures
        forall|q: (Seq<char>, Span)| expr_quals(xs[j].1).contains(q) ==> #[trigger] fields_quals(xs).contains(q),
    decreases xs.len(),
{
    crate::ast::lemma_in_concat(fields_quals(xs.drop_last()), expr_quals(xs.last().1));
    if j < xs.len() - 1 {
        lemma_fields_quals_has(xs.drop_last(), j);
        assert(xs.drop_last()[j] == xs[j]);
    }
}

/// Every module a sub-expression names, `e` names too: a qualified name
/// anywhere in a body, in any argument, binding or arm, is loaded.
pub proof fn lemma_expr_quals_reach_every_child(e: Expr)
    ensures
        forall|c: int, q: (Seq<char>, Span)|
            0 <= c < crate::ast::children(e).len() && #[trigger] expr_quals(crate::ast::children(e)[c]).contains(q) ==> expr_quals(e).contains(q),
{
    let ch = crate::ast::children(e);
    assert forall|c: int, q: (Seq<char>, Span)| 0 <= c < ch.len() && #[trigger] expr_quals(ch[c]).contains(q) implies expr_quals(e).contains(q) by {
        match e.kind {
            ExprKind::App(h, xs) => {
                crate::ast::lemma_in_concat(expr_quals(*h), exprs_quals(xs@));
                if c > 0 {
                    assert(ch[c] == xs@[c - 1]);
                    lemma_exprs_quals_has(xs@, c - 1);
                }
            },
            ExprKind::Binop(_, a, b) => {
                crate::ast::lemma_in_concat(expr_quals(*a), expr_quals(*b));
            },
            ExprKind::Bind(_, a, b) => {
                crate::ast::lemma_in_concat(expr_quals(*a), expr_quals(*b));
            },
            ExprKind::Let(_, a, b) => {
                crate::ast::lemma_in_concat(expr_quals(*a), expr_quals(*b));
            },
            ExprKind::Match(x, arms) => {
                crate::ast::lemma_in_concat(arm_pat_quals(arms@, e.span), expr_quals(*x));
                crate::ast::lemma_in_concat(arm_pat_quals(arms@, e.span) + expr_quals(*x), arms_quals(arms@));
                if c > 0 {
                    assert(ch[c] == arms@[c - 1].1);
                    lemma_arms_quals_has(arms@, c - 1);
                }
            },
            ExprKind::Record(base, fs) => {
                let bq = match base {
                    Some(b) => expr_quals(*b),
                    None => Seq::empty(),
                };
                crate::ast::lemma_in_concat(bq, fields_quals(fs@));
                match base {
                    Some(b) => {
                        if c > 0 {
                            assert(ch[c] == fs@[c - 1].1);
                            lemma_fields_quals_has(fs@, c - 1);
                        }
                    },
                    None => {
                        assert(ch[c] == fs@[c].1);
                        lemma_fields_quals_has(fs@, c);
                    },
                }
            },
            ExprKind::Tuple(xs) => {
                lemma_exprs_quals_has(xs@, c);
                assert(ch[c] == xs@[c]);
                assert(expr_quals(e) == exprs_quals(xs@));
                assert(exprs_quals(xs@).contains(q));
            },
            ExprKind::List(xs) => {
                lemma_exprs_quals_has(xs@, c);
                assert(ch[c] == xs@[c]);
                assert(expr_quals(e) == exprs_quals(xs@));
                assert(exprs_quals(xs@).contains(q));
            },
            ExprKind::Field(b, _) => {
                let hq = match b.kind {
                    ExprKind::Ctor(mo) => seq![(mo@, e.span)],
                    _ => Seq::empty(),
                };
                crate::ast::lemma_in_concat(hq, expr_quals(*b));
            },
            ExprKind::Neg(a) => {
                assert(ch[c] == *a);
                assert(expr_quals(e) == expr_quals(*a));
            },
            ExprKind::Not(a) => {
                assert(ch[c] == *a);
                assert(expr_quals(e) == expr_quals(*a));
            },
            ExprKind::Borrow(a) => {
                assert(ch[c] == *a);
                assert(expr_quals(e) == expr_quals(*a));
            },
            ExprKind::Lambda(_, a) => {
                assert(ch[c] == *a);
                assert(expr_quals(e) == expr_quals(*a));
            },
            ExprKind::Arena(_, a) => {
                assert(ch[c] == *a);
                assert(expr_quals(e) == expr_quals(*a));
            },
            _ => {},
        }
    }
}


proof fn lemma_module_quals_has(ds: Seq<Decl>, k: int, i: int)
    requires
        0 <= i < k <= ds.len(),
    ensures
        forall|q: (Seq<char>, Span)| decl_quals(ds[i]).contains(q) ==> #[trigger] module_quals(ds, k).contains(q),
    decreases k,
{
    crate::ast::lemma_in_concat(module_quals(ds, k - 1), decl_quals(ds[k - 1]));
    if i < k - 1 {
        lemma_module_quals_has(ds, k - 1, i);
    }
}

/// The qualifiers of a module hold every module a function body names: a
/// call `Mod.f` in any function makes `Mod` one to load, blamed on the
/// expression that names it.
pub proof fn lemma_bodies_are_searched(ds: Seq<Decl>, i: int, q: (Seq<char>, Span))
    requires
        0 <= i < ds.len(),
        ds[i] is Fun,
        expr_quals(ds[i]->Fun_0.body).contains(q),
    ensures
        module_quals(ds, ds.len() as int).contains(q),
{
    let d = ds[i];
    crate::ast::lemma_in_concat(ty_list_quals(decl_types(d), decl_span_of(d)), expr_quals(d->Fun_0.body));
    lemma_module_quals_has(ds, ds.len() as int, i);
}

/// A qualified name `Mod.f` names the module `Mod`, blamed on the whole
/// name.
pub proof fn lemma_qualified_name_names_its_module(e: Expr)
    requires
        e.kind matches ExprKind::Field(b, _) && b.kind is Ctor,
    ensures
        expr_quals(e).contains((e.kind->Field_0.kind->Ctor_0@, e.span)),
{
    match e.kind {
        ExprKind::Field(b, _) => match b.kind {
            ExprKind::Ctor(mo) => {
                crate::ast::lemma_in_concat(seq![(mo@, e.span)], expr_quals(*b));
                assert(seq![(mo@, e.span)][0] == (mo@, e.span));
            },
            _ => {},
        },
        _ => {},
    }
}

/// One file, as it was written. Modules keep their qualifiers here: only
/// `Program::flat` is rewritten, because a projection prints the program the
/// way the file spells it.
pub struct Unit {
    pub module: Module,
    pub src: String,
    pub comments: Vec<crate::lexer::Comment>,
    pub file: usize,
}

/// The program as the rest of the compiler wants it: every module's
/// declarations in one flattened module, dependencies first, and every file
/// that was read, the root last.
pub struct Program {
    pub flat: Module,
    pub units: Vec<Unit>,
}

impl Program {
    /// The file named on the command line: the last one read.
    pub fn root(&self) -> (r: &Unit)
        requires
            self.units@.len() > 0,
        ensures
            r == self.units@.last(),
    {
        &self.units[self.units.len() - 1]
    }
}

} // verus!
