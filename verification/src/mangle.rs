//! Rewriting a module's names into the flattened program's spelling: every
//! name a module declares becomes `Mod.name`, which is how a qualified
//! reference to it is written from elsewhere. A bare name means "mine, else
//! the prelude's"; a name bound by a parameter, a `let`, a `<-`, a lambda, an
//! arena or a pattern shadows the module's own and is left alone.

use vstd::prelude::*;
use crate::ast::{
    Decl, DeclV, Expr, ExprKind, ExprV, ExtBlock, ExtBlockV, ExtSig, ExtSigV, FunDecl, FunDeclV, KindV, Module, ModuleV, Param,
    ParamV, Pat, PatV, RecordDef, RecordDefV, Ty, TyV, TypeBody, TypeBodyV, TypeDecl, TypeDeclV, VariantDef, arms_view,
    exprs_view, fields_view, pat_names_of, pats_names_of, pats_view, texts_of, tys_view,
};
use crate::diag::{Diag, Span, opt_view};
use crate::load::first_dot;
use crate::text::{chars_of, owned, push_str, str_eq, string_of_range};

verus! {

/// What a module declares, by namespace: values, types and constructors.
pub struct Syms {
    pub vals: Vec<String>,
    pub types: Vec<String>,
    pub ctors: Vec<String>,
}

pub struct SymsV {
    pub vals: Seq<Seq<char>>,
    pub types: Seq<Seq<char>>,
    pub ctors: Seq<Seq<char>>,
}

pub open spec fn names(v: Seq<String>) -> Seq<Seq<char>> {
    v.map_values(|s: String| s@)
}

impl View for Syms {
    type V = SymsV;

    open spec fn view(&self) -> SymsV {
        SymsV { vals: names(self.vals@), types: names(self.types@), ctors: names(self.ctors@) }
    }
}

/// The module being rewritten, what it declares, and what every loaded
/// module declares, by module name.
pub struct Cx<'a> {
    pub home: String,
    pub syms: &'a Syms,
    pub table: &'a Vec<(String, Syms)>,
}

pub struct CxV {
    pub home: Seq<char>,
    pub syms: SymsV,
    pub table: Seq<(Seq<char>, SymsV)>,
}

impl<'a> View for Cx<'a> {
    type V = CxV;

    open spec fn view(&self) -> CxV {
        CxV {
            home: self.home@,
            syms: self.syms@,
            table: table_view(self.table@),
        }
    }
}

/// The table as names and what each module declares.
pub open spec fn table_view(t: Seq<(String, Syms)>) -> Seq<(Seq<char>, SymsV)> {
    t.map_values(|e: (String, Syms)| (e.0@, e.1@))
}

/// The namespace a qualified name is looked up in.
#[derive(Clone, Copy, PartialEq, Eq, Structural)]
pub enum Sort {
    Value,
    Type,
    Constructor,
}

pub open spec fn sort_word(k: Sort) -> Seq<char> {
    match k {
        Sort::Value => "value"@,
        Sort::Type => "type"@,
        Sort::Constructor => "constructor"@,
    }
}

pub open spec fn known(s: SymsV, k: Sort) -> Seq<Seq<char>> {
    match k {
        Sort::Value => s.vals,
        Sort::Type => s.types,
        Sort::Constructor => s.ctors,
    }
}

/// What the table says module `m` declares: the first entry under its name.
pub open spec fn table_get(t: Seq<(Seq<char>, SymsV)>, m: Seq<char>) -> Option<SymsV>
    decreases t.len(),
{
    if t.len() == 0 {
        None
    } else if t[0].0 == m {
        Some(t[0].1)
    } else {
        table_get(t.drop_first(), m)
    }
}

/// `n` as the home module declares it.
pub open spec fn mine(cx: CxV, n: Seq<char>) -> Seq<char> {
    cx.home + "."@ + n
}

/// A report that module `.1` declares no `.2` (a sort) named `.3`, at `.0`.
pub open spec fn is_no_name(d: Diag, home: Seq<char>, r: (Span, Seq<char>, Seq<char>, Seq<char>)) -> bool {
    &&& d.span == r.0
    &&& d.code@ == "mod.no_name"@
    &&& d.msg@ == "`"@ + r.1 + "` declares no "@ + r.2 + " `"@ + r.3 + "`"@
    &&& opt_view(d.path) == Some(home + "."@ + r.3)
    &&& d.witness is None
    &&& opt_view(d.fix) == Some("check the spelling, or declare `"@ + r.3 + "` in "@ + r.1 + ".vibe"@)
}

pub open spec fn reports(ds: Seq<Diag>, home: Seq<char>, rs: Seq<(Span, Seq<char>, Seq<char>, Seq<char>)>) -> bool {
    &&& ds.len() == rs.len()
    &&& forall|j: int| 0 <= j < ds.len() ==> is_no_name(#[trigger] ds[j], home, rs[j])
}

/// The report a qualified name `Mod.base` earns when `Mod` is loaded and
/// declares no `base` of sort `k`; nothing for a bare name or an unknown module.
pub open spec fn qual_errs(n: Seq<char>, span: Span, k: Sort, t: Seq<(Seq<char>, SymsV)>) -> Seq<(Span, Seq<char>, Seq<char>, Seq<char>)> {
    match first_dot(n, 0) {
        Some(d) => match table_get(t, n.take(d)) {
            Some(s) => if known(s, k).contains(n.skip(d + 1)) {
                Seq::empty()
            } else {
                seq![(span, n.take(d), sort_word(k), n.skip(d + 1))]
            },
            None => Seq::empty(),
        },
        None => Seq::empty(),
    }
}

/// A constructor's name after rewriting: the home module's own, bare, becomes
/// qualified; anything else stays as written.
pub open spec fn ctor_name(c: Seq<char>, cx: CxV) -> Seq<char> {
    if first_dot(c, 0) is None && cx.syms.ctors.contains(c) {
        mine(cx, c)
    } else {
        c
    }
}

pub open spec fn no_span() -> Span {
    Span { file: 0, line: 0, col: 0, len: 0 }
}

pub open spec fn mangled_p(p: PatV, cx: CxV) -> PatV
    decreases p, 0int,
{
    match p {
        PatV::Ctor(c, ps) => PatV::Ctor(ctor_name(c, cx), mangled_ps(ps, cx)),
        PatV::List(ps) => PatV::List(mangled_ps(ps, cx)),
        PatV::Tuple(ps) => PatV::Tuple(mangled_ps(ps, cx)),
        _ => p,
    }
}

pub open spec fn mangled_ps(ps: Seq<PatV>, cx: CxV) -> Seq<PatV>
    decreases ps, 1int,
{
    if ps.len() == 0 {
        Seq::empty()
    } else {
        mangled_ps(ps.drop_last(), cx).push(mangled_p(ps.last(), cx))
    }
}

/// The reports a pattern earns: its qualified constructors, outermost first.
pub open spec fn errs_p(p: PatV, cx: CxV) -> Seq<(Span, Seq<char>, Seq<char>, Seq<char>)>
    decreases p, 0int,
{
    match p {
        PatV::Ctor(c, ps) => qual_errs(c, no_span(), Sort::Constructor, cx.table) + errs_ps(ps, cx),
        PatV::List(ps) => errs_ps(ps, cx),
        PatV::Tuple(ps) => errs_ps(ps, cx),
        _ => Seq::empty(),
    }
}

pub open spec fn errs_ps(ps: Seq<PatV>, cx: CxV) -> Seq<(Span, Seq<char>, Seq<char>, Seq<char>)>
    decreases ps, 1int,
{
    if ps.len() == 0 {
        Seq::empty()
    } else {
        errs_ps(ps.drop_last(), cx) + errs_p(ps.last(), cx)
    }
}

/// `Mod` written as a constructor, where `Mod` is a loaded module.
pub open spec fn qualifier(x: ExprV, cx: CxV) -> Option<(Seq<char>, SymsV)> {
    match x.kind {
        KindV::Ctor(m) => match table_get(cx.table, m) {
            Some(s) => Some((m, s)),
            None => None,
        },
        _ => None,
    }
}

/// The expression with the names it uses rewritten, where `b` holds the names
/// bound around it.
pub open spec fn mangled_e(e: ExprV, cx: CxV, b: Seq<Seq<char>>) -> ExprV
    decreases e, 0int,
{
    let k = match e.kind {
        KindV::Field(x, f) => match qualifier(*x, cx) {
            Some(q) => if q.1.vals.contains(f) {
                KindV::Var(q.0 + "."@ + f)
            } else {
                e.kind
            },
            None => KindV::Field(Box::new(mangled_e(*x, cx, b)), f),
        },
        KindV::Var(n) => if !b.contains(n) && cx.syms.vals.contains(n) {
            KindV::Var(mine(cx, n))
        } else {
            e.kind
        },
        KindV::Ctor(c) => KindV::Ctor(ctor_name(c, cx)),
        KindV::Let(n, v, body) => KindV::Let(n, Box::new(mangled_e(*v, cx, b)), Box::new(mangled_e(*body, cx, b.push(n)))),
        KindV::Bind(n, v, body) => KindV::Bind(n, Box::new(mangled_e(*v, cx, b)), Box::new(mangled_e(*body, cx, b.push(n)))),
        KindV::Lambda(ps, body) => KindV::Lambda(ps, Box::new(mangled_e(*body, cx, b + ps))),
        KindV::Match(s, arms) => KindV::Match(Box::new(mangled_e(*s, cx, b)), mangled_arms(arms, cx, b)),
        KindV::Arena(n, body) => KindV::Arena(n, Box::new(mangled_e(*body, cx, b.push(n)))),
        KindV::App(h, xs) => KindV::App(Box::new(mangled_e(*h, cx, b)), mangled_es(xs, cx, b)),
        KindV::Binop(o, x, y) => KindV::Binop(o, Box::new(mangled_e(*x, cx, b)), Box::new(mangled_e(*y, cx, b))),
        KindV::Neg(x) => KindV::Neg(Box::new(mangled_e(*x, cx, b))),
        KindV::Not(x) => KindV::Not(Box::new(mangled_e(*x, cx, b))),
        KindV::Borrow(x) => KindV::Borrow(Box::new(mangled_e(*x, cx, b))),
        KindV::Record(base, fs) => KindV::Record(
            match base {
                Some(x) => Some(Box::new(mangled_e(*x, cx, b))),
                None => None,
            },
            mangled_fs(fs, cx, b),
        ),
        KindV::Tuple(xs) => KindV::Tuple(mangled_es(xs, cx, b)),
        KindV::List(xs) => KindV::List(mangled_es(xs, cx, b)),
        _ => e.kind,
    };
    ExprV { kind: k, span: e.span }
}

pub open spec fn mangled_es(xs: Seq<ExprV>, cx: CxV, b: Seq<Seq<char>>) -> Seq<ExprV>
    decreases xs, 1int,
{
    if xs.len() == 0 {
        Seq::empty()
    } else {
        mangled_es(xs.drop_last(), cx, b).push(mangled_e(xs.last(), cx, b))
    }
}

pub open spec fn mangled_arms(xs: Seq<(PatV, ExprV)>, cx: CxV, b: Seq<Seq<char>>) -> Seq<(PatV, ExprV)>
    decreases xs, 1int,
{
    if xs.len() == 0 {
        Seq::empty()
    } else {
        mangled_arms(xs.drop_last(), cx, b).push(
            (mangled_p(xs.last().0, cx), mangled_e(xs.last().1, cx, b + pat_names_of(xs.last().0))),
        )
    }
}

pub open spec fn mangled_fs(xs: Seq<(Seq<char>, ExprV)>, cx: CxV, b: Seq<Seq<char>>) -> Seq<(Seq<char>, ExprV)>
    decreases xs, 1int,
{
    if xs.len() == 0 {
        Seq::empty()
    } else {
        mangled_fs(xs.drop_last(), cx, b).push((xs.last().0, mangled_e(xs.last().1, cx, b)))
    }
}

/// The reports an expression earns, in the order the walk meets them.
pub open spec fn errs_e(e: ExprV, cx: CxV) -> Seq<(Span, Seq<char>, Seq<char>, Seq<char>)>
    decreases e, 0int,
{
    match e.kind {
        KindV::Field(x, f) => match qualifier(*x, cx) {
            Some(q) => if q.1.vals.contains(f) {
                Seq::empty()
            } else {
                seq![(e.span, q.0, "value"@, f)]
            },
            None => errs_e(*x, cx),
        },
        KindV::Ctor(c) => qual_errs(c, e.span, Sort::Constructor, cx.table),
        KindV::Let(_, v, body) => errs_e(*v, cx) + errs_e(*body, cx),
        KindV::Bind(_, v, body) => errs_e(*v, cx) + errs_e(*body, cx),
        KindV::Lambda(_, body) => errs_e(*body, cx),
        KindV::Match(s, arms) => errs_e(*s, cx) + errs_arms(arms, cx),
        KindV::Arena(_, body) => errs_e(*body, cx),
        KindV::App(h, xs) => errs_e(*h, cx) + errs_es(xs, cx),
        KindV::Binop(_, x, y) => errs_e(*x, cx) + errs_e(*y, cx),
        KindV::Neg(x) => errs_e(*x, cx),
        KindV::Not(x) => errs_e(*x, cx),
        KindV::Borrow(x) => errs_e(*x, cx),
        KindV::Record(base, fs) => match base {
            Some(x) => errs_e(*x, cx) + errs_fs(fs, cx),
            None => errs_fs(fs, cx),
        },
        KindV::Tuple(xs) => errs_es(xs, cx),
        KindV::List(xs) => errs_es(xs, cx),
        _ => Seq::empty(),
    }
}

pub open spec fn errs_es(xs: Seq<ExprV>, cx: CxV) -> Seq<(Span, Seq<char>, Seq<char>, Seq<char>)>
    decreases xs, 1int,
{
    if xs.len() == 0 {
        Seq::empty()
    } else {
        errs_es(xs.drop_last(), cx) + errs_e(xs.last(), cx)
    }
}

pub open spec fn errs_arms(xs: Seq<(PatV, ExprV)>, cx: CxV) -> Seq<(Span, Seq<char>, Seq<char>, Seq<char>)>
    decreases xs, 1int,
{
    if xs.len() == 0 {
        Seq::empty()
    } else {
        errs_arms(xs.drop_last(), cx) + errs_p(xs.last().0, cx) + errs_e(xs.last().1, cx)
    }
}

pub open spec fn errs_fs(xs: Seq<(Seq<char>, ExprV)>, cx: CxV) -> Seq<(Span, Seq<char>, Seq<char>, Seq<char>)>
    decreases xs, 1int,
{
    if xs.len() == 0 {
        Seq::empty()
    } else {
        errs_fs(xs.drop_last(), cx) + errs_e(xs.last().1, cx)
    }
}


proof fn lemma_errs_es_has(xs: Seq<ExprV>, cx: CxV, j: int)
    requires
        0 <= j < xs.len(),
    ensures
        forall|r: (Span, Seq<char>, Seq<char>, Seq<char>)| errs_e(xs[j], cx).contains(r) ==> #[trigger] errs_es(xs, cx).contains(r),
    decreases xs.len(),
{
    crate::ast::lemma_in_concat(errs_es(xs.drop_last(), cx), errs_e(xs.last(), cx));
    if j < xs.len() - 1 {
        lemma_errs_es_has(xs.drop_last(), cx, j);
        assert(xs.drop_last()[j] == xs[j]);
    }
}

proof fn lemma_errs_arms_has(xs: Seq<(PatV, ExprV)>, cx: CxV, j: int)
    requires
        0 <= j < xs.len(),
    ensures
        forall|r: (Span, Seq<char>, Seq<char>, Seq<char>)| errs_e(xs[j].1, cx).contains(r) ==> #[trigger] errs_arms(xs, cx).contains(r),
    decreases xs.len(),
{
    crate::ast::lemma_in_concat(errs_arms(xs.drop_last(), cx) + errs_p(xs.last().0, cx), errs_e(xs.last().1, cx));
    crate::ast::lemma_in_concat(errs_arms(xs.drop_last(), cx), errs_p(xs.last().0, cx));
    if j < xs.len() - 1 {
        lemma_errs_arms_has(xs.drop_last(), cx, j);
        assert(xs.drop_last()[j] == xs[j]);
    }
}

proof fn lemma_errs_fs_has(xs: Seq<(Seq<char>, ExprV)>, cx: CxV, j: int)
    requires
        0 <= j < xs.len(),
    ensures
        forall|r: (Span, Seq<char>, Seq<char>, Seq<char>)| errs_e(xs[j].1, cx).contains(r) ==> #[trigger] errs_fs(xs, cx).contains(r),
    decreases xs.len(),
{
    crate::ast::lemma_in_concat(errs_fs(xs.drop_last(), cx), errs_e(xs.last().1, cx));
    if j < xs.len() - 1 {
        lemma_errs_fs_has(xs.drop_last(), cx, j);
        assert(xs.drop_last()[j] == xs[j]);
    }
}

/// Every report a sub-expression earns, the whole expression earns too: in
/// the head and every argument of an application, both sides of an
/// operator, the value and the rest of a binding, the scrutinee and every
/// arm of a match, and so on. The one exception is `Mod.x` itself, whose
/// left side names a module and is no expression to walk.
pub proof fn lemma_errs_reach_every_child(e: ExprV, cx: CxV)
    requires
        !(e.kind matches KindV::Field(x, _) && qualifier(*x, cx) is Some),
    ensures
        forall|c: int, r: (Span, Seq<char>, Seq<char>, Seq<char>)|
            0 <= c < crate::ast::children_v(e).len() && #[trigger] errs_e(crate::ast::children_v(e)[c], cx).contains(r)
                ==> errs_e(e, cx).contains(r),
{
    let ch = crate::ast::children_v(e);
    assert forall|c: int, r: (Span, Seq<char>, Seq<char>, Seq<char>)|
        0 <= c < ch.len() && #[trigger] errs_e(ch[c], cx).contains(r)
        implies errs_e(e, cx).contains(r) by {
        match e.kind {
            KindV::App(h, xs) => {
                assert(errs_e(e, cx) == errs_e(*h, cx) + errs_es(xs, cx));
                crate::ast::lemma_in_concat(errs_e(*h, cx), errs_es(xs, cx));
                if c > 0 {
                    assert(ch[c] == xs[c - 1]);
                    lemma_errs_es_has(xs, cx, c - 1);
                } else {
                    assert(ch[0] == *h);
                }
            },
            KindV::Binop(_, x, y) => {
                crate::ast::lemma_in_concat(errs_e(*x, cx), errs_e(*y, cx));
            },
            KindV::Bind(_, x, y) => {
                crate::ast::lemma_in_concat(errs_e(*x, cx), errs_e(*y, cx));
            },
            KindV::Let(_, x, y) => {
                crate::ast::lemma_in_concat(errs_e(*x, cx), errs_e(*y, cx));
            },
            KindV::Match(x, arms) => {
                assert(errs_e(e, cx) == errs_e(*x, cx) + errs_arms(arms, cx));
                crate::ast::lemma_in_concat(errs_e(*x, cx), errs_arms(arms, cx));
                if c > 0 {
                    assert(ch[c] == arms[c - 1].1);
                    lemma_errs_arms_has(arms, cx, c - 1);
                } else {
                    assert(ch[0] == *x);
                }
            },
            KindV::Record(base, fs) => {
                match base {
                    Some(x) => {
                        assert(errs_e(e, cx) == errs_e(*x, cx) + errs_fs(fs, cx));
                        crate::ast::lemma_in_concat(errs_e(*x, cx), errs_fs(fs, cx));
                        if c > 0 {
                            assert(ch[c] == fs[c - 1].1);
                            lemma_errs_fs_has(fs, cx, c - 1);
                        } else {
                            assert(ch[0] == *x);
                        }
                    },
                    None => {
                        assert(errs_e(e, cx) == errs_fs(fs, cx));
                        assert(ch =~= fs.map_values(|f: (Seq<char>, ExprV)| f.1));
                        assert(ch[c] == fs[c].1);
                        lemma_errs_fs_has(fs, cx, c);
                    },
                }
            },
            KindV::Tuple(xs) => {
                assert(errs_e(e, cx) == errs_es(xs, cx));
                assert(ch[c] == xs[c]);
                lemma_errs_es_has(xs, cx, c);
            },
            KindV::List(xs) => {
                assert(errs_e(e, cx) == errs_es(xs, cx));
                assert(ch[c] == xs[c]);
                lemma_errs_es_has(xs, cx, c);
            },
            KindV::Field(x, _) => {
                assert(ch[c] == *x);
            },
            KindV::Neg(x) => {
                assert(ch[c] == *x);
            },
            KindV::Not(x) => {
                assert(ch[c] == *x);
            },
            KindV::Borrow(x) => {
                assert(ch[c] == *x);
            },
            KindV::Lambda(_, x) => {
                assert(ch[c] == *x);
            },
            KindV::Arena(_, x) => {
                assert(ch[c] == *x);
            },
            _ => {},
        }
    }
}

/// A type's name after rewriting: the home module's own, bare, becomes
/// qualified.
pub open spec fn ty_name(n: Seq<char>, cx: CxV) -> Seq<char> {
    if first_dot(n, 0) is None && cx.syms.types.contains(n) {
        mine(cx, n)
    } else {
        n
    }
}

pub open spec fn mangled_t(t: TyV, cx: CxV) -> TyV
    decreases t, 0int,
{
    match t {
        TyV::Con(n, args) => TyV::Con(ty_name(n, cx), mangled_ts(args, cx)),
        TyV::Fun(a, r) => TyV::Fun(Box::new(mangled_t(*a, cx)), Box::new(mangled_t(*r, cx))),
        TyV::Ref(a) => TyV::Ref(Box::new(mangled_t(*a, cx))),
        TyV::Eff(a) => TyV::Eff(Box::new(mangled_t(*a, cx))),
        TyV::Tuple(ts) => TyV::Tuple(mangled_ts(ts, cx)),
        TyV::Var(_) => t,
    }
}

pub open spec fn mangled_ts(ts: Seq<TyV>, cx: CxV) -> Seq<TyV>
    decreases ts, 1int,
{
    if ts.len() == 0 {
        Seq::empty()
    } else {
        mangled_ts(ts.drop_last(), cx).push(mangled_t(ts.last(), cx))
    }
}

pub open spec fn errs_t(t: TyV, cx: CxV) -> Seq<(Span, Seq<char>, Seq<char>, Seq<char>)>
    decreases t, 0int,
{
    match t {
        TyV::Con(n, args) => qual_errs(n, no_span(), Sort::Type, cx.table) + errs_ts(args, cx),
        TyV::Fun(a, r) => errs_t(*a, cx) + errs_t(*r, cx),
        TyV::Ref(a) => errs_t(*a, cx),
        TyV::Eff(a) => errs_t(*a, cx),
        TyV::Tuple(ts) => errs_ts(ts, cx),
        TyV::Var(_) => Seq::empty(),
    }
}

pub open spec fn errs_ts(ts: Seq<TyV>, cx: CxV) -> Seq<(Span, Seq<char>, Seq<char>, Seq<char>)>
    decreases ts, 1int,
{
    if ts.len() == 0 {
        Seq::empty()
    } else {
        errs_ts(ts.drop_last(), cx) + errs_t(ts.last(), cx)
    }
}

pub open spec fn opt_mangled_t(t: Option<TyV>, cx: CxV) -> Option<TyV> {
    match t {
        Some(x) => Some(mangled_t(x, cx)),
        None => None,
    }
}

pub open spec fn opt_errs_t(t: Option<TyV>, cx: CxV) -> Seq<(Span, Seq<char>, Seq<char>, Seq<char>)> {
    match t {
        Some(x) => errs_t(x, cx),
        None => Seq::empty(),
    }
}

/// The names a function's parameters bind, in order.
pub open spec fn param_names(ps: Seq<ParamV>) -> Seq<Seq<char>>
    decreases ps.len(),
{
    if ps.len() == 0 {
        Seq::empty()
    } else {
        param_names(ps.drop_last()) + ps.last().names
    }
}

pub open spec fn mangled_param(p: ParamV, cx: CxV, b: Seq<Seq<char>>) -> ParamV {
    ParamV { names: p.names, ty: opt_mangled_t(p.ty, cx), refines: mangled_es(p.refines, cx, b), span: p.span }
}

pub open spec fn errs_param_tys(ps: Seq<ParamV>, cx: CxV) -> Seq<(Span, Seq<char>, Seq<char>, Seq<char>)>
    decreases ps.len(),
{
    if ps.len() == 0 {
        Seq::empty()
    } else {
        errs_param_tys(ps.drop_last(), cx) + opt_errs_t(ps.last().ty, cx)
    }
}

pub open spec fn errs_param_refines(ps: Seq<ParamV>, cx: CxV) -> Seq<(Span, Seq<char>, Seq<char>, Seq<char>)>
    decreases ps.len(),
{
    if ps.len() == 0 {
        Seq::empty()
    } else {
        errs_param_refines(ps.drop_last(), cx) + errs_es(ps.last().refines, cx)
    }
}

/// A function with its name and every name it uses rewritten; its
/// parameters are bound in its refinements, its body and its measure.
pub open spec fn mangled_fun(f: FunDeclV, cx: CxV) -> FunDeclV {
    let b = param_names(f.params);
    FunDeclV {
        name: mine(cx, f.name),
        home: f.home,
        is_ghost: f.is_ghost,
        params: Seq::new(f.params.len(), |i: int| mangled_param(f.params[i], cx, b)),
        ret: opt_mangled_t(f.ret, cx),
        body: mangled_e(f.body, cx, b),
        measure: match f.measure {
            Some(m) => Some(mangled_e(m, cx, b)),
            None => None,
        },
        span: f.span,
    }
}

pub open spec fn errs_fun(f: FunDeclV, cx: CxV) -> Seq<(Span, Seq<char>, Seq<char>, Seq<char>)> {
    errs_param_tys(f.params, cx) + errs_param_refines(f.params, cx) + opt_errs_t(f.ret, cx) + errs_e(f.body, cx) + match f.measure {
        Some(m) => errs_e(m, cx),
        None => Seq::empty(),
    }
}

pub open spec fn errs_variants(vs: Seq<(Seq<char>, Seq<TyV>)>, cx: CxV) -> Seq<(Span, Seq<char>, Seq<char>, Seq<char>)>
    decreases vs.len(),
{
    if vs.len() == 0 {
        Seq::empty()
    } else {
        errs_variants(vs.drop_last(), cx) + errs_ts(vs.last().1, cx)
    }
}

pub open spec fn errs_field_tys(fs: Seq<(Seq<char>, TyV)>, cx: CxV) -> Seq<(Span, Seq<char>, Seq<char>, Seq<char>)>
    decreases fs.len(),
{
    if fs.len() == 0 {
        Seq::empty()
    } else {
        errs_field_tys(fs.drop_last(), cx) + errs_t(fs.last().1, cx)
    }
}

/// A type declaration with its name, its constructors and the types it
/// mentions rewritten; a record's fields are bound in its refinements.
pub open spec fn mangled_tdecl(t: TypeDeclV, cx: CxV) -> TypeDeclV {
    TypeDeclV {
        name: mine(cx, t.name),
        home: t.home,
        params: t.params,
        body: match t.body {
            TypeBodyV::Variants(vs) => TypeBodyV::Variants(
                Seq::new(vs.len(), |i: int| (mine(cx, vs[i].0), mangled_ts(vs[i].1, cx))),
            ),
            TypeBodyV::Record(r) => TypeBodyV::Record(
                RecordDefV {
                    fields: Seq::new(r.fields.len(), |i: int| (r.fields[i].0, mangled_t(r.fields[i].1, cx))),
                    refines: mangled_es(r.refines, cx, Seq::new(r.fields.len(), |i: int| r.fields[i].0)),
                },
            ),
            TypeBodyV::Opaque => TypeBodyV::Opaque,
        },
        span: t.span,
    }
}

pub open spec fn errs_tdecl(t: TypeDeclV, cx: CxV) -> Seq<(Span, Seq<char>, Seq<char>, Seq<char>)> {
    match t.body {
        TypeBodyV::Variants(vs) => errs_variants(vs, cx),
        TypeBodyV::Record(r) => errs_field_tys(r.fields, cx) + errs_es(r.refines, cx),
        TypeBodyV::Opaque => Seq::empty(),
    }
}

pub open spec fn errs_sigs(ss: Seq<ExtSigV>, cx: CxV) -> Seq<(Span, Seq<char>, Seq<char>, Seq<char>)>
    decreases ss.len(),
{
    if ss.len() == 0 {
        Seq::empty()
    } else {
        errs_sigs(ss.drop_last(), cx) + errs_t(ss.last().ty, cx)
    }
}

/// An `ext c` block with the types its signatures mention rewritten and the
/// C types it declares qualified; C's own names stay as they are.
pub open spec fn mangled_ext(e: ExtBlockV, cx: CxV) -> ExtBlockV {
    ExtBlockV {
        header: e.header,
        links: e.links,
        pkgs: e.pkgs,
        sigs: Seq::new(
            e.sigs.len(),
            |i: int| ExtSigV { name: e.sigs[i].name, symbol: e.sigs[i].symbol, ty: mangled_t(e.sigs[i].ty, cx), refines: e.sigs[i].refines, span: e.sigs[i].span },
        ),
        types: Seq::new(
            e.types.len(),
            |i: int| TypeDeclV { name: mine(cx, e.types[i].name), home: e.types[i].home, params: e.types[i].params, body: e.types[i].body, span: e.types[i].span },
        ),
        span: e.span,
    }
}

/// An exported name after rewriting: the home module's own values are
/// qualified.
pub open spec fn export_name(n: Seq<char>, cx: CxV) -> Seq<char> {
    if cx.syms.vals.contains(n) {
        mine(cx, n)
    } else {
        n
    }
}

pub open spec fn mangled_d(d: DeclV, cx: CxV) -> DeclV {
    match d {
        DeclV::Fun(f) => DeclV::Fun(mangled_fun(f, cx)),
        DeclV::Type(t) => DeclV::Type(mangled_tdecl(t, cx)),
        DeclV::Ext(e) => DeclV::Ext(mangled_ext(e, cx)),
        DeclV::Exp(ns, span) => DeclV::Exp(Seq::new(ns.len(), |i: int| export_name(ns[i], cx)), span),
    }
}

pub open spec fn errs_d(d: DeclV, cx: CxV) -> Seq<(Span, Seq<char>, Seq<char>, Seq<char>)> {
    match d {
        DeclV::Fun(f) => errs_fun(f, cx),
        DeclV::Type(t) => errs_tdecl(t, cx),
        DeclV::Ext(e) => errs_sigs(e.sigs, cx),
        DeclV::Exp(_, _) => Seq::empty(),
    }
}

pub open spec fn errs_ds(ds: Seq<DeclV>, cx: CxV) -> Seq<(Span, Seq<char>, Seq<char>, Seq<char>)>
    decreases ds.len(),
{
    if ds.len() == 0 {
        Seq::empty()
    } else {
        errs_ds(ds.drop_last(), cx) + errs_d(ds.last(), cx)
    }
}

proof fn lemma_reports_concat(
    d1: Seq<Diag>,
    d2: Seq<Diag>,
    home: Seq<char>,
    r1: Seq<(Span, Seq<char>, Seq<char>, Seq<char>)>,
    r2: Seq<(Span, Seq<char>, Seq<char>, Seq<char>)>,
)
    requires
        reports(d1, home, r1),
        reports(d2, home, r2),
    ensures
        reports(d1 + d2, home, r1 + r2),
{
    assert forall|j: int| 0 <= j < (d1 + d2).len() implies is_no_name(#[trigger] (d1 + d2)[j], home, (r1 + r2)[j]) by {
        if j >= d1.len() {
            assert(is_no_name(d2[j - d1.len()], home, r2[j - d1.len()]));
        }
    }
}

/// Appends `more` to `ds`, keeping what each reports.
fn join_reports(
    ds: &mut Vec<Diag>,
    more: Vec<Diag>,
    Ghost(home): Ghost<Seq<char>>,
    Ghost(r1): Ghost<Seq<(Span, Seq<char>, Seq<char>, Seq<char>)>>,
    Ghost(r2): Ghost<Seq<(Span, Seq<char>, Seq<char>, Seq<char>)>>,
)
    requires
        reports(old(ds)@, home, r1),
        reports(more@, home, r2),
    ensures
        reports(final(ds)@, home, r1 + r2),
{
    let mut more = more;
    proof {
        lemma_reports_concat(ds@, more@, home, r1, r2);
    }
    ds.append(&mut more);
}

fn holds(v: &Vec<String>, n: &str) -> (r: bool)
    ensures
        r == names(v@).contains(n@),
{
    for i in 0..v.len()
        invariant
            forall|j: int| 0 <= j < i ==> names(v@)[j] != n@,
    {
        if str_eq(v[i].as_str(), n) {
            assert(names(v@)[i as int] == n@);
            return true;
        }
    }
    false
}

fn find_syms<'a>(table: &'a Vec<(String, Syms)>, m: &str) -> (r: Option<&'a Syms>)
    ensures
        match r {
            Some(s) => table_get(table_view(table@), m@) == Some(s@),
            None => table_get(table_view(table@), m@) is None,
        },
{
    let ghost t = table_view(table@);
    assert(t.skip(0) =~= t);
    for i in 0..table.len()
        invariant
            t == table_view(table@),
            table_get(t, m@) == table_get(t.skip(i as int), m@),
    {
        assert(t.skip(i as int).drop_first() =~= t.skip(i + 1));
        assert(t.skip(i as int)[0] == (table@[i as int].0@, table@[i as int].1@));
        if str_eq(table[i].0.as_str(), m) {
            return Some(&table[i].1);
        }
    }
    assert(t.skip(t.len() as int).len() == 0);
    None
}

fn lookup<'a, 'b>(cx: &'a Cx<'b>, m: &str) -> (r: Option<&'a Syms>)
    ensures
        match r {
            Some(s) => table_get(cx@.table, m@) == Some(s@),
            None => table_get(cx@.table, m@) is None,
        },
{
    find_syms(cx.table, m)
}

fn pick<'a>(s: &'a Syms, k: Sort) -> (r: &'a Vec<String>)
    ensures
        names(r@) == known(s@, k),
{
    match k {
        Sort::Value => &s.vals,
        Sort::Type => &s.types,
        Sort::Constructor => &s.ctors,
    }
}

fn word(k: Sort) -> (r: &'static str)
    ensures
        r@ == sort_word(k),
{
    proof {
        reveal_strlit("value");
        reveal_strlit("type");
        reveal_strlit("constructor");
    }
    match k {
        Sort::Value => "value",
        Sort::Type => "type",
        Sort::Constructor => "constructor",
    }
}

fn dot_in(cs: &Vec<char>) -> (r: Option<usize>)
    ensures
        match r {
            Some(d) => first_dot(cs@, 0) == Some(d as int) && d < cs@.len(),
            None => first_dot(cs@, 0) is None,
        },
{
    let mut i: usize = 0;
    while i < cs.len()
        invariant
            i <= cs@.len(),
            first_dot(cs@, 0) == first_dot(cs@, i as int),
        decreases cs@.len() - i,
    {
        if cs[i] == '.' {
            return Some(i);
        }
        i += 1;
    }
    None
}

/// The report that module `m` declares no `base` of sort `k`.
fn no_name(span: Span, m: &str, k: Sort, base: &str, home: &str) -> (d: Diag)
    ensures
        is_no_name(d, home@, (span, m@, sort_word(k), base@)),
{
    let w = word(k);
    let mut msg = owned("`");
    push_str(&mut msg, m);
    push_str(&mut msg, "` declares no ");
    push_str(&mut msg, w);
    push_str(&mut msg, " `");
    push_str(&mut msg, base);
    push_str(&mut msg, "`");
    let mut path = owned(home);
    push_str(&mut path, ".");
    push_str(&mut path, base);
    let mut fix = owned("check the spelling, or declare `");
    push_str(&mut fix, base);
    push_str(&mut fix, "` in ");
    push_str(&mut fix, m);
    push_str(&mut fix, ".vibe");
    let d = Diag::error(span, "mod.no_name", msg.as_str()).with_path(path.as_str()).with_fix(fix.as_str());
    proof {
        reveal_strlit("`");
        reveal_strlit("` declares no ");
        reveal_strlit(" `");
        reveal_strlit(".");
        reveal_strlit("check the spelling, or declare `");
        reveal_strlit("` in ");
        reveal_strlit(".vibe");
        reveal_strlit("mod.no_name");
    }
    assert(msg@ =~= "`"@ + m@ + "` declares no "@ + sort_word(k) + " `"@ + base@ + "`"@);
    assert(path@ =~= home@ + "."@ + base@);
    assert(fix@ =~= "check the spelling, or declare `"@ + base@ + "` in "@ + m@ + ".vibe"@);
    d
}

/// Checks a qualified name against the module it names, so that a typo is
/// reported here rather than as an unbound name further on.
fn qualified(cx: &Cx, n: &str, span: Span, k: Sort) -> (r: Vec<Diag>)
    ensures
        reports(r@, cx.home@, qual_errs(n@, span, k, cx@.table)),
{
    let cs = chars_of(n);
    let mut out: Vec<Diag> = Vec::new();
    match dot_in(&cs) {
        Some(d) => {
            let len = cs.len();
            assert(d < len);
            let m = string_of_range(cs.as_slice(), 0, d);
            let base = string_of_range(cs.as_slice(), d + 1, len);
            assert(m@ =~= n@.take(d as int));
            assert(base@ =~= n@.skip(d + 1));
            match lookup(cx, m.as_str()) {
                Some(s) => {
                    if !holds(pick(s, k), base.as_str()) {
                        out.push(no_name(span, m.as_str(), k, base.as_str(), cx.home.as_str()));
                    }
                },
                None => {},
            }
        },
        None => {},
    }
    out
}

/// `n` as the home module declares it.
fn mine_exec(cx: &Cx, n: &str) -> (r: String)
    ensures
        r@ == mine(cx@, n@),
{
    let mut r = owned(cx.home.as_str());
    push_str(&mut r, ".");
    push_str(&mut r, n);
    proof {
        reveal_strlit(".");
    }
    assert(r@ =~= mine(cx@, n@));
    r
}

fn ctor_exec(cx: &Cx, c: &str) -> (r: String)
    ensures
        r@ == ctor_name(c@, cx@),
{
    let cs = chars_of(c);
    if dot_in(&cs).is_none() && holds(&cx.syms.ctors, c) {
        mine_exec(cx, c)
    } else {
        owned(c)
    }
}

proof fn lemma_pats_step(ps: Seq<Pat>, i: int)
    requires
        0 <= i < ps.len(),
    ensures
        pats_view(ps.take(i + 1)) == pats_view(ps.take(i)).push(ps[i]@),
{
    assert(ps.take(i + 1).drop_last() =~= ps.take(i));
    assert(ps.take(i + 1).last() == ps[i]);
}

/// Adds the names pattern `p` binds to `out`.
fn bind_names(p: &Pat, out: &mut Vec<String>)
    ensures
        names(final(out)@) == names(old(out)@) + pat_names_of(p@),
    decreases p,
{
    match p {
        Pat::Var(n) => {
            let ghost o = names(out@);
            out.push(n.clone());
            assert(names(out@) =~= o + seq![n@]);
        },
        Pat::Ctor(_, ps) => bind_names_all(ps, out),
        Pat::List(ps) => bind_names_all(ps, out),
        Pat::Tuple(ps) => bind_names_all(ps, out),
        _ => {
            assert(names(out@) =~= names(out@) + Seq::<Seq<char>>::empty());
        },
    }
}

fn bind_names_all(ps: &Vec<Pat>, out: &mut Vec<String>)
    ensures
        names(final(out)@) == names(old(out)@) + pats_names_of(pats_view(ps@)),
    decreases ps,
{
    let ghost o = names(out@);
    assert(ps@.take(0) =~= Seq::<Pat>::empty());
    assert(o + pats_names_of(pats_view(ps@.take(0))) =~= o);
    for i in 0..ps.len()
        invariant
            names(out@) == o + pats_names_of(pats_view(ps@.take(i as int))),
    {
        proof {
            assert(decreases_to!(ps => ps@[i as int]));
            assert(ps@.take(i + 1).drop_last() =~= ps@.take(i as int));
        }
        bind_names(&ps[i], out);
        proof {
            lemma_pats_step(ps@, i as int);
            let v = pats_view(ps@.take(i as int));
            assert(v.push(ps@[i as int]@).drop_last() =~= v);
            assert(o + pats_names_of(pats_view(ps@.take(i + 1))) =~= o + pats_names_of(v) + pat_names_of(ps@[i as int]@));
        }
    }
    assert(ps@.take(ps@.len() as int) =~= ps@);
}

/// The pattern with its constructors rewritten, and the reports it earns.
pub fn mangle_pat(cx: &Cx, p: &Pat) -> (r: (Pat, Vec<Diag>))
    ensures
        r.0@ == mangled_p(p@, cx@),
        reports(r.1@, cx.home@, errs_p(p@, cx@)),
    decreases p,
{
    match p {
        Pat::Ctor(c, ps) => {
            let mut errs = qualified(cx, c.as_str(), Span { file: 0, line: 0, col: 0, len: 0 }, Sort::Constructor);
            let (qs, more) = mangle_pats(cx, ps);
            join_reports(&mut errs, more, Ghost(cx.home@), Ghost(qual_errs(c@, no_span(), Sort::Constructor, cx@.table)), Ghost(errs_ps(pats_view(ps@), cx@)));
            (Pat::Ctor(ctor_exec(cx, c.as_str()), qs), errs)
        },
        Pat::List(ps) => {
            let (qs, errs) = mangle_pats(cx, ps);
            (Pat::List(qs), errs)
        },
        Pat::Tuple(ps) => {
            let (qs, errs) = mangle_pats(cx, ps);
            (Pat::Tuple(qs), errs)
        },
        _ => (crate::cover::copy_pat(p), Vec::new()),
    }
}

pub fn mangle_pats(cx: &Cx, ps: &Vec<Pat>) -> (r: (Vec<Pat>, Vec<Diag>))
    ensures
        pats_view(r.0@) == mangled_ps(pats_view(ps@), cx@),
        reports(r.1@, cx.home@, errs_ps(pats_view(ps@), cx@)),
    decreases ps,
{
    let mut out: Vec<Pat> = Vec::new();
    let mut errs: Vec<Diag> = Vec::new();
    assert(ps@.take(0) =~= Seq::<Pat>::empty());
    for i in 0..ps.len()
        invariant
            pats_view(out@) == mangled_ps(pats_view(ps@.take(i as int)), cx@),
            reports(errs@, cx.home@, errs_ps(pats_view(ps@.take(i as int)), cx@)),
    {
        proof {
            assert(decreases_to!(ps => ps@[i as int]));
            assert(ps@.take(i + 1).drop_last() =~= ps@.take(i as int));
        }
        let (q, more) = mangle_pat(cx, &ps[i]);
        proof {
            lemma_pats_step(ps@, i as int);
            let v = pats_view(ps@.take(i as int));
            assert(v.push(ps@[i as int]@).drop_last() =~= v);
        }
        join_reports(&mut errs, more, Ghost(cx.home@), Ghost(errs_ps(pats_view(ps@.take(i as int)), cx@)), Ghost(errs_p(ps@[i as int]@, cx@)));
        let ghost prev = out@;
        out.push(q);
        assert(out@.drop_last() =~= prev);
    }
    assert(ps@.take(ps@.len() as int) =~= ps@);
    (out, errs)
}

fn copy_names(b: &Vec<String>) -> (r: Vec<String>)
    ensures
        names(r@) == names(b@),
{
    let mut r: Vec<String> = Vec::new();
    for i in 0..b.len()
        invariant
            names(r@) == names(b@.take(i as int)),
    {
        let ghost o = names(r@);
        r.push(b[i].clone());
        assert(names(r@) =~= o.push(b@[i as int]@));
        assert(names(b@.take(i + 1)) =~= names(b@.take(i as int)).push(b@[i as int]@));
    }
    assert(b@.take(b@.len() as int) =~= b@);
    r
}

fn with_name(b: &Vec<String>, n: &String) -> (r: Vec<String>)
    ensures
        names(r@) == names(b@).push(n@),
{
    let mut r = copy_names(b);
    let ghost o = names(r@);
    r.push(n.clone());
    assert(names(r@) =~= o.push(n@));
    r
}

fn with_names(b: &Vec<String>, ns: &Vec<String>) -> (r: Vec<String>)
    ensures
        names(r@) == names(b@) + names(ns@),
{
    let mut r = copy_names(b);
    let ghost o = names(r@);
    for i in 0..ns.len()
        invariant
            names(r@) == o + names(ns@.take(i as int)),
    {
        let ghost p = names(r@);
        r.push(ns[i].clone());
        assert(names(r@) =~= p.push(ns@[i as int]@));
        assert(o + names(ns@.take(i + 1)) =~= o + names(ns@.take(i as int)) + seq![ns@[i as int]@]);
    }
    assert(ns@.take(ns@.len() as int) =~= ns@);
    r
}

proof fn lemma_exprs_step(xs: Seq<Expr>, i: int)
    requires
        0 <= i < xs.len(),
    ensures
        exprs_view(xs.take(i + 1)) == exprs_view(xs.take(i)).push(xs[i]@),
{
    assert(xs.take(i + 1).drop_last() =~= xs.take(i));
    assert(xs.take(i + 1).last() == xs[i]);
}

proof fn lemma_arms_step(xs: Seq<(Pat, Expr)>, i: int)
    requires
        0 <= i < xs.len(),
    ensures
        arms_view(xs.take(i + 1)) == arms_view(xs.take(i)).push((xs[i].0@, xs[i].1@)),
{
    assert(xs.take(i + 1).drop_last() =~= xs.take(i));
    assert(xs.take(i + 1).last() == xs[i]);
}

proof fn lemma_fields_step(xs: Seq<(String, Expr)>, i: int)
    requires
        0 <= i < xs.len(),
    ensures
        fields_view(xs.take(i + 1)) == fields_view(xs.take(i)).push((xs[i].0@, xs[i].1@)),
{
    assert(xs.take(i + 1).drop_last() =~= xs.take(i));
    assert(xs.take(i + 1).last() == xs[i]);
}

/// The expression with the names it uses rewritten into the flattened
/// program's spelling, where `b` holds the names bound around it, and the
/// reports its qualified names earn.
pub fn mangle_expr(cx: &Cx, b: &Vec<String>, e: &Expr) -> (r: (Expr, Vec<Diag>))
    ensures
        r.0@ == mangled_e(e@, cx@, names(b@)),
        reports(r.1@, cx.home@, errs_e(e@, cx@)),
    decreases e,
{
    let span = e.span;
    let home = Ghost(cx.home@);
    match &e.kind {
        ExprKind::Field(x, f) => {
            match &x.kind {
                ExprKind::Ctor(m) => match lookup(cx, m.as_str()) {
                    Some(s) => {
                        assert(qualifier(x@, cx@) == Some((m@, s@)));
                        if holds(&s.vals, f.as_str()) {
                            let mut n = owned(m.as_str());
                            push_str(&mut n, ".");
                            push_str(&mut n, f.as_str());
                            proof {
                                reveal_strlit(".");
                            }
                            assert(n@ =~= m@ + "."@ + f@);
                            return (Expr { kind: ExprKind::Var(n), span }, Vec::new());
                        } else {
                            let d = no_name(span, m.as_str(), Sort::Value, f.as_str(), cx.home.as_str());
                            let same = Expr {
                                kind: ExprKind::Field(Box::new(Expr { kind: ExprKind::Ctor(m.clone()), span: x.span }), f.clone()),
                                span,
                            };
                            let mut errs: Vec<Diag> = Vec::new();
                            errs.push(d);
                            proof {
                                reveal_strlit("value");
                            }
                            assert(errs@ =~= seq![d]);
                            return (same, errs);
                        }
                    },
                    None => {},
                },
                _ => {},
            }
            assert(qualifier(x@, cx@) is None);
            let (y, errs) = mangle_expr(cx, b, x);
            (Expr { kind: ExprKind::Field(Box::new(y), f.clone()), span }, errs)
        },
        ExprKind::Var(n) => {
            if !holds(b, n.as_str()) && holds(&cx.syms.vals, n.as_str()) {
                (Expr { kind: ExprKind::Var(mine_exec(cx, n.as_str())), span }, Vec::new())
            } else {
                (Expr { kind: ExprKind::Var(n.clone()), span }, Vec::new())
            }
        },
        ExprKind::Ctor(c) => {
            let errs = qualified(cx, c.as_str(), span, Sort::Constructor);
            (Expr { kind: ExprKind::Ctor(ctor_exec(cx, c.as_str())), span }, errs)
        },
        ExprKind::Let(n, v, body) => {
            let (v2, mut errs) = mangle_expr(cx, b, v);
            let inner = with_name(b, n);
            let (body2, more) = mangle_expr(cx, &inner, body);
            join_reports(&mut errs, more, home, Ghost(errs_e(v@, cx@)), Ghost(errs_e(body@, cx@)));
            (Expr { kind: ExprKind::Let(n.clone(), Box::new(v2), Box::new(body2)), span }, errs)
        },
        ExprKind::Bind(n, v, body) => {
            let (v2, mut errs) = mangle_expr(cx, b, v);
            let inner = with_name(b, n);
            let (body2, more) = mangle_expr(cx, &inner, body);
            join_reports(&mut errs, more, home, Ghost(errs_e(v@, cx@)), Ghost(errs_e(body@, cx@)));
            (Expr { kind: ExprKind::Bind(n.clone(), Box::new(v2), Box::new(body2)), span }, errs)
        },
        ExprKind::Lambda(ps, body) => {
            let inner = with_names(b, ps);
            let (body2, errs) = mangle_expr(cx, &inner, body);
            let ps2 = copy_names(ps);
            assert(ps2@.map_values(|s: String| s@) =~= names(ps@));
            assert(ps@.map_values(|s: String| s@) =~= names(ps@));
            (Expr { kind: ExprKind::Lambda(ps2, Box::new(body2)), span }, errs)
        },
        ExprKind::Match(x, arms) => {
            let (x2, mut errs) = mangle_expr(cx, b, x);
            let (arms2, more) = mangle_arms(cx, b, arms);
            join_reports(&mut errs, more, home, Ghost(errs_e(x@, cx@)), Ghost(errs_arms(arms_view(arms@), cx@)));
            (Expr { kind: ExprKind::Match(Box::new(x2), arms2), span }, errs)
        },
        ExprKind::Arena(n, body) => {
            let inner = with_name(b, n);
            let (body2, errs) = mangle_expr(cx, &inner, body);
            (Expr { kind: ExprKind::Arena(n.clone(), Box::new(body2)), span }, errs)
        },
        ExprKind::App(h, xs) => {
            let (h2, mut errs) = mangle_expr(cx, b, h);
            let (xs2, more) = mangle_exprs(cx, b, xs);
            join_reports(&mut errs, more, home, Ghost(errs_e(h@, cx@)), Ghost(errs_es(exprs_view(xs@), cx@)));
            (Expr { kind: ExprKind::App(Box::new(h2), xs2), span }, errs)
        },
        ExprKind::Binop(o, x, y) => {
            let (x2, mut errs) = mangle_expr(cx, b, x);
            let (y2, more) = mangle_expr(cx, b, y);
            join_reports(&mut errs, more, home, Ghost(errs_e(x@, cx@)), Ghost(errs_e(y@, cx@)));
            (Expr { kind: ExprKind::Binop(o.clone(), Box::new(x2), Box::new(y2)), span }, errs)
        },
        ExprKind::Neg(x) => {
            let (x2, errs) = mangle_expr(cx, b, x);
            (Expr { kind: ExprKind::Neg(Box::new(x2)), span }, errs)
        },
        ExprKind::Not(x) => {
            let (x2, errs) = mangle_expr(cx, b, x);
            (Expr { kind: ExprKind::Not(Box::new(x2)), span }, errs)
        },
        ExprKind::Borrow(x) => {
            let (x2, errs) = mangle_expr(cx, b, x);
            (Expr { kind: ExprKind::Borrow(Box::new(x2)), span }, errs)
        },
        ExprKind::Record(base, fs) => {
            let (base2, mut errs) = match base {
                Some(x) => {
                    let (x2, errs) = mangle_expr(cx, b, x);
                    (Some(Box::new(x2)), errs)
                },
                None => (None, Vec::new()),
            };
            let ghost first = match base {
                Some(x) => errs_e(x@, cx@),
                None => Seq::empty(),
            };
            let (fs2, more) = mangle_fields(cx, b, fs);
            join_reports(&mut errs, more, home, Ghost(first), Ghost(errs_fs(fields_view(fs@), cx@)));
            proof {
                if base is None {
                    assert(first + errs_fs(fields_view(fs@), cx@) =~= errs_fs(fields_view(fs@), cx@));
                }
            }
            (Expr { kind: ExprKind::Record(base2, fs2), span }, errs)
        },
        ExprKind::Tuple(xs) => {
            let (xs2, errs) = mangle_exprs(cx, b, xs);
            (Expr { kind: ExprKind::Tuple(xs2), span }, errs)
        },
        ExprKind::List(xs) => {
            let (xs2, errs) = mangle_exprs(cx, b, xs);
            (Expr { kind: ExprKind::List(xs2), span }, errs)
        },
        ExprKind::Int(n) => (Expr { kind: ExprKind::Int(*n), span }, Vec::new()),
        ExprKind::Float(x) => (Expr { kind: ExprKind::Float(x.clone()), span }, Vec::new()),
        ExprKind::Str(x) => (Expr { kind: ExprKind::Str(x.clone()), span }, Vec::new()),
        ExprKind::Char(c) => (Expr { kind: ExprKind::Char(*c), span }, Vec::new()),
        ExprKind::Bool(v) => (Expr { kind: ExprKind::Bool(*v), span }, Vec::new()),
        ExprKind::Unit => (Expr { kind: ExprKind::Unit, span }, Vec::new()),
    }
}

pub fn mangle_exprs(cx: &Cx, b: &Vec<String>, xs: &Vec<Expr>) -> (r: (Vec<Expr>, Vec<Diag>))
    ensures
        exprs_view(r.0@) == mangled_es(exprs_view(xs@), cx@, names(b@)),
        reports(r.1@, cx.home@, errs_es(exprs_view(xs@), cx@)),
    decreases xs,
{
    let mut out: Vec<Expr> = Vec::new();
    let mut errs: Vec<Diag> = Vec::new();
    assert(xs@.take(0) =~= Seq::<Expr>::empty());
    for i in 0..xs.len()
        invariant
            exprs_view(out@) == mangled_es(exprs_view(xs@.take(i as int)), cx@, names(b@)),
            reports(errs@, cx.home@, errs_es(exprs_view(xs@.take(i as int)), cx@)),
    {
        proof {
            assert(decreases_to!(xs => xs@[i as int]));
            lemma_exprs_step(xs@, i as int);
            let v = exprs_view(xs@.take(i as int));
            assert(v.push(xs@[i as int]@).drop_last() =~= v);
        }
        let (y, more) = mangle_expr(cx, b, &xs[i]);
        join_reports(&mut errs, more, Ghost(cx.home@), Ghost(errs_es(exprs_view(xs@.take(i as int)), cx@)), Ghost(errs_e(xs@[i as int]@, cx@)));
        let ghost prev = out@;
        out.push(y);
        assert(out@.drop_last() =~= prev);
    }
    assert(xs@.take(xs@.len() as int) =~= xs@);
    (out, errs)
}

pub fn mangle_arms(cx: &Cx, b: &Vec<String>, xs: &Vec<(Pat, Expr)>) -> (r: (Vec<(Pat, Expr)>, Vec<Diag>))
    ensures
        arms_view(r.0@) == mangled_arms(arms_view(xs@), cx@, names(b@)),
        reports(r.1@, cx.home@, errs_arms(arms_view(xs@), cx@)),
    decreases xs,
{
    let mut out: Vec<(Pat, Expr)> = Vec::new();
    let mut errs: Vec<Diag> = Vec::new();
    assert(xs@.take(0) =~= Seq::<(Pat, Expr)>::empty());
    for i in 0..xs.len()
        invariant
            arms_view(out@) == mangled_arms(arms_view(xs@.take(i as int)), cx@, names(b@)),
            reports(errs@, cx.home@, errs_arms(arms_view(xs@.take(i as int)), cx@)),
    {
        proof {
            assert(decreases_to!(xs => xs@[i as int]));
            assert(decreases_to!(xs@[i as int] => xs@[i as int].1));
            lemma_arms_step(xs@, i as int);
            let v = arms_view(xs@.take(i as int));
            assert(v.push((xs@[i as int].0@, xs@[i as int].1@)).drop_last() =~= v);
        }
        let (p2, more) = mangle_pat(cx, &xs[i].0);
        join_reports(&mut errs, more, Ghost(cx.home@), Ghost(errs_arms(arms_view(xs@.take(i as int)), cx@)), Ghost(errs_p(xs@[i as int].0@, cx@)));
        let mut inner = copy_names(b);
        bind_names(&xs[i].0, &mut inner);
        let (body2, more2) = mangle_expr(cx, &inner, &xs[i].1);
        join_reports(
            &mut errs,
            more2,
            Ghost(cx.home@),
            Ghost(errs_arms(arms_view(xs@.take(i as int)), cx@) + errs_p(xs@[i as int].0@, cx@)),
            Ghost(errs_e(xs@[i as int].1@, cx@)),
        );
        let ghost prev = out@;
        out.push((p2, body2));
        assert(out@.drop_last() =~= prev);
    }
    assert(xs@.take(xs@.len() as int) =~= xs@);
    (out, errs)
}

pub fn mangle_fields(cx: &Cx, b: &Vec<String>, xs: &Vec<(String, Expr)>) -> (r: (Vec<(String, Expr)>, Vec<Diag>))
    ensures
        fields_view(r.0@) == mangled_fs(fields_view(xs@), cx@, names(b@)),
        reports(r.1@, cx.home@, errs_fs(fields_view(xs@), cx@)),
    decreases xs,
{
    let mut out: Vec<(String, Expr)> = Vec::new();
    let mut errs: Vec<Diag> = Vec::new();
    assert(xs@.take(0) =~= Seq::<(String, Expr)>::empty());
    for i in 0..xs.len()
        invariant
            fields_view(out@) == mangled_fs(fields_view(xs@.take(i as int)), cx@, names(b@)),
            reports(errs@, cx.home@, errs_fs(fields_view(xs@.take(i as int)), cx@)),
    {
        proof {
            assert(decreases_to!(xs => xs@[i as int]));
            assert(decreases_to!(xs@[i as int] => xs@[i as int].1));
            lemma_fields_step(xs@, i as int);
            let v = fields_view(xs@.take(i as int));
            assert(v.push((xs@[i as int].0@, xs@[i as int].1@)).drop_last() =~= v);
        }
        let (y, more) = mangle_expr(cx, b, &xs[i].1);
        join_reports(&mut errs, more, Ghost(cx.home@), Ghost(errs_fs(fields_view(xs@.take(i as int)), cx@)), Ghost(errs_e(xs@[i as int].1@, cx@)));
        let ghost prev = out@;
        out.push((xs[i].0.clone(), y));
        assert(out@.drop_last() =~= prev);
    }
    assert(xs@.take(xs@.len() as int) =~= xs@);
    (out, errs)
}

/// A copy of `e`, equal to it.
pub(crate) fn copy_expr(e: &Expr) -> (r: Expr)
    ensures
        r@ == e@,
    decreases e,
{
    let k = match &e.kind {
        ExprKind::Int(n) => ExprKind::Int(*n),
        ExprKind::Float(x) => ExprKind::Float(x.clone()),
        ExprKind::Str(x) => ExprKind::Str(x.clone()),
        ExprKind::Char(c) => ExprKind::Char(*c),
        ExprKind::Bool(v) => ExprKind::Bool(*v),
        ExprKind::Unit => ExprKind::Unit,
        ExprKind::Var(n) => ExprKind::Var(n.clone()),
        ExprKind::Ctor(n) => ExprKind::Ctor(n.clone()),
        ExprKind::App(h, xs) => ExprKind::App(Box::new(copy_expr(h)), copy_exprs(xs)),
        ExprKind::Binop(o, x, y) => ExprKind::Binop(o.clone(), Box::new(copy_expr(x)), Box::new(copy_expr(y))),
        ExprKind::Neg(x) => ExprKind::Neg(Box::new(copy_expr(x))),
        ExprKind::Not(x) => ExprKind::Not(Box::new(copy_expr(x))),
        ExprKind::Match(x, arms) => ExprKind::Match(Box::new(copy_expr(x)), copy_arms(arms)),
        ExprKind::Bind(n, x, y) => ExprKind::Bind(n.clone(), Box::new(copy_expr(x)), Box::new(copy_expr(y))),
        ExprKind::Let(n, x, y) => ExprKind::Let(n.clone(), Box::new(copy_expr(x)), Box::new(copy_expr(y))),
        ExprKind::Lambda(ps, x) => {
            let ps2 = copy_names(ps);
            assert(ps2@.map_values(|s: String| s@) =~= names(ps@));
            assert(ps@.map_values(|s: String| s@) =~= names(ps@));
            ExprKind::Lambda(ps2, Box::new(copy_expr(x)))
        },
        ExprKind::Record(base, fs) => ExprKind::Record(
            match base {
                Some(x) => Some(Box::new(copy_expr(x))),
                None => None,
            },
            copy_fields(fs),
        ),
        ExprKind::Field(x, f) => ExprKind::Field(Box::new(copy_expr(x)), f.clone()),
        ExprKind::Borrow(x) => ExprKind::Borrow(Box::new(copy_expr(x))),
        ExprKind::Arena(n, x) => ExprKind::Arena(n.clone(), Box::new(copy_expr(x))),
        ExprKind::Tuple(xs) => ExprKind::Tuple(copy_exprs(xs)),
        ExprKind::List(xs) => ExprKind::List(copy_exprs(xs)),
    };
    Expr { kind: k, span: e.span }
}

pub(crate) fn copy_exprs(xs: &Vec<Expr>) -> (r: Vec<Expr>)
    ensures
        exprs_view(r@) == exprs_view(xs@),
    decreases xs,
{
    let mut out: Vec<Expr> = Vec::new();
    assert(xs@.take(0) =~= Seq::<Expr>::empty());
    for i in 0..xs.len()
        invariant
            exprs_view(out@) == exprs_view(xs@.take(i as int)),
    {
        proof {
            assert(decreases_to!(xs => xs@[i as int]));
            lemma_exprs_step(xs@, i as int);
        }
        let ghost prev = out@;
        out.push(copy_expr(&xs[i]));
        assert(out@.drop_last() =~= prev);
    }
    assert(xs@.take(xs@.len() as int) =~= xs@);
    out
}

fn copy_arms(xs: &Vec<(Pat, Expr)>) -> (r: Vec<(Pat, Expr)>)
    ensures
        arms_view(r@) == arms_view(xs@),
    decreases xs,
{
    let mut out: Vec<(Pat, Expr)> = Vec::new();
    assert(xs@.take(0) =~= Seq::<(Pat, Expr)>::empty());
    for i in 0..xs.len()
        invariant
            arms_view(out@) == arms_view(xs@.take(i as int)),
    {
        proof {
            assert(decreases_to!(xs => xs@[i as int]));
            assert(decreases_to!(xs@[i as int] => xs@[i as int].1));
            lemma_arms_step(xs@, i as int);
        }
        let ghost prev = out@;
        out.push((crate::cover::copy_pat(&xs[i].0), copy_expr(&xs[i].1)));
        assert(out@.drop_last() =~= prev);
    }
    assert(xs@.take(xs@.len() as int) =~= xs@);
    out
}

fn copy_fields(xs: &Vec<(String, Expr)>) -> (r: Vec<(String, Expr)>)
    ensures
        fields_view(r@) == fields_view(xs@),
    decreases xs,
{
    let mut out: Vec<(String, Expr)> = Vec::new();
    assert(xs@.take(0) =~= Seq::<(String, Expr)>::empty());
    for i in 0..xs.len()
        invariant
            fields_view(out@) == fields_view(xs@.take(i as int)),
    {
        proof {
            assert(decreases_to!(xs => xs@[i as int]));
            assert(decreases_to!(xs@[i as int] => xs@[i as int].1));
            lemma_fields_step(xs@, i as int);
        }
        let ghost prev = out@;
        out.push((xs[i].0.clone(), copy_expr(&xs[i].1)));
        assert(out@.drop_last() =~= prev);
    }
    assert(xs@.take(xs@.len() as int) =~= xs@);
    out
}

fn ty_exec(cx: &Cx, n: &str) -> (r: String)
    ensures
        r@ == ty_name(n@, cx@),
{
    let cs = chars_of(n);
    if dot_in(&cs).is_none() && holds(&cx.syms.types, n) {
        mine_exec(cx, n)
    } else {
        owned(n)
    }
}

proof fn lemma_tys_step(ts: Seq<Ty>, i: int)
    requires
        0 <= i < ts.len(),
    ensures
        tys_view(ts.take(i + 1)) == tys_view(ts.take(i)).push(ts[i]@),
{
    assert(ts.take(i + 1).drop_last() =~= ts.take(i));
    assert(ts.take(i + 1).last() == ts[i]);
}

/// The type with the home module's own type names qualified, and the reports
/// its qualified names earn.
pub fn mangle_ty(cx: &Cx, t: &Ty) -> (r: (Ty, Vec<Diag>))
    ensures
        r.0@ == mangled_t(t@, cx@),
        reports(r.1@, cx.home@, errs_t(t@, cx@)),
    decreases t,
{
    let home = Ghost(cx.home@);
    match t {
        Ty::Con(n, args) => {
            let mut errs = qualified(cx, n.as_str(), Span { file: 0, line: 0, col: 0, len: 0 }, Sort::Type);
            let (args2, more) = mangle_tys(cx, args);
            join_reports(&mut errs, more, home, Ghost(qual_errs(n@, no_span(), Sort::Type, cx@.table)), Ghost(errs_ts(tys_view(args@), cx@)));
            (Ty::Con(ty_exec(cx, n.as_str()), args2), errs)
        },
        Ty::Fun(a, b) => {
            let (a2, mut errs) = mangle_ty(cx, a);
            let (b2, more) = mangle_ty(cx, b);
            join_reports(&mut errs, more, home, Ghost(errs_t(a@, cx@)), Ghost(errs_t(b@, cx@)));
            (Ty::Fun(Box::new(a2), Box::new(b2)), errs)
        },
        Ty::Ref(a) => {
            let (a2, errs) = mangle_ty(cx, a);
            (Ty::Ref(Box::new(a2)), errs)
        },
        Ty::Eff(a) => {
            let (a2, errs) = mangle_ty(cx, a);
            (Ty::Eff(Box::new(a2)), errs)
        },
        Ty::Tuple(ts) => {
            let (ts2, errs) = mangle_tys(cx, ts);
            (Ty::Tuple(ts2), errs)
        },
        Ty::Var(n) => (Ty::Var(n.clone()), Vec::new()),
    }
}

pub fn mangle_tys(cx: &Cx, ts: &Vec<Ty>) -> (r: (Vec<Ty>, Vec<Diag>))
    ensures
        tys_view(r.0@) == mangled_ts(tys_view(ts@), cx@),
        reports(r.1@, cx.home@, errs_ts(tys_view(ts@), cx@)),
    decreases ts,
{
    let mut out: Vec<Ty> = Vec::new();
    let mut errs: Vec<Diag> = Vec::new();
    assert(ts@.take(0) =~= Seq::<Ty>::empty());
    for i in 0..ts.len()
        invariant
            tys_view(out@) == mangled_ts(tys_view(ts@.take(i as int)), cx@),
            reports(errs@, cx.home@, errs_ts(tys_view(ts@.take(i as int)), cx@)),
    {
        proof {
            assert(decreases_to!(ts => ts@[i as int]));
            lemma_tys_step(ts@, i as int);
            let v = tys_view(ts@.take(i as int));
            assert(v.push(ts@[i as int]@).drop_last() =~= v);
        }
        let (y, more) = mangle_ty(cx, &ts[i]);
        join_reports(&mut errs, more, Ghost(cx.home@), Ghost(errs_ts(tys_view(ts@.take(i as int)), cx@)), Ghost(errs_t(ts@[i as int]@, cx@)));
        let ghost prev = out@;
        out.push(y);
        assert(out@.drop_last() =~= prev);
    }
    assert(ts@.take(ts@.len() as int) =~= ts@);
    (out, errs)
}

fn mangle_opt_ty(cx: &Cx, t: &Option<Ty>) -> (r: (Option<Ty>, Vec<Diag>))
    ensures
        crate::ast::opt_ty(r.0) == opt_mangled_t(crate::ast::opt_ty(*t), cx@),
        reports(r.1@, cx.home@, opt_errs_t(crate::ast::opt_ty(*t), cx@)),
{
    match t {
        Some(x) => {
            let (y, errs) = mangle_ty(cx, x);
            (Some(y), errs)
        },
        None => (None, Vec::new()),
    }
}

fn copy_opt_ty(t: &Option<Ty>) -> (r: Option<Ty>)
    ensures
        crate::ast::opt_ty(r) == crate::ast::opt_ty(*t),
{
    match t {
        Some(x) => Some(crate::ast::copy_ty(x)),
        None => None,
    }
}

/// Appends copies of `ns` to `b`.
fn extend_names(b: &mut Vec<String>, ns: &Vec<String>)
    ensures
        names(final(b)@) == names(old(b)@) + texts_of(ns@),
{
    let ghost o = names(b@);
    for i in 0..ns.len()
        invariant
            names(b@) == o + texts_of(ns@.take(i as int)),
    {
        let ghost p = names(b@);
        b.push(ns[i].clone());
        assert(names(b@) =~= p.push(ns@[i as int]@));
        assert(o + texts_of(ns@.take(i + 1)) =~= o + texts_of(ns@.take(i as int)) + seq![ns@[i as int]@]);
    }
    assert(ns@.take(ns@.len() as int) =~= ns@);
}

/// A function with its name and every name it uses rewritten, and the
/// reports it earns.
pub fn mangle_fun(cx: &Cx, f: &FunDecl) -> (r: (FunDecl, Vec<Diag>))
    ensures
        r.0@ == mangled_fun(f@, cx@),
        reports(r.1@, cx.home@, errs_fun(f@, cx@)),
{
    let ghost pv = f@.params;
    let ghost home = cx.home@;
    let mut b: Vec<String> = Vec::new();
    let mut tys: Vec<Option<Ty>> = Vec::new();
    let mut errs: Vec<Diag> = Vec::new();
    assert(pv.take(0) =~= Seq::<ParamV>::empty());
    for i in 0..f.params.len()
        invariant
            pv == f@.params,
            home == cx.home@,
            names(b@) == param_names(pv.take(i as int)),
            tys@.len() == i,
            forall|j: int| 0 <= j < i ==> crate::ast::opt_ty(#[trigger] tys@[j]) == opt_mangled_t(pv[j].ty, cx@),
            reports(errs@, home, errs_param_tys(pv.take(i as int), cx@)),
    {
        let p = &f.params[i];
        assert(pv[i as int] == p@);
        assert(pv.take(i + 1).drop_last() =~= pv.take(i as int));
        let (t2, more) = mangle_opt_ty(cx, &p.ty);
        join_reports(&mut errs, more, Ghost(home), Ghost(errs_param_tys(pv.take(i as int), cx@)), Ghost(opt_errs_t(p@.ty, cx@)));
        tys.push(t2);
        extend_names(&mut b, &p.names);
    }
    assert(pv.take(pv.len() as int) =~= pv);
    let ghost bv = names(b@);
    let mut params: Vec<Param> = Vec::new();
    let ghost e1 = errs_param_tys(pv, cx@);
    for i in 0..f.params.len()
        invariant
            pv == f@.params,
            home == cx.home@,
            bv == names(b@),
            bv == param_names(pv),
            tys@.len() == pv.len(),
            forall|j: int| 0 <= j < pv.len() ==> crate::ast::opt_ty(#[trigger] tys@[j]) == opt_mangled_t(pv[j].ty, cx@),
            params@.len() == i,
            forall|j: int| 0 <= j < i ==> (#[trigger] params@[j])@ == mangled_param(pv[j], cx@, bv),
            reports(errs@, home, e1 + errs_param_refines(pv.take(i as int), cx@)),
    {
        let p = &f.params[i];
        assert(pv[i as int] == p@);
        assert(pv.take(i + 1).drop_last() =~= pv.take(i as int));
        let (rs, more) = mangle_exprs(cx, &b, &p.refines);
        join_reports(&mut errs, more, Ghost(home), Ghost(e1 + errs_param_refines(pv.take(i as int), cx@)), Ghost(errs_es(p@.refines, cx@)));
        let np = Param { names: copy_names(&p.names), ty: copy_opt_ty(&tys[i]), refines: rs, span: p.span };
        assert(texts_of(np.names@) =~= texts_of(p.names@)) by {
            assert(names(np.names@) == names(p.names@));
            assert(texts_of(np.names@) =~= names(np.names@));
            assert(texts_of(p.names@) =~= names(p.names@));
        }
        params.push(np);
    }
    assert(pv.take(pv.len() as int) =~= pv);
    let (ret, more) = mangle_opt_ty(cx, &f.ret);
    join_reports(&mut errs, more, Ghost(home), Ghost(e1 + errs_param_refines(pv, cx@)), Ghost(opt_errs_t(f@.ret, cx@)));
    let (body, more) = mangle_expr(cx, &b, &f.body);
    join_reports(
        &mut errs,
        more,
        Ghost(home),
        Ghost(e1 + errs_param_refines(pv, cx@) + opt_errs_t(f@.ret, cx@)),
        Ghost(errs_e(f@.body, cx@)),
    );
    let ghost e4 = e1 + errs_param_refines(pv, cx@) + opt_errs_t(f@.ret, cx@) + errs_e(f@.body, cx@);
    let measure = match &f.measure {
        Some(m) => {
            let (m2, more) = mangle_expr(cx, &b, m);
            join_reports(&mut errs, more, Ghost(home), Ghost(e4), Ghost(errs_e(m@, cx@)));
            Some(m2)
        },
        None => {
            assert(e4 + Seq::empty() =~= e4);
            None
        },
    };
    let r = FunDecl {
        name: mine_exec(cx, f.name.as_str()),
        home: f.home.clone(),
        is_ghost: f.is_ghost,
        params,
        ret,
        body,
        measure,
        span: f.span,
    };
    assert(r@.params =~= mangled_fun(f@, cx@).params);
    (r, errs)
}

fn copy_body(b: &TypeBody) -> (r: TypeBody)
    ensures
        r@ == b@,
{
    match b {
        TypeBody::Record(rd) => {
            let mut fs: Vec<(String, Ty)> = Vec::new();
            for i in 0..rd.fields.len()
                invariant
                    fs@.len() == i,
                    forall|j: int| 0 <= j < i ==> (#[trigger] fs@[j]).0@ == rd.fields@[j].0@ && fs@[j].1@ == rd.fields@[j].1@,
            {
                fs.push((rd.fields[i].0.clone(), crate::ast::copy_ty(&rd.fields[i].1)));
            }
            let r = RecordDef { fields: fs, refines: copy_exprs(&rd.refines) };
            assert(crate::ast::typed_fields(r.fields@) =~= crate::ast::typed_fields(rd.fields@));
            TypeBody::Record(r)
        },
        TypeBody::Variants(vs) => {
            let mut out: Vec<VariantDef> = Vec::new();
            for i in 0..vs.len()
                invariant
                    out@.len() == i,
                    forall|j: int| 0 <= j < i ==> (#[trigger] out@[j]).name@ == vs@[j].name@ && tys_view(out@[j].args@) == tys_view(vs@[j].args@),
            {
                out.push(VariantDef { name: vs[i].name.clone(), args: crate::ast::copy_tys(&vs[i].args) });
            }
            assert(crate::ast::variants_view(out@) =~= crate::ast::variants_view(vs@));
            TypeBody::Variants(out)
        },
        TypeBody::Opaque => TypeBody::Opaque,
    }
}

/// A type declaration with its name, its constructors and the types it
/// mentions rewritten, and the reports it earns.
pub fn mangle_tdecl(cx: &Cx, t: &TypeDecl) -> (r: (TypeDecl, Vec<Diag>))
    ensures
        r.0@ == mangled_tdecl(t@, cx@),
        reports(r.1@, cx.home@, errs_tdecl(t@, cx@)),
{
    let ghost home = cx.home@;
    let mut errs: Vec<Diag> = Vec::new();
    let body = match &t.body {
        TypeBody::Variants(vs) => {
            let ghost vv = crate::ast::variants_view(vs@);
            let mut out: Vec<VariantDef> = Vec::new();
            assert(vv.take(0) =~= Seq::<(Seq<char>, Seq<TyV>)>::empty());
            for i in 0..vs.len()
                invariant
                    vv == crate::ast::variants_view(vs@),
                    home == cx.home@,
                    out@.len() == i,
                    forall|j: int| 0 <= j < i ==> (#[trigger] out@[j]).name@ == mine(cx@, vv[j].0) && tys_view(out@[j].args@) == mangled_ts(vv[j].1, cx@),
                    reports(errs@, home, errs_variants(vv.take(i as int), cx@)),
            {
                assert(vv.take(i + 1).drop_last() =~= vv.take(i as int));
                assert(vv[i as int] == (vs@[i as int].name@, tys_view(vs@[i as int].args@)));
                let (args, more) = mangle_tys(cx, &vs[i].args);
                join_reports(&mut errs, more, Ghost(home), Ghost(errs_variants(vv.take(i as int), cx@)), Ghost(errs_ts(vv[i as int].1, cx@)));
                out.push(VariantDef { name: mine_exec(cx, vs[i].name.as_str()), args });
            }
            assert(vv.take(vv.len() as int) =~= vv);
            let b = TypeBody::Variants(out);
            assert(crate::ast::variants_view(out@) =~= Seq::new(vv.len(), |i: int| (mine(cx@, vv[i].0), mangled_ts(vv[i].1, cx@))));
            b
        },
        TypeBody::Record(rd) => {
            let ghost fv = crate::ast::typed_fields(rd.fields@);
            let mut fs: Vec<(String, Ty)> = Vec::new();
            let mut fb: Vec<String> = Vec::new();
            assert(fv.take(0) =~= Seq::<(Seq<char>, TyV)>::empty());
            for i in 0..rd.fields.len()
                invariant
                    fv == crate::ast::typed_fields(rd.fields@),
                    home == cx.home@,
                    fs@.len() == i,
                    names(fb@) == Seq::new(i as nat, |j: int| fv[j].0),
                    forall|j: int| 0 <= j < i ==> (#[trigger] fs@[j]).0@ == fv[j].0 && fs@[j].1@ == mangled_t(fv[j].1, cx@),
                    reports(errs@, home, errs_field_tys(fv.take(i as int), cx@)),
            {
                assert(fv.take(i + 1).drop_last() =~= fv.take(i as int));
                assert(fv[i as int] == (rd.fields@[i as int].0@, rd.fields@[i as int].1@));
                let (ty, more) = mangle_ty(cx, &rd.fields[i].1);
                join_reports(&mut errs, more, Ghost(home), Ghost(errs_field_tys(fv.take(i as int), cx@)), Ghost(errs_t(fv[i as int].1, cx@)));
                fs.push((rd.fields[i].0.clone(), ty));
                let ghost o = names(fb@);
                fb.push(rd.fields[i].0.clone());
                assert(names(fb@) =~= o.push(rd.fields@[i as int].0@));
                assert(names(fb@) =~= Seq::new((i + 1) as nat, |j: int| fv[j].0));
            }
            assert(fv.take(fv.len() as int) =~= fv);
            let (rs, more) = mangle_exprs(cx, &fb, &rd.refines);
            join_reports(&mut errs, more, Ghost(home), Ghost(errs_field_tys(fv, cx@)), Ghost(errs_es(crate::ast::exprs_view(rd.refines@), cx@)));
            let r = RecordDef { fields: fs, refines: rs };
            assert(crate::ast::typed_fields(r.fields@) =~= Seq::new(fv.len(), |i: int| (fv[i].0, mangled_t(fv[i].1, cx@))));
            TypeBody::Record(r)
        },
        TypeBody::Opaque => TypeBody::Opaque,
    };
    let r = TypeDecl { name: mine_exec(cx, t.name.as_str()), home: t.home.clone(), params: copy_names(&t.params), body, span: t.span };
    assert(texts_of(r.params@) =~= texts_of(t.params@)) by {
        assert(texts_of(r.params@) =~= names(r.params@));
        assert(texts_of(t.params@) =~= names(t.params@));
    }
    (r, errs)
}

/// An `ext c` block with the types its signatures mention rewritten and the
/// C types it declares qualified, and the reports it earns.
pub fn mangle_ext(cx: &Cx, e: &ExtBlock) -> (r: (ExtBlock, Vec<Diag>))
    ensures
        r.0@ == mangled_ext(e@, cx@),
        reports(r.1@, cx.home@, errs_sigs(e@.sigs, cx@)),
{
    let ghost home = cx.home@;
    let ghost sv = e@.sigs;
    let mut errs: Vec<Diag> = Vec::new();
    let mut sigs: Vec<ExtSig> = Vec::new();
    assert(sv.take(0) =~= Seq::<ExtSigV>::empty());
    for i in 0..e.sigs.len()
        invariant
            sv == e@.sigs,
            home == cx.home@,
            sigs@.len() == i,
            forall|j: int| 0 <= j < i ==> (#[trigger] sigs@[j])@ == (ExtSigV { name: sv[j].name, symbol: sv[j].symbol, ty: mangled_t(sv[j].ty, cx@), refines: sv[j].refines, span: sv[j].span }),
            reports(errs@, home, errs_sigs(sv.take(i as int), cx@)),
    {
        let g = &e.sigs[i];
        assert(sv[i as int] == g@);
        assert(sv.take(i + 1).drop_last() =~= sv.take(i as int));
        let (ty, more) = mangle_ty(cx, &g.ty);
        join_reports(&mut errs, more, Ghost(home), Ghost(errs_sigs(sv.take(i as int), cx@)), Ghost(errs_t(g@.ty, cx@)));
        sigs.push(ExtSig { name: g.name.clone(), symbol: g.symbol.clone(), ty, refines: copy_exprs(&g.refines), span: g.span });
    }
    assert(sv.take(sv.len() as int) =~= sv);
    let mut types: Vec<TypeDecl> = Vec::new();
    for i in 0..e.types.len()
        invariant
            types@.len() == i,
            forall|j: int| 0 <= j < i ==> (#[trigger] types@[j])@ == (TypeDeclV { name: mine(cx@, e.types@[j]@.name), home: e.types@[j]@.home, params: e.types@[j]@.params, body: e.types@[j]@.body, span: e.types@[j]@.span }),
    {
        let t = &e.types[i];
        let nt = TypeDecl { name: mine_exec(cx, t.name.as_str()), home: t.home.clone(), params: copy_names(&t.params), body: copy_body(&t.body), span: t.span };
        assert(texts_of(nt.params@) =~= texts_of(t.params@)) by {
            assert(texts_of(nt.params@) =~= names(nt.params@));
            assert(texts_of(t.params@) =~= names(t.params@));
        }
        types.push(nt);
    }
    let links = copy_names(&e.links);
    let pkgs = copy_names(&e.pkgs);
    let r = ExtBlock { header: e.header.clone(), links, pkgs, sigs, types, span: e.span };
    assert(texts_of(r.links@) =~= texts_of(e.links@)) by {
        assert(texts_of(r.links@) =~= names(r.links@));
        assert(texts_of(e.links@) =~= names(e.links@));
    }
    assert(texts_of(r.pkgs@) =~= texts_of(e.pkgs@)) by {
        assert(texts_of(r.pkgs@) =~= names(r.pkgs@));
        assert(texts_of(e.pkgs@) =~= names(e.pkgs@));
    }
    assert(r@.sigs =~= mangled_ext(e@, cx@).sigs);
    assert(r@.types =~= mangled_ext(e@, cx@).types);
    (r, errs)
}

/// A declaration with its names rewritten into the flattened program's
/// spelling, and the reports its qualified names earn.
pub fn mangle_decl(cx: &Cx, d: &Decl) -> (r: (Decl, Vec<Diag>))
    ensures
        r.0@ == mangled_d(d@, cx@),
        reports(r.1@, cx.home@, errs_d(d@, cx@)),
{
    match d {
        Decl::Fun(f) => {
            let (g, errs) = mangle_fun(cx, f);
            (Decl::Fun(g), errs)
        },
        Decl::Type(t) => {
            let (u, errs) = mangle_tdecl(cx, t);
            (Decl::Type(u), errs)
        },
        Decl::Ext(e) => {
            let (x, errs) = mangle_ext(cx, e);
            (Decl::Ext(x), errs)
        },
        Decl::Exp(ns, span) => {
            let mut out: Vec<String> = Vec::new();
            for i in 0..ns.len()
                invariant
                    out@.len() == i,
                    forall|j: int| 0 <= j < i ==> (#[trigger] out@[j])@ == export_name(ns@[j]@, cx@),
            {
                if holds(&cx.syms.vals, ns[i].as_str()) {
                    out.push(mine_exec(cx, ns[i].as_str()));
                } else {
                    out.push(ns[i].clone());
                }
            }
            let r = Decl::Exp(out, *span);
            assert(texts_of(out@) =~= Seq::new(ns@.len(), |i: int| export_name(texts_of(ns@)[i], cx@)));
            (r, Vec::new())
        },
    }
}

/// What the declarations `ds` declare: the functions as values, the types,
/// and the constructors of variant types. `ext c` names are C's and stay
/// global.
pub open spec fn syms_of_ds(ds: Seq<DeclV>) -> SymsV
    decreases ds.len(),
{
    if ds.len() == 0 {
        SymsV { vals: Seq::empty(), types: Seq::empty(), ctors: Seq::empty() }
    } else {
        let s = syms_of_ds(ds.drop_last());
        match ds.last() {
            DeclV::Fun(f) => SymsV { vals: s.vals.push(f.name), types: s.types, ctors: s.ctors },
            DeclV::Type(t) => SymsV {
                vals: s.vals,
                types: s.types.push(t.name),
                ctors: match t.body {
                    TypeBodyV::Variants(vs) => s.ctors + Seq::new(vs.len(), |i: int| vs[i].0),
                    _ => s.ctors,
                },
            },
            _ => s,
        }
    }
}

/// What module `m` declares.
pub fn syms_of(m: &Module) -> (r: Syms)
    ensures
        r@ == syms_of_ds(m@.decls),
{
    let ghost dv = m@.decls;
    let mut r = Syms { vals: Vec::new(), types: Vec::new(), ctors: Vec::new() };
    assert(dv.take(0) =~= Seq::<DeclV>::empty());
    assert(r@.vals =~= Seq::<Seq<char>>::empty());
    assert(r@.types =~= Seq::<Seq<char>>::empty());
    assert(r@.ctors =~= Seq::<Seq<char>>::empty());
    assert(r@ == syms_of_ds(dv.take(0)));
    for i in 0..m.decls.len()
        invariant
            dv == m@.decls,
            r@ == syms_of_ds(dv.take(i as int)),
    {
        assert(dv.take(i + 1).drop_last() =~= dv.take(i as int));
        assert(dv[i as int] == m.decls@[i as int]@);
        let ghost s0 = r@;
        match &m.decls[i] {
            Decl::Fun(f) => {
                r.vals.push(f.name.clone());
                assert(r@.vals =~= s0.vals.push(f.name@));
            },
            Decl::Type(t) => {
                r.types.push(t.name.clone());
                assert(r@.types =~= s0.types.push(t.name@));
                match &t.body {
                    TypeBody::Variants(vs) => {
                        let ghost vv = crate::ast::variants_view(vs@);
                        for k in 0..vs.len()
                            invariant
                                vv == crate::ast::variants_view(vs@),
                                r@.ctors == s0.ctors + Seq::new(k as nat, |j: int| vv[j].0),
                                r@.vals == s0.vals,
                                r@.types == s0.types.push(t.name@),
                        {
                            let ghost c0 = r@.ctors;
                            r.ctors.push(vs[k].name.clone());
                            assert(r@.ctors =~= c0.push(vs@[k as int].name@));
                            assert(r@.ctors =~= s0.ctors + Seq::new((k + 1) as nat, |j: int| vv[j].0));
                        }
                    },
                    _ => {},
                }
            },
            _ => {},
        }
    }
    assert(dv.take(dv.len() as int) =~= dv);
    r
}

/// The context a module is rewritten in, given what every module declares.
pub open spec fn cx_of(home: Seq<char>, t: Seq<(Seq<char>, SymsV)>) -> CxV {
    CxV { home, syms: table_get(t, home).unwrap(), table: t }
}

/// The module with every declaration rewritten into the flattened program's
/// spelling.
pub open spec fn mangled_m(m: ModuleV, cx: CxV) -> ModuleV {
    ModuleV { name: m.name, decls: Seq::new(m.decls.len(), |i: int| mangled_d(m.decls[i], cx)), span: m.span }
}

fn mangle_decls(cx: &Cx, ds: &Vec<Decl>) -> (r: (Vec<Decl>, Vec<Diag>))
    ensures
        r.0@.len() == ds@.len(),
        forall|j: int| 0 <= j < ds@.len() ==> (#[trigger] r.0@[j])@ == mangled_d(ds@[j]@, cx@),
        reports(r.1@, cx.home@, errs_ds(ds@.map_values(|d: Decl| d@), cx@)),
{
    let ghost dv = ds@.map_values(|d: Decl| d@);
    let mut out: Vec<Decl> = Vec::new();
    let mut errs: Vec<Diag> = Vec::new();
    assert(dv.take(0) =~= Seq::<DeclV>::empty());
    for i in 0..ds.len()
        invariant
            dv == ds@.map_values(|d: Decl| d@),
            out@.len() == i,
            forall|j: int| 0 <= j < i ==> (#[trigger] out@[j])@ == mangled_d(ds@[j]@, cx@),
            reports(errs@, cx.home@, errs_ds(dv.take(i as int), cx@)),
    {
        assert(dv.take(i + 1).drop_last() =~= dv.take(i as int));
        assert(dv[i as int] == ds@[i as int]@);
        let (d, more) = mangle_decl(cx, &ds[i]);
        join_reports(&mut errs, more, Ghost(cx.home@), Ghost(errs_ds(dv.take(i as int), cx@)), Ghost(errs_d(dv[i as int], cx@)));
        out.push(d);
    }
    assert(dv.take(dv.len() as int) =~= dv);
    (out, errs)
}

/// Rewrites module `m`, declared as `home`, into the flattened program's
/// spelling: every name it declares becomes `home.name`, so that two modules
/// may both declare `parse`. Returns a report for each qualified name that
/// names a loaded module which declares no such name.
pub fn mangle(m: &mut Module, home: &str, table: &Vec<(String, Syms)>) -> (r: Vec<Diag>)
    requires
        table_get(table_view(table@), home@) is Some,
    ensures
        final(m)@ == mangled_m(old(m)@, cx_of(home@, table_view(table@))),
        reports(r@, home@, errs_ds(old(m)@.decls, cx_of(home@, table_view(table@)))),
{
    let syms = match find_syms(table, home) {
        Some(s) => s,
        None => {
            return Vec::new();
        },
    };
    let cx = Cx { home: owned(home), syms, table };
    assert(cx@ == cx_of(home@, table_view(table@)));
    let (ds, errs) = mangle_decls(&cx, &m.decls);
    let ghost old_m = m@;
    m.decls = ds;
    assert(m@.decls =~= mangled_m(old_m, cx@).decls);
    errs
}

/// The reports `ds` make when each names the module in its own entry.
pub open spec fn reports_at(ds: Seq<Diag>, rs: Seq<(Seq<char>, (Span, Seq<char>, Seq<char>, Seq<char>))>) -> bool {
    &&& ds.len() == rs.len()
    &&& forall|j: int| 0 <= j < ds.len() ==> is_no_name(#[trigger] ds[j], rs[j].0, rs[j].1)
}

pub open spec fn at_home(home: Seq<char>, rs: Seq<(Span, Seq<char>, Seq<char>, Seq<char>)>) -> Seq<(Seq<char>, (Span, Seq<char>, Seq<char>, Seq<char>))> {
    Seq::new(rs.len(), |i: int| (home, rs[i]))
}

/// What each module declares, under its name.
pub open spec fn table_of(ms: Seq<Module>) -> Seq<(Seq<char>, SymsV)> {
    Seq::new(ms.len(), |i: int| (ms[i].name@, syms_of_ds(ms[i]@.decls)))
}

pub open spec fn own_cx(m: Module, t: Seq<(Seq<char>, SymsV)>) -> CxV {
    CxV { home: m.name@, syms: syms_of_ds(m@.decls), table: t }
}

/// Every module's declarations rewritten, dependencies first.
pub open spec fn flat_decls(ms: Seq<Module>, t: Seq<(Seq<char>, SymsV)>) -> Seq<DeclV>
    decreases ms.len(),
{
    if ms.len() == 0 {
        Seq::empty()
    } else {
        let m = ms.last();
        flat_decls(ms.drop_last(), t) + Seq::new(m.decls@.len(), |i: int| mangled_d(m.decls@[i]@, own_cx(m, t)))
    }
}

/// The reports every module's rewriting earns, each with its module.
pub open spec fn flat_errs(ms: Seq<Module>, t: Seq<(Seq<char>, SymsV)>) -> Seq<(Seq<char>, (Span, Seq<char>, Seq<char>, Seq<char>))>
    decreases ms.len(),
{
    if ms.len() == 0 {
        Seq::empty()
    } else {
        let m = ms.last();
        flat_errs(ms.drop_last(), t) + at_home(m.name@, errs_ds(m@.decls, own_cx(m, t)))
    }
}

proof fn lemma_reports_at(d1: Seq<Diag>, d2: Seq<Diag>, r1: Seq<(Seq<char>, (Span, Seq<char>, Seq<char>, Seq<char>))>, home: Seq<char>, r2: Seq<(Span, Seq<char>, Seq<char>, Seq<char>)>)
    requires
        reports_at(d1, r1),
        reports(d2, home, r2),
    ensures
        reports_at(d1 + d2, r1 + at_home(home, r2)),
{
    assert forall|j: int| 0 <= j < (d1 + d2).len() implies is_no_name(#[trigger] (d1 + d2)[j], (r1 + at_home(home, r2))[j].0, (r1 + at_home(home, r2))[j].1) by {
        if j >= d1.len() {
            assert(is_no_name(d2[j - d1.len()], home, r2[j - d1.len()]));
        }
    }
}

/// Flattens the loaded modules, dependencies first and the root last, into
/// one module under the root's name: every module's declarations rewritten
/// into the flattened spelling, in order. Fails with the `ext c` clashes
/// between modules, then every module's reports, when there is any.
pub fn flatten(ms: &Vec<Module>) -> (r: Result<Module, Vec<Diag>>)
    requires
        ms@.len() > 0,
    ensures
        ({
            let cl = crate::load::clash_scan(crate::load::mods_sigs(ms@)).1;
            let fe = flat_errs(ms@, table_of(ms@));
            match r {
                Ok(flat) => {
                    &&& cl.len() == 0
                    &&& fe.len() == 0
                    &&& flat@.name == ms@.last().name@
                    &&& flat@.span == ms@.last().span
                    &&& flat@.decls == flat_decls(ms@, table_of(ms@))
                },
                Err(es) => {
                    &&& cl.len() + fe.len() > 0
                    &&& es@.len() == cl.len() + fe.len()
                    &&& forall|j: int| 0 <= j < cl.len() ==> crate::load::is_clash(#[trigger] es@[j], cl[j])
                    &&& reports_at(es@.skip(cl.len() as int), fe)
                },
            }
        }),
{
    let ghost tv = table_of(ms@);
    let mut table: Vec<(String, Syms)> = Vec::new();
    for i in 0..ms.len()
        invariant
            table@.len() == i,
            forall|j: int| 0 <= j < i ==> (#[trigger] table@[j]).0@ == ms@[j].name@ && table@[j].1@ == syms_of_ds(ms@[j]@.decls),
    {
        table.push((ms[i].name.clone(), syms_of(&ms[i])));
    }
    assert(table_view(table@) =~= tv);
    let clashes = crate::load::global_clashes(ms.as_slice());
    let ghost cl = crate::load::clash_scan(crate::load::mods_sigs(ms@)).1;
    let mut errs: Vec<Diag> = Vec::new();
    let mut decls: Vec<Decl> = Vec::new();
    assert(ms@.take(0) =~= Seq::<Module>::empty());
    for i in 0..ms.len()
        invariant
            tv == table_of(ms@),
            table_view(table@) == tv,
            table@.len() == ms@.len(),
            forall|j: int| 0 <= j < ms@.len() ==> (#[trigger] table@[j]).0@ == ms@[j].name@ && table@[j].1@ == syms_of_ds(ms@[j]@.decls),
            decls@.map_values(|d: Decl| d@) == flat_decls(ms@.take(i as int), tv),
            reports_at(errs@, flat_errs(ms@.take(i as int), tv)),
    {
        let m = &ms[i];
        assert(ms@.take(i + 1).drop_last() =~= ms@.take(i as int));
        assert(ms@.take(i + 1).last() == ms@[i as int]);
        let cx = Cx { home: m.name.clone(), syms: &table[i].1, table: &table };
        assert(cx@ == own_cx(*m, tv));
        let (ds, more) = mangle_decls(&cx, &m.decls);
        assert(m@.decls =~= m.decls@.map_values(|d: Decl| d@));
        proof {
            lemma_reports_at(errs@, more@, flat_errs(ms@.take(i as int), tv), m.name@, errs_ds(m@.decls, own_cx(*m, tv)));
        }
        let ghost d0 = decls@.map_values(|d: Decl| d@);
        let mut ds = ds;
        let ghost dsv = ds@;
        decls.append(&mut ds);
        let mut more = more;
        errs.append(&mut more);
        assert(decls@.map_values(|d: Decl| d@) =~= d0 + Seq::new(m.decls@.len(), |k: int| mangled_d(m.decls@[k]@, own_cx(*m, tv))));
    }
    assert(ms@.take(ms@.len() as int) =~= ms@);
    if clashes.len() == 0 && errs.len() == 0 {
        let last = ms.len() - 1;
        let flat = Module { name: ms[last].name.clone(), decls, span: ms[last].span };
        assert(flat@.decls =~= flat_decls(ms@, tv));
        Ok(flat)
    } else {
        let mut all = clashes;
        let ghost c0 = all@;
        let ghost e0 = errs@;
        let mut errs = errs;
        all.append(&mut errs);
        assert(all@.skip(cl.len() as int) =~= e0);
        assert forall|j: int| 0 <= j < cl.len() implies crate::load::is_clash(#[trigger] all@[j], cl[j]) by {
            assert(all@[j] == c0[j]);
        }
        Err(all)
    }
}

/// A module's own name, used bare inside it, is rewritten to exactly the
/// spelling another module writes to reach it, `Mod.name`: both refer to one
/// declaration of the flattened program.
pub proof fn lemma_one_spelling(
    home: CxV,
    other: CxV,
    f: Seq<char>,
    b1: Seq<Seq<char>>,
    b2: Seq<Seq<char>>,
    s1: Span,
    s2: Span,
    s3: Span,
)
    requires
        home.syms.vals.contains(f),
        !b1.contains(f),
        table_get(other.table, home.home) == Some(home.syms),
    ensures
        mangled_e(ExprV { kind: KindV::Var(f), span: s1 }, home, b1).kind == mangled_e(
            ExprV { kind: KindV::Field(Box::new(ExprV { kind: KindV::Ctor(home.home), span: s3 }), f), span: s2 },
            other,
            b2,
        ).kind,
        errs_e(ExprV { kind: KindV::Field(Box::new(ExprV { kind: KindV::Ctor(home.home), span: s3 }), f), span: s2 }, other).len() == 0,
{
}

} // verus!
