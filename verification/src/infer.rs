//! What inference reads off an inferred type: effects, results, and which
//! values are moved rather than copied; and the reading of the prelude's
//! written types.

use vstd::prelude::*;
use crate::types::{T, TV, copy_t, copy_ts, is_num, numeric, show_text, ts_view, lemma_ts_view};
use crate::types::{Checker, Bindings, Kind, Scheme, CtorInfo, grow, below, below_list, lemma_below_list};
use crate::types::{lemma_below_mono, names_below, names_view, lowered, lowered_list, nearest, suggest};
use crate::types::{lemma_lowered_below, lemma_lowered_list_below, scheme_view, texts, looked_up, scope_view};
use crate::text::{str_eq, owned, push_str, push_decimal, decimal};
use vstd::string::StringSliceAdditionalSpecFns;
use crate::ast::{Ty, TyV, tys_view, lemma_tys_view, copy_tys, Pat, PatV, pats_view, lemma_pats_view, pat_names_of};
use crate::codegen::pat_vars;
use crate::lexer::{lex, lexed, lemma_lexed_ends, TokV};
use crate::diag::{Diag, Span, opt_view};
use crate::parser::{Parser, kinds, type_of_text};

verus! {

/// The type written in `src`, as the prelude writes its signatures: read
/// from the first token, with every newline insignificant.
pub fn parse_type(src: &str) -> (t: Ty)
    requires
        src.spec_bytes().len() < usize::MAX,
        type_of_text(src.spec_bytes()) is Some,
    ensures
        type_of_text(src.spec_bytes()) == Some(t@),
{
    let toks = match lex(src, usize::MAX) {
        Ok(t) => t,
        Err(_) => {
            return Ty::unit();
        },
    };
    proof {
        lemma_lexed_ends(src.spec_bytes(), usize::MAX);
        let a = lexed(src.spec_bytes(), usize::MAX)->Ok_0.0;
        assert(kinds(toks@) =~= a.map_values(|t: (TokV, Span)| t.0));
    }
    let mut p = Parser { toks, i: 0, depth: 1, home: owned("Prelude") };
    match p.ty() {
        Ok(t) => t,
        Err(_) => Ty::unit(),
    }
}

/// A function type that ends in an effect.
pub open spec fn ends_in_effect(t: TV) -> bool
    decreases t,
{
    match t {
        TV::Fun(_, r) => ends_in_effect(*r),
        TV::Eff(_) => true,
        _ => false,
    }
}

pub fn returns_eff(t: &T) -> (r: bool)
    ensures
        r == ends_in_effect(t@),
    decreases t,
{
    match t {
        T::Fun(_, r) => returns_eff(r),
        T::Eff(_) => true,
        _ => false,
    }
}

/// What a function type finally gives back, as a message prints it.
pub open spec fn result_text(t: TV) -> Seq<char>
    decreases t,
{
    match t {
        TV::Fun(_, r) => result_text(*r),
        _ => show_text(t),
    }
}

pub fn result_name(t: &T) -> (r: String)
    ensures
        r@ == result_text(t@),
    decreases t,
{
    match t {
        T::Fun(_, r) => result_name(r),
        _ => t.show(),
    }
}

/// The type under an `E!`, if there is one.
pub fn effect_of(t: &T) -> (r: Option<T>)
    ensures
        match t@ {
            TV::Eff(x) => r matches Some(u) && u@ == *x,
            _ => r is None,
        },
{
    match t {
        T::Eff(x) => Some(copy_t(x)),
        _ => None,
    }
}

/// The scalar type names, which are copied rather than moved.
pub open spec fn copied_name(n: Seq<char>) -> bool {
    numeric(n) || n == "Bool"@ || n == "Char"@ || n == "Unit"@ || n == "Size"@ || n == "CStr"@
        || n == "Ptr"@
}

/// Whether a value of an inferred type is moved rather than copied: scalars
/// are copied, everything with a payload is moved, and an unresolved
/// variable counts as moved, so an unknown is reported rather than waved
/// through.
pub open spec fn affine_t(t: TV) -> bool
    decreases t, 0int,
{
    match t {
        TV::Con(n, _) => !copied_name(n),
        TV::Var(_) => true,
        TV::Tuple(ts) => any_affine_t(ts),
        TV::Fun(_, _) => false,
        TV::Eff(_) => false,
    }
}

pub open spec fn any_affine_t(ts: Seq<TV>) -> bool
    decreases ts, 1int,
{
    if ts.len() == 0 {
        false
    } else {
        any_affine_t(ts.drop_last()) || affine_t(ts.last())
    }
}

pub fn is_affine_t(t: &T) -> (r: bool)
    ensures
        r == affine_t(t@),
    decreases t, 0int,
{
    match t {
        T::Con(n, _) => {
            let n = n.as_str();
            !(is_num(n) || str_eq(n, "Bool") || str_eq(n, "Char") || str_eq(n, "Unit") || str_eq(
                n,
                "Size",
            ) || str_eq(n, "CStr") || str_eq(n, "Ptr"))
        },
        T::Var(_) => true,
        T::Tuple(ts) => any_is_affine_t(ts),
        T::Fun(_, _) | T::Eff(_) => false,
    }
}

fn any_is_affine_t(ts: &Vec<T>) -> (r: bool)
    ensures
        r == any_affine_t(ts_view(ts@)),
    decreases ts, 1int,
{
    let mut found = false;
    for i in 0..ts.len()
        invariant
            found == any_affine_t(ts_view(ts@.take(i as int))),
    {
        proof {
            assert(decreases_to!(ts => ts@[i as int]));
            assert(ts@.take(i + 1).drop_last() == ts@.take(i as int));
            let v1 = ts_view(ts@.take(i + 1));
            assert(v1.drop_last() == ts_view(ts@.take(i as int)));
            assert(v1.last() == ts@[i as int]@);
        }
        let a = is_affine_t(&ts[i]);
        found = found || a;
    }
    assert(ts@.take(ts@.len() as int) == ts@);
    found
}


// ------------------------------------------------------------ typing a pattern

/// What typing a pattern reads and changes: the bindings and the scopes.
pub struct Typing {
    pub b: Bindings,
    pub env: Seq<Seq<(Seq<char>, (Seq<usize>, TV))>>,
}

/// Why a pattern does not type: what its diagnostic says.
pub struct Fail {
    pub code: Seq<char>,
    pub msg: Seq<char>,
    pub fix: Option<Seq<char>>,
    pub path: Option<Seq<char>>,
}

/// The diagnostic `d`, at `span`, says `f`.
pub open spec fn fails(d: Diag, f: Fail, span: Span) -> bool {
    &&& d.span == span
    &&& d.code@ == f.code
    &&& d.msg@ == f.msg
    &&& opt_view(d.fix) == f.fix
    &&& opt_view(d.path) == f.path
    &&& d.witness is None
}

/// A constructor by its view: the type it belongs to, that type's
/// parameters, and the types it carries.
pub open spec fn ctor_view(c: CtorInfo) -> (Seq<char>, Seq<Seq<char>>, Seq<TyV>) {
    (c.owner@, c.params@.map_values(|q: String| q@), tys_view(c.args@))
}

pub open spec fn ctors_view(cs: Seq<(String, CtorInfo)>) -> Seq<(Seq<char>, (Seq<char>, Seq<Seq<char>>, Seq<TyV>))> {
    cs.map_values(|e: (String, CtorInfo)| (e.0@, ctor_view(e.1)))
}

/// The latest entry for the constructor `n`.
pub open spec fn ctor_named(
    cs: Seq<(Seq<char>, (Seq<char>, Seq<Seq<char>>, Seq<TyV>))>,
    n: Seq<char>,
) -> Option<(Seq<char>, Seq<Seq<char>>, Seq<TyV>)>
    decreases cs.len(),
{
    if cs.len() == 0 {
        None
    } else if cs.last().0 == n {
        Some(cs.last().1)
    } else {
        ctor_named(cs.drop_last(), n)
    }
}

pub open spec fn ctor_names(cs: Seq<(Seq<char>, (Seq<char>, Seq<Seq<char>>, Seq<TyV>))>) -> Seq<Seq<char>> {
    cs.map_values(|e: (Seq<char>, (Seq<char>, Seq<Seq<char>>, Seq<TyV>))| e.0)
}

/// Unifying two types within a typing state.
pub open spec fn unify_in(st: Typing, x: TV, y: TV, ctx: Seq<char>) -> (Typing, Option<Fail>) {
    let (b, e) = st.b.solve(seq![(x, y)], ctx);
    (
        Typing { b, env: st.env },
        match e {
            None => None,
            Some(u) => Some(Fail { code: u.code, msg: u.msg, fix: u.fix, path: None }),
        },
    )
}

/// ` x0 x1 ...` for `k` names.
pub open spec fn xs_text(k: nat) -> Seq<char>
    decreases k,
{
    if k == 0 {
        Seq::empty()
    } else {
        xs_text((k - 1) as nat) + " x"@ + decimal((k - 1) as nat)
    }
}

/// The `n` variables made from `len` on.
pub open spec fn fresh_vars(len: nat, n: nat) -> Seq<TV> {
    Seq::new(n, |k: int| TV::Var((len + k) as usize))
}

/// Type parameters as written type variables.
pub open spec fn param_vars(ps: Seq<Seq<char>>) -> Seq<TyV> {
    ps.map_values(|q: Seq<char>| TyV::Var(q))
}

/// Typing the pattern `p` against the type `e`: a name is defined in the
/// innermost scope; a literal's type is unified with `e`; a tuple or a list
/// is unified with a tuple of new variables or a vector of one, and its
/// parts typed against them; `True` and `False` are booleans; a
/// constructor must be declared and given as many patterns as it carries,
/// its type, over new variables for its parameters, is unified with `e`,
/// and its patterns are typed against its argument types. The first error
/// ends it.
pub open spec fn bind_pat(
    st: Typing,
    cs: Seq<(Seq<char>, (Seq<char>, Seq<Seq<char>>, Seq<TyV>))>,
    p: PatV,
    e: TV,
    path: Seq<char>,
) -> (Typing, Option<Fail>)
    decreases p, 0int,
{
    match p {
        PatV::Wild => (st, None),
        PatV::Var(n) => (
            Typing { b: st.b, env: st.env.drop_last().push(st.env.last().push((n, (Seq::empty(), e)))) },
            None,
        ),
        PatV::Int(_) => unify_in(
            Typing { b: st.b.with_fresh(Kind::Num), env: st.env },
            e,
            TV::Var(st.b.subst.len() as usize),
            " (integer pattern)"@,
        ),
        PatV::Float(_) => unify_in(
            Typing { b: st.b.with_fresh(Kind::Float), env: st.env },
            e,
            TV::Var(st.b.subst.len() as usize),
            " (decimal pattern)"@,
        ),
        PatV::Str(_) => unify_in(st, e, TV::Con("Str"@, Seq::empty()), " (string pattern)"@),
        PatV::Char(_) => unify_in(st, e, TV::Con("Char"@, Seq::empty()), " (character pattern)"@),
        PatV::Bool(_) => unify_in(st, e, TV::Con("Bool"@, Seq::empty()), " (boolean pattern)"@),
        PatV::Tuple(ps) => {
            let ts = fresh_vars(st.b.subst.len(), ps.len());
            let (s1, e1) = unify_in(Typing { b: grow(st.b, ps.len()), env: st.env }, e, TV::Tuple(ts), " (tuple pattern)"@);
            if e1 is Some {
                (s1, e1)
            } else {
                bind_pats_to(s1, cs, ps, ts, path)
            }
        },
        PatV::List(ps) => {
            let el = TV::Var(st.b.subst.len() as usize);
            let (s1, e1) = unify_in(
                Typing { b: st.b.with_fresh(Kind::Any), env: st.env },
                e,
                TV::Con("Vec"@, seq![el]),
                " (list pattern)"@,
            );
            if e1 is Some {
                (s1, e1)
            } else {
                bind_pats_to(s1, cs, ps, Seq::new(ps.len(), |k: int| el), path)
            }
        },
        PatV::Ctor(name, args) => if name == "True"@ || name == "False"@ {
            unify_in(st, e, TV::Con("Bool"@, Seq::empty()), " (boolean pattern)"@)
        } else {
            match ctor_named(cs, name) {
                None => (
                    st,
                    Some(
                        Fail {
                            code: "name.unbound"@,
                            msg: "constructor `"@ + name + "` is not defined"@,
                            fix: match nearest(name, ctor_names(cs)) {
                                Some(s) => Some("did you mean `"@ + s + "`?"@),
                                None => None,
                            },
                            path: Some(path),
                        },
                    ),
                ),
                Some(info) => if args.len() != info.2.len() {
                    (
                        st,
                        Some(
                            Fail {
                                code: "pattern.arity"@,
                                msg: "`"@ + name + "` carries "@ + decimal(info.2.len()) + " value"@ + (if info.2.len()
                                    == 1 {
                                    Seq::empty()
                                } else {
                                    "s"@
                                }) + ", but the pattern binds "@ + decimal(args.len()),
                                fix: Some("write `|"@ + name + xs_text(info.2.len()) + " -> ...`"@),
                                path: Some(path),
                            },
                        ),
                    )
                } else {
                    let len = st.b.subst.len();
                    let (oa, v1, l1) = lowered_list(param_vars(info.1), Seq::empty(), len);
                    let (s1, e1) = unify_in(
                        Typing { b: grow(st.b, (l1 - len) as nat), env: st.env },
                        e,
                        TV::Con(info.0, oa),
                        " (constructor pattern)"@,
                    );
                    if e1 is Some {
                        (s1, e1)
                    } else {
                        bind_ctor_args(s1, cs, args, info.2, v1, path)
                    }
                },
            }
        },
    }
}

/// Typing each pattern against the type at its position, first to last.
pub open spec fn bind_pats_to(
    st: Typing,
    cs: Seq<(Seq<char>, (Seq<char>, Seq<Seq<char>>, Seq<TyV>))>,
    ps: Seq<PatV>,
    ts: Seq<TV>,
    path: Seq<char>,
) -> (Typing, Option<Fail>)
    decreases ps, 1int,
{
    if ps.len() == 0 {
        (st, None)
    } else {
        let (s1, e1) = bind_pat(st, cs, ps[0], ts[0], path);
        if e1 is Some {
            (s1, e1)
        } else {
            bind_pats_to(s1, cs, ps.subrange(1, ps.len() as int), ts.subrange(1, ts.len() as int), path)
        }
    }
}

/// Typing a constructor's patterns, first to last, each against its
/// argument type lowered with the names the constructor's type shares.
pub open spec fn bind_ctor_args(
    st: Typing,
    cs: Seq<(Seq<char>, (Seq<char>, Seq<Seq<char>>, Seq<TyV>))>,
    ps: Seq<PatV>,
    tys: Seq<TyV>,
    vars: Seq<(Seq<char>, TV)>,
    path: Seq<char>,
) -> (Typing, Option<Fail>)
    decreases ps, 1int,
{
    if ps.len() == 0 {
        (st, None)
    } else {
        let len = st.b.subst.len();
        let (at, v2, l2) = lowered(tys[0], vars, len);
        let (s1, e1) = bind_pat(Typing { b: grow(st.b, (l2 - len) as nat), env: st.env }, cs, ps[0], at, path);
        if e1 is Some {
            (s1, e1)
        } else {
            bind_ctor_args(s1, cs, ps.subrange(1, ps.len() as int), tys.subrange(1, tys.len() as int), v2, path)
        }
    }
}

/// Every constructor a pattern names is short enough to compare.
pub open spec fn pat_fits(p: PatV) -> bool
    decreases p, 0int,
{
    match p {
        PatV::Ctor(n, args) => n.len() < usize::MAX && pats_fit(args),
        PatV::List(ps) => pats_fit(ps),
        PatV::Tuple(ps) => pats_fit(ps),
        _ => true,
    }
}

pub open spec fn pats_fit(ps: Seq<PatV>) -> bool
    decreases ps, 1int,
{
    if ps.len() == 0 {
        true
    } else {
        pats_fit(ps.drop_last()) && pat_fits(ps.last())
    }
}

pub proof fn lemma_pats_fit(ps: Seq<PatV>)
    ensures
        pats_fit(ps) ==> forall|k: int| 0 <= k < ps.len() ==> pat_fits(#[trigger] ps[k]),
    decreases ps.len(),
{
    if ps.len() > 0 {
        lemma_pats_fit(ps.drop_last());
        if pats_fit(ps) {
            assert forall|k: int| 0 <= k < ps.len() implies pat_fits(#[trigger] ps[k]) by {
                if k < ps.len() - 1 {
                    assert(ps.drop_last()[k] == ps[k]);
                }
            }
        }
    }
}

/// Every constructor in the table has a name short enough to compare.
pub open spec fn table_fits(cs: Seq<(String, CtorInfo)>) -> bool {
    forall|k: int| 0 <= k < cs.len() ==> (#[trigger] cs[k]).0@.len() < usize::MAX
}

/// The latest entry for the constructor `n`.
fn find_ctor(cs: &Vec<(String, CtorInfo)>, n: &str) -> (r: Option<usize>)
    ensures
        match r {
            Some(k) => k < cs@.len() && ctor_named(ctors_view(cs@), n@) == Some(ctor_view(cs@[k as int].1)),
            None => ctor_named(ctors_view(cs@), n@) is None,
        },
{
    let mut k = cs.len();
    assert(ctors_view(cs@).take(cs@.len() as int) =~= ctors_view(cs@));
    while k > 0
        invariant
            k <= cs@.len(),
            ctor_named(ctors_view(cs@), n@) == ctor_named(ctors_view(cs@).take(k as int), n@),
        decreases k,
    {
        assert(ctors_view(cs@).take(k as int).drop_last() =~= ctors_view(cs@).take(k - 1));
        k -= 1;
        if str_eq(cs[k].0.as_str(), n) {
            return Some(k);
        }
    }
    assert(ctors_view(cs@).take(0) =~= Seq::<(Seq<char>, (Seq<char>, Seq<Seq<char>>, Seq<TyV>))>::empty());
    None
}

/// Types the pattern `p` against `expected`: the names it binds are defined
/// in the innermost scope, and its shape is unified with `expected`.
pub fn bind_pattern(c: &mut Checker, p: &Pat, expected: &T, span: Span, path: &str) -> (r: Result<(), Diag>)
    requires
        old(c).wf(),
        old(c).env@.len() > 0,
        below(expected@, old(c).subst@.len() as int),
        pat_fits(p@),
        table_fits(old(c).data.ctors@),
    ensures
        final(c).wf(),
        final(c).env@.len() == old(c).env@.len(),
        final(c).subst@.len() >= old(c).subst@.len(),
        final(c).keeps_tables(*old(c)),
        ({
            let (s, e) = bind_pat(
                Typing { b: old(c).bindings(), env: old(c).env_view() },
                ctors_view(old(c).data.ctors@),
                p@,
                expected@,
                path@,
            );
            &&& final(c).bindings() == s.b
            &&& final(c).env_view() == s.env
            &&& match e {
                None => r is Ok,
                Some(f) => r matches Err(d) && fails(d, f, span),
            }
        }),
    decreases p, 0int,
{
    let ghost b0 = c.bindings();
    let base = c.subst.len();
    proof {
        b0.lemma_below_ok(expected@);
        assert(below_list(Seq::<TV>::empty(), base as int));
    }
    match p {
        Pat::Wild => Ok(()),
        Pat::Var(n) => {
            c.define(n.as_str(), Scheme::mono(copy_t(expected)));
            assert(c.env_view().len() == c.env@.len());
            Ok(())
        },
        Pat::Int(_) => {
            let v = c.fresh(Kind::Num);
            proof {
                lemma_below_mono(expected@, base as int, base + 1);
                c.bindings().lemma_below_ok(expected@);
                c.bindings().lemma_below_ok(v@);
            }
            c.unify(expected, &v, span, " (integer pattern)")
        },
        Pat::Float(_) => {
            let v = c.fresh(Kind::Float);
            proof {
                lemma_below_mono(expected@, base as int, base + 1);
                c.bindings().lemma_below_ok(expected@);
                c.bindings().lemma_below_ok(v@);
            }
            c.unify(expected, &v, span, " (decimal pattern)")
        },
        Pat::Str(_) => {
            let t = T::con("Str");
            proof {
                c.bindings().lemma_below_ok(t@);
            }
            c.unify(expected, &t, span, " (string pattern)")
        },
        Pat::Char(_) => {
            let t = T::con("Char");
            proof {
                c.bindings().lemma_below_ok(t@);
            }
            c.unify(expected, &t, span, " (character pattern)")
        },
        Pat::Bool(_) => {
            let t = T::con("Bool");
            proof {
                c.bindings().lemma_below_ok(t@);
            }
            c.unify(expected, &t, span, " (boolean pattern)")
        },
        Pat::Tuple(ps) => {
            let n = ps.len();
            let mut tv: Vec<T> = Vec::new();
            let mut k: usize = 0;
            proof {
                assert(b0.subst + Seq::new(0, |i: int| None::<TV>) =~= b0.subst);
                assert(b0.kinds + Seq::new(0, |i: int| Kind::Any) =~= b0.kinds);
                assert(b0.stamps + Seq::new(0, |i: int| 0int) =~= b0.stamps);
                assert(ts_view(tv@) =~= fresh_vars(base as nat, 0));
            }
            while k < n
                invariant
                    k <= n,
                    n == ps@.len(),
                    base == b0.subst.len(),
                    b0 == old(c).bindings(),
                    c.wf(),
                    c.bindings() == grow(b0, k as nat),
                    c.env == old(c).env,
                    c.keeps_tables(*old(c)),
                    c.subst@.len() == base + k,
                    ts_view(tv@) == fresh_vars(base as nat, k as nat),
                decreases n - k,
            {
                let ghost pv = tv@;
                let v = c.fresh(Kind::Any);
                tv.push(v);
                proof {
                    assert(tv@.drop_last() == pv);
                    assert(ts_view(tv@) =~= fresh_vars(base as nat, (k + 1) as nat));
                    assert(c.bindings().subst =~= grow(b0, (k + 1) as nat).subst);
                    assert(c.bindings().kinds =~= grow(b0, (k + 1) as nat).kinds);
                    assert(c.bindings().stamps =~= grow(b0, (k + 1) as nat).stamps);
                }
                k += 1;
            }
            let ghost ts = fresh_vars(base as nat, n as nat);
            let tt = T::Tuple(copy_ts(&tv));
            proof {
                lemma_pats_view(ps@);
                lemma_ts_view(tv@);
                lemma_below_mono(expected@, base as int, (base + n) as int);
                c.bindings().lemma_below_ok(expected@);
                lemma_below_list(ts, (base + n) as int);
                c.bindings().lemma_below_ok(tt@);
                assert(grow(b0, pats_view(ps@).len()) == c.bindings());
            }
            match c.unify(expected, &tt, span, " (tuple pattern)") {
                Ok(()) => {},
                Err(d) => {
                    return Err(d);
                },
            }
            proof {
                lemma_below_list(ts, c.subst@.len() as int);
            }
            bind_each(c, ps, &tv, span, path)
        },
        Pat::List(ps) => {
            let el = c.fresh(Kind::Any);
            let mut inner: Vec<T> = Vec::new();
            inner.push(copy_t(&el));
            let vt = T::Con(owned("Vec"), inner);
            proof {
                lemma_ts_view(inner@);
                assert(ts_view(inner@) =~= seq![el@]);
                lemma_below_mono(expected@, base as int, base + 1);
                c.bindings().lemma_below_ok(expected@);
                assert(below_list(seq![el@], base + 1)) by {
                    lemma_below_list(seq![el@], base + 1);
                }
                c.bindings().lemma_below_ok(vt@);
            }
            match c.unify(expected, &vt, span, " (list pattern)") {
                Ok(()) => {},
                Err(d) => {
                    return Err(d);
                },
            }
            let n = ps.len();
            let mut tv: Vec<T> = Vec::new();
            for k in 0..n
                invariant
                    n == ps@.len(),
                    tv@.len() == k,
                    forall|j: int| 0 <= j < k ==> #[trigger] tv@[j]@ == el@,
            {
                tv.push(copy_t(&el));
            }
            proof {
                lemma_ts_view(tv@);
                lemma_pats_view(ps@);
                assert(ts_view(tv@) =~= Seq::new(pats_view(ps@).len(), |k: int| el@));
                lemma_below_list(ts_view(tv@), c.subst@.len() as int);
                lemma_below_mono(el@, base + 1, c.subst@.len() as int);
            }
            bind_each(c, ps, &tv, span, path)
        },
        Pat::Ctor(name, args) => bind_ctor(c, name, args, expected, span, path),
    }
}

/// One step of typing patterns against types: the first of what is left.
pub proof fn lemma_pats_step(
    st: Typing,
    cs: Seq<(Seq<char>, (Seq<char>, Seq<Seq<char>>, Seq<TyV>))>,
    pv: Seq<PatV>,
    tsv: Seq<TV>,
    k: int,
    path: Seq<char>,
)
    requires
        0 <= k < pv.len(),
        pv.len() == tsv.len(),
    ensures
        bind_pats_to(st, cs, pv.subrange(k, pv.len() as int), tsv.subrange(k, tsv.len() as int), path) == ({
            let (s1, e1) = bind_pat(st, cs, pv[k], tsv[k], path);
            if e1 is Some {
                (s1, e1)
            } else {
                bind_pats_to(s1, cs, pv.subrange(k + 1, pv.len() as int), tsv.subrange(k + 1, tsv.len() as int), path)
            }
        }),
{
    let n = pv.len() as int;
    assert(pv.subrange(k, n)[0] == pv[k]);
    assert(tsv.subrange(k, n)[0] == tsv[k]);
    assert(pv.subrange(k, n).subrange(1, n - k) =~= pv.subrange(k + 1, n));
    assert(tsv.subrange(k, n).subrange(1, n - k) =~= tsv.subrange(k + 1, n));
}

/// Types each pattern against the type at its position, first to last.
#[verifier::spinoff_prover]
#[verifier::rlimit(40)]
fn bind_each(c: &mut Checker, ps: &Vec<Pat>, ts: &Vec<T>, span: Span, path: &str) -> (r: Result<(), Diag>)
    requires
        old(c).wf(),
        old(c).env@.len() > 0,
        ps@.len() == ts@.len(),
        below_list(ts_view(ts@), old(c).subst@.len() as int),
        pats_fit(pats_view(ps@)),
        table_fits(old(c).data.ctors@),
    ensures
        final(c).wf(),
        final(c).env@.len() == old(c).env@.len(),
        final(c).subst@.len() >= old(c).subst@.len(),
        final(c).keeps_tables(*old(c)),
        ({
            let (s, e) = bind_pats_to(
                Typing { b: old(c).bindings(), env: old(c).env_view() },
                ctors_view(old(c).data.ctors@),
                pats_view(ps@),
                ts_view(ts@),
                path@,
            );
            &&& final(c).bindings() == s.b
            &&& final(c).env_view() == s.env
            &&& match e {
                None => r is Ok,
                Some(f) => r matches Err(d) && fails(d, f, span),
            }
        }),
    decreases ps, 1int,
{
    let ghost cs = ctors_view(c.data.ctors@);
    let ghost pv = pats_view(ps@);
    let ghost tsv = ts_view(ts@);
    let ghost whole = bind_pats_to(Typing { b: c.bindings(), env: c.env_view() }, cs, pv, tsv, path@);
    let n = ps.len();
    proof {
        lemma_pats_view(ps@);
        lemma_ts_view(ts@);
        lemma_pats_fit(pv);
        lemma_below_list(tsv, c.subst@.len() as int);
        assert(pv.subrange(0, n as int) =~= pv);
        assert(tsv.subrange(0, n as int) =~= tsv);
    }
    let mut k: usize = 0;
    while k < n
        invariant
            k <= n,
            n == ps@.len(),
            n == ts@.len(),
            pv == pats_view(ps@),
            tsv == ts_view(ts@),
            pv.len() == n,
            tsv.len() == n,
            forall|j: int| 0 <= j < n ==> #[trigger] pv[j] == ps@[j]@,
            forall|j: int| 0 <= j < n ==> pat_fits(#[trigger] pv[j]),
            forall|j: int| 0 <= j < n ==> #[trigger] tsv[j] == ts@[j]@,
            forall|j: int| 0 <= j < n ==> below(#[trigger] tsv[j], c.subst@.len() as int),
            c.wf(),
            c.env@.len() == old(c).env@.len(),
            c.env@.len() > 0,
            c.keeps_tables(*old(c)),
            c.subst@.len() >= old(c).subst@.len(),
            cs == ctors_view(c.data.ctors@),
            cs == ctors_view(old(c).data.ctors@),
            table_fits(c.data.ctors@),
            whole == bind_pats_to(
                Typing { b: old(c).bindings(), env: old(c).env_view() },
                cs,
                pv,
                tsv,
                path@,
            ),
            whole == bind_pats_to(
                Typing { b: c.bindings(), env: c.env_view() },
                cs,
                pv.subrange(k as int, n as int),
                tsv.subrange(k as int, n as int),
                path@,
            ),
        decreases n - k,
    {
        proof {
            assert(decreases_to!(ps => ps@[k as int]));
            lemma_pats_step(Typing { b: c.bindings(), env: c.env_view() }, cs, pv, tsv, k as int, path@);
        }
        let ghost len0 = c.subst@.len();
        let ghost cur = Typing { b: c.bindings(), env: c.env_view() };
        match bind_pattern(c, &ps[k], &ts[k], span, path) {
            Ok(()) => {},
            Err(d) => {
                proof {
                    let (s1, e1) = bind_pat(cur, cs, pv[k as int], tsv[k as int], path@);
                    assert(e1 is Some);
                    assert(whole == (s1, e1));
                    assert(c.bindings() == s1.b);
                    assert(c.env_view() == s1.env);
                    assert(fails(d, e1->0, span));
                }
                return Err(d);
            },
        }
        proof {
            assert forall|j: int| 0 <= j < n implies below(#[trigger] tsv[j], c.subst@.len() as int) by {
                lemma_below_mono(tsv[j], len0 as int, c.subst@.len() as int);
            }
        }
        k += 1;
    }
    Ok(())
}

/// One step of typing a constructor's patterns: the first of what is left.
pub proof fn lemma_args_step(
    st: Typing,
    cs: Seq<(Seq<char>, (Seq<char>, Seq<Seq<char>>, Seq<TyV>))>,
    pv: Seq<PatV>,
    tv: Seq<TyV>,
    vars: Seq<(Seq<char>, TV)>,
    k: int,
    path: Seq<char>,
)
    requires
        0 <= k < pv.len(),
        pv.len() == tv.len(),
    ensures
        bind_ctor_args(st, cs, pv.subrange(k, pv.len() as int), tv.subrange(k, tv.len() as int), vars, path) == ({
            let len = st.b.subst.len();
            let (at, v2, l2) = lowered(tv[k], vars, len);
            let (s1, e1) = bind_pat(Typing { b: grow(st.b, (l2 - len) as nat), env: st.env }, cs, pv[k], at, path);
            if e1 is Some {
                (s1, e1)
            } else {
                bind_ctor_args(s1, cs, pv.subrange(k + 1, pv.len() as int), tv.subrange(k + 1, tv.len() as int), v2, path)
            }
        }),
{
    let n = pv.len() as int;
    assert(pv.subrange(k, n)[0] == pv[k]);
    assert(tv.subrange(k, n)[0] == tv[k]);
    assert(pv.subrange(k, n).subrange(1, n - k) =~= pv.subrange(k + 1, n));
    assert(tv.subrange(k, n).subrange(1, n - k) =~= tv.subrange(k + 1, n));
}

/// Types a constructor pattern: `True` and `False` are booleans; any other
/// constructor must be declared and given as many patterns as it carries.
#[verifier::spinoff_prover]
fn bind_ctor(c: &mut Checker, name: &String, args: &Vec<Pat>, expected: &T, span: Span, path: &str) -> (r: Result<
    (),
    Diag,
>)
    requires
        old(c).wf(),
        old(c).env@.len() > 0,
        below(expected@, old(c).subst@.len() as int),
        pat_fits(PatV::Ctor(name@, pats_view(args@))),
        table_fits(old(c).data.ctors@),
    ensures
        final(c).wf(),
        final(c).env@.len() == old(c).env@.len(),
        final(c).subst@.len() >= old(c).subst@.len(),
        final(c).keeps_tables(*old(c)),
        ({
            let (s, e) = bind_pat(
                Typing { b: old(c).bindings(), env: old(c).env_view() },
                ctors_view(old(c).data.ctors@),
                PatV::Ctor(name@, pats_view(args@)),
                expected@,
                path@,
            );
            &&& final(c).bindings() == s.b
            &&& final(c).env_view() == s.env
            &&& match e {
                None => r is Ok,
                Some(f) => r matches Err(d) && fails(d, f, span),
            }
        }),
    decreases args, 2int,
{
    let ghost b0 = c.bindings();
    let ghost cs = ctors_view(c.data.ctors@);
    let base = c.subst.len();
    proof {
        b0.lemma_below_ok(expected@);
        lemma_pats_view(args@);
        assert(below_list(Seq::<TV>::empty(), base as int));
    }
    if str_eq(name.as_str(), "True") || str_eq(name.as_str(), "False") {
        let t = T::con("Bool");
        proof {
            c.bindings().lemma_below_ok(t@);
        }
        return c.unify(expected, &t, span, " (boolean pattern)");
    }
    let k = match find_ctor(&c.data.ctors, name.as_str()) {
        None => {
            return Err(unbound_ctor(&c.data.ctors, name, span, path));
        },
        Some(k) => k,
    };
    let ghost info = ctor_view(c.data.ctors@[k as int].1);
    let owner = c.data.ctors[k].1.owner.clone();
    let np = c.data.ctors[k].1.params.len();
    let mut pts: Vec<Ty> = Vec::new();
    for i in 0..np
        invariant
            np == c.data.ctors@[k as int].1.params@.len(),
            k < c.data.ctors@.len(),
            info == ctor_view(c.data.ctors@[k as int].1),
            tys_view(pts@) == param_vars(info.1).take(i as int),
    {
        let ghost prev = pts@;
        let q = c.data.ctors[k].1.params[i].clone();
        let ghost qv = q@;
        assert(qv == c.data.ctors@[k as int].1.params@[i as int]@);
        pts.push(Ty::Var(q));
        proof {
            assert(pts@.drop_last() == prev);
            assert(pts@.last()@ == TyV::Var(qv));
            assert(tys_view(pts@) == tys_view(prev).push(TyV::Var(qv)));
            assert(param_vars(info.1).take(i + 1) =~= param_vars(info.1).take(i as int).push(
                TyV::Var(c.data.ctors@[k as int].1.params@[i as int]@),
            ));
        }
    }
    proof {
        assert(param_vars(info.1).take(np as int) =~= param_vars(info.1));
    }
    let cargs = copy_tys(&c.data.ctors[k].1.args);
    proof {
        lemma_tys_view(cargs@);
    }
    if args.len() != cargs.len() {
        return Err(arity_error(name, cargs.len(), args.len(), span, path));
    }
    let mut vars: Vec<(String, T)> = Vec::new();
    proof {
        assert(names_view(vars@) =~= Seq::<(Seq<char>, TV)>::empty());
        assert(names_below(Seq::<(Seq<char>, TV)>::empty(), base as int));
        lemma_lowered_list_below(param_vars(info.1), Seq::empty(), base as nat);
    }
    let oa = c.lower_list(&pts, &mut vars);
    let ct = T::Con(owner, oa);
    proof {
        lemma_below_mono(expected@, base as int, c.subst@.len() as int);
        c.bindings().lemma_below_ok(expected@);
        c.bindings().lemma_below_ok(ct@);
    }
    match c.unify(expected, &ct, span, " (constructor pattern)") {
        Ok(()) => {},
        Err(d) => {
            return Err(d);
        },
    }
    bind_args(c, args, &cargs, &mut vars, span, path)
}

/// Types a constructor's patterns, first to last, each against its
/// argument type lowered with the names the constructor's type shares.
#[verifier::spinoff_prover]
#[verifier::rlimit(40)]
fn bind_args(
    c: &mut Checker,
    ps: &Vec<Pat>,
    tys: &Vec<Ty>,
    vars: &mut Vec<(String, T)>,
    span: Span,
    path: &str,
) -> (r: Result<(), Diag>)
    requires
        old(c).wf(),
        old(c).env@.len() > 0,
        ps@.len() == tys@.len(),
        names_below(names_view(old(vars)@), old(c).subst@.len() as int),
        pats_fit(pats_view(ps@)),
        table_fits(old(c).data.ctors@),
    ensures
        final(c).wf(),
        final(c).env@.len() == old(c).env@.len(),
        final(c).subst@.len() >= old(c).subst@.len(),
        final(c).keeps_tables(*old(c)),
        ({
            let (s, e) = bind_ctor_args(
                Typing { b: old(c).bindings(), env: old(c).env_view() },
                ctors_view(old(c).data.ctors@),
                pats_view(ps@),
                tys_view(tys@),
                names_view(old(vars)@),
                path@,
            );
            &&& final(c).bindings() == s.b
            &&& final(c).env_view() == s.env
            &&& match e {
                None => r is Ok,
                Some(f) => r matches Err(d) && fails(d, f, span),
            }
        }),
    decreases ps, 1int,
{
    let ghost cs = ctors_view(c.data.ctors@);
    let ghost pv = pats_view(ps@);
    let ghost tv = tys_view(tys@);
    let ghost whole = bind_ctor_args(Typing { b: c.bindings(), env: c.env_view() }, cs, pv, tv, names_view(vars@), path@);
    let n = ps.len();
    proof {
        lemma_pats_view(ps@);
        lemma_tys_view(tys@);
        lemma_pats_fit(pv);
        assert(pv.subrange(0, n as int) =~= pv);
        assert(tv.subrange(0, n as int) =~= tv);
    }
    let mut k: usize = 0;
    while k < n
        invariant
            k <= n,
            n == ps@.len(),
            n == tys@.len(),
            pv == pats_view(ps@),
            tv == tys_view(tys@),
            pv.len() == n,
            tv.len() == n,
            forall|j: int| 0 <= j < n ==> #[trigger] pv[j] == ps@[j]@,
            forall|j: int| 0 <= j < n ==> pat_fits(#[trigger] pv[j]),
            forall|j: int| 0 <= j < n ==> #[trigger] tv[j] == tys@[j]@,
            names_below(names_view(vars@), c.subst@.len() as int),
            c.wf(),
            c.env@.len() == old(c).env@.len(),
            c.env@.len() > 0,
            c.keeps_tables(*old(c)),
            c.subst@.len() >= old(c).subst@.len(),
            cs == ctors_view(c.data.ctors@),
            cs == ctors_view(old(c).data.ctors@),
            table_fits(c.data.ctors@),
            whole == bind_ctor_args(
                Typing { b: old(c).bindings(), env: old(c).env_view() },
                cs,
                pv,
                tv,
                names_view(old(vars)@),
                path@,
            ),
            whole == bind_ctor_args(
                Typing { b: c.bindings(), env: c.env_view() },
                cs,
                pv.subrange(k as int, n as int),
                tv.subrange(k as int, n as int),
                names_view(vars@),
                path@,
            ),
        decreases n - k,
    {
        let ghost cur = Typing { b: c.bindings(), env: c.env_view() };
        let ghost nv = names_view(vars@);
        let ghost len = c.subst@.len();
        proof {
            assert(decreases_to!(ps => ps@[k as int]));
            lemma_args_step(cur, cs, pv, tv, nv, k as int, path@);
            lemma_lowered_below(tv[k as int], nv, len);
        }
        let at = c.lower_ty(&tys[k], vars);
        let ghost len2 = c.subst@.len();
        let ghost mid = Typing { b: c.bindings(), env: c.env_view() };
        proof {
            assert(mid.b == grow(cur.b, (len2 - len) as nat));
        }
        match bind_pattern(c, &ps[k], &at, span, path) {
            Ok(()) => {},
            Err(d) => {
                proof {
                    let (s1, e1) = bind_pat(mid, cs, pv[k as int], at@, path@);
                    assert(whole == (s1, e1));
                    assert(fails(d, e1->0, span));
                }
                return Err(d);
            },
        }
        proof {
            let v2 = names_view(vars@);
            assert forall|j: int| 0 <= j < v2.len() implies below(#[trigger] v2[j].1, c.subst@.len() as int) by {
                lemma_below_mono(v2[j].1, len2 as int, c.subst@.len() as int);
            }
        }
        k += 1;
    }
    Ok(())
}


/// The error for a constructor that is not declared, with the nearest
/// declared one as the fix when one is near enough.
#[verifier::spinoff_prover]
fn unbound_ctor(ctors: &Vec<(String, CtorInfo)>, name: &String, span: Span, path: &str) -> (d: Diag)
    requires
        name@.len() < usize::MAX,
        table_fits(ctors@),
    ensures
        fails(
            d,
            Fail {
                code: "name.unbound"@,
                msg: "constructor `"@ + name@ + "` is not defined"@,
                fix: match nearest(name@, ctor_names(ctors_view(ctors@))) {
                    Some(s) => Some("did you mean `"@ + s + "`?"@),
                    None => None,
                },
                path: Some(path@),
            },
            span,
        ),
{
    let mut names: Vec<String> = Vec::new();
    let m = ctors.len();
    for i in 0..m
        invariant
            m == ctors@.len(),
            names@.len() == i,
            forall|j: int| 0 <= j < i ==> #[trigger] names@[j]@ == ctors@[j].0@,
    {
        names.push(ctors[i].0.clone());
    }
    proof {
        assert(texts(names@) =~= ctor_names(ctors_view(ctors@)));
        assert forall|j: int| 0 <= j < names@.len() implies #[trigger] names@[j]@.len() < usize::MAX by {
            assert(ctors@[j].0@.len() < usize::MAX);
        }
    }
    let mut msg = owned("constructor `");
    push_str(&mut msg, name.as_str());
    push_str(&mut msg, "` is not defined");
    let d = Diag::error(span, "name.unbound", msg.as_str());
    let ghost want = nearest(name@, ctor_names(ctors_view(ctors@)));
    let nm = name.as_str();
    let cands = names.as_slice();
    assert(nm@ == name@);
    assert(cands@ == names@);
    assert(texts(cands@) == ctor_names(ctors_view(ctors@)));
    let sg = suggest(nm, cands);
    let d = match sg {
        Some(s) => {
            assert(want == Some(s@));
            let mut f = owned("did you mean `");
            push_str(&mut f, s.as_str());
            push_str(&mut f, "`?");
            let d = d.with_fix(f.as_str());
            assert(opt_view(d.fix) == Some("did you mean `"@ + s@ + "`?"@));
            d
        },
        None => {
            assert(want is None);
            d
        },
    };
    d.at_path(path)
}

/// The error for a constructor pattern with the wrong number of patterns.
fn arity_error(name: &String, m: usize, got: usize, span: Span, path: &str) -> (d: Diag)
    ensures
        fails(
            d,
            Fail {
                code: "pattern.arity"@,
                msg: "`"@ + name@ + "` carries "@ + decimal(m as nat) + " value"@ + (if m == 1 {
                    Seq::empty()
                } else {
                    "s"@
                }) + ", but the pattern binds "@ + decimal(got as nat),
                fix: Some("write `|"@ + name@ + xs_text(m as nat) + " -> ...`"@),
                path: Some(path@),
            },
            span,
        ),
{
    let mut msg = owned("`");
    push_str(&mut msg, name.as_str());
    push_str(&mut msg, "` carries ");
    push_decimal(&mut msg, m as u64);
    push_str(&mut msg, " value");
    let ghost before = msg@;
    if m != 1 {
        push_str(&mut msg, "s");
    }
    assert(msg@ == before + (if m == 1 { Seq::<char>::empty() } else { "s"@ }));
    push_str(&mut msg, ", but the pattern binds ");
    push_decimal(&mut msg, got as u64);
    let mut fix = owned("write `|");
    push_str(&mut fix, name.as_str());
    for i in 0..m
        invariant
            fix@ == "write `|"@ + name@ + xs_text(i as nat),
    {
        push_str(&mut fix, " x");
        push_decimal(&mut fix, i as u64);
    }
    push_str(&mut fix, " -> ...`");
    Diag::error(span, "pattern.arity", msg.as_str()).with_fix(fix.as_str()).at_path(path)
}


/// The names a pattern binds, left to right.
pub fn pat_names(p: &Pat) -> (r: Vec<String>)
    ensures
        texts(r@) == pat_names_of(p@),
{
    let mut out: Vec<String> = Vec::new();
    pat_vars(p, &mut out);
    assert(texts(out@) =~= Seq::<Seq<char>>::empty() + pat_names_of(p@));
    out
}

/// The binders a pattern leaves for the ownership pass: each name it binds
/// that has a meaning, with the type that meaning has, all under `scope`.
pub open spec fn recorded(
    env: Seq<Seq<(Seq<char>, (Seq<usize>, TV))>>,
    sigs: Seq<(Seq<char>, (Seq<usize>, TV))>,
    names: Seq<Seq<char>>,
    scope: Span,
) -> Seq<(Span, Seq<char>, TV)>
    decreases names.len(),
{
    if names.len() == 0 {
        Seq::empty()
    } else {
        let r = recorded(env, sigs, names.drop_last(), scope);
        match looked_up(env, sigs, names.last()) {
            Some(s) => r.push((scope, names.last(), s.1)),
            None => r,
        }
    }
}

/// The binders by their views.
pub open spec fn binds_view(bs: Seq<(Span, String, T)>) -> Seq<(Span, Seq<char>, TV)> {
    bs.map_values(|e: (Span, String, T)| (e.0, e.1@, e.2@))
}

/// Hands the names `p` binds to the ownership pass under the span of the
/// arm they scope over, each with the type it was given.
pub fn record_pattern(c: &mut Checker, p: &Pat, scope: Span)
    ensures
        binds_view(final(c).binds@) == binds_view(old(c).binds@) + recorded(
            old(c).env_view(),
            scope_view(old(c).sigs@),
            pat_names_of(p@),
            scope,
        ),
        final(c).subst == old(c).subst,
        final(c).kinds == old(c).kinds,
        final(c).stamps == old(c).stamps,
        final(c).clock == old(c).clock,
        final(c).env == old(c).env,
        final(c).sigs == old(c).sigs,
        final(c).errors == old(c).errors,
        final(c).data == old(c).data,
        final(c).pending_matches == old(c).pending_matches,
{
    let names = pat_names(p);
    let ghost nv = texts(names@);
    let ghost start = binds_view(c.binds@);
    proof {
        assert(start + recorded(c.env_view(), scope_view(c.sigs@), nv.take(0), scope) =~= start);
    }
    for i in 0..names.len()
        invariant
            nv == texts(names@),
            nv == pat_names_of(p@),
            start == binds_view(old(c).binds@),
            c.subst == old(c).subst,
            c.kinds == old(c).kinds,
            c.stamps == old(c).stamps,
            c.clock == old(c).clock,
            c.env == old(c).env,
            c.sigs == old(c).sigs,
            c.errors == old(c).errors,
            c.data == old(c).data,
            c.pending_matches == old(c).pending_matches,
            binds_view(c.binds@) == start + recorded(old(c).env_view(), scope_view(old(c).sigs@), nv.take(i as int), scope),
    {
        proof {
            assert(nv.take(i + 1).drop_last() =~= nv.take(i as int));
            assert(nv.take(i + 1).last() == names@[i as int]@);
        }
        let ghost before = c.binds@;
        match c.lookup(names[i].as_str()) {
            Some(s) => {
                c.bound(scope, names[i].as_str(), &s.ty);
                proof {
                    assert(c.binds@ == before.push(c.binds@.last()));
                    assert(binds_view(c.binds@) =~= binds_view(before).push((scope, names@[i as int]@, s.ty@)));
                }
            },
            None => {},
        }
    }
    assert(nv.take(names@.len() as int) =~= nv);
}

} // verus!
