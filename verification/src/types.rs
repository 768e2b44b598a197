//! Types as inference sees them, how they are printed, and the small name
//! tables and searches the checker leans on.

use vstd::prelude::*;
use vstd::string::StringSliceAdditionalSpecFns;
use crate::ast::{Ty, TyV, tys_view, Pat, PatV, pats_view, lemma_pats_view};
use crate::text::{chars_of, decimal, join, owned, push_decimal, push_joined, push_str, str_eq};
use crate::diag::{Diag, Span, opt_view};
use crate::cover::{Key, KeyV, column, column_of, cover_member, covers_one, exhaustive, exhaustive_rows, rows_view};

verus! {

/// An inferred type: a variable, or a constructor applied to types.
#[derive(Debug)]
pub enum T {
    Var(usize),
    Con(String, Vec<T>),
    Fun(Box<T>, Box<T>),
    Tuple(Vec<T>),
    Eff(Box<T>),
}

/// What an inferred type is, with its names as character sequences.
pub enum TV {
    Var(usize),
    Con(Seq<char>, Seq<TV>),
    Fun(Box<TV>, Box<TV>),
    Tuple(Seq<TV>),
    Eff(Box<TV>),
}

pub open spec fn t_view(t: T) -> TV
    decreases t,
{
    match t {
        T::Var(i) => TV::Var(i),
        T::Con(n, args) => TV::Con(n@, ts_view(args@)),
        T::Fun(a, b) => TV::Fun(Box::new(t_view(*a)), Box::new(t_view(*b))),
        T::Tuple(ts) => TV::Tuple(ts_view(ts@)),
        T::Eff(x) => TV::Eff(Box::new(t_view(*x))),
    }
}

/// The views of a sequence of types.
pub open spec fn ts_view(ts: Seq<T>) -> Seq<TV>
    decreases ts,
{
    if ts.len() == 0 {
        Seq::empty()
    } else {
        ts_view(ts.drop_last()).push(t_view(ts.last()))
    }
}

impl View for T {
    type V = TV;

    open spec fn view(&self) -> TV {
        t_view(*self)
    }
}

pub proof fn lemma_ts_view(ts: Seq<T>)
    ensures
        ts_view(ts).len() == ts.len(),
        forall|i: int| 0 <= i < ts.len() ==> #[trigger] ts_view(ts)[i] == ts[i]@,
    decreases ts.len(),
{
    if ts.len() > 0 {
        lemma_ts_view(ts.drop_last());
    }
}

/// A copy of `t`, equal to it.
pub fn copy_t(t: &T) -> (r: T)
    ensures
        r@ == t@,
    decreases t,
{
    match t {
        T::Var(i) => T::Var(*i),
        T::Con(n, args) => T::Con(n.clone(), copy_ts(args)),
        T::Fun(a, b) => T::Fun(Box::new(copy_t(a)), Box::new(copy_t(b))),
        T::Tuple(ts) => T::Tuple(copy_ts(ts)),
        T::Eff(x) => T::Eff(Box::new(copy_t(x))),
    }
}

/// A copy of every type in `ts`.
pub fn copy_ts(ts: &Vec<T>) -> (r: Vec<T>)
    ensures
        ts_view(r@) == ts_view(ts@),
    decreases ts,
{
    let mut out: Vec<T> = Vec::new();
    for i in 0..ts.len()
        invariant
            ts_view(out@) == ts_view(ts@.take(i as int)),
    {
        proof {
            assert(decreases_to!(ts => ts@[i as int]));
        }
        let ghost prev = out@;
        let c = copy_t(&ts[i]);
        out.push(c);
        assert(out@.drop_last() == prev);
        assert(ts@.take(i + 1).drop_last() == ts@.take(i as int));
    }
    assert(ts@.take(ts@.len() as int) == ts@);
    out
}

impl Clone for T {
    fn clone(&self) -> (r: T)
        ensures
            r@ == self@,
    {
        copy_t(self)
    }
}

/// How a type is printed in a message: `Vec (Res Str U64)`, `a -> b`,
/// `(U8, Bool)`, `E! Unit`.
pub open spec fn show_text(t: TV) -> Seq<char>
    decreases t, 0int,
{
    match t {
        TV::Var(i) => "t"@ + decimal(i as nat),
        TV::Con(n, a) => if a.len() == 0 {
            n
        } else {
            n + " "@ + join(atoms_text(a), " "@)
        },
        TV::Fun(a, b) => show_atom_text(*a) + " -> "@ + show_text(*b),
        TV::Tuple(ts) => "("@ + join(shows_text(ts), ", "@) + ")"@,
        TV::Eff(x) => "E! "@ + show_atom_text(*x),
    }
}

/// A type as an argument of another: in parentheses unless it is a name or
/// a variable or a tuple.
pub open spec fn show_atom_text(t: TV) -> Seq<char>
    decreases t, 1int,
{
    match t {
        TV::Con(_, a) => if a.len() > 0 {
            "("@ + show_text(t) + ")"@
        } else {
            show_text(t)
        },
        TV::Fun(_, _) => "("@ + show_text(t) + ")"@,
        TV::Eff(_) => "("@ + show_text(t) + ")"@,
        _ => show_text(t),
    }
}

/// Each type printed as an argument.
pub open spec fn atoms_text(ts: Seq<TV>) -> Seq<Seq<char>>
    decreases ts, 2int,
{
    if ts.len() == 0 {
        Seq::empty()
    } else {
        atoms_text(ts.drop_last()).push(show_atom_text(ts.last()))
    }
}

/// Each type printed in full.
pub open spec fn shows_text(ts: Seq<TV>) -> Seq<Seq<char>>
    decreases ts, 2int,
{
    if ts.len() == 0 {
        Seq::empty()
    } else {
        shows_text(ts.drop_last()).push(show_text(ts.last()))
    }
}

impl T {
    pub fn con(n: &str) -> (t: T)
        ensures
            t@ == TV::Con(n@, Seq::empty()),
    {
        let v: Vec<T> = Vec::new();
        assert(ts_view(v@) == Seq::<TV>::empty());
        T::Con(owned(n), v)
    }

    pub fn unit() -> (t: T)
        ensures
            t@ == TV::Con("Unit"@, Seq::empty()),
    {
        T::con("Unit")
    }

    pub fn show(&self) -> (r: String)
        ensures
            r@ == show_text(self@),
        decreases self, 0int,
    {
        match self {
            T::Var(i) => {
                let mut s = owned("t");
                push_decimal(&mut s, *i as u64);
                s
            },
            T::Con(n, a) => {
                if a.len() == 0 {
                    proof {
                        lemma_ts_view(a@);
                    }
                    return n.clone();
                }
                let parts = atoms(a);
                let mut s = n.clone();
                push_str(&mut s, " ");
                push_joined(&mut s, parts.as_slice(), " ");
                proof {
                    lemma_ts_view(a@);
                }
                s
            },
            T::Fun(a, b) => {
                let mut s = a.show_atom();
                push_str(&mut s, " -> ");
                let rb = b.show();
                push_str(&mut s, rb.as_str());
                s
            },
            T::Tuple(ts) => {
                let parts = shows(ts);
                let mut s = owned("(");
                push_joined(&mut s, parts.as_slice(), ", ");
                push_str(&mut s, ")");
                s
            },
            T::Eff(x) => {
                let mut s = owned("E! ");
                let rx = x.show_atom();
                push_str(&mut s, rx.as_str());
                s
            },
        }
    }

    pub fn show_atom(&self) -> (r: String)
        ensures
            r@ == show_atom_text(self@),
        decreases self, 1int,
    {
        match self {
            T::Con(_, a) => {
                proof {
                    lemma_ts_view(a@);
                }
                if a.len() > 0 {
                    let mut s = owned("(");
                    let inner = self.show();
                    push_str(&mut s, inner.as_str());
                    push_str(&mut s, ")");
                    s
                } else {
                    self.show()
                }
            },
            T::Fun(_, _) | T::Eff(_) => {
                let mut s = owned("(");
                let inner = self.show();
                push_str(&mut s, inner.as_str());
                push_str(&mut s, ")");
                s
            },
            _ => self.show(),
        }
    }
}

/// Each of `ts` printed as an argument.
fn atoms(ts: &Vec<T>) -> (r: Vec<String>)
    ensures
        r@.map_values(|s: String| s@) == atoms_text(ts_view(ts@)),
    decreases ts, 2int,
{
    let mut out: Vec<String> = Vec::new();
    for i in 0..ts.len()
        invariant
            out@.map_values(|s: String| s@) == atoms_text(ts_view(ts@.take(i as int))),
    {
        proof {
            assert(decreases_to!(ts => ts@[i as int]));
        }
        let ghost prev = out@;
        let a = ts[i].show_atom();
        out.push(a);
        proof {
            assert(ts@.take(i + 1).drop_last() == ts@.take(i as int));
            let v1 = ts_view(ts@.take(i + 1));
            assert(v1.drop_last() == ts_view(ts@.take(i as int)));
            assert(v1.last() == ts@[i as int]@);
            assert(out@.drop_last() == prev);
        }
        assert(out@.map_values(|s: String| s@) =~= prev.map_values(|s: String| s@).push(a@));
    }
    assert(ts@.take(ts@.len() as int) == ts@);
    out
}

/// Each of `ts` printed in full.
fn shows(ts: &Vec<T>) -> (r: Vec<String>)
    ensures
        r@.map_values(|s: String| s@) == shows_text(ts_view(ts@)),
    decreases ts, 2int,
{
    let mut out: Vec<String> = Vec::new();
    for i in 0..ts.len()
        invariant
            out@.map_values(|s: String| s@) == shows_text(ts_view(ts@.take(i as int))),
    {
        proof {
            assert(decreases_to!(ts => ts@[i as int]));
        }
        let ghost prev = out@;
        let a = ts[i].show();
        out.push(a);
        proof {
            assert(ts@.take(i + 1).drop_last() == ts@.take(i as int));
            let v1 = ts_view(ts@.take(i + 1));
            assert(v1.drop_last() == ts_view(ts@.take(i as int)));
            assert(v1.last() == ts@[i as int]@);
            assert(out@.drop_last() == prev);
        }
        assert(out@.map_values(|s: String| s@) =~= prev.map_values(|s: String| s@).push(a@));
    }
    assert(ts@.take(ts@.len() as int) == ts@);
    out
}

/// A type with the variables it is generic over.
pub struct Scheme {
    pub vars: Vec<usize>,
    pub ty: T,
}

impl Scheme {
    /// A type that is generic over nothing.
    pub fn mono(t: T) -> (s: Scheme)
        ensures
            s.vars@ == Seq::<usize>::empty(),
            s.ty == t,
    {
        Scheme { vars: Vec::new(), ty: t }
    }
}

/// Numeric constraints on literal type variables, resolved by defaulting.
#[derive(Clone, Copy, PartialEq, Eq, Debug, Structural)]
pub enum Kind {
    Any,
    Num,
    Float,
}

/// What a constructor belongs to and carries.
pub struct CtorInfo {
    pub owner: String,
    pub params: Vec<String>,
    pub args: Vec<Ty>,
    pub tag: usize,
}

/// The machine numeric types.
pub open spec fn numeric(n: Seq<char>) -> bool {
    n == "U8"@ || n == "U16"@ || n == "U32"@ || n == "U64"@ || n == "I8"@ || n == "I16"@ || n
        == "I32"@ || n == "I64"@ || n == "F32"@ || n == "F64"@
}

pub fn is_num(n: &str) -> (r: bool)
    ensures
        r == numeric(n@),
{
    str_eq(n, "U8") || str_eq(n, "U16") || str_eq(n, "U32") || str_eq(n, "U64") || str_eq(n, "I8")
        || str_eq(n, "I16") || str_eq(n, "I32") || str_eq(n, "I64") || str_eq(n, "F32") || str_eq(
        n,
        "F64",
    )
}

/// Names typed by a rule rather than by a signature.
pub open spec fn special(name: Seq<char>) -> bool {
    name == "fmt"@ || name == "show"@ || name == "len"@
}

pub fn is_special(name: &str) -> (r: bool)
    ensures
        r == special(name@),
{
    str_eq(name, "fmt") || str_eq(name, "show") || str_eq(name, "len")
}

/// `Nat` and `Size` are `U64` at run time.
pub open spec fn normalised(n: Seq<char>) -> Seq<char> {
    if n == "Nat"@ || n == "Size"@ {
        "U64"@
    } else {
        n
    }
}

pub fn normalise_type_name(n: &str) -> (r: String)
    ensures
        r@ == normalised(n@),
{
    if str_eq(n, "Nat") || str_eq(n, "Size") {
        owned("U64")
    } else {
        owned(n)
    }
}

// ------------------------------------------------------------ generalising

/// The type variables of `t`, left to right, each as often as it occurs.
pub open spec fn tvars(t: TV) -> Seq<usize>
    decreases t, 0int,
{
    match t {
        TV::Var(i) => seq![i],
        TV::Con(_, a) => tvars_list(a),
        TV::Fun(a, b) => tvars(*a) + tvars(*b),
        TV::Tuple(ts) => tvars_list(ts),
        TV::Eff(x) => tvars(*x),
    }
}

pub open spec fn tvars_list(ts: Seq<TV>) -> Seq<usize>
    decreases ts, 1int,
{
    if ts.len() == 0 {
        Seq::empty()
    } else {
        tvars_list(ts.drop_last()) + tvars(ts.last())
    }
}

/// `out` extended by those of `xs` it does not hold yet, in order.
pub open spec fn add_new(out: Seq<usize>, xs: Seq<usize>) -> Seq<usize>
    decreases xs.len(),
{
    if xs.len() == 0 {
        out
    } else {
        let o = add_new(out, xs.drop_last());
        if o.contains(xs.last()) {
            o
        } else {
            o.push(xs.last())
        }
    }
}

pub proof fn lemma_add_new_concat(out: Seq<usize>, xs: Seq<usize>, ys: Seq<usize>)
    ensures
        add_new(out, xs + ys) == add_new(add_new(out, xs), ys),
    decreases ys.len(),
{
    if ys.len() == 0 {
        assert(xs + ys == xs);
    } else {
        assert((xs + ys).drop_last() == xs + ys.drop_last());
        assert((xs + ys).last() == ys.last());
        lemma_add_new_concat(out, xs, ys.drop_last());
    }
}

fn holds(v: &Vec<usize>, x: usize) -> (r: bool)
    ensures
        r == v@.contains(x),
{
    for k in 0..v.len()
        invariant
            forall|j: int| 0 <= j < k ==> v@[j] != x,
    {
        if v[k] == x {
            return true;
        }
    }
    false
}

/// Adds the type variables of `t` that `out` does not hold yet, in the order
/// they occur.
pub fn collect_vars(t: &T, out: &mut Vec<usize>)
    ensures
        final(out)@ == add_new(old(out)@, tvars(t@)),
    decreases t,
{
    match t {
        T::Var(i) => {
            let ghost before = out@;
            assert(seq![*i].drop_last() == Seq::<usize>::empty());
            assert(seq![*i].last() == *i);
            assert(add_new(before, Seq::<usize>::empty()) == before);
            if !holds(out, *i) {
                out.push(*i);
            }
        },
        T::Con(_, a) => {
            collect_all(a, out);
        },
        T::Fun(a, b) => {
            let ghost start = out@;
            collect_vars(a, out);
            collect_vars(b, out);
            proof {
                lemma_add_new_concat(start, tvars(a@), tvars(b@));
            }
        },
        T::Tuple(ts) => {
            collect_all(ts, out);
        },
        T::Eff(x) => {
            collect_vars(x, out);
        },
    }
}

fn collect_all(ts: &Vec<T>, out: &mut Vec<usize>)
    ensures
        final(out)@ == add_new(old(out)@, tvars_list(ts_view(ts@))),
    decreases ts,
{
    let ghost start = out@;
    for i in 0..ts.len()
        invariant
            out@ == add_new(start, tvars_list(ts_view(ts@.take(i as int)))),
    {
        proof {
            assert(decreases_to!(ts => ts@[i as int]));
        }
        let ghost mid = out@;
        collect_vars(&ts[i], out);
        proof {
            assert(ts@.take(i + 1).drop_last() == ts@.take(i as int));
            let v1 = ts_view(ts@.take(i + 1));
            assert(v1.drop_last() == ts_view(ts@.take(i as int)));
            assert(v1.last() == ts@[i as int]@);
            lemma_add_new_concat(start, tvars_list(ts_view(ts@.take(i as int))), tvars(ts@[i as int]@));
        }
    }
    assert(ts@.take(ts@.len() as int) == ts@);
}

// ------------------------------------------------------------ suggestions

pub open spec fn min2(x: nat, y: nat) -> nat {
    if x <= y {
        x
    } else {
        y
    }
}

/// The Levenshtein distance: the fewest one-character insertions,
/// deletions and substitutions that turn `a` into `b`.
pub open spec fn lev(a: Seq<char>, b: Seq<char>) -> nat
    decreases a.len() + b.len(),
{
    if a.len() == 0 {
        b.len()
    } else if b.len() == 0 {
        a.len()
    } else {
        min2(
            min2(lev(a.drop_last(), b) + 1, lev(a, b.drop_last()) + 1),
            lev(a.drop_last(), b.drop_last()) + if a.last() == b.last() {
                0nat
            } else {
                1nat
            },
        )
    }
}

/// The distance is at least the difference of the lengths and at most the
/// greater length.
pub proof fn lemma_lev_bounds(a: Seq<char>, b: Seq<char>)
    ensures
        lev(a, b) <= if a.len() >= b.len() { a.len() } else { b.len() },
        lev(a, b) >= if a.len() >= b.len() { a.len() - b.len() } else { b.len() - a.len() },
    decreases a.len() + b.len(),
{
    if a.len() > 0 && b.len() > 0 {
        lemma_lev_bounds(a.drop_last(), b);
        lemma_lev_bounds(a, b.drop_last());
        lemma_lev_bounds(a.drop_last(), b.drop_last());
    }
}

/// A name is at distance zero from itself, and from nothing else.
pub proof fn lemma_lev_zero(a: Seq<char>, b: Seq<char>)
    ensures
        lev(a, b) == 0 <==> a == b,
    decreases a.len() + b.len(),
{
    if a.len() > 0 && b.len() > 0 {
        lemma_lev_zero(a.drop_last(), b.drop_last());
        lemma_lev_bounds(a.drop_last(), b);
        lemma_lev_bounds(a, b.drop_last());
        if a == b {
            assert(a.drop_last() == b.drop_last());
        }
        if lev(a, b) == 0 {
            assert(a =~= a.drop_last().push(a.last()));
            assert(b =~= b.drop_last().push(b.last()));
        }
    } else if a.len() == 0 && b.len() == 0 {
        assert(a =~= b);
    }
}

/// The distance from `a` to `b` is the distance from `b` to `a`.
pub proof fn lemma_lev_symmetric(a: Seq<char>, b: Seq<char>)
    ensures
        lev(a, b) == lev(b, a),
    decreases a.len() + b.len(),
{
    if a.len() > 0 && b.len() > 0 {
        lemma_lev_symmetric(a.drop_last(), b);
        lemma_lev_symmetric(a, b.drop_last());
        lemma_lev_symmetric(a.drop_last(), b.drop_last());
    }
}

/// Turning a name into nothing, or nothing into a name, takes one edit per
/// character.
pub proof fn lemma_lev_to_nothing(a: Seq<char>)
    ensures
        lev(a, Seq::empty()) == a.len(),
        lev(Seq::empty(), a) == a.len(),
{
}

/// The laws `edit_distance` keeps, as it returns `lev`: a name is at
/// distance zero from itself and from nothing else, the distance is the same
/// both ways, and the distance to or from nothing is the length.
pub proof fn lemma_edit_distance_laws(a: Seq<char>, b: Seq<char>)
    ensures
        lev(a, a) == 0,
        lev(a, b) == 0 <==> a == b,
        lev(a, b) == lev(b, a),
        lev(a, Seq::empty()) == a.len(),
        lev(Seq::empty(), a) == a.len(),
{
    lemma_lev_zero(a, a);
    lemma_lev_zero(a, b);
    lemma_lev_symmetric(a, b);
    lemma_lev_to_nothing(a);
}

/// Levenshtein distance, for `did you mean` suggestions.
pub fn edit_distance(a: &str, b: &str) -> (r: usize)
    requires
        a@.len() < usize::MAX,
        b@.len() < usize::MAX,
    ensures
        r == lev(a@, b@),
{
    let a = chars_of(a);
    let b = chars_of(b);
    let n = a.len();
    let m = b.len();
    let mut prev: Vec<usize> = Vec::new();
    for k in 0..m + 1
        invariant
            m == b@.len(),
            prev@.len() == k,
            forall|j: int| 0 <= j < k ==> #[trigger] prev@[j] == lev(a@.take(0), b@.take(j)),
    {
        proof {
            assert(a@.take(0).len() == 0);
        }
        prev.push(k);
    }
    let mut cur: Vec<usize> = Vec::new();
    for k in 0..m + 1
        invariant
            cur@.len() == k,
    {
        cur.push(0);
    }
    for i in 1..n + 1
        invariant
            n == a@.len() < usize::MAX,
            m == b@.len() < usize::MAX,
            prev@.len() == m + 1,
            cur@.len() == m + 1,
            forall|j: int| 0 <= j <= m ==> #[trigger] prev@[j] == lev(a@.take(i - 1), b@.take(j)),
    {
        let ghost ai = a@.take(i as int);
        proof {
            assert(ai.drop_last() == a@.take(i - 1));
            assert(ai.last() == a@[i - 1]);
            assert(b@.take(0).len() == 0);
        }
        cur.set(0, i);
        for j in 1..m + 1
            invariant
                n == a@.len() < usize::MAX,
                m == b@.len() < usize::MAX,
                1 <= i <= n,
                ai == a@.take(i as int),
                ai.drop_last() == a@.take(i - 1),
                ai.last() == a@[i - 1],
                prev@.len() == m + 1,
                cur@.len() == m + 1,
                forall|k: int| 0 <= k <= m ==> #[trigger] prev@[k] == lev(a@.take(i - 1), b@.take(k)),
                forall|k: int| 0 <= k < j ==> #[trigger] cur@[k] == lev(ai, b@.take(k)),
        {
            let ghost bj = b@.take(j as int);
            proof {
                assert(bj.drop_last() == b@.take(j - 1));
                assert(bj.last() == b@[j - 1]);
                lemma_lev_bounds(a@.take(i - 1), bj);
                lemma_lev_bounds(ai, b@.take(j - 1));
                lemma_lev_bounds(a@.take(i - 1), b@.take(j - 1));
            }
            let cost: usize = if a[i - 1] == b[j - 1] {
                0
            } else {
                1
            };
            let x = prev[j] + 1;
            assert(cur@[j - 1] == lev(ai, b@.take(j - 1)));
            let y = cur[j - 1] + 1;
            let z = prev[j - 1] + cost;
            let xy = if x <= y {
                x
            } else {
                y
            };
            let v = if xy <= z {
                xy
            } else {
                z
            };
            cur.set(j, v);
        }
        std::mem::swap(&mut prev, &mut cur);
    }
    assert(a@.take(n as int) == a@);
    assert(b@.take(m as int) == b@);
    prev[m]
}

/// How far a candidate may be from a name to be suggested for it: a third of
/// the name's length in bytes, and at least two.
pub open spec fn suggestion_limit(name: Seq<char>) -> nat {
    let k = ((vstd::utf8::encode_utf8(name).len() as usize) / 3) as nat;
    if k > 2 {
        k
    } else {
        2
    }
}

pub open spec fn close_to(name: Seq<char>, c: Seq<char>) -> bool {
    lev(name, c) <= suggestion_limit(name)
}

/// Candidate `k` is the one to suggest: within the limit, no farther than
/// any other within it, and nearer than every earlier one within it.
pub open spec fn nearest_at(name: Seq<char>, cs: Seq<Seq<char>>, k: int) -> bool {
    &&& 0 <= k < cs.len()
    &&& close_to(name, cs[k])
    &&& forall|j: int| 0 <= j < cs.len() && close_to(name, #[trigger] cs[j]) ==> lev(name, cs[k]) <= lev(name, cs[j])
    &&& forall|j: int| 0 <= j < k && close_to(name, #[trigger] cs[j]) ==> lev(name, cs[k]) < lev(name, cs[j])
}

/// Strings by their characters.
pub open spec fn texts(cs: Seq<String>) -> Seq<Seq<char>> {
    cs.map_values(|c: String| c@)
}

/// The candidate to suggest, if any is within the limit.
pub open spec fn nearest(name: Seq<char>, cs: Seq<Seq<char>>) -> Option<Seq<char>> {
    if exists|k: int| nearest_at(name, cs, k) {
        Some(cs[choose|k: int| nearest_at(name, cs, k)])
    } else {
        None
    }
}

/// At most one candidate is the one to suggest.
pub proof fn lemma_nearest_unique(name: Seq<char>, cs: Seq<Seq<char>>, k1: int, k2: int)
    requires
        nearest_at(name, cs, k1),
        nearest_at(name, cs, k2),
    ensures
        k1 == k2,
{
    if k1 < k2 {
        assert(lev(name, cs[k2]) < lev(name, cs[k1]));
        assert(lev(name, cs[k1]) <= lev(name, cs[k2]));
    } else if k2 < k1 {
        assert(lev(name, cs[k1]) < lev(name, cs[k2]));
        assert(lev(name, cs[k2]) <= lev(name, cs[k1]));
    }
}

/// The candidate to suggest for a misspelt name: the nearest within the
/// limit, the first of those if several are as near; none when no candidate
/// is within the limit.
pub fn suggest(name: &str, candidates: &[String]) -> (r: Option<String>)
    requires
        name@.len() < usize::MAX,
        forall|k: int| 0 <= k < candidates@.len() ==> #[trigger] candidates@[k]@.len() < usize::MAX,
    ensures
        ({
            let cs = candidates@.map_values(|c: String| c@);
            match r {
                None => forall|k: int| 0 <= k < cs.len() ==> !close_to(name@, #[trigger] cs[k]),
                Some(s) => exists|k: int|
                    0 <= k < cs.len() && cs[k] == s@ && close_to(name@, cs[k]) && (forall|j: int|
                        0 <= j < cs.len() && close_to(name@, #[trigger] cs[j]) ==> lev(name@, cs[k])
                            <= lev(name@, cs[j])) && (forall|j: int|
                        0 <= j < k && close_to(name@, #[trigger] cs[j]) ==> lev(name@, cs[k]) < lev(
                            name@,
                            cs[j],
                        )),
            }
        }),
        match r {
            Some(s) => nearest(name@, texts(candidates@)) == Some(s@),
            None => nearest(name@, texts(candidates@)) is None,
        },
{
    let ghost cs = candidates@.map_values(|c: String| c@);
    assert(cs == texts(candidates@));
    assert(name.spec_bytes() == vstd::utf8::encode_utf8(name@));
    let third = name.len() / 3;
    let limit: usize = if third > 2 {
        third
    } else {
        2
    };
    assert(limit == suggestion_limit(name@));
    let mut best: Option<(usize, usize)> = None;
    for i in 0..candidates.len()
        invariant
            cs == candidates@.map_values(|c: String| c@),
            limit == suggestion_limit(name@),
            name@.len() < usize::MAX,
            forall|k: int| 0 <= k < candidates@.len() ==> #[trigger] candidates@[k]@.len() < usize::MAX,
            match best {
                None => forall|k: int| 0 <= k < i ==> !close_to(name@, #[trigger] cs[k]),
                Some((d, b)) => b < i && d == lev(name@, cs[b as int]) && close_to(name@, cs[b as int])
                    && (forall|j: int| 0 <= j < i && close_to(name@, #[trigger] cs[j]) ==> d <= lev(
                    name@,
                    cs[j],
                )) && (forall|j: int| 0 <= j < b && close_to(name@, #[trigger] cs[j]) ==> d < lev(
                    name@,
                    cs[j],
                )),
            },
    {
        assert(cs[i as int] == candidates@[i as int]@);
        let d = edit_distance(name, candidates[i].as_str());
        let better = match best {
            None => true,
            Some((bd, _)) => d < bd,
        };
        if d <= limit && better {
            best = Some((d, i));
        }
    }
    match best {
        None => {
            assert(!exists|k: int| nearest_at(name@, cs, k));
            None
        },
        Some((_, b)) => {
            assert(cs[b as int] == candidates@[b as int]@);
            proof {
                assert(nearest_at(name@, cs, b as int));
                let k = choose|k: int| nearest_at(name@, cs, k);
                lemma_nearest_unique(name@, cs, k, b as int);
            }
            Some(candidates[b].clone())
        },
    }
}


// ------------------------------------------------------------ the substitution

/// An optional type by its view.
pub open spec fn opt_tv(o: Option<T>) -> Option<TV> {
    match o {
        Some(t) => Some(t@),
        None => None,
    }
}

/// What the checker's substitution holds, with the numeric constraint of
/// every variable, and, for the proofs, when each bound variable was bound.
pub struct Bindings {
    pub subst: Seq<Option<TV>>,
    pub kinds: Seq<Kind>,
    pub stamps: Seq<int>,
    pub clock: int,
}

impl Bindings {
    /// A new unbound variable with the constraint `k`.
    pub open spec fn with_fresh(self, k: Kind) -> Bindings {
        Bindings { subst: self.subst.push(None), kinds: self.kinds.push(k), stamps: self.stamps.push(0), clock: self.clock }
    }

    pub open spec fn bound(self, i: int) -> bool {
        0 <= i < self.subst.len() && self.subst[i] is Some
    }

    /// Every variable of `t` exists, and each bound one was bound at `lo`
    /// or later.
    pub open spec fn vars_ok(self, t: TV, lo: int) -> bool
        decreases t, 0int,
    {
        match t {
            TV::Var(i) => i < self.subst.len() && (self.bound(i as int) ==> lo <= self.stamps[i as int]),
            TV::Con(_, a) => self.list_ok(a, lo),
            TV::Fun(a, b) => self.vars_ok(*a, lo) && self.vars_ok(*b, lo),
            TV::Tuple(ts) => self.list_ok(ts, lo),
            TV::Eff(x) => self.vars_ok(*x, lo),
        }
    }

    pub open spec fn list_ok(self, ts: Seq<TV>, lo: int) -> bool
        decreases ts, 1int,
    {
        if ts.len() == 0 {
            true
        } else {
            self.list_ok(ts.drop_last(), lo) && self.vars_ok(ts.last(), lo)
        }
    }

    /// Every variable of `t` exists and is unbound: `t` is fully resolved.
    pub open spec fn free_of(self, t: TV) -> bool
        decreases t, 0int,
    {
        match t {
            TV::Var(i) => i < self.subst.len() && !self.bound(i as int),
            TV::Con(_, a) => self.list_free(a),
            TV::Fun(a, b) => self.free_of(*a) && self.free_of(*b),
            TV::Tuple(ts) => self.list_free(ts),
            TV::Eff(x) => self.free_of(*x),
        }
    }

    pub open spec fn list_free(self, ts: Seq<TV>) -> bool
        decreases ts, 1int,
    {
        if ts.len() == 0 {
            true
        } else {
            self.list_free(ts.drop_last()) && self.free_of(ts.last())
        }
    }

    /// The tables agree in length; every binding was made before the clock,
    /// and mentions only variables that exist and that, if bound, were bound
    /// after it. So following bindings always ends.
    pub open spec fn wf(self) -> bool {
        &&& self.kinds.len() == self.subst.len()
        &&& self.stamps.len() == self.subst.len()
        &&& 0 <= self.clock
        &&& forall|i: int| #[trigger] self.bound(i) ==> 0 <= self.stamps[i] < self.clock
            && self.vars_ok(self.subst[i]->0, self.stamps[i] + 1)
    }

    /// `t` with every bound variable replaced, through the bindings, by what
    /// it stands for; only bindings made at `lo` or later are followed.
    pub open spec fn res(self, t: TV, lo: int) -> TV
        decreases self.clock - lo, t, 0int,
    {
        match t {
            TV::Var(i) => if self.bound(i as int) && lo <= self.stamps[i as int] < self.clock {
                self.res(self.subst[i as int]->0, self.stamps[i as int] + 1)
            } else {
                t
            },
            TV::Con(n, a) => TV::Con(n, self.res_list(a, lo)),
            TV::Fun(a, b) => TV::Fun(Box::new(self.res(*a, lo)), Box::new(self.res(*b, lo))),
            TV::Tuple(ts) => TV::Tuple(self.res_list(ts, lo)),
            TV::Eff(x) => TV::Eff(Box::new(self.res(*x, lo))),
        }
    }

    pub open spec fn res_list(self, ts: Seq<TV>, lo: int) -> Seq<TV>
        decreases self.clock - lo, ts, 1int,
    {
        if ts.len() == 0 {
            Seq::empty()
        } else {
            self.res_list(ts.drop_last(), lo).push(self.res(ts.last(), lo))
        }
    }

    /// `t` fully resolved.
    pub open spec fn resolved(self, t: TV) -> TV {
        self.res(t, 0)
    }

    pub proof fn lemma_list_ok(self, ts: Seq<TV>, lo: int)
        ensures
            self.list_ok(ts, lo) <==> forall|k: int| 0 <= k < ts.len() ==> self.vars_ok(#[trigger] ts[k], lo),
        decreases ts.len(),
    {
        if ts.len() > 0 {
            let d = ts.drop_last();
            self.lemma_list_ok(d, lo);
            if self.list_ok(ts, lo) {
                assert forall|k: int| 0 <= k < ts.len() implies self.vars_ok(#[trigger] ts[k], lo) by {
                    if k < ts.len() - 1 {
                        assert(d[k] == ts[k]);
                    }
                }
            }
            if forall|k: int| 0 <= k < ts.len() ==> self.vars_ok(#[trigger] ts[k], lo) {
                assert forall|k: int| 0 <= k < d.len() implies self.vars_ok(#[trigger] d[k], lo) by {
                    assert(d[k] == ts[k]);
                }
                assert(self.vars_ok(ts[ts.len() - 1], lo));
            }
        }
    }

    pub proof fn lemma_list_free(self, ts: Seq<TV>)
        ensures
            self.list_free(ts) <==> forall|k: int| 0 <= k < ts.len() ==> self.free_of(#[trigger] ts[k]),
        decreases ts.len(),
    {
        if ts.len() > 0 {
            let d = ts.drop_last();
            self.lemma_list_free(d);
            if self.list_free(ts) {
                assert forall|k: int| 0 <= k < ts.len() implies self.free_of(#[trigger] ts[k]) by {
                    if k < ts.len() - 1 {
                        assert(d[k] == ts[k]);
                    }
                }
            }
            if forall|k: int| 0 <= k < ts.len() ==> self.free_of(#[trigger] ts[k]) {
                assert forall|k: int| 0 <= k < d.len() implies self.free_of(#[trigger] d[k]) by {
                    assert(d[k] == ts[k]);
                }
                assert(self.free_of(ts[ts.len() - 1]));
            }
        }
    }

    pub proof fn lemma_res_list(self, ts: Seq<TV>, lo: int)
        ensures
            self.res_list(ts, lo).len() == ts.len(),
            forall|k: int| 0 <= k < ts.len() ==> #[trigger] self.res_list(ts, lo)[k] == self.res(ts[k], lo),
        decreases ts.len(),
    {
        if ts.len() > 0 {
            self.lemma_res_list(ts.drop_last(), lo);
        }
    }
}

/// The checker's state for inference: the substitution and the numeric
/// constraints of the type variables, the scopes of names (innermost last,
/// the latest definition in a scope winning), the signatures, the errors
/// found so far, and every binder with its type.
pub struct Checker {
    pub subst: Vec<Option<T>>,
    pub kinds: Vec<Kind>,
    pub env: Vec<Vec<(String, Scheme)>>,
    pub sigs: Vec<(String, Scheme)>,
    pub errors: Vec<Diag>,
    pub binds: Vec<(Span, String, T)>,
    pub data: Data,
    /// The matches whose exhaustiveness is checked once inference is done.
    pub pending_matches: Vec<(Span, T, Vec<Pat>, String)>,
    /// When each variable was bound, and the next stamp to give.
    pub stamps: Ghost<Seq<int>>,
    pub clock: Ghost<int>,
}

/// What the checker knows of the declared types: each constructor with what
/// it belongs to and carries, each variant type with its constructors in
/// declaration order, and the opaque types. A later entry for a name
/// replaces an earlier one.
pub struct Data {
    pub ctors: Vec<(String, CtorInfo)>,
    pub variants: Vec<(String, Vec<String>)>,
    pub opaque: Vec<String>,
}

impl Checker {
    /// Everything but the bindings and the scopes is as in `o`.
    pub open spec fn keeps_tables(self, o: Checker) -> bool {
        &&& self.sigs == o.sigs
        &&& self.errors == o.errors
        &&& self.binds == o.binds
        &&& self.data == o.data
        &&& self.pending_matches == o.pending_matches
    }

    pub open spec fn bindings(&self) -> Bindings {
        Bindings {
            subst: self.subst@.map_values(|o: Option<T>| opt_tv(o)),
            kinds: self.kinds@,
            stamps: self.stamps@,
            clock: self.clock@,
        }
    }

    pub open spec fn wf(&self) -> bool {
        self.bindings().wf()
    }

    fn resolve_from(&self, t: &T, Ghost(lo): Ghost<int>) -> (r: T)
        requires
            self.wf(),
            self.bindings().vars_ok(t@, lo),
        ensures
            r@ == self.bindings().res(t@, lo),
        decreases self.clock@ - lo, t,
    {
        let ghost b = self.bindings();
        match t {
            T::Var(i) => {
                assert(b.subst[*i as int] == opt_tv(self.subst@[*i as int]));
                match &self.subst[*i] {
                    Some(u) => {
                        assert(b.bound(*i as int));
                        self.resolve_from(u, Ghost(self.stamps@[*i as int] + 1))
                    },
                    None => T::Var(*i),
                }
            },
            T::Con(n, a) => T::Con(n.clone(), self.resolve_list(a, Ghost(lo))),
            T::Fun(a, c) => T::Fun(Box::new(self.resolve_from(a, Ghost(lo))), Box::new(self.resolve_from(c, Ghost(lo)))),
            T::Tuple(ts) => T::Tuple(self.resolve_list(ts, Ghost(lo))),
            T::Eff(x) => T::Eff(Box::new(self.resolve_from(x, Ghost(lo)))),
        }
    }

    fn resolve_list(&self, ts: &Vec<T>, Ghost(lo): Ghost<int>) -> (r: Vec<T>)
        requires
            self.wf(),
            self.bindings().list_ok(ts_view(ts@), lo),
        ensures
            ts_view(r@) == self.bindings().res_list(ts_view(ts@), lo),
        decreases self.clock@ - lo, ts,
    {
        let ghost b = self.bindings();
        proof {
            b.lemma_list_ok(ts_view(ts@), lo);
            lemma_ts_view(ts@);
        }
        let mut out: Vec<T> = Vec::new();
        for i in 0..ts.len()
            invariant
                b == self.bindings(),
                self.wf(),
                b.list_ok(ts_view(ts@), lo),
                forall|k: int| 0 <= k < ts@.len() ==> b.vars_ok(#[trigger] ts_view(ts@)[k], lo),
                forall|k: int| 0 <= k < ts@.len() ==> #[trigger] ts_view(ts@)[k] == ts@[k]@,
                ts_view(out@) == b.res_list(ts_view(ts@.take(i as int)), lo),
        {
            proof {
                assert(decreases_to!(ts => ts@[i as int]));
                assert(b.vars_ok(ts_view(ts@)[i as int], lo));
            }
            let ghost prev = out@;
            let c = self.resolve_from(&ts[i], Ghost(lo));
            out.push(c);
            proof {
                assert(out@.drop_last() == prev);
                assert(ts@.take(i + 1).drop_last() == ts@.take(i as int));
                assert(ts_view(ts@.take(i + 1)).drop_last() == ts_view(ts@.take(i as int)));
            }
        }
        assert(ts@.take(ts@.len() as int) == ts@);
        out
    }
}


// ------------------------------------------------------------ unification

/// How many constructors and variables a type is made of.
pub open spec fn tsize(t: TV) -> nat
    decreases t, 0int,
{
    match t {
        TV::Var(_) => 1,
        TV::Con(_, a) => 1 + tsizes(a),
        TV::Fun(a, b) => 1 + tsize(*a) + tsize(*b),
        TV::Tuple(ts) => 1 + tsizes(ts),
        TV::Eff(x) => 1 + tsize(*x),
    }
}

pub open spec fn tsizes(ts: Seq<TV>) -> nat
    decreases ts, 1int,
{
    if ts.len() == 0 {
        0
    } else {
        tsizes(ts.drop_last()) + tsize(ts.last())
    }
}

/// How many variables are still unbound.
pub open spec fn nones(s: Seq<Option<TV>>) -> nat
    decreases s.len(),
{
    if s.len() == 0 {
        0
    } else {
        nones(s.drop_last()) + if s.last() is None { 1nat } else { 0nat }
    }
}

/// The pairs of `xs` and `ys`, last first: the order in which a stack whose
/// top is its end takes them first to last.
pub open spec fn pairs_rev(xs: Seq<TV>, ys: Seq<TV>) -> Seq<(TV, TV)>
    decreases xs.len(),
{
    if xs.len() == 0 || ys.len() == 0 {
        Seq::empty()
    } else {
        seq![(xs.last(), ys.last())] + pairs_rev(xs.drop_last(), ys.drop_last())
    }
}

/// Why two types do not unify.
pub struct UErr {
    pub code: Seq<char>,
    pub msg: Seq<char>,
    pub fix: Option<Seq<char>>,
}

/// The decimal types.
pub open spec fn float_type(n: Seq<char>) -> bool {
    n == "F32"@ || n == "F64"@
}

/// The stronger of two numeric constraints.
pub open spec fn merged(k: Kind, l: Kind) -> Kind {
    if k == Kind::Float || l == Kind::Float {
        Kind::Float
    } else if k == Kind::Num || l == Kind::Num {
        Kind::Num
    } else {
        Kind::Any
    }
}

impl Bindings {
    /// Every pair on the stack mentions only variables that exist.
    pub open spec fn stack_ok(self, st: Seq<(TV, TV)>) -> bool {
        forall|k: int| 0 <= k < st.len() ==> self.vars_ok(#[trigger] st[k].0, 0) && self.vars_ok(st[k].1, 0)
    }

    /// The size of what is on the stack once resolved.
    pub open spec fn msize(self, st: Seq<(TV, TV)>) -> nat
        decreases st.len(),
    {
        if st.len() == 0 {
            0
        } else {
            self.msize(st.drop_last()) + tsize(self.resolved(st.last().0)) + tsize(self.resolved(st.last().1))
        }
    }

    /// Binding the unbound `v` to the resolved `t`: refused when `v` occurs
    /// in `t`, or when `v` stands for a number and `t` is a type that is not
    /// one; binding to a variable hands `v`'s constraint on to it.
    pub open spec fn bind(self, v: usize, t: TV, ctx: Seq<char>) -> Result<Bindings, UErr> {
        if tvars(self.resolved(t)).contains(v) {
            Err(UErr { code: "type.infinite"@, msg: "this expression would have an infinite type"@, fix: None })
        } else if self.kinds[v as int] == Kind::Num && t is Con && !numeric(t->Con_0) {
            Err(UErr { code: "type.mismatch"@, msg: "`"@ + t->Con_0 + "` is not a number"@ + ctx, fix: None })
        } else if self.kinds[v as int] == Kind::Float && t is Con && !float_type(t->Con_0) {
            Err(
                UErr {
                    code: "type.mismatch"@,
                    msg: "a decimal literal cannot have type `"@ + t->Con_0 + "`"@ + ctx,
                    fix: Some("drop the decimal point, or use `f64 x` to convert"@),
                },
            )
        } else {
            let kinds = match t {
                TV::Var(j) => self.kinds.update(j as int, merged(self.kinds[v as int], self.kinds[j as int])),
                _ => self.kinds,
            };
            Ok(
                Bindings {
                    subst: self.subst.update(v as int, Some(t)),
                    kinds,
                    stamps: self.stamps.update(v as int, self.clock),
                    clock: self.clock + 1,
                },
            )
        }
    }

    /// Unifies the pairs on the stack, top (last) first: each pair is
    /// resolved, then a variable is bound, matching constructors give their
    /// argument pairs, and anything else is the error. The result is the
    /// bindings reached, and the error if there was one.
    pub open spec fn solve(self, st: Seq<(TV, TV)>, ctx: Seq<char>) -> (Bindings, Option<UErr>)
        decreases nones(self.subst), self.msize(st),
    {
        if st.len() == 0 {
            (self, None)
        } else if !(self.wf() && self.stack_ok(st)) {
            (self, Some(UErr { code: Seq::empty(), msg: Seq::empty(), fix: None }))
        } else {
            let rest = st.drop_last();
            let a = self.resolved(st.last().0);
            let b = self.resolved(st.last().1);
            proof {
                self.lemma_stack_drop(st);
                self.lemma_msize_last(st);
                lemma_tsize_pos(a);
                lemma_tsize_pos(b);
                self.lemma_resolved_free(st.last().0);
                self.lemma_resolved_free(st.last().1);
            }
            if a is Var && b is Var && a->Var_0 == b->Var_0 {
                self.solve(rest, ctx)
            } else if a is Var {
                match self.bind(a->Var_0, b, ctx) {
                    Ok(n) => {
                        proof {
                            self.lemma_bind(a->Var_0, b, ctx, rest);
                        }
                        n.solve(rest, ctx)
                    },
                    Err(e) => (self, Some(e)),
                }
            } else if b is Var {
                match self.bind(b->Var_0, a, ctx) {
                    Ok(n) => {
                        proof {
                            self.lemma_bind(b->Var_0, a, ctx, rest);
                        }
                        n.solve(rest, ctx)
                    },
                    Err(e) => (self, Some(e)),
                }
            } else if a is Con && b is Con && a->Con_0 == b->Con_0 && a->Con_1.len() == b->Con_1.len() {
                let next = rest + pairs_rev(a->Con_1, b->Con_1);
                proof {
                    self.lemma_split(a->Con_1, b->Con_1, rest);
                }
                self.solve(next, ctx)
            } else if a is Fun && b is Fun {
                let next = rest.push((*a->Fun_1, *b->Fun_1)).push((*a->Fun_0, *b->Fun_0));
                proof {
                    self.lemma_push_free(rest, *a->Fun_1, *b->Fun_1);
                    self.lemma_push_free(rest.push((*a->Fun_1, *b->Fun_1)), *a->Fun_0, *b->Fun_0);
                }
                self.solve(next, ctx)
            } else if a is Tuple && b is Tuple && a->Tuple_0.len() == b->Tuple_0.len() {
                let next = rest + pairs_rev(a->Tuple_0, b->Tuple_0);
                proof {
                    self.lemma_split(a->Tuple_0, b->Tuple_0, rest);
                }
                self.solve(next, ctx)
            } else if a is Eff && b is Eff {
                proof {
                    self.lemma_push_free(rest, *a->Eff_0, *b->Eff_0);
                }
                self.solve(rest.push((*a->Eff_0, *b->Eff_0)), ctx)
            } else if a is Eff {
                (
                    self,
                    Some(
                        UErr {
                            code: "effect.leak"@,
                            msg: "this is an effectful value (`"@ + show_text(a) + "`) used where a pure `"@
                                + show_text(b) + "` is expected"@,
                            fix: Some("bind it first with `name <- ...`, or mark the enclosing function `E!`"@),
                        },
                    ),
                )
            } else if b is Eff {
                (
                    self,
                    Some(
                        UErr {
                            code: "effect.missing"@,
                            msg: "expected an effectful `"@ + show_text(b) + "` but found the pure `"@ + show_text(
                                a,
                            ) + "`"@,
                            fix: None,
                        },
                    ),
                )
            } else {
                (
                    self,
                    Some(
                        UErr {
                            code: "type.mismatch"@,
                            msg: "expected `"@ + show_text(b) + "`, found `"@ + show_text(a) + "`"@ + ctx,
                            fix: None,
                        },
                    ),
                )
            }
        }
    }
}


pub proof fn lemma_tsize_pos(t: TV)
    ensures
        tsize(t) >= 1,
{
}

pub proof fn lemma_contains_concat(x: Seq<usize>, y: Seq<usize>, v: usize)
    ensures
        (x + y).contains(v) <==> x.contains(v) || y.contains(v),
{
    if x.contains(v) {
        let i = choose|i: int| 0 <= i < x.len() && x[i] == v;
        assert((x + y)[i] == v);
    }
    if y.contains(v) {
        let i = choose|i: int| 0 <= i < y.len() && y[i] == v;
        assert((x + y)[x.len() + i] == v);
    }
    if (x + y).contains(v) {
        let i = choose|i: int| 0 <= i < (x + y).len() && (x + y)[i] == v;
        if i < x.len() {
            assert(x[i] == v);
        } else {
            assert(y[i - x.len()] == v);
        }
    }
}

pub proof fn lemma_nones_update(s: Seq<Option<TV>>, v: int, x: TV)
    requires
        0 <= v < s.len(),
        s[v] is None,
    ensures
        nones(s.update(v, Some(x))) + 1 == nones(s),
    decreases s.len(),
{
    let u = s.update(v, Some(x));
    if v == s.len() - 1 {
        assert(u.drop_last() =~= s.drop_last());
    } else {
        assert(u.drop_last() =~= s.drop_last().update(v, Some(x)));
        lemma_nones_update(s.drop_last(), v, x);
    }
}

impl Bindings {
    /// Variable `j` exists and, if bound, was bound at `lo` or later.
    pub open spec fn var_ok(self, j: usize, lo: int) -> bool {
        j < self.subst.len() && (self.bound(j as int) ==> lo <= self.stamps[j as int])
    }

    pub proof fn lemma_res_free(self, t: TV, lo: int)
        requires
            self.wf(),
            self.vars_ok(t, lo),
        ensures
            self.free_of(self.res(t, lo)),
        decreases self.clock - lo, t, 0int,
    {
        match t {
            TV::Var(i) => {
                if self.bound(i as int) && lo <= self.stamps[i as int] < self.clock {
                    self.lemma_res_free(self.subst[i as int]->0, self.stamps[i as int] + 1);
                }
            },
            TV::Con(_, a) => self.lemma_res_list_free(a, lo),
            TV::Fun(a, b) => {
                self.lemma_res_free(*a, lo);
                self.lemma_res_free(*b, lo);
            },
            TV::Tuple(ts) => self.lemma_res_list_free(ts, lo),
            TV::Eff(x) => self.lemma_res_free(*x, lo),
        }
    }

    pub proof fn lemma_res_list_free(self, ts: Seq<TV>, lo: int)
        requires
            self.wf(),
            self.list_ok(ts, lo),
        ensures
            self.list_free(self.res_list(ts, lo)),
        decreases self.clock - lo, ts, 1int,
    {
        if ts.len() > 0 {
            self.lemma_res_list_free(ts.drop_last(), lo);
            self.lemma_res_free(ts.last(), lo);
            let r = self.res_list(ts, lo);
            assert(r.drop_last() =~= self.res_list(ts.drop_last(), lo));
        }
    }

    /// A resolved type resolves to itself.
    pub proof fn lemma_free_fixed(self, t: TV, lo: int)
        requires
            self.free_of(t),
        ensures
            self.res(t, lo) == t,
        decreases t, 0int,
    {
        match t {
            TV::Var(_) => {},
            TV::Con(_, a) => self.lemma_free_list_fixed(a, lo),
            TV::Fun(a, b) => {
                self.lemma_free_fixed(*a, lo);
                self.lemma_free_fixed(*b, lo);
            },
            TV::Tuple(ts) => self.lemma_free_list_fixed(ts, lo),
            TV::Eff(x) => self.lemma_free_fixed(*x, lo),
        }
    }

    pub proof fn lemma_free_list_fixed(self, ts: Seq<TV>, lo: int)
        requires
            self.list_free(ts),
        ensures
            self.res_list(ts, lo) == ts,
        decreases ts, 1int,
    {
        if ts.len() > 0 {
            self.lemma_free_list_fixed(ts.drop_last(), lo);
            self.lemma_free_fixed(ts.last(), lo);
            assert(self.res_list(ts, lo) =~= ts);
        }
    }

    pub proof fn lemma_free_ok(self, t: TV, lo: int)
        requires
            self.free_of(t),
        ensures
            self.vars_ok(t, lo),
        decreases t, 0int,
    {
        match t {
            TV::Var(_) => {},
            TV::Con(_, a) => self.lemma_free_list_ok(a, lo),
            TV::Fun(a, b) => {
                self.lemma_free_ok(*a, lo);
                self.lemma_free_ok(*b, lo);
            },
            TV::Tuple(ts) => self.lemma_free_list_ok(ts, lo),
            TV::Eff(x) => self.lemma_free_ok(*x, lo),
        }
    }

    pub proof fn lemma_free_list_ok(self, ts: Seq<TV>, lo: int)
        requires
            self.list_free(ts),
        ensures
            self.list_ok(ts, lo),
        decreases ts, 1int,
    {
        if ts.len() > 0 {
            self.lemma_free_list_ok(ts.drop_last(), lo);
            self.lemma_free_ok(ts.last(), lo);
        }
    }

    /// What is true of each variable carries over to a type.
    pub proof fn lemma_ok_transfer(self, n: Bindings, t: TV, lo: int)
        requires
            self.vars_ok(t, lo),
            forall|j: usize| #[trigger] self.var_ok(j, lo) ==> n.var_ok(j, lo),
        ensures
            n.vars_ok(t, lo),
        decreases t, 0int,
    {
        match t {
            TV::Var(i) => {
                assert(self.var_ok(i, lo));
            },
            TV::Con(_, a) => self.lemma_ok_list_transfer(n, a, lo),
            TV::Fun(a, b) => {
                self.lemma_ok_transfer(n, *a, lo);
                self.lemma_ok_transfer(n, *b, lo);
            },
            TV::Tuple(ts) => self.lemma_ok_list_transfer(n, ts, lo),
            TV::Eff(x) => self.lemma_ok_transfer(n, *x, lo),
        }
    }

    pub proof fn lemma_ok_list_transfer(self, n: Bindings, ts: Seq<TV>, lo: int)
        requires
            self.list_ok(ts, lo),
            forall|j: usize| #[trigger] self.var_ok(j, lo) ==> n.var_ok(j, lo),
        ensures
            n.list_ok(ts, lo),
        decreases ts, 1int,
    {
        if ts.len() > 0 {
            self.lemma_ok_list_transfer(n, ts.drop_last(), lo);
            self.lemma_ok_transfer(n, ts.last(), lo);
        }
    }

    /// A resolved type that does not mention `v` stays resolved when only
    /// `v` changes.
    pub proof fn lemma_free_transfer(self, n: Bindings, t: TV, v: int)
        requires
            self.free_of(t),
            !tvars(t).contains(v as usize),
            n.subst.len() == self.subst.len(),
            forall|j: int| j != v ==> (#[trigger] n.bound(j) == self.bound(j)),
        ensures
            n.free_of(t),
        decreases t, 0int,
    {
        match t {
            TV::Var(i) => {
                assert(tvars(t)[0] == i);
            },
            TV::Con(_, a) => self.lemma_free_list_transfer(n, a, v),
            TV::Fun(a, b) => {
                lemma_contains_concat(tvars(*a), tvars(*b), v as usize);
                self.lemma_free_transfer(n, *a, v);
                self.lemma_free_transfer(n, *b, v);
            },
            TV::Tuple(ts) => self.lemma_free_list_transfer(n, ts, v),
            TV::Eff(x) => self.lemma_free_transfer(n, *x, v),
        }
    }

    pub proof fn lemma_free_list_transfer(self, n: Bindings, ts: Seq<TV>, v: int)
        requires
            self.list_free(ts),
            !tvars_list(ts).contains(v as usize),
            n.subst.len() == self.subst.len(),
            forall|j: int| j != v ==> (#[trigger] n.bound(j) == self.bound(j)),
        ensures
            n.list_free(ts),
        decreases ts, 1int,
    {
        if ts.len() > 0 {
            lemma_contains_concat(tvars_list(ts.drop_last()), tvars(ts.last()), v as usize);
            self.lemma_free_list_transfer(n, ts.drop_last(), v);
            self.lemma_free_transfer(n, ts.last(), v);
        }
    }

    /// Binding a free variable keeps the bindings well formed, keeps the
    /// stack's variables in range, and leaves one variable fewer unbound.
    pub proof fn lemma_bind(self, v: usize, t: TV, ctx: Seq<char>, rest: Seq<(TV, TV)>)
        requires
            self.wf(),
            self.stack_ok(rest),
            self.free_of(t),
            self.free_of(TV::Var(v)),
            self.bind(v, t, ctx) is Ok,
        ensures
            self.bind(v, t, ctx)->Ok_0.wf(),
            self.bind(v, t, ctx)->Ok_0.stack_ok(rest),
            nones(self.bind(v, t, ctx)->Ok_0.subst) < nones(self.subst),
    {
        let n = self.bind(v, t, ctx)->Ok_0;
        let vi = v as int;
        self.lemma_free_fixed(t, 0);
        assert(!tvars(t).contains(v));
        assert(n.subst.len() == self.subst.len());
        assert forall|j: int| j != vi implies (#[trigger] n.bound(j) == self.bound(j)) by {}
        assert(n.bound(vi));
        self.lemma_free_transfer(n, t, vi);
        n.lemma_free_ok(t, self.clock + 1);
        assert forall|i: int| #[trigger] n.bound(i) implies 0 <= n.stamps[i] < n.clock && n.vars_ok(
            n.subst[i]->0,
            n.stamps[i] + 1,
        ) by {
            if i != vi {
                assert(self.bound(i));
                let lo = self.stamps[i] + 1;
                assert forall|j: usize| #[trigger] self.var_ok(j, lo) implies n.var_ok(j, lo) by {}
                self.lemma_ok_transfer(n, self.subst[i]->0, lo);
            }
        }
        assert forall|k: int| 0 <= k < rest.len() implies n.vars_ok(#[trigger] rest[k].0, 0) && n.vars_ok(
            rest[k].1,
            0,
        ) by {
            assert forall|j: usize| #[trigger] self.var_ok(j, 0) implies n.var_ok(j, 0) by {}
            self.lemma_ok_transfer(n, rest[k].0, 0);
            self.lemma_ok_transfer(n, rest[k].1, 0);
        }
        lemma_nones_update(self.subst, vi, t);
    }

    pub proof fn lemma_stack_drop(self, st: Seq<(TV, TV)>)
        requires
            self.stack_ok(st),
            st.len() > 0,
        ensures
            self.stack_ok(st.drop_last()),
            self.vars_ok(st.last().0, 0),
            self.vars_ok(st.last().1, 0),
    {
        assert forall|k: int| 0 <= k < st.drop_last().len() implies self.vars_ok(#[trigger] st.drop_last()[k].0, 0)
            && self.vars_ok(st.drop_last()[k].1, 0) by {
            assert(st.drop_last()[k] == st[k]);
            assert(self.vars_ok(st[k].0, 0));
        }
        assert(st.last() == st[st.len() - 1]);
        assert(self.vars_ok(st[st.len() - 1].0, 0));
    }

    pub proof fn lemma_msize_concat(self, x: Seq<(TV, TV)>, y: Seq<(TV, TV)>)
        ensures
            self.msize(x + y) == self.msize(x) + self.msize(y),
        decreases y.len(),
    {
        if y.len() == 0 {
            assert(x + y =~= x);
        } else {
            assert((x + y).drop_last() =~= x + y.drop_last());
            assert((x + y).last() == y.last());
            self.lemma_msize_concat(x, y.drop_last());
        }
    }

    pub proof fn lemma_stack_concat(self, x: Seq<(TV, TV)>, y: Seq<(TV, TV)>)
        requires
            self.stack_ok(x),
            self.stack_ok(y),
        ensures
            self.stack_ok(x + y),
    {
        assert forall|k: int| 0 <= k < (x + y).len() implies self.vars_ok(#[trigger] (x + y)[k].0, 0)
            && self.vars_ok((x + y)[k].1, 0) by {
            if k < x.len() {
                assert((x + y)[k] == x[k]);
                assert(self.vars_ok(x[k].0, 0));
            } else {
                assert((x + y)[k] == y[k - x.len()]);
                assert(self.vars_ok(y[k - x.len()].0, 0));
            }
        }
    }

    /// Pushing a pair of resolved types adds their sizes.
    pub proof fn lemma_push_free(self, rest: Seq<(TV, TV)>, x: TV, y: TV)
        requires
            self.free_of(x),
            self.free_of(y),
            self.stack_ok(rest),
        ensures
            self.msize(rest.push((x, y))) == self.msize(rest) + tsize(x) + tsize(y),
            self.stack_ok(rest.push((x, y))),
    {
        self.lemma_free_fixed(x, 0);
        self.lemma_free_fixed(y, 0);
        self.lemma_free_ok(x, 0);
        self.lemma_free_ok(y, 0);
        assert(rest.push((x, y)).drop_last() =~= rest);
        assert forall|k: int| 0 <= k < rest.push((x, y)).len() implies self.vars_ok(
            #[trigger] rest.push((x, y))[k].0,
            0,
        ) && self.vars_ok(rest.push((x, y))[k].1, 0) by {
            if k < rest.len() {
                assert(rest.push((x, y))[k] == rest[k]);
            }
        }
    }

    pub proof fn lemma_pairs_rev(self, xs: Seq<TV>, ys: Seq<TV>)
        requires
            self.list_free(xs),
            self.list_free(ys),
            xs.len() == ys.len(),
        ensures
            self.msize(pairs_rev(xs, ys)) == tsizes(xs) + tsizes(ys),
            self.stack_ok(pairs_rev(xs, ys)),
            pairs_rev(xs, ys).len() == xs.len(),
            forall|k: int| 0 <= k < xs.len() ==> #[trigger] pairs_rev(xs, ys)[k] == (
                xs[xs.len() - 1 - k],
                ys[ys.len() - 1 - k],
            ),
        decreases xs.len(),
    {
        if xs.len() > 0 {
            let p = seq![(xs.last(), ys.last())];
            let q = pairs_rev(xs.drop_last(), ys.drop_last());
            self.lemma_pairs_rev(xs.drop_last(), ys.drop_last());
            self.lemma_msize_concat(p, q);
            self.lemma_push_free(Seq::empty(), xs.last(), ys.last());
            assert(Seq::<(TV, TV)>::empty().push((xs.last(), ys.last())) =~= p);
            self.lemma_stack_concat(p, q);
            assert forall|k: int| 0 <= k < xs.len() implies #[trigger] pairs_rev(xs, ys)[k] == (
                xs[xs.len() - 1 - k],
                ys[ys.len() - 1 - k],
            ) by {
                if k > 0 {
                    assert(pairs_rev(xs, ys)[k] == q[k - 1]);
                }
            }
        }
    }

    pub proof fn lemma_split(self, xs: Seq<TV>, ys: Seq<TV>, rest: Seq<(TV, TV)>)
        requires
            self.list_free(xs),
            self.list_free(ys),
            xs.len() == ys.len(),
            self.stack_ok(rest),
        ensures
            self.msize(rest + pairs_rev(xs, ys)) == self.msize(rest) + tsizes(xs) + tsizes(ys),
            self.stack_ok(rest + pairs_rev(xs, ys)),
    {
        self.lemma_pairs_rev(xs, ys);
        self.lemma_msize_concat(rest, pairs_rev(xs, ys));
        self.lemma_stack_concat(rest, pairs_rev(xs, ys));
    }

    pub proof fn lemma_msize_last(self, st: Seq<(TV, TV)>)
        requires
            st.len() > 0,
        ensures
            self.msize(st) == self.msize(st.drop_last()) + tsize(self.resolved(st.last().0)) + tsize(
                self.resolved(st.last().1),
            ),
    {
    }

    pub proof fn lemma_resolved_free(self, t: TV)
        requires
            self.wf(),
            self.vars_ok(t, 0),
        ensures
            self.free_of(self.resolved(t)),
    {
        self.lemma_res_free(t, 0);
    }
}


/// The pairs of a stack, by their views.
pub open spec fn pairs_view(st: Seq<(T, T)>) -> Seq<(TV, TV)> {
    st.map_values(|p: (T, T)| (p.0@, p.1@))
}

/// A diagnostic that reports the unification error `e` at `span`.
pub open spec fn reports(d: Diag, e: UErr, span: Span) -> bool {
    &&& d.span == span
    &&& d.code@ == e.code
    &&& d.msg@ == e.msg
    &&& crate::diag::opt_view(d.fix) == e.fix
    &&& d.path is None
    &&& d.witness is None
}

pub proof fn lemma_pairs_rev_shape(xs: Seq<TV>, ys: Seq<TV>)
    requires
        xs.len() == ys.len(),
    ensures
        pairs_rev(xs, ys).len() == xs.len(),
        forall|k: int| 0 <= k < xs.len() ==> #[trigger] pairs_rev(xs, ys)[k] == (
            xs[xs.len() - 1 - k],
            ys[ys.len() - 1 - k],
        ),
    decreases xs.len(),
{
    if xs.len() > 0 {
        let q = pairs_rev(xs.drop_last(), ys.drop_last());
        lemma_pairs_rev_shape(xs.drop_last(), ys.drop_last());
        assert forall|k: int| 0 <= k < xs.len() implies #[trigger] pairs_rev(xs, ys)[k] == (
            xs[xs.len() - 1 - k],
            ys[ys.len() - 1 - k],
        ) by {
            if k > 0 {
                assert(pairs_rev(xs, ys)[k] == q[k - 1]);
            }
        }
    }
}

/// Whether `v` is among the variables of `t`.
fn has_var(t: &T, v: usize) -> (r: bool)
    ensures
        r == tvars(t@).contains(v),
    decreases t, 0int,
{
    match t {
        T::Var(i) => {
            assert(tvars(t@)[0] == *i);
            *i == v
        },
        T::Con(_, a) => has_var_list(a, v),
        T::Fun(a, b) => {
            proof {
                lemma_contains_concat(tvars(a@), tvars(b@), v);
            }
            has_var(a, v) || has_var(b, v)
        },
        T::Tuple(ts) => has_var_list(ts, v),
        T::Eff(x) => has_var(x, v),
    }
}

fn has_var_list(ts: &Vec<T>, v: usize) -> (r: bool)
    ensures
        r == tvars_list(ts_view(ts@)).contains(v),
    decreases ts, 1int,
{
    let ghost tv = ts_view(ts@);
    proof {
        lemma_ts_view(ts@);
    }
    let mut i: usize = 0;
    while i < ts.len()
        invariant
            i <= ts@.len(),
            tv == ts_view(ts@),
            tv.len() == ts@.len(),
            forall|k: int| 0 <= k < ts@.len() ==> #[trigger] tv[k] == ts@[k]@,
            !tvars_list(tv.take(i as int)).contains(v),
        decreases ts@.len() - i,
    {
        proof {
            assert(decreases_to!(ts => ts@[i as int]));
            assert(tv.take(i + 1).drop_last() == tv.take(i as int));
            assert(tv.take(i + 1).last() == ts@[i as int]@);
            lemma_contains_concat(tvars_list(tv.take(i as int)), tvars(ts@[i as int]@), v);
        }
        if has_var(&ts[i], v) {
            proof {
                lemma_tvars_list_prefix(tv, i as int + 1);
            }
            return true;
        }
        i += 1;
    }
    assert(tv.take(ts@.len() as int) == tv);
    false
}

pub proof fn lemma_ts_view_take(ts: Seq<T>, k: int)
    requires
        0 <= k <= ts.len(),
    ensures
        ts_view(ts.take(k)) == ts_view(ts).take(k),
{
    lemma_ts_view(ts.take(k));
    lemma_ts_view(ts);
    assert(ts_view(ts.take(k)) =~= ts_view(ts).take(k));
}

/// The variables of a prefix of a list are among those of the list.
pub proof fn lemma_tvars_list_prefix(ts: Seq<TV>, k: int)
    requires
        0 <= k <= ts.len(),
    ensures
        forall|v: usize| tvars_list(ts.take(k)).contains(v) ==> tvars_list(ts).contains(v),
    decreases ts.len(),
{
    if k < ts.len() {
        lemma_tvars_list_prefix(ts.drop_last(), k);
        assert(ts.drop_last().take(k) == ts.take(k));
        assert forall|v: usize| tvars_list(ts.drop_last()).contains(v) implies tvars_list(ts).contains(v) by {
            lemma_contains_concat(tvars_list(ts.drop_last()), tvars(ts.last()), v);
        }
    } else {
        assert(ts.take(k) == ts);
    }
}

impl Checker {
    /// A checker with no variables, one empty scope, no signatures, no
    /// errors and no binders.
    pub fn new() -> (c: Checker)
        ensures
            c.wf(),
            c.subst@.len() == 0,
            c.env@.len() == 1,
            c.env@[0]@.len() == 0,
            c.sigs@.len() == 0,
            c.errors@.len() == 0,
            c.binds@.len() == 0,
            c.data.ctors@.len() == 0,
            c.data.variants@.len() == 0,
            c.data.opaque@.len() == 0,
            c.pending_matches@.len() == 0,
    {
        let mut env: Vec<Vec<(String, Scheme)>> = Vec::new();
        env.push(Vec::new());
        Checker {
            subst: Vec::new(),
            kinds: Vec::new(),
            env,
            sigs: Vec::new(),
            errors: Vec::new(),
            binds: Vec::new(),
            data: Data { ctors: Vec::new(), variants: Vec::new(), opaque: Vec::new() },
            pending_matches: Vec::new(),
            stamps: Ghost(Seq::empty()),
            clock: Ghost(0),
        }
    }

    /// A new unbound variable with the constraint `k`.
    pub fn fresh(&mut self, k: Kind) -> (t: T)
        requires
            old(self).wf(),
        ensures
            final(self).wf(),
            t@ == TV::Var(old(self).subst@.len() as usize),
            final(self).bindings() == old(self).bindings().with_fresh(k),
            final(self).env == old(self).env,
            final(self).keeps_tables(*old(self)),
    {
        let ghost b = self.bindings();
        self.subst.push(None);
        self.kinds.push(k);
        self.stamps = Ghost(self.stamps@.push(0));
        let ghost n = self.bindings();
        assert(n.subst =~= b.subst.push(None));
        assert(n == b.with_fresh(k));
        assert forall|i: int| #[trigger] n.bound(i) implies 0 <= n.stamps[i] < n.clock && n.vars_ok(
            n.subst[i]->0,
            n.stamps[i] + 1,
        ) by {
            assert(b.bound(i));
            assert forall|j: usize| #[trigger] b.var_ok(j, b.stamps[i] + 1) implies n.var_ok(j, b.stamps[i] + 1) by {
                if j as int == b.subst.len() {
                } else {
                }
            }
            b.lemma_ok_transfer(n, b.subst[i]->0, b.stamps[i] + 1);
        }
        T::Var(self.subst.len() - 1)
    }

    /// `t` with every bound variable replaced by what it is bound to, all
    /// the way down.
    pub fn resolve(&self, t: &T) -> (r: T)
        requires
            self.wf(),
            self.bindings().vars_ok(t@, 0),
        ensures
            r@ == self.bindings().resolved(t@),
            self.bindings().free_of(r@),
    {
        proof {
            self.bindings().lemma_res_free(t@, 0);
        }
        self.resolve_from(t, Ghost(0))
    }

    /// Whether `v` occurs in `t` once resolved.
    fn occurs(&self, v: usize, t: &T) -> (r: bool)
        requires
            self.wf(),
            self.bindings().vars_ok(t@, 0),
        ensures
            r == tvars(self.bindings().resolved(t@)).contains(v),
    {
        let r = self.resolve(t);
        has_var(&r, v)
    }
}


/// Pushes the pairs of `xs` and `ys`, last first, so that the first pair
/// ends on top.
fn push_pairs(stack: &mut Vec<(T, T)>, xs: &Vec<T>, ys: &Vec<T>)
    requires
        xs@.len() == ys@.len(),
    ensures
        pairs_view(final(stack)@) == pairs_view(old(stack)@) + pairs_rev(ts_view(xs@), ts_view(ys@)),
{
    let ghost xv = ts_view(xs@);
    let ghost yv = ts_view(ys@);
    let ghost base = pairs_view(stack@);
    proof {
        lemma_ts_view(xs@);
        lemma_ts_view(ys@);
        lemma_pairs_rev_shape(xv, yv);
    }
    let n = xs.len();
    let mut k = n;
    while k > 0
        invariant
            k <= n,
            n == xs@.len(),
            n == ys@.len(),
            xv == ts_view(xs@),
            yv == ts_view(ys@),
            xv.len() == n,
            yv.len() == n,
            forall|j: int| 0 <= j < n ==> #[trigger] xv[j] == xs@[j]@,
            forall|j: int| 0 <= j < n ==> #[trigger] yv[j] == ys@[j]@,
            pairs_rev(xv, yv).len() == n,
            forall|j: int| 0 <= j < n ==> #[trigger] pairs_rev(xv, yv)[j] == (xv[n - 1 - j], yv[n - 1 - j]),
            pairs_view(stack@) == base + pairs_rev(xv, yv).take(n - k),
        decreases k,
    {
        k -= 1;
        let ghost prev = stack@;
        let p = (copy_t(&xs[k]), copy_t(&ys[k]));
        stack.push(p);
        proof {
            assert(stack@.drop_last() == prev);
            assert(pairs_view(stack@) =~= pairs_view(prev).push((xs@[k as int]@, ys@[k as int]@)));
            assert(pairs_rev(xv, yv)[n - 1 - k] == (xv[k as int], yv[k as int]));
            assert(pairs_rev(xv, yv).take(n - k) =~= pairs_rev(xv, yv).take(n - 1 - k).push(
                pairs_rev(xv, yv)[n - 1 - k],
            ));
        }
    }
    assert(pairs_rev(xv, yv).take(n as int) =~= pairs_rev(xv, yv));
}

impl Checker {
    /// Binds the unbound `v` to the resolved `t`, or says why it cannot.
    fn bind_var(&mut self, v: usize, t: &T, span: Span, ctx: &str) -> (r: Result<(), Diag>)
        requires
            old(self).wf(),
            old(self).bindings().free_of(t@),
            old(self).bindings().free_of(TV::Var(v)),
        ensures
            final(self).wf(),
            final(self).subst@.len() == old(self).subst@.len(),
            match old(self).bindings().bind(v, t@, ctx@) {
                Ok(n) => r is Ok && final(self).bindings() == n,
                Err(e) => r matches Err(d) && reports(d, e, span) && final(self).bindings() == old(self).bindings(),
            },
            final(self).env == old(self).env,
            final(self).keeps_tables(*old(self)),
    {
        let ghost b = self.bindings();
        proof {
            b.lemma_free_ok(t@, 0);
        }
        if self.occurs(v, t) {
            return Err(Diag::error(span, "type.infinite", "this expression would have an infinite type"));
        }
        let k = self.kinds[v];
        assert(k == b.kinds[v as int]);
        match t {
            T::Con(n, _) => {
                if k == Kind::Num && !is_num(n.as_str()) {
                    let mut msg = owned("`");
                    push_str(&mut msg, n.as_str());
                    push_str(&mut msg, "` is not a number");
                    push_str(&mut msg, ctx);
                    return Err(Diag::error(span, "type.mismatch", msg.as_str()));
                }
                if k == Kind::Float && !(str_eq(n.as_str(), "F32") || str_eq(n.as_str(), "F64")) {
                    let mut msg = owned("a decimal literal cannot have type `");
                    push_str(&mut msg, n.as_str());
                    push_str(&mut msg, "`");
                    push_str(&mut msg, ctx);
                    return Err(
                        Diag::error(span, "type.mismatch", msg.as_str()).with_fix(
                            "drop the decimal point, or use `f64 x` to convert",
                        ),
                    );
                }
            },
            T::Var(j) => {
                let l = self.kinds[*j];
                let m = if k == Kind::Float || l == Kind::Float {
                    Kind::Float
                } else if k == Kind::Num || l == Kind::Num {
                    Kind::Num
                } else {
                    Kind::Any
                };
                self.kinds.set(*j, m);
            },
            _ => {},
        }
        self.subst.set(v, Some(copy_t(t)));
        self.stamps = Ghost(self.stamps@.update(v as int, self.clock@));
        self.clock = Ghost(self.clock@ + 1);
        proof {
            let n = b.bind(v, t@, ctx@)->Ok_0;
            assert(self.bindings().subst =~= n.subst);
            assert(self.bindings().kinds =~= n.kinds);
            b.lemma_bind(v, t@, ctx@, Seq::empty());
        }
        Ok(())
    }

    /// Makes `a` and `b` the same type, binding variables as needed, or
    /// says where they differ. Pairs are taken depth first, left to right;
    /// bindings made before an error stay.
    pub fn unify(&mut self, a: &T, b: &T, span: Span, ctx: &str) -> (r: Result<(), Diag>)
        requires
            old(self).wf(),
            old(self).bindings().vars_ok(a@, 0),
            old(self).bindings().vars_ok(b@, 0),
        ensures
            final(self).wf(),
            final(self).subst@.len() == old(self).subst@.len(),
            ({
                let (n, e) = old(self).bindings().solve(seq![(a@, b@)], ctx@);
                &&& final(self).bindings() == n
                &&& match e {
                    None => r is Ok,
                    Some(e) => r matches Err(d) && reports(d, e, span),
                }
            }),
            final(self).env == old(self).env,
            final(self).keeps_tables(*old(self)),
    {
        let ghost target = self.bindings().solve(seq![(a@, b@)], ctx@);
        let mut stack: Vec<(T, T)> = Vec::new();
        stack.push((copy_t(a), copy_t(b)));
        proof {
            assert(pairs_view(stack@) =~= seq![(a@, b@)]);
            let b0 = self.bindings();
            assert forall|k: int| 0 <= k < pairs_view(stack@).len() implies b0.vars_ok(
                #[trigger] pairs_view(stack@)[k].0,
                0,
            ) && b0.vars_ok(pairs_view(stack@)[k].1, 0) by {}
        }
        loop
            invariant
                self.wf(),
                self.subst@.len() == old(self).subst@.len(),
                self.bindings().stack_ok(pairs_view(stack@)),
                self.bindings().solve(pairs_view(stack@), ctx@) == target,
                target == old(self).bindings().solve(seq![(a@, b@)], ctx@),
                self.env == old(self).env,
                self.keeps_tables(*old(self)),
            decreases nones(self.bindings().subst), self.bindings().msize(pairs_view(stack@)),
        {
            let ghost b0 = self.bindings();
            let ghost sv = pairs_view(stack@);
            if stack.len() == 0 {
                return Ok(());
            }
            let (x, y) = stack.pop().unwrap();
            proof {
                assert(pairs_view(stack@) =~= sv.drop_last());
                assert(sv.last() == (x@, y@));
                b0.lemma_stack_drop(sv);
                b0.lemma_msize_last(sv);
                lemma_tsize_pos(b0.resolved(x@));
                lemma_tsize_pos(b0.resolved(y@));
            }
            let a = self.resolve(&x);
            let c = self.resolve(&y);
            let av: Option<usize> = match &a {
                T::Var(i) => Some(*i),
                _ => None,
            };
            let cv: Option<usize> = match &c {
                T::Var(j) => Some(*j),
                _ => None,
            };
            if av.is_some() && cv.is_some() && av.unwrap() == cv.unwrap() {
                continue;
            }
            if let Some(i) = av {
                proof {
                    if b0.bind(i, c@, ctx@) is Ok {
                        b0.lemma_bind(i, c@, ctx@, pairs_view(stack@));
                    }
                }
                match self.bind_var(i, &c, span, ctx) {
                    Ok(()) => {
                        continue;
                    },
                    Err(d) => {
                        return Err(d);
                    },
                }
            }
            if let Some(j) = cv {
                proof {
                    if b0.bind(j, a@, ctx@) is Ok {
                        b0.lemma_bind(j, a@, ctx@, pairs_view(stack@));
                    }
                }
                match self.bind_var(j, &a, span, ctx) {
                    Ok(()) => {
                        continue;
                    },
                    Err(d) => {
                        return Err(d);
                    },
                }
            }
            let ghost rest = pairs_view(stack@);
            match (&a, &c) {
                (T::Con(n1, a1), T::Con(n2, a2)) => {
                    proof {
                        lemma_ts_view(a1@);
                        lemma_ts_view(a2@);
                    }
                    if str_eq(n1.as_str(), n2.as_str()) && a1.len() == a2.len() {
                        proof {
                            lemma_ts_view(a1@);
                            lemma_ts_view(a2@);
                            b0.lemma_split(ts_view(a1@), ts_view(a2@), rest);
                        }
                        push_pairs(&mut stack, a1, a2);
                        continue;
                    }
                },
                (T::Fun(p1, r1), T::Fun(p2, r2)) => {
                    proof {
                        b0.lemma_push_free(rest, r1@, r2@);
                        b0.lemma_push_free(rest.push((r1@, r2@)), p1@, p2@);
                    }
                    stack.push((copy_t(r1), copy_t(r2)));
                    stack.push((copy_t(p1), copy_t(p2)));
                    proof {
                        assert(pairs_view(stack@) =~= rest.push((r1@, r2@)).push((p1@, p2@)));
                    }
                    continue;
                },
                (T::Tuple(t1), T::Tuple(t2)) => {
                    proof {
                        lemma_ts_view(t1@);
                        lemma_ts_view(t2@);
                    }
                    if t1.len() == t2.len() {
                        proof {
                            lemma_ts_view(t1@);
                            lemma_ts_view(t2@);
                            b0.lemma_split(ts_view(t1@), ts_view(t2@), rest);
                        }
                        push_pairs(&mut stack, t1, t2);
                        continue;
                    }
                },
                (T::Eff(x1), T::Eff(y1)) => {
                    proof {
                        b0.lemma_push_free(rest, x1@, y1@);
                    }
                    stack.push((copy_t(x1), copy_t(y1)));
                    proof {
                        assert(pairs_view(stack@) =~= rest.push((x1@, y1@)));
                    }
                    continue;
                },
                _ => {},
            }
            let a_eff = match &a {
                T::Eff(_) => true,
                _ => false,
            };
            let c_eff = match &c {
                T::Eff(_) => true,
                _ => false,
            };
            if a_eff {
                let mut msg = owned("this is an effectful value (`");
                push_str(&mut msg, a.show().as_str());
                push_str(&mut msg, "`) used where a pure `");
                push_str(&mut msg, c.show().as_str());
                push_str(&mut msg, "` is expected");
                return Err(
                    Diag::error(span, "effect.leak", msg.as_str()).with_fix(
                        "bind it first with `name <- ...`, or mark the enclosing function `E!`",
                    ),
                );
            }
            if c_eff {
                let mut msg = owned("expected an effectful `");
                push_str(&mut msg, c.show().as_str());
                push_str(&mut msg, "` but found the pure `");
                push_str(&mut msg, a.show().as_str());
                push_str(&mut msg, "`");
                return Err(Diag::error(span, "effect.missing", msg.as_str()));
            }
            let mut msg = owned("expected `");
            push_str(&mut msg, c.show().as_str());
            push_str(&mut msg, "`, found `");
            push_str(&mut msg, a.show().as_str());
            push_str(&mut msg, "`");
            push_str(&mut msg, ctx);
            return Err(Diag::error(span, "type.mismatch", msg.as_str()));
        }
    }
}


/// A literal variable left unbound defaults: a number to `I64`, a decimal
/// to `F64`; any other variable stays as it is.
pub open spec fn defaulted(o: Option<TV>, k: Kind) -> Option<TV> {
    match o {
        Some(t) => Some(t),
        None => match k {
            Kind::Num => Some(TV::Con("I64"@, Seq::empty())),
            Kind::Float => Some(TV::Con("F64"@, Seq::empty())),
            Kind::Any => None,
        },
    }
}

/// A scheme by its view: the variables it is generic over and its type.
pub open spec fn scheme_view(s: Scheme) -> (Seq<usize>, TV) {
    (s.vars@, s.ty@)
}

/// A scope by its view.
pub open spec fn scope_view(sc: Seq<(String, Scheme)>) -> Seq<(Seq<char>, (Seq<usize>, TV))> {
    sc.map_values(|e: (String, Scheme)| (e.0@, scheme_view(e.1)))
}

/// The latest definition of `n` in a scope.
pub open spec fn find_in(sc: Seq<(Seq<char>, (Seq<usize>, TV))>, n: Seq<char>) -> Option<(Seq<usize>, TV)>
    decreases sc.len(),
{
    if sc.len() == 0 {
        None
    } else if sc.last().0 == n {
        Some(sc.last().1)
    } else {
        find_in(sc.drop_last(), n)
    }
}

/// What `n` means: its latest definition in the innermost scope that has
/// one, else its signature.
pub open spec fn looked_up(
    env: Seq<Seq<(Seq<char>, (Seq<usize>, TV))>>,
    sigs: Seq<(Seq<char>, (Seq<usize>, TV))>,
    n: Seq<char>,
) -> Option<(Seq<usize>, TV)>
    decreases env.len(),
{
    if env.len() == 0 {
        find_in(sigs, n)
    } else {
        match find_in(env.last(), n) {
            Some(s) => Some(s),
            None => looked_up(env.drop_last(), sigs, n),
        }
    }
}

impl Checker {
    /// The scopes by their views, innermost last.
    pub open spec fn env_view(&self) -> Seq<Seq<(Seq<char>, (Seq<usize>, TV))>> {
        self.env@.map_values(|sc: Vec<(String, Scheme)>| scope_view(sc@))
    }

    /// Every unbound number variable becomes `I64` and every unbound decimal
    /// one `F64`.
    pub fn default_numerics(&mut self)
        requires
            old(self).wf(),
        ensures
            final(self).wf(),
            final(self).bindings().subst.len() == old(self).bindings().subst.len(),
            forall|i: int| 0 <= i < old(self).subst@.len() ==> #[trigger] final(self).bindings().subst[i]
                == defaulted(old(self).bindings().subst[i], old(self).kinds@[i]),
            final(self).kinds == old(self).kinds,
            final(self).env == old(self).env,
            final(self).keeps_tables(*old(self)),
    {
        let ghost b = self.bindings();
        let ghost c = self.clock@;
        let n = self.subst.len();
        let mut i: usize = 0;
        while i < n
            invariant
                i <= n,
                n == self.subst@.len(),
                n == b.subst.len(),
                self.kinds == old(self).kinds,
                self.env == old(self).env,
                self.keeps_tables(*old(self)),
                self.stamps == old(self).stamps,
                self.clock@ == c,
                b == old(self).bindings(),
                b.wf(),
                forall|j: int| 0 <= j < i ==> #[trigger] opt_tv(self.subst@[j]) == defaulted(b.subst[j], b.kinds[j]),
                forall|j: int| i <= j < n ==> #[trigger] opt_tv(self.subst@[j]) == b.subst[j],
            decreases n - i,
        {
            let none = match &self.subst[i] {
                None => true,
                Some(_) => false,
            };
            let ghost before = self.subst@;
            if none {
                match self.kinds[i] {
                    Kind::Num => {
                        self.subst.set(i, Some(T::con("I64")));
                    },
                    Kind::Float => {
                        self.subst.set(i, Some(T::con("F64")));
                    },
                    Kind::Any => {},
                }
            }
            proof {
                assert(opt_tv(before[i as int]) == b.subst[i as int]);
                assert forall|j: int| 0 <= j < i + 1 implies #[trigger] opt_tv(self.subst@[j]) == defaulted(
                    b.subst[j],
                    b.kinds[j],
                ) by {
                    if j < i {
                        assert(self.subst@[j] == before[j]);
                    }
                }
                assert forall|j: int| i + 1 <= j < n implies #[trigger] opt_tv(self.subst@[j]) == b.subst[j] by {
                    assert(self.subst@[j] == before[j]);
                }
            }
            i += 1;
        }
        self.stamps = Ghost(
            Seq::new(b.subst.len(), |j: int| if b.bound(j) { b.stamps[j] } else { c }),
        );
        self.clock = Ghost(c + 1);
        proof {
            let n = self.bindings();
            assert forall|j: int| 0 <= j < b.subst.len() implies #[trigger] n.subst[j] == defaulted(
                b.subst[j],
                b.kinds[j],
            ) by {
                assert(n.subst[j] == opt_tv(self.subst@[j]));
            }
            assert forall|i: int| #[trigger] n.bound(i) implies 0 <= n.stamps[i] < n.clock && n.vars_ok(
                n.subst[i]->0,
                n.stamps[i] + 1,
            ) by {
                assert(n.subst[i] == defaulted(b.subst[i], b.kinds[i]));
                if b.bound(i) {
                    let lo = b.stamps[i] + 1;
                    assert forall|j: usize| #[trigger] b.var_ok(j, lo) implies n.var_ok(j, lo) by {
                        if (j as int) < b.subst.len() {
                            assert(n.subst[j as int] == defaulted(b.subst[j as int], b.kinds[j as int]));
                        }
                    }
                    b.lemma_ok_transfer(n, b.subst[i]->0, lo);
                } else {
                    assert(n.list_ok(Seq::<TV>::empty(), n.stamps[i] + 1));
                }
            }
        }
    }

    /// Opens an inner scope.
    pub fn push_scope(&mut self)
        ensures
            final(self).env_view() == old(self).env_view().push(Seq::empty()),
            final(self).subst == old(self).subst,
            final(self).kinds == old(self).kinds,
            final(self).stamps == old(self).stamps,
            final(self).clock == old(self).clock,
            final(self).keeps_tables(*old(self)),
    {
        let e: Vec<(String, Scheme)> = Vec::new();
        assert(scope_view(e@) =~= Seq::empty());
        self.env.push(e);
        proof {
            assert(self.env@.drop_last() == old(self).env@);
            assert forall|k: int| 0 <= k < self.env@.len() implies #[trigger] self.env_view()[k] == old(
                self,
            ).env_view().push(Seq::empty())[k] by {
                if k < old(self).env@.len() {
                    assert(self.env@[k] == old(self).env@[k]);
                }
            }
            assert(self.env_view() =~= old(self).env_view().push(Seq::empty()));
        }
    }

    /// Closes the innermost scope, if there is one.
    pub fn pop_scope(&mut self)
        ensures
            final(self).env_view() == if old(self).env@.len() > 0 {
                old(self).env_view().drop_last()
            } else {
                old(self).env_view()
            },
            final(self).subst == old(self).subst,
            final(self).kinds == old(self).kinds,
            final(self).stamps == old(self).stamps,
            final(self).clock == old(self).clock,
            final(self).keeps_tables(*old(self)),
    {
        let ghost before = self.env_view();
        let _ = self.env.pop();
        proof {
            if old(self).env@.len() > 0 {
                assert(self.env_view() =~= before.drop_last());
            } else {
                assert(self.env_view() =~= before);
            }
        }
    }

    /// Defines `n` as `s` in the innermost scope.
    pub fn define(&mut self, n: &str, s: Scheme)
        requires
            old(self).env@.len() > 0,
        ensures
            final(self).env_view() == old(self).env_view().drop_last().push(
                old(self).env_view().last().push((n@, scheme_view(s))),
            ),
            final(self).subst == old(self).subst,
            final(self).kinds == old(self).kinds,
            final(self).stamps == old(self).stamps,
            final(self).clock == old(self).clock,
            final(self).keeps_tables(*old(self)),
    {
        let ghost before = self.env_view();
        let ghost sv = scheme_view(s);
        let mut last = self.env.pop().unwrap();
        let ghost lb = last@;
        last.push((owned(n), s));
        proof {
            assert(scope_view(last@) =~= scope_view(lb).push((n@, sv)));
        }
        self.env.push(last);
        proof {
            assert(self.env_view() =~= before.drop_last().push(before.last().push((n@, sv))));
        }
    }

    /// Records the binder `n`, visible in `scope`, with its type.
    pub fn bound(&mut self, scope: Span, n: &str, t: &T)
        ensures
            final(self).binds@.len() == old(self).binds@.len() + 1,
            final(self).binds@.drop_last() == old(self).binds@,
            final(self).binds@.last().0 == scope,
            final(self).binds@.last().1@ == n@,
            final(self).binds@.last().2@ == t@,
            final(self).subst == old(self).subst,
            final(self).kinds == old(self).kinds,
            final(self).stamps == old(self).stamps,
            final(self).clock == old(self).clock,
            final(self).env == old(self).env,
            final(self).sigs == old(self).sigs,
            final(self).errors == old(self).errors,
            final(self).data == old(self).data,
            final(self).pending_matches == old(self).pending_matches,
    {
        self.binds.push((scope, owned(n), copy_t(t)));
        assert(self.binds@.drop_last() =~= old(self).binds@);
    }

    /// What `n` means here: its latest definition in the innermost scope
    /// that has one, else its signature.
    pub fn lookup(&self, n: &str) -> (r: Option<Scheme>)
        ensures
            match r {
                Some(s) => looked_up(self.env_view(), scope_view(self.sigs@), n@) == Some(scheme_view(s)),
                None => looked_up(self.env_view(), scope_view(self.sigs@), n@) is None,
            },
    {
        let mut k = self.env.len();
        assert(self.env_view().take(self.env@.len() as int) =~= self.env_view());
        while k > 0
            invariant
                k <= self.env@.len(),
                looked_up(self.env_view(), scope_view(self.sigs@), n@) == looked_up(
                    self.env_view().take(k as int),
                    scope_view(self.sigs@),
                    n@,
                ),
            decreases k,
        {
            let ghost ev = self.env_view().take(k as int);
            assert(ev.drop_last() =~= self.env_view().take(k - 1));
            assert(ev.last() == scope_view(self.env@[k - 1]@));
            k -= 1;
            match find_latest(&self.env[k], n) {
                Some(s) => {
                    return Some(s);
                },
                None => {},
            }
        }
        assert(self.env_view().take(0) =~= Seq::<Seq<(Seq<char>, (Seq<usize>, TV))>>::empty());
        find_latest(&self.sigs, n)
    }
}

/// A copy of `s`.
pub fn copy_scheme(s: &Scheme) -> (r: Scheme)
    ensures
        scheme_view(r) == scheme_view(*s),
{
    Scheme { vars: s.vars.clone(), ty: copy_t(&s.ty) }
}

/// A copy of the latest definition of `n` in `sc`.
fn find_latest(sc: &Vec<(String, Scheme)>, n: &str) -> (r: Option<Scheme>)
    ensures
        match r {
            Some(s) => find_in(scope_view(sc@), n@) == Some(scheme_view(s)),
            None => find_in(scope_view(sc@), n@) is None,
        },
{
    let mut k = sc.len();
    assert(scope_view(sc@).take(sc@.len() as int) =~= scope_view(sc@));
    while k > 0
        invariant
            k <= sc@.len(),
            find_in(scope_view(sc@), n@) == find_in(scope_view(sc@).take(k as int), n@),
        decreases k,
    {
        let ghost v = scope_view(sc@).take(k as int);
        assert(v.drop_last() =~= scope_view(sc@).take(k - 1));
        k -= 1;
        if str_eq(sc[k].0.as_str(), n) {
            return Some(copy_scheme(&sc[k].1));
        }
    }
    assert(scope_view(sc@).take(0) =~= Seq::<(Seq<char>, (Seq<usize>, TV))>::empty());
    None
}


// ------------------------------------------------------------ schemes and written types

/// The last position of `v` in `vars`, or -1.
pub open spec fn last_at(vars: Seq<usize>, v: usize) -> int
    decreases vars.len(),
{
    if vars.len() == 0 {
        -1
    } else if vars.last() == v {
        vars.len() - 1
    } else {
        last_at(vars.drop_last(), v)
    }
}

/// `t` with each variable of `vars` replaced by the fresh variable made for
/// it: the `k`-th fresh variable, from `base` on, for the variable last
/// found at `k`.
pub open spec fn inst(t: TV, vars: Seq<usize>, base: int) -> TV
    decreases t, 0int,
{
    match t {
        TV::Var(i) => if last_at(vars, i) >= 0 {
            TV::Var((base + last_at(vars, i)) as usize)
        } else {
            t
        },
        TV::Con(n, a) => TV::Con(n, inst_list(a, vars, base)),
        TV::Fun(a, b) => TV::Fun(Box::new(inst(*a, vars, base)), Box::new(inst(*b, vars, base))),
        TV::Tuple(ts) => TV::Tuple(inst_list(ts, vars, base)),
        TV::Eff(x) => TV::Eff(Box::new(inst(*x, vars, base))),
    }
}

pub open spec fn inst_list(ts: Seq<TV>, vars: Seq<usize>, base: int) -> Seq<TV>
    decreases ts, 1int,
{
    if ts.len() == 0 {
        Seq::empty()
    } else {
        inst_list(ts.drop_last(), vars, base).push(inst(ts.last(), vars, base))
    }
}

/// `b` with `m` new unbound variables, each without a constraint.
pub open spec fn grow(b: Bindings, m: nat) -> Bindings {
    Bindings {
        subst: b.subst + Seq::new(m, |i: int| None::<TV>),
        kinds: b.kinds + Seq::new(m, |i: int| Kind::Any),
        stamps: b.stamps + Seq::new(m, |i: int| 0int),
        clock: b.clock,
    }
}

/// `n` is `b` with `m` new unbound variables, each without a constraint.
pub open spec fn grown(b: Bindings, n: Bindings, m: nat) -> bool {
    n == grow(b, m)
}

/// The variable a name in a written type stands for: its latest entry.
pub open spec fn var_named(vars: Seq<(Seq<char>, TV)>, n: Seq<char>) -> Option<TV>
    decreases vars.len(),
{
    if vars.len() == 0 {
        None
    } else if vars.last().0 == n {
        Some(vars.last().1)
    } else {
        var_named(vars.drop_last(), n)
    }
}

/// The names of a written type's variables, by their views.
pub open spec fn names_view(vars: Seq<(String, T)>) -> Seq<(Seq<char>, TV)> {
    vars.map_values(|e: (String, T)| (e.0@, e.1@))
}

/// A written type lowered, left to right: `&` erased, type names
/// normalised, and each variable name mapped to the variable `vars` gives
/// it or, the first time, to a new variable numbered from `len` on. The
/// type, the names afterwards and the variable count afterwards.
pub open spec fn lowered(t: TyV, vars: Seq<(Seq<char>, TV)>, len: nat) -> (TV, Seq<(Seq<char>, TV)>, nat)
    decreases t, 0int,
{
    match t {
        TyV::Ref(x) => lowered(*x, vars, len),
        TyV::Eff(x) => {
            let (a, v, l) = lowered(*x, vars, len);
            (TV::Eff(Box::new(a)), v, l)
        },
        TyV::Fun(a, b) => {
            let (x, v1, l1) = lowered(*a, vars, len);
            let (y, v2, l2) = lowered(*b, v1, l1);
            (TV::Fun(Box::new(x), Box::new(y)), v2, l2)
        },
        TyV::Tuple(ts) => {
            let (xs, v, l) = lowered_list(ts, vars, len);
            (TV::Tuple(xs), v, l)
        },
        TyV::Var(n) => match var_named(vars, n) {
            Some(u) => (u, vars, len),
            None => (TV::Var(len as usize), vars.push((n, TV::Var(len as usize))), len + 1),
        },
        TyV::Con(n, args) => {
            let (xs, v, l) = lowered_list(args, vars, len);
            (TV::Con(normalised(n), xs), v, l)
        },
    }
}

pub open spec fn lowered_list(ts: Seq<TyV>, vars: Seq<(Seq<char>, TV)>, len: nat) -> (Seq<TV>, Seq<(Seq<char>, TV)>, nat)
    decreases ts, 1int,
{
    if ts.len() == 0 {
        (Seq::empty(), vars, len)
    } else {
        let (xs, v, l) = lowered_list(ts.drop_last(), vars, len);
        let (x, v2, l2) = lowered(ts.last(), v, l);
        (xs.push(x), v2, l2)
    }
}

/// The position of the last `v` in `vars`.
fn last_index(vars: &Vec<usize>, v: usize) -> (r: Option<usize>)
    ensures
        match r {
            Some(k) => last_at(vars@, v) == k as int && k < vars@.len(),
            None => last_at(vars@, v) == -1,
        },
{
    let mut k = vars.len();
    assert(vars@.take(vars@.len() as int) =~= vars@);
    while k > 0
        invariant
            k <= vars@.len(),
            last_at(vars@, v) == last_at(vars@.take(k as int), v),
        decreases k,
    {
        assert(vars@.take(k as int).drop_last() == vars@.take(k - 1));
        k -= 1;
        if vars[k] == v {
            return Some(k);
        }
    }
    None
}

fn inst_go(t: &T, vars: &Vec<usize>, base: usize) -> (r: T)
    requires
        base + vars@.len() <= usize::MAX,
    ensures
        r@ == inst(t@, vars@, base as int),
    decreases t, 0int,
{
    match t {
        T::Var(i) => {
            match last_index(vars, *i) {
                Some(k) => T::Var(base + k),
                None => T::Var(*i),
            }
        },
        T::Con(n, a) => T::Con(n.clone(), inst_go_list(a, vars, base)),
        T::Fun(a, b) => T::Fun(Box::new(inst_go(a, vars, base)), Box::new(inst_go(b, vars, base))),
        T::Tuple(ts) => T::Tuple(inst_go_list(ts, vars, base)),
        T::Eff(x) => T::Eff(Box::new(inst_go(x, vars, base))),
    }
}

fn inst_go_list(ts: &Vec<T>, vars: &Vec<usize>, base: usize) -> (r: Vec<T>)
    requires
        base + vars@.len() <= usize::MAX,
    ensures
        ts_view(r@) == inst_list(ts_view(ts@), vars@, base as int),
    decreases ts, 1int,
{
    let mut out: Vec<T> = Vec::new();
    for i in 0..ts.len()
        invariant
            base + vars@.len() <= usize::MAX,
            ts_view(out@) == inst_list(ts_view(ts@.take(i as int)), vars@, base as int),
    {
        proof {
            assert(decreases_to!(ts => ts@[i as int]));
        }
        let ghost prev = out@;
        let c = inst_go(&ts[i], vars, base);
        out.push(c);
        proof {
            assert(out@.drop_last() == prev);
            assert(ts@.take(i + 1).drop_last() == ts@.take(i as int));
            assert(ts_view(ts@.take(i + 1)).drop_last() == ts_view(ts@.take(i as int)));
        }
    }
    assert(ts@.take(ts@.len() as int) == ts@);
    out
}

fn find_named(vars: &Vec<(String, T)>, n: &str) -> (r: Option<T>)
    ensures
        match r {
            Some(t) => var_named(names_view(vars@), n@) == Some(t@),
            None => var_named(names_view(vars@), n@) is None,
        },
{
    let mut k = vars.len();
    assert(names_view(vars@).take(vars@.len() as int) =~= names_view(vars@));
    while k > 0
        invariant
            k <= vars@.len(),
            var_named(names_view(vars@), n@) == var_named(names_view(vars@).take(k as int), n@),
        decreases k,
    {
        assert(names_view(vars@).take(k as int).drop_last() =~= names_view(vars@).take(k - 1));
        k -= 1;
        if str_eq(vars[k].0.as_str(), n) {
            return Some(copy_t(&vars[k].1));
        }
    }
    assert(names_view(vars@).take(0) =~= Seq::<(Seq<char>, TV)>::empty());
    None
}

impl Checker {
    /// A fresh copy of the scheme's type: each variable it is generic over
    /// replaced by a new unbound variable.
    pub fn instantiate(&mut self, s: &Scheme) -> (r: T)
        requires
            old(self).wf(),
        ensures
            final(self).wf(),
            r@ == inst(s.ty@, s.vars@, old(self).subst@.len() as int),
            grown(old(self).bindings(), final(self).bindings(), s.vars@.len()),
            final(self).env == old(self).env,
            final(self).keeps_tables(*old(self)),
    {
        let ghost b = self.bindings();
        if s.vars.len() == 0 {
            proof {
                lemma_inst_none(s.ty@, s.vars@, b.subst.len() as int);
                assert(b.subst + Seq::new(0, |i: int| None::<TV>) =~= b.subst);
                assert(b.kinds + Seq::new(0, |i: int| Kind::Any) =~= b.kinds);
            assert(b.stamps + Seq::new(0, |i: int| 0int) =~= b.stamps);
            }
            return copy_t(&s.ty);
        }
        let base = self.subst.len();
        proof {
            assert(b.subst + Seq::new(0, |i: int| None::<TV>) =~= b.subst);
            assert(b.kinds + Seq::new(0, |i: int| Kind::Any) =~= b.kinds);
            assert(b.stamps + Seq::new(0, |i: int| 0int) =~= b.stamps);
        }
        for k in 0..s.vars.len()
            invariant
                self.wf(),
                b == old(self).bindings(),
                base == b.subst.len(),
                self.subst@.len() == base + k,
                grown(b, self.bindings(), k as nat),
                self.env == old(self).env,
                self.keeps_tables(*old(self)),
        {
            let ghost before = self.bindings();
            let _ = self.fresh(Kind::Any);
            proof {
                assert(self.bindings().subst =~= b.subst + Seq::new((k + 1) as nat, |i: int| None::<TV>));
                assert(self.bindings().kinds =~= b.kinds + Seq::new((k + 1) as nat, |i: int| Kind::Any));
                assert(self.bindings().stamps =~= b.stamps + Seq::new((k + 1) as nat, |i: int| 0int));
            }
        }
        let total = self.subst.len();
        assert(total == base + s.vars@.len());
        inst_go(&s.ty, &s.vars, base)
    }

    /// A written type as an inference type: `&` erased, type names
    /// normalised, and each variable name mapped through `vars`, a name seen
    /// for the first time getting a new variable.
    pub fn lower_ty(&mut self, t: &Ty, vars: &mut Vec<(String, T)>) -> (r: T)
        requires
            old(self).wf(),
        ensures
            final(self).wf(),
            ({
                let (x, v, l) = lowered(t@, names_view(old(vars)@), old(self).subst@.len() as nat);
                &&& r@ == x
                &&& names_view(final(vars)@) == v
                &&& final(self).subst@.len() == l
                &&& grown(old(self).bindings(), final(self).bindings(), (l - old(self).subst@.len()) as nat)
            }),
            final(self).env == old(self).env,
            final(self).keeps_tables(*old(self)),
        decreases t, 0int,
    {
        let ghost b = self.bindings();
        proof {
            assert(b.subst + Seq::new(0, |i: int| None::<TV>) =~= b.subst);
            assert(b.kinds + Seq::new(0, |i: int| Kind::Any) =~= b.kinds);
            assert(b.stamps + Seq::new(0, |i: int| 0int) =~= b.stamps);
        }
        match t {
            Ty::Ref(inner) => self.lower_ty(inner, vars),
            Ty::Eff(inner) => T::Eff(Box::new(self.lower_ty(inner, vars))),
            Ty::Fun(a, c) => {
                let x = self.lower_ty(a, vars);
                let ghost mid = self.bindings();
                let y = self.lower_ty(c, vars);
                proof {
                    assert(self.bindings().subst =~= b.subst + Seq::new(
                        (self.subst@.len() - b.subst.len()) as nat,
                        |i: int| None::<TV>,
                    ));
                    assert(self.bindings().kinds =~= b.kinds + Seq::new(
                        (self.subst@.len() - b.subst.len()) as nat,
                        |i: int| Kind::Any,
                    ));
                    assert(self.bindings().stamps =~= b.stamps + Seq::new(
                        (self.subst@.len() - b.subst.len()) as nat,
                        |i: int| 0int,
                    ));
                }
                T::Fun(Box::new(x), Box::new(y))
            },
            Ty::Tuple(ts) => T::Tuple(self.lower_list(ts, vars)),
            Ty::Var(n) => {
                match find_named(vars, n.as_str()) {
                    Some(u) => u,
                    None => {
                        let v = self.fresh(Kind::Any);
                        let ghost before = vars@;
                        vars.push((n.clone(), copy_t(&v)));
                        proof {
                            assert(names_view(vars@) =~= names_view(before).push((n@, v@)));
                            assert(self.bindings().subst =~= b.subst + Seq::new(1, |i: int| None::<TV>));
                            assert(self.bindings().kinds =~= b.kinds + Seq::new(1, |i: int| Kind::Any));
                            assert(self.bindings().stamps =~= b.stamps + Seq::new(1, |i: int| 0int));
                        }
                        v
                    },
                }
            },
            Ty::Con(n, args) => {
                let m = normalise_type_name(n.as_str());
                T::Con(m, self.lower_list(args, vars))
            },
        }
    }

    pub fn lower_list(&mut self, ts: &Vec<Ty>, vars: &mut Vec<(String, T)>) -> (r: Vec<T>)
        requires
            old(self).wf(),
        ensures
            final(self).wf(),
            ({
                let (xs, v, l) = lowered_list(tys_view(ts@), names_view(old(vars)@), old(self).subst@.len() as nat);
                &&& ts_view(r@) == xs
                &&& names_view(final(vars)@) == v
                &&& final(self).subst@.len() == l
                &&& grown(old(self).bindings(), final(self).bindings(), (l - old(self).subst@.len()) as nat)
            }),
            final(self).env == old(self).env,
            final(self).keeps_tables(*old(self)),
        decreases ts, 1int,
    {
        let ghost b = self.bindings();
        let ghost v0 = names_view(vars@);
        let mut out: Vec<T> = Vec::new();
        proof {
            assert(b.subst + Seq::new(0, |i: int| None::<TV>) =~= b.subst);
            assert(b.kinds + Seq::new(0, |i: int| Kind::Any) =~= b.kinds);
            assert(b.stamps + Seq::new(0, |i: int| 0int) =~= b.stamps);
            assert(ts@.take(0) =~= Seq::<Ty>::empty());
        }
        for i in 0..ts.len()
            invariant
                self.wf(),
                b == old(self).bindings(),
                v0 == names_view(old(vars)@),
                self.subst@.len() >= b.subst.len(),
                ({
                    let (xs, v, l) = lowered_list(tys_view(ts@.take(i as int)), v0, b.subst.len() as nat);
                    &&& ts_view(out@) == xs
                    &&& names_view(vars@) == v
                    &&& self.subst@.len() == l
                    &&& grown(b, self.bindings(), (l - b.subst.len()) as nat)
                }),
                self.env == old(self).env,
                self.keeps_tables(*old(self)),
        {
            proof {
                assert(decreases_to!(ts => ts@[i as int]));
                assert(ts@.take(i + 1).drop_last() == ts@.take(i as int));
                assert(tys_view(ts@.take(i + 1)).drop_last() == tys_view(ts@.take(i as int)));
                assert(tys_view(ts@.take(i + 1)).last() == ts@[i as int]@);
            }
            let ghost prev = out@;
            let ghost mid = self.bindings();
            let c = self.lower_ty(&ts[i], vars);
            out.push(c);
            proof {
                assert(out@.drop_last() == prev);
                assert(self.bindings().subst =~= b.subst + Seq::new(
                    (self.subst@.len() - b.subst.len()) as nat,
                    |i: int| None::<TV>,
                ));
                assert(self.bindings().kinds =~= b.kinds + Seq::new(
                    (self.subst@.len() - b.subst.len()) as nat,
                    |i: int| Kind::Any,
                ));
                assert(self.bindings().stamps =~= b.stamps + Seq::new(
                    (self.subst@.len() - b.subst.len()) as nat,
                    |i: int| 0int,
                ));
            }
        }
        assert(ts@.take(ts@.len() as int) == ts@);
        out
    }

    /// The resolved type, generic over every variable left in it, in the
    /// order they occur.
    pub fn generalise(&self, t: &T) -> (s: Scheme)
        requires
            self.wf(),
            self.bindings().vars_ok(t@, 0),
        ensures
            s.ty@ == self.bindings().resolved(t@),
            s.vars@ == add_new(Seq::empty(), tvars(self.bindings().resolved(t@))),
    {
        let t = self.resolve(t);
        let mut vars: Vec<usize> = Vec::new();
        collect_vars(&t, &mut vars);
        Scheme { vars, ty: t }
    }
}

pub proof fn lemma_inst_none(t: TV, vars: Seq<usize>, base: int)
    requires
        vars.len() == 0,
    ensures
        inst(t, vars, base) == t,
    decreases t, 0int,
{
    match t {
        TV::Var(_) => {},
        TV::Con(_, a) => lemma_inst_list_none(a, vars, base),
        TV::Fun(a, b) => {
            lemma_inst_none(*a, vars, base);
            lemma_inst_none(*b, vars, base);
        },
        TV::Tuple(ts) => lemma_inst_list_none(ts, vars, base),
        TV::Eff(x) => lemma_inst_none(*x, vars, base),
    }
}

pub proof fn lemma_inst_list_none(ts: Seq<TV>, vars: Seq<usize>, base: int)
    requires
        vars.len() == 0,
    ensures
        inst_list(ts, vars, base) == ts,
    decreases ts, 1int,
{
    if ts.len() > 0 {
        lemma_inst_list_none(ts.drop_last(), vars, base);
        lemma_inst_none(ts.last(), vars, base);
        assert(inst_list(ts, vars, base) =~= ts);
    }
}


// ------------------------------------------------------------ what unification achieves

impl Bindings {
    /// `n` keeps every binding of `self`, as it was made.
    pub open spec fn extends(self, n: Bindings) -> bool {
        &&& n.subst.len() == self.subst.len()
        &&& self.clock <= n.clock
        &&& forall|i: int| #[trigger] self.bound(i) ==> n.bound(i) && n.subst[i] == self.subst[i] && n.stamps[i]
            == self.stamps[i]
    }

    pub proof fn lemma_ok_lower(self, t: TV, lo: int, lo2: int)
        requires
            self.vars_ok(t, lo),
            lo2 <= lo,
        ensures
            self.vars_ok(t, lo2),
        decreases t, 0int,
    {
        match t {
            TV::Var(_) => {},
            TV::Con(_, a) => self.lemma_ok_list_lower(a, lo, lo2),
            TV::Fun(a, b) => {
                self.lemma_ok_lower(*a, lo, lo2);
                self.lemma_ok_lower(*b, lo, lo2);
            },
            TV::Tuple(ts) => self.lemma_ok_list_lower(ts, lo, lo2),
            TV::Eff(x) => self.lemma_ok_lower(*x, lo, lo2),
        }
    }

    pub proof fn lemma_ok_list_lower(self, ts: Seq<TV>, lo: int, lo2: int)
        requires
            self.list_ok(ts, lo),
            lo2 <= lo,
        ensures
            self.list_ok(ts, lo2),
        decreases ts, 1int,
    {
        if ts.len() > 0 {
            self.lemma_ok_list_lower(ts.drop_last(), lo, lo2);
            self.lemma_ok_lower(ts.last(), lo, lo2);
        }
    }

    /// Where resolution starts following bindings does not matter, as long
    /// as every binding it meets is followed.
    pub proof fn lemma_res_lo(self, t: TV, lo1: int, lo2: int)
        requires
            self.wf(),
            self.vars_ok(t, lo1),
            self.vars_ok(t, lo2),
        ensures
            self.res(t, lo1) == self.res(t, lo2),
        decreases t, 0int,
    {
        match t {
            TV::Var(_) => {},
            TV::Con(_, a) => self.lemma_res_list_lo(a, lo1, lo2),
            TV::Fun(a, b) => {
                self.lemma_res_lo(*a, lo1, lo2);
                self.lemma_res_lo(*b, lo1, lo2);
            },
            TV::Tuple(ts) => self.lemma_res_list_lo(ts, lo1, lo2),
            TV::Eff(x) => self.lemma_res_lo(*x, lo1, lo2),
        }
    }

    pub proof fn lemma_res_list_lo(self, ts: Seq<TV>, lo1: int, lo2: int)
        requires
            self.wf(),
            self.list_ok(ts, lo1),
            self.list_ok(ts, lo2),
        ensures
            self.res_list(ts, lo1) == self.res_list(ts, lo2),
        decreases ts, 1int,
    {
        if ts.len() > 0 {
            self.lemma_res_list_lo(ts.drop_last(), lo1, lo2);
            self.lemma_res_lo(ts.last(), lo1, lo2);
        }
    }

    /// Resolving under bindings that extend these finishes what resolving
    /// under these started.
    pub proof fn lemma_res_compose(self, n: Bindings, t: TV, lo: int)
        requires
            self.wf(),
            n.wf(),
            self.extends(n),
            self.vars_ok(t, lo),
            0 <= lo,
        ensures
            n.resolved(self.res(t, lo)) == n.resolved(t),
        decreases self.clock - lo, t, 0int,
    {
        match t {
            TV::Var(i) => {
                let ii = i as int;
                if self.bound(ii) {
                    let u = self.subst[ii]->0;
                    let st = self.stamps[ii];
                    assert(n.bound(ii));
                    self.lemma_res_compose(n, u, st + 1);
                    assert(n.subst[ii] == self.subst[ii]);
                    n.lemma_ok_lower(u, st + 1, 0);
                    n.lemma_res_lo(u, st + 1, 0);
                }
            },
            TV::Con(_, a) => self.lemma_res_compose_list(n, a, lo),
            TV::Fun(a, b) => {
                self.lemma_res_compose(n, *a, lo);
                self.lemma_res_compose(n, *b, lo);
            },
            TV::Tuple(ts) => self.lemma_res_compose_list(n, ts, lo),
            TV::Eff(x) => self.lemma_res_compose(n, *x, lo),
        }
    }

    pub proof fn lemma_res_compose_list(self, n: Bindings, ts: Seq<TV>, lo: int)
        requires
            self.wf(),
            n.wf(),
            self.extends(n),
            self.list_ok(ts, lo),
            0 <= lo,
        ensures
            n.res_list(self.res_list(ts, lo), 0) == n.res_list(ts, 0),
        decreases self.clock - lo, ts, 1int,
    {
        if ts.len() > 0 {
            self.lemma_res_compose_list(n, ts.drop_last(), lo);
            self.lemma_res_compose(n, ts.last(), lo);
            let r = self.res_list(ts, lo);
            assert(r.drop_last() =~= self.res_list(ts.drop_last(), lo));
        }
    }

    /// A binding that is made extends the bindings, and the variable then
    /// resolves to what it was bound to.
    pub proof fn lemma_bind_extends(self, v: usize, t: TV, ctx: Seq<char>)
        requires
            self.wf(),
            self.free_of(t),
            self.free_of(TV::Var(v)),
            self.bind(v, t, ctx) is Ok,
        ensures
            self.extends(self.bind(v, t, ctx)->Ok_0),
            self.bind(v, t, ctx)->Ok_0.resolved(TV::Var(v)) == t,
            self.bind(v, t, ctx)->Ok_0.vars_ok(TV::Var(v), 0),
    {
        let n = self.bind(v, t, ctx)->Ok_0;
        let vi = v as int;
        self.lemma_bind(v, t, ctx, Seq::empty());
        self.lemma_free_fixed(t, 0);
        assert forall|j: int| j != vi implies (#[trigger] n.bound(j) == self.bound(j)) by {}
        self.lemma_free_transfer(n, t, vi);
        n.lemma_free_fixed(t, self.clock + 1);
        assert(n.bound(vi));
    }

    pub proof fn lemma_extends_trans(self, m: Bindings, n: Bindings)
        requires
            self.extends(m),
            m.extends(n),
        ensures
            self.extends(n),
    {
        assert forall|i: int| #[trigger] self.bound(i) implies n.bound(i) && n.subst[i] == self.subst[i]
            && n.stamps[i] == self.stamps[i] by {
            assert(m.bound(i));
        }
    }

    pub proof fn lemma_extends_self(self)
        ensures
            self.extends(self),
    {
    }

    /// Both sides of a pair, resolved under bindings that extend these,
    /// come to what their resolutions here come to.
    pub proof fn lemma_pair_compose(self, n: Bindings, x: TV)
        requires
            self.wf(),
            n.wf(),
            self.extends(n),
            self.vars_ok(x, 0),
        ensures
            n.resolved(x) == n.resolved(self.resolved(x)),
    {
        self.lemma_res_compose(n, x, 0);
    }

    /// When the stack is solved without error, every pair on it resolves,
    /// under the bindings reached, to one type on both sides; the bindings
    /// reached keep every earlier binding.
    pub proof fn lemma_solve_sound(self, st: Seq<(TV, TV)>, ctx: Seq<char>)
        requires
            self.wf(),
            self.stack_ok(st),
            self.solve(st, ctx).1 is None,
        ensures
            self.solve(st, ctx).0.wf(),
            self.extends(self.solve(st, ctx).0),
            forall|k: int| 0 <= k < st.len() ==> #[trigger] self.solve(st, ctx).0.resolved(st[k].0)
                == self.solve(st, ctx).0.resolved(st[k].1),
        decreases nones(self.subst), self.msize(st),
    {
        if st.len() == 0 {
            return;
        }
        let rest = st.drop_last();
        let x = st.last().0;
        let y = st.last().1;
        let a = self.resolved(x);
        let b = self.resolved(y);
        self.lemma_stack_drop(st);
        self.lemma_msize_last(st);
        lemma_tsize_pos(a);
        lemma_tsize_pos(b);
        self.lemma_resolved_free(x);
        self.lemma_resolved_free(y);
        let n = self.solve(st, ctx).0;
        let top = st.len() - 1;
        assert(st[top] == (x, y));
        if a is Var && b is Var && a->Var_0 == b->Var_0 {
            self.lemma_solve_sound(rest, ctx);
            assert forall|k: int| 0 <= k < st.len() implies #[trigger] n.resolved(st[k].0) == n.resolved(
                st[k].1,
            ) by {
                if k < rest.len() {
                    assert(st[k] == rest[k]);
                } else {
                    self.lemma_pair_compose(n, x);
                    self.lemma_pair_compose(n, y);
                }
            }
        } else if a is Var || b is Var {
            let (v, c) = if a is Var {
                (a->Var_0, b)
            } else {
                (b->Var_0, a)
            };
            let m = self.bind(v, c, ctx)->Ok_0;
            self.lemma_bind(v, c, ctx, rest);
            self.lemma_bind_extends(v, c, ctx);
            m.lemma_solve_sound(rest, ctx);
            assert(n == m.solve(rest, ctx).0);
            self.lemma_extends_trans(m, n);
            assert forall|k: int| 0 <= k < st.len() implies #[trigger] n.resolved(st[k].0) == n.resolved(
                st[k].1,
            ) by {
                if k < rest.len() {
                    assert(st[k] == rest[k]);
                } else {
                    self.lemma_pair_compose(n, x);
                    self.lemma_pair_compose(n, y);
                    m.lemma_pair_compose(n, TV::Var(v));
                }
            }
        } else if a is Con && b is Con && a->Con_0 == b->Con_0 && a->Con_1.len() == b->Con_1.len() {
            let xs = a->Con_1;
            let ys = b->Con_1;
            let next = rest + pairs_rev(xs, ys);
            self.lemma_split(xs, ys, rest);
            self.lemma_solve_sound(next, ctx);
            self.lemma_children_equal(n, xs, ys, rest, ctx);
            assert forall|k: int| 0 <= k < st.len() implies #[trigger] n.resolved(st[k].0) == n.resolved(
                st[k].1,
            ) by {
                if k < rest.len() {
                    assert(st[k] == rest[k]);
                    assert(next[k] == rest[k]);
                } else {
                    self.lemma_pair_compose(n, x);
                    self.lemma_pair_compose(n, y);
                }
            }
        } else if a is Fun && b is Fun {
            let next = rest.push((*a->Fun_1, *b->Fun_1)).push((*a->Fun_0, *b->Fun_0));
            self.lemma_push_free(rest, *a->Fun_1, *b->Fun_1);
            self.lemma_push_free(rest.push((*a->Fun_1, *b->Fun_1)), *a->Fun_0, *b->Fun_0);
            self.lemma_solve_sound(next, ctx);
            assert(next[rest.len() as int] == (*a->Fun_1, *b->Fun_1));
            assert(next[rest.len() as int + 1] == (*a->Fun_0, *b->Fun_0));
            assert(n.resolved(next[rest.len() as int].0) == n.resolved(next[rest.len() as int].1));
            assert(n.resolved(next[rest.len() as int + 1].0) == n.resolved(next[rest.len() as int + 1].1));
            assert forall|k: int| 0 <= k < st.len() implies #[trigger] n.resolved(st[k].0) == n.resolved(
                st[k].1,
            ) by {
                if k < rest.len() {
                    assert(st[k] == rest[k]);
                    assert(next[k] == rest[k]);
                } else {
                    self.lemma_pair_compose(n, x);
                    self.lemma_pair_compose(n, y);
                }
            }
        } else if a is Tuple && b is Tuple && a->Tuple_0.len() == b->Tuple_0.len() {
            let xs = a->Tuple_0;
            let ys = b->Tuple_0;
            let next = rest + pairs_rev(xs, ys);
            self.lemma_split(xs, ys, rest);
            self.lemma_solve_sound(next, ctx);
            self.lemma_children_equal(n, xs, ys, rest, ctx);
            assert forall|k: int| 0 <= k < st.len() implies #[trigger] n.resolved(st[k].0) == n.resolved(
                st[k].1,
            ) by {
                if k < rest.len() {
                    assert(st[k] == rest[k]);
                    assert(next[k] == rest[k]);
                } else {
                    self.lemma_pair_compose(n, x);
                    self.lemma_pair_compose(n, y);
                }
            }
        } else if a is Eff && b is Eff {
            let next = rest.push((*a->Eff_0, *b->Eff_0));
            self.lemma_push_free(rest, *a->Eff_0, *b->Eff_0);
            self.lemma_solve_sound(next, ctx);
            assert(next[rest.len() as int] == (*a->Eff_0, *b->Eff_0));
            assert(n.resolved(next[rest.len() as int].0) == n.resolved(next[rest.len() as int].1));
            assert forall|k: int| 0 <= k < st.len() implies #[trigger] n.resolved(st[k].0) == n.resolved(
                st[k].1,
            ) by {
                if k < rest.len() {
                    assert(st[k] == rest[k]);
                    assert(next[k] == rest[k]);
                } else {
                    self.lemma_pair_compose(n, x);
                    self.lemma_pair_compose(n, y);
                }
            }
        }
    }

    /// When the argument pairs of two constructors were solved, the
    /// argument lists resolve to the same list.
    pub proof fn lemma_children_equal(
        self,
        n: Bindings,
        xs: Seq<TV>,
        ys: Seq<TV>,
        rest: Seq<(TV, TV)>,
        ctx: Seq<char>,
    )
        requires
            xs.len() == ys.len(),
            n == self.solve(rest + pairs_rev(xs, ys), ctx).0,
            forall|k: int| 0 <= k < (rest + pairs_rev(xs, ys)).len() ==> #[trigger] n.resolved(
                (rest + pairs_rev(xs, ys))[k].0,
            ) == n.resolved((rest + pairs_rev(xs, ys))[k].1),
        ensures
            n.res_list(xs, 0) == n.res_list(ys, 0),
    {
        let next = rest + pairs_rev(xs, ys);
        lemma_pairs_rev_shape(xs, ys);
        n.lemma_res_list(xs, 0);
        n.lemma_res_list(ys, 0);
        assert forall|j: int| 0 <= j < xs.len() implies #[trigger] n.res_list(xs, 0)[j] == n.res_list(ys, 0)[j] by {
            let k = rest.len() + (xs.len() - 1 - j);
            assert(next[k] == pairs_rev(xs, ys)[xs.len() - 1 - j]);
            assert(n.resolved(next[k].0) == n.resolved(next[k].1));
        }
        assert(n.res_list(xs, 0) =~= n.res_list(ys, 0));
    }
}

/// After a unification that succeeds, the two types resolve to one and the
/// same type, and every binding made before it is kept as it was.
pub proof fn lemma_unify_sound(b: Bindings, x: TV, y: TV, ctx: Seq<char>)
    requires
        b.wf(),
        b.vars_ok(x, 0),
        b.vars_ok(y, 0),
        b.solve(seq![(x, y)], ctx).1 is None,
    ensures
        b.solve(seq![(x, y)], ctx).0.resolved(x) == b.solve(seq![(x, y)], ctx).0.resolved(y),
        b.extends(b.solve(seq![(x, y)], ctx).0),
{
    let st = seq![(x, y)];
    assert forall|k: int| 0 <= k < st.len() implies b.vars_ok(#[trigger] st[k].0, 0) && b.vars_ok(st[k].1, 0) by {}
    b.lemma_solve_sound(st, ctx);
    assert(st[0] == (x, y));
}


// ------------------------------------------------------------ variables in range

/// Every variable of `t` is below `n`.
pub open spec fn below(t: TV, n: int) -> bool
    decreases t, 0int,
{
    match t {
        TV::Var(i) => i < n,
        TV::Con(_, a) => below_list(a, n),
        TV::Fun(a, b) => below(*a, n) && below(*b, n),
        TV::Tuple(ts) => below_list(ts, n),
        TV::Eff(x) => below(*x, n),
    }
}

pub open spec fn below_list(ts: Seq<TV>, n: int) -> bool
    decreases ts, 1int,
{
    if ts.len() == 0 {
        true
    } else {
        below_list(ts.drop_last(), n) && below(ts.last(), n)
    }
}

/// Every variable the names stand for is below `n`.
pub open spec fn names_below(vars: Seq<(Seq<char>, TV)>, n: int) -> bool {
    forall|k: int| 0 <= k < vars.len() ==> below(#[trigger] vars[k].1, n)
}

pub proof fn lemma_below_mono(t: TV, n: int, m: int)
    requires
        below(t, n),
        n <= m,
    ensures
        below(t, m),
    decreases t, 0int,
{
    match t {
        TV::Var(_) => {},
        TV::Con(_, a) => lemma_below_list_mono(a, n, m),
        TV::Fun(a, b) => {
            lemma_below_mono(*a, n, m);
            lemma_below_mono(*b, n, m);
        },
        TV::Tuple(ts) => lemma_below_list_mono(ts, n, m),
        TV::Eff(x) => lemma_below_mono(*x, n, m),
    }
}

pub proof fn lemma_below_list_mono(ts: Seq<TV>, n: int, m: int)
    requires
        below_list(ts, n),
        n <= m,
    ensures
        below_list(ts, m),
    decreases ts, 1int,
{
    if ts.len() > 0 {
        lemma_below_list_mono(ts.drop_last(), n, m);
        lemma_below_mono(ts.last(), n, m);
    }
}

pub proof fn lemma_below_list(ts: Seq<TV>, n: int)
    ensures
        below_list(ts, n) <==> forall|k: int| 0 <= k < ts.len() ==> below(#[trigger] ts[k], n),
    decreases ts.len(),
{
    if ts.len() > 0 {
        let d = ts.drop_last();
        lemma_below_list(d, n);
        if below_list(ts, n) {
            assert forall|k: int| 0 <= k < ts.len() implies below(#[trigger] ts[k], n) by {
                if k < ts.len() - 1 {
                    assert(d[k] == ts[k]);
                }
            }
        }
        if forall|k: int| 0 <= k < ts.len() ==> below(#[trigger] ts[k], n) {
            assert forall|k: int| 0 <= k < d.len() implies below(#[trigger] d[k], n) by {
                assert(d[k] == ts[k]);
            }
            assert(below(ts[ts.len() - 1], n));
        }
    }
}

impl Bindings {
    /// In well-formed bindings, a type whose variables all exist is one
    /// resolution can start on.
    pub proof fn lemma_below_ok(self, t: TV)
        requires
            self.wf(),
            below(t, self.subst.len() as int),
        ensures
            self.vars_ok(t, 0),
        decreases t, 0int,
    {
        match t {
            TV::Var(i) => {
                if self.bound(i as int) {
                    assert(0 <= self.stamps[i as int]);
                }
            },
            TV::Con(_, a) => self.lemma_below_list_ok(a),
            TV::Fun(a, b) => {
                self.lemma_below_ok(*a);
                self.lemma_below_ok(*b);
            },
            TV::Tuple(ts) => self.lemma_below_list_ok(ts),
            TV::Eff(x) => self.lemma_below_ok(*x),
        }
    }

    pub proof fn lemma_below_list_ok(self, ts: Seq<TV>)
        requires
            self.wf(),
            below_list(ts, self.subst.len() as int),
        ensures
            self.list_ok(ts, 0),
        decreases ts, 1int,
    {
        if ts.len() > 0 {
            self.lemma_below_list_ok(ts.drop_last());
            self.lemma_below_ok(ts.last());
        }
    }
}

/// Lowering only counts up, and leaves every variable it hands out, and
/// every variable a name stands for, below the new count.
pub proof fn lemma_lowered_below(t: TyV, vars: Seq<(Seq<char>, TV)>, len: nat)
    requires
        names_below(vars, len as int),
    ensures
        lowered(t, vars, len).2 >= len,
        below(lowered(t, vars, len).0, lowered(t, vars, len).2 as int),
        names_below(lowered(t, vars, len).1, lowered(t, vars, len).2 as int),
    decreases t, 0int,
{
    match t {
        TyV::Ref(x) => lemma_lowered_below(*x, vars, len),
        TyV::Eff(x) => lemma_lowered_below(*x, vars, len),
        TyV::Fun(a, b) => {
            lemma_lowered_below(*a, vars, len);
            let (x, v1, l1) = lowered(*a, vars, len);
            lemma_lowered_below(*b, v1, l1);
            let (y, v2, l2) = lowered(*b, v1, l1);
            lemma_below_mono(x, l1 as int, l2 as int);
        },
        TyV::Tuple(ts) => lemma_lowered_list_below(ts, vars, len),
        TyV::Var(n) => {
            lemma_var_named_below(vars, n, len as int);
            if var_named(vars, n) is None {
                let v = vars.push((n, TV::Var(len as usize)));
                assert forall|k: int| 0 <= k < v.len() implies below(#[trigger] v[k].1, len as int + 1) by {
                    if k < vars.len() {
                        assert(v[k] == vars[k]);
                        lemma_below_mono(vars[k].1, len as int, len as int + 1);
                    }
                }
            }
        },
        TyV::Con(_, args) => lemma_lowered_list_below(args, vars, len),
    }
}

pub proof fn lemma_lowered_list_below(ts: Seq<TyV>, vars: Seq<(Seq<char>, TV)>, len: nat)
    requires
        names_below(vars, len as int),
    ensures
        lowered_list(ts, vars, len).2 >= len,
        below_list(lowered_list(ts, vars, len).0, lowered_list(ts, vars, len).2 as int),
        names_below(lowered_list(ts, vars, len).1, lowered_list(ts, vars, len).2 as int),
    decreases ts, 1int,
{
    if ts.len() > 0 {
        lemma_lowered_list_below(ts.drop_last(), vars, len);
        let (xs, v, l) = lowered_list(ts.drop_last(), vars, len);
        lemma_lowered_below(ts.last(), v, l);
        let (x, v2, l2) = lowered(ts.last(), v, l);
        lemma_below_list_mono(xs, l as int, l2 as int);
        assert(xs.push(x).drop_last() =~= xs);
    }
}

pub proof fn lemma_var_named_below(vars: Seq<(Seq<char>, TV)>, n: Seq<char>, len: int)
    requires
        names_below(vars, len),
    ensures
        var_named(vars, n) matches Some(t) ==> below(t, len),
    decreases vars.len(),
{
    if vars.len() > 0 {
        assert(vars.last() == vars[vars.len() - 1]);
        let d = vars.drop_last();
        assert forall|k: int| 0 <= k < d.len() implies below(#[trigger] d[k].1, len) by {
            assert(d[k] == vars[k]);
        }
        lemma_var_named_below(d, n, len);
    }
}


// ------------------------------------------------------------ exhaustiveness

/// A match left to check, by its view: where it is, the type of what it
/// matches, its patterns, and the path of the function it is in.
pub open spec fn pending_view(ps: Seq<(Span, T, Vec<Pat>, String)>) -> Seq<(Span, TV, Seq<PatV>, Seq<char>)> {
    ps.map_values(|e: (Span, T, Vec<Pat>, String)| (e.0, e.1@, pats_view(e.2@), e.3@))
}

/// The variant types by their views.
pub open spec fn variants_view(vs: Seq<(String, Vec<String>)>) -> Seq<(Seq<char>, Seq<Seq<char>>)> {
    vs.map_values(|e: (String, Vec<String>)| (e.0@, texts(e.1@)))
}

/// The constructors of the variant type `n`: its latest entry.
pub open spec fn variant_named(vs: Seq<(Seq<char>, Seq<Seq<char>>)>, n: Seq<char>) -> Option<Seq<Seq<char>>>
    decreases vs.len(),
{
    if vs.len() == 0 {
        None
    } else if vs.last().0 == n {
        Some(vs.last().1)
    } else {
        variant_named(vs.drop_last(), n)
    }
}

/// A pattern that matches anything.
pub open spec fn catch_all(p: PatV) -> bool {
    p is Wild || p is Var
}

/// The constructors of `all`, in order, whose values some row leaves
/// unmatched.
pub open spec fn uncovered_ctors(
    all: Seq<Seq<char>>,
    rows: Seq<Seq<PatV>>,
    vs: Seq<(Seq<char>, Seq<Seq<char>>)>,
) -> Seq<Seq<char>>
    decreases all.len(),
{
    if all.len() == 0 {
        Seq::empty()
    } else {
        let rest = uncovered_ctors(all.drop_last(), rows, vs);
        if cover_member(rows, KeyV::Named(all.last()), vs) {
            rest
        } else {
            rest.push(all.last())
        }
    }
}

/// The lengths of the list patterns, in order.
pub open spec fn list_lens(ps: Seq<PatV>) -> Seq<nat>
    decreases ps.len(),
{
    if ps.len() == 0 {
        Seq::empty()
    } else {
        let rest = list_lens(ps.drop_last());
        match ps.last() {
            PatV::List(xs) => rest.push(xs.len()),
            _ => rest,
        }
    }
}

/// The least length from `k` on that no list pattern has; there is one at
/// or below the number of list patterns.
pub open spec fn gap_from(lens: Seq<nat>, k: nat) -> nat
    decreases lens.len() - k,
{
    if k >= lens.len() || !lens.contains(k) {
        k
    } else {
        gap_from(lens, k + 1)
    }
}

/// What a match over a value of type `ty` leaves uncovered, unless a
/// pattern matches anything: the booleans whose value no arm matches, the
/// constructors of a variant type some of whose values no arm matches, the
/// first list length not matched, the remaining tuple combinations where
/// some tuple matches no arm, or any other value.
pub open spec fn missing(ty: TV, ps: Seq<PatV>, vs: Seq<(Seq<char>, Seq<Seq<char>>)>) -> Seq<Seq<char>> {
    let rows = column(ps);
    match ty {
        TV::Con(n, _) => if n == "Bool"@ {
            (if cover_member(rows, KeyV::Flag(true), vs) {
                Seq::empty()
            } else {
                seq!["True"@]
            }) + (if cover_member(rows, KeyV::Flag(false), vs) {
                Seq::empty()
            } else {
                seq!["False"@]
            })
        } else if variant_named(vs, n) is Some {
            uncovered_ctors(variant_named(vs, n)->0, rows, vs)
        } else if n == "Vec"@ {
            seq!["a list of length "@ + decimal(gap_from(list_lens(ps), 0))]
        } else {
            seq!["any other value"@]
        },
        TV::Tuple(_) => if exhaustive(rows, vs) {
            Seq::empty()
        } else {
            seq!["the remaining combinations"@]
        },
        _ => seq!["any other value"@],
    }
}

/// The report for a match that leaves `m` uncovered: its message, its path,
/// its witness, and the arm to add.
pub open spec fn uncovered_report(m: Seq<Seq<char>>, path: Seq<char>) -> (Seq<char>, Seq<char>, Seq<char>, Seq<char>) {
    let list = join(m, ", "@);
    (
        "this match does not cover "@ + list,
        path + ".match"@,
        "missing "@ + list,
        "add `|"@ + (if m[0].contains(' ') {
            "_"@
        } else {
            m[0]
        }) + " -> ...`"@,
    )
}

/// The reports for the pending matches, in order: one for each match that
/// has no catch-all pattern and leaves something uncovered.
pub open spec fn match_reports(
    b: Bindings,
    pend: Seq<(Span, TV, Seq<PatV>, Seq<char>)>,
    vs: Seq<(Seq<char>, Seq<Seq<char>>)>,
) -> Seq<(Span, (Seq<char>, Seq<char>, Seq<char>, Seq<char>))>
    decreases pend.len(),
{
    if pend.len() == 0 {
        Seq::empty()
    } else {
        let rest = match_reports(b, pend.drop_last(), vs);
        let (span, scrut, ps, path) = pend.last();
        let m = missing(b.resolved(scrut), ps, vs);
        if (exists|k: int| 0 <= k < ps.len() && catch_all(#[trigger] ps[k])) || m.len() == 0 {
            rest
        } else {
            rest.push((span, uncovered_report(m, path)))
        }
    }
}

/// The diagnostic `d` is the report `r` at its span.
pub open spec fn is_report(d: Diag, r: (Span, (Seq<char>, Seq<char>, Seq<char>, Seq<char>))) -> bool {
    &&& d.span == r.0
    &&& d.code@ == "match.nonexhaustive"@
    &&& d.msg@ == r.1.0
    &&& opt_view(d.path) == Some(r.1.1)
    &&& opt_view(d.witness) == Some(r.1.2)
    &&& opt_view(d.fix) == Some(r.1.3)
}

impl Checker {
    /// Sets a match aside for the exhaustiveness check.
    pub fn record_match(&mut self, span: Span, scrut: T, pats: Vec<Pat>, path: String)
        ensures
            final(self).pending_matches@ == old(self).pending_matches@.push((span, scrut, pats, path)),
            final(self).subst == old(self).subst,
            final(self).kinds == old(self).kinds,
            final(self).stamps == old(self).stamps,
            final(self).clock == old(self).clock,
            final(self).env == old(self).env,
            final(self).sigs == old(self).sigs,
            final(self).errors == old(self).errors,
            final(self).binds == old(self).binds,
            final(self).data == old(self).data,
    {
        self.pending_matches.push((span, scrut, pats, path));
    }
}


fn has_catch_all(ps: &Vec<Pat>) -> (r: bool)
    ensures
        r == exists|k: int| 0 <= k < pats_view(ps@).len() && catch_all(#[trigger] pats_view(ps@)[k]),
{
    proof {
        lemma_pats_view(ps@);
    }
    for i in 0..ps.len()
        invariant
            pats_view(ps@).len() == ps@.len(),
            forall|k: int| 0 <= k < ps@.len() ==> #[trigger] pats_view(ps@)[k] == ps@[k]@,
            forall|k: int| 0 <= k < i ==> !catch_all(#[trigger] pats_view(ps@)[k]),
    {
        let any = match &ps[i] {
            Pat::Wild | Pat::Var(_) => true,
            _ => false,
        };
        if any {
            assert(catch_all(pats_view(ps@)[i as int]));
            return true;
        }
    }
    false
}

fn find_variant(vs: &Vec<(String, Vec<String>)>, n: &str) -> (r: Option<usize>)
    ensures
        match r {
            Some(k) => k < vs@.len() && variant_named(variants_view(vs@), n@) == Some(texts(vs@[k as int].1@)),
            None => variant_named(variants_view(vs@), n@) is None,
        },
{
    let mut k = vs.len();
    assert(variants_view(vs@).take(vs@.len() as int) =~= variants_view(vs@));
    while k > 0
        invariant
            k <= vs@.len(),
            variant_named(variants_view(vs@), n@) == variant_named(variants_view(vs@).take(k as int), n@),
        decreases k,
    {
        assert(variants_view(vs@).take(k as int).drop_last() =~= variants_view(vs@).take(k - 1));
        k -= 1;
        if str_eq(vs[k].0.as_str(), n) {
            return Some(k);
        }
    }
    assert(variants_view(vs@).take(0) =~= Seq::<(Seq<char>, Seq<Seq<char>>)>::empty());
    None
}

/// The lengths of the list patterns, in order.
fn lens_of(ps: &Vec<Pat>) -> (r: Vec<usize>)
    ensures
        r@.map_values(|x: usize| x as nat) == list_lens(pats_view(ps@)),
{
    let mut out: Vec<usize> = Vec::new();
    proof {
        lemma_pats_view(ps@);
        assert(pats_view(ps@).take(0) =~= Seq::<PatV>::empty());
    }
    for i in 0..ps.len()
        invariant
            pats_view(ps@).len() == ps@.len(),
            forall|k: int| 0 <= k < ps@.len() ==> #[trigger] pats_view(ps@)[k] == ps@[k]@,
            out@.map_values(|x: usize| x as nat) == list_lens(pats_view(ps@).take(i as int)),
    {
        let ghost prev = out@;
        proof {
            assert(pats_view(ps@).take(i + 1).drop_last() =~= pats_view(ps@).take(i as int));
            assert(pats_view(ps@).take(i + 1).last() == ps@[i as int]@);
        }
        match &ps[i] {
            Pat::List(xs) => {
                proof {
                    lemma_pats_view(xs@);
                }
                out.push(xs.len());
                assert(out@.map_values(|x: usize| x as nat) =~= prev.map_values(|x: usize| x as nat).push(
                    xs@.len() as nat,
                ));
            },
            _ => {},
        }
    }
    assert(pats_view(ps@).take(ps@.len() as int) =~= pats_view(ps@));
    out
}

fn holds_len(v: &Vec<usize>, x: usize) -> (r: bool)
    ensures
        r == v@.map_values(|y: usize| y as nat).contains(x as nat),
{
    let ghost w = v@.map_values(|y: usize| y as nat);
    for k in 0..v.len()
        invariant
            w == v@.map_values(|y: usize| y as nat),
            forall|j: int| 0 <= j < k ==> w[j] != x as nat,
    {
        if v[k] == x {
            assert(w[k as int] == x as nat);
            return true;
        }
    }
    false
}

/// The least length no list pattern has.
pub(crate) fn first_gap(lens: &Vec<usize>) -> (r: usize)
    ensures
        r as nat == gap_from(lens@.map_values(|x: usize| x as nat), 0),
{
    let ghost w = lens@.map_values(|x: usize| x as nat);
    let mut k: usize = 0;
    while k < lens.len() && holds_len(lens, k)
        invariant
            k <= lens@.len(),
            w == lens@.map_values(|x: usize| x as nat),
            gap_from(w, 0) == gap_from(w, k as nat),
        decreases lens@.len() - k,
    {
        k += 1;
    }
    k
}

/// The first text has a space in it.
fn has_space(s: &str) -> (r: bool)
    ensures
        r == s@.contains(' '),
{
    let cs = chars_of(s);
    for i in 0..cs.len()
        invariant
            cs@ == s@,
            forall|j: int| 0 <= j < i ==> cs@[j] != ' ',
    {
        if cs[i] == ' ' {
            assert(s@[i as int] == ' ');
            return true;
        }
    }
    false
}

/// The report for a match that leaves `m` uncovered.
fn uncovered(m: &Vec<String>, span: Span, path: &str) -> (d: Diag)
    requires
        m@.len() > 0,
    ensures
        is_report(d, (span, uncovered_report(texts(m@), path@))),
{
    let mut list = String::new();
    let parts = m.as_slice();
    push_joined(&mut list, parts, ", ");
    assert(parts@.map_values(|p: String| p@) =~= texts(m@));
    assert(list@ =~= join(texts(m@), ", "@));
    let mut msg = owned("this match does not cover ");
    push_str(&mut msg, list.as_str());
    let mut p = owned(path);
    push_str(&mut p, ".match");
    let mut w = owned("missing ");
    push_str(&mut w, list.as_str());
    let mut f = owned("add `|");
    if has_space(m[0].as_str()) {
        push_str(&mut f, "_");
    } else {
        push_str(&mut f, m[0].as_str());
    }
    push_str(&mut f, " -> ...`");
    assert(texts(m@)[0] == m@[0]@);
    Diag::error(span, "match.nonexhaustive", msg.as_str()).with_path(p.as_str()).with_witness(w.as_str()).with_fix(
        f.as_str(),
    )
}

impl Checker {
    /// What a match over `ty` with the patterns `ps` leaves uncovered.
    fn missing_of(&self, ty: &T, ps: &Vec<Pat>) -> (r: Vec<String>)
        ensures
            texts(r@) == missing(ty@, pats_view(ps@), variants_view(self.data.variants@)),
    {
        let ghost want = missing(ty@, pats_view(ps@), variants_view(self.data.variants@));
        let rows = column_of(ps);
        let vs = &self.data.variants;
        match ty {
            T::Con(n, _) => {
                if str_eq(n.as_str(), "Bool") {
                    let mut m: Vec<String> = Vec::new();
                    if !covers_one(&rows, &Key::Flag(true), vs) {
                        m.push(owned("True"));
                    }
                    if !covers_one(&rows, &Key::Flag(false), vs) {
                        m.push(owned("False"));
                    }
                    assert(texts(m@) =~= want);
                    return m;
                }
                match find_variant(&self.data.variants, n.as_str()) {
                    Some(k) => {
                        let all = &self.data.variants[k].1;
                        let mut m: Vec<String> = Vec::new();
                        proof {
                            assert(texts(all@).take(0) =~= Seq::<Seq<char>>::empty());
                        }
                        for i in 0..all.len()
                            invariant
                                texts(m@) == uncovered_ctors(
                                    texts(all@).take(i as int),
                                    rows_view(rows@),
                                    variants_view(vs@),
                                ),
                                rows_view(rows@) == column(pats_view(ps@)),
                                vs == &self.data.variants,
                        {
                            proof {
                                assert(texts(all@).take(i + 1).drop_last() =~= texts(all@).take(i as int));
                                assert(texts(all@).take(i + 1).last() == all@[i as int]@);
                            }
                            let ghost prev = m@;
                            if !covers_one(&rows, &Key::Named(all[i].clone()), vs) {
                                m.push(all[i].clone());
                                assert(texts(m@) =~= texts(prev).push(all@[i as int]@));
                            }
                        }
                        assert(texts(all@).take(all@.len() as int) =~= texts(all@));
                        return m;
                    },
                    None => {},
                }
                if str_eq(n.as_str(), "Vec") {
                    let lens = lens_of(ps);
                    let g = first_gap(&lens);
                    let mut s = owned("a list of length ");
                    push_decimal(&mut s, g as u64);
                    let mut m: Vec<String> = Vec::new();
                    m.push(s);
                    assert(texts(m@) =~= want);
                    return m;
                }
                let mut m: Vec<String> = Vec::new();
                m.push(owned("any other value"));
                assert(texts(m@) =~= want);
                m
            },
            T::Tuple(_) => {
                let mut m: Vec<String> = Vec::new();
                if !exhaustive_rows(&rows, vs) {
                    m.push(owned("the remaining combinations"));
                }
                assert(texts(m@) =~= want);
                m
            },
            _ => {
                let mut m: Vec<String> = Vec::new();
                m.push(owned("any other value"));
                assert(texts(m@) =~= want);
                m
            },
        }
    }

    /// Checks every match set aside, now that the types of what they match
    /// are known: each that has no catch-all pattern and leaves something
    /// uncovered gets a report, in the order the matches were set aside, and
    /// none is left pending.
    pub fn check_exhaustiveness(&mut self)
        requires
            old(self).wf(),
            forall|k: int| 0 <= k < old(self).pending_matches@.len() ==> below(
                #[trigger] old(self).pending_matches@[k].1@,
                old(self).subst@.len() as int,
            ),
        ensures
            final(self).pending_matches@.len() == 0,
            ({
                let reps = match_reports(
                    old(self).bindings(),
                    pending_view(old(self).pending_matches@),
                    variants_view(old(self).data.variants@),
                );
                &&& final(self).errors@.len() == old(self).errors@.len() + reps.len()
                &&& final(self).errors@.take(old(self).errors@.len() as int) == old(self).errors@
                &&& forall|j: int| 0 <= j < reps.len() ==> is_report(
                    #[trigger] final(self).errors@[old(self).errors@.len() + j],
                    reps[j],
                )
            }),
            final(self).subst == old(self).subst,
            final(self).kinds == old(self).kinds,
            final(self).stamps == old(self).stamps,
            final(self).clock == old(self).clock,
            final(self).env == old(self).env,
            final(self).sigs == old(self).sigs,
            final(self).binds == old(self).binds,
            final(self).data == old(self).data,
    {
        let ghost b = self.bindings();
        let ghost pv = pending_view(self.pending_matches@);
        let ghost vs = variants_view(self.data.variants@);
        let ghost e0 = self.errors@;
        let n = self.pending_matches.len();
        proof {
            assert(pv.take(0) =~= Seq::<(Span, TV, Seq<PatV>, Seq<char>)>::empty());
        }
        for i in 0..n
            invariant
                n == self.pending_matches@.len(),
                self.wf(),
                b == self.bindings(),
                pv == pending_view(self.pending_matches@),
                vs == variants_view(self.data.variants@),
                forall|k: int| 0 <= k < n ==> below(#[trigger] self.pending_matches@[k].1@, self.subst@.len() as int),
                self.subst == old(self).subst,
                self.kinds == old(self).kinds,
                self.stamps == old(self).stamps,
                self.clock == old(self).clock,
                self.env == old(self).env,
                self.sigs == old(self).sigs,
                self.binds == old(self).binds,
                self.data == old(self).data,
                self.pending_matches == old(self).pending_matches,
                e0 == old(self).errors@,
                ({
                    let reps = match_reports(b, pv.take(i as int), vs);
                    &&& self.errors@.len() == e0.len() + reps.len()
                    &&& self.errors@.take(e0.len() as int) == e0
                    &&& forall|j: int| 0 <= j < reps.len() ==> is_report(
                        #[trigger] self.errors@[e0.len() + j],
                        reps[j],
                    )
                }),
        {
            let ghost reps = match_reports(b, pv.take(i as int), vs);
            proof {
                assert(pv.take(i + 1).drop_last() =~= pv.take(i as int));
                assert(pv.take(i + 1).last() == pv[i as int]);
                b.lemma_below_ok(self.pending_matches@[i as int].1@);
            }
            let ty = self.resolve(&self.pending_matches[i].1);
            let catch = has_catch_all(&self.pending_matches[i].2);
            let m = self.missing_of(&ty, &self.pending_matches[i].2);
            if !catch && m.len() > 0 {
                let d = uncovered(&m, self.pending_matches[i].0, self.pending_matches[i].3.as_str());
                let ghost before = self.errors@;
                self.errors.push(d);
                proof {
                    let r2 = match_reports(b, pv.take(i + 1), vs);
                    assert(r2 == reps.push((pv[i as int].0, uncovered_report(texts(m@), pv[i as int].3))));
                    assert(self.errors@.take(e0.len() as int) =~= e0) by {
                        assert(before.take(e0.len() as int) == e0);
                    }
                    assert forall|j: int| 0 <= j < r2.len() implies is_report(
                        #[trigger] self.errors@[e0.len() + j],
                        r2[j],
                    ) by {
                        if j < reps.len() {
                            assert(self.errors@[e0.len() + j] == before[e0.len() + j]);
                        }
                    }
                }
            } else {
                proof {
                    assert(match_reports(b, pv.take(i + 1), vs) == reps);
                }
            }
        }
        proof {
            assert(pv.take(n as int) =~= pv);
        }
        self.pending_matches = Vec::new();
    }
}


proof fn lemma_gap_from(lens: Seq<nat>, k: nat)
    requires
        k <= lens.len(),
    ensures
        gap_from(lens, k) >= k,
        gap_from(lens, k) <= lens.len(),
        forall|j: nat| k <= j < gap_from(lens, k) ==> lens.contains(j),
        gap_from(lens, k) < lens.len() ==> !lens.contains(gap_from(lens, k)),
        gap_from(lens, k) == lens.len() && lens.contains(gap_from(lens, k)) ==> forall|j: nat|
            k <= j < lens.len() ==> lens.contains(j),
    decreases lens.len() - k,
{
    if k < lens.len() && lens.contains(k) {
        lemma_gap_from(lens, k + 1);
    }
}


/// The least length from 0 on that `lens` does not hold: every length below
/// it is held, and it is not.
pub proof fn lemma_gap_is_least_free(lens: Seq<nat>)
    ensures
        forall|j: nat| j < gap_from(lens, 0) ==> lens.contains(j),
        !lens.contains(gap_from(lens, 0)),
{
    let n = lens.len();
    lemma_gap_from(lens, 0);
    let g = gap_from(lens, 0);
    if lens.contains(g) {
        assert(g == n);
        let ints = lens.map_values(|x: nat| x as int);
        let s = ints.to_set();
        assert forall|i: int| #[trigger] vstd::set_lib::set_int_range(0, n as int + 1).contains(i) implies s.contains(i) by {
            let j = i as nat;
            assert(lens.contains(j));
            let idx = choose|idx: int| 0 <= idx < lens.len() && lens[idx] == j;
            assert(ints[idx] == i);
            assert(ints.contains(i));
        }
        vstd::set_lib::lemma_int_range(0, n as int + 1);
        vstd::seq_lib::seq_to_set_is_finite(ints);
        ints.lemma_cardinality_of_set();
        vstd::set_lib::lemma_len_subset(vstd::set_lib::set_int_range(0, n as int + 1), s);
        assert(false);
    }
}

/// A match over vectors that misses one names a length that no list pattern
/// in it has: among the lengths up to the number of list patterns, one is
/// always free.
pub proof fn lemma_missing_length_is_free(ps: Seq<PatV>)
    ensures
        !list_lens(ps).contains(gap_from(list_lens(ps), 0)),
{
    let lens = list_lens(ps);
    let n = lens.len();
    lemma_gap_from(lens, 0);
    let g = gap_from(lens, 0);
    if lens.contains(g) {
        assert(g == n);
        let ints = lens.map_values(|x: nat| x as int);
        let s = ints.to_set();
        assert forall|i: int| #[trigger] vstd::set_lib::set_int_range(0, n as int + 1).contains(i) implies s.contains(i) by {
            let j = i as nat;
            assert(lens.contains(j));
            let idx = choose|idx: int| 0 <= idx < lens.len() && lens[idx] == j;
            assert(ints[idx] == i);
            assert(ints.contains(i));
        }
        vstd::set_lib::lemma_int_range(0, n as int + 1);
        vstd::seq_lib::seq_to_set_is_finite(ints);
        ints.lemma_cardinality_of_set();
        vstd::set_lib::lemma_len_subset(vstd::set_lib::set_int_range(0, n as int + 1), s);
        assert(false);
    }
}


/// Resolving a resolved type changes nothing.
pub proof fn lemma_resolve_idempotent(b: Bindings, t: TV)
    requires
        b.wf(),
        b.vars_ok(t, 0),
    ensures
        b.resolved(b.resolved(t)) == b.resolved(t),
{
    b.lemma_res_free(t, 0);
    b.lemma_free_fixed(b.resolved(t), 0);
}

/// A stack of pairs whose two sides are the same type.
pub open spec fn twins(st: Seq<(TV, TV)>) -> bool {
    forall|k: int| 0 <= k < st.len() ==> #[trigger] st[k].0 == st[k].1
}

impl Bindings {
    pub proof fn lemma_twins_solve(self, st: Seq<(TV, TV)>, ctx: Seq<char>)
        requires
            self.wf(),
            self.stack_ok(st),
            twins(st),
        ensures
            self.solve(st, ctx) == (self, None::<UErr>),
        decreases nones(self.subst), self.msize(st),
    {
        if st.len() == 0 {
            return;
        }
        let rest = st.drop_last();
        let a = self.resolved(st.last().0);
        self.lemma_stack_drop(st);
        self.lemma_msize_last(st);
        lemma_tsize_pos(a);
        self.lemma_resolved_free(st.last().0);
        assert(st[st.len() - 1].0 == st[st.len() - 1].1);
        assert forall|k: int| 0 <= k < rest.len() implies #[trigger] rest[k].0 == rest[k].1 by {
            assert(rest[k] == st[k]);
        }
        match a {
            TV::Var(_) => {
                self.lemma_twins_solve(rest, ctx);
            },
            TV::Con(_, xs) => {
                self.lemma_split(xs, xs, rest);
                lemma_pairs_rev_shape(xs, xs);
                let next = rest + pairs_rev(xs, xs);
                assert forall|k: int| 0 <= k < next.len() implies #[trigger] next[k].0 == next[k].1 by {
                    if k < rest.len() {
                        assert(next[k] == rest[k]);
                    } else {
                        assert(next[k] == pairs_rev(xs, xs)[k - rest.len()]);
                    }
                }
                self.lemma_twins_solve(next, ctx);
            },
            TV::Fun(x, y) => {
                self.lemma_push_free(rest, *y, *y);
                self.lemma_push_free(rest.push((*y, *y)), *x, *x);
                let next = rest.push((*y, *y)).push((*x, *x));
                assert forall|k: int| 0 <= k < next.len() implies #[trigger] next[k].0 == next[k].1 by {
                    if k < rest.len() {
                        assert(next[k] == rest[k]);
                    }
                }
                self.lemma_twins_solve(next, ctx);
            },
            TV::Tuple(xs) => {
                self.lemma_split(xs, xs, rest);
                lemma_pairs_rev_shape(xs, xs);
                let next = rest + pairs_rev(xs, xs);
                assert forall|k: int| 0 <= k < next.len() implies #[trigger] next[k].0 == next[k].1 by {
                    if k < rest.len() {
                        assert(next[k] == rest[k]);
                    } else {
                        assert(next[k] == pairs_rev(xs, xs)[k - rest.len()]);
                    }
                }
                self.lemma_twins_solve(next, ctx);
            },
            TV::Eff(x) => {
                self.lemma_push_free(rest, *x, *x);
                let next = rest.push((*x, *x));
                assert forall|k: int| 0 <= k < next.len() implies #[trigger] next[k].0 == next[k].1 by {
                    if k < rest.len() {
                        assert(next[k] == rest[k]);
                    }
                }
                self.lemma_twins_solve(next, ctx);
            },
        }
    }
}

/// Unifying a type with itself always succeeds and binds nothing.
pub proof fn lemma_unify_reflexive(b: Bindings, t: TV, ctx: Seq<char>)
    requires
        b.wf(),
        b.vars_ok(t, 0),
    ensures
        b.solve(seq![(t, t)], ctx) == (b, None::<UErr>),
{
    let st = seq![(t, t)];
    assert forall|k: int| 0 <= k < st.len() implies b.vars_ok(#[trigger] st[k].0, 0) && b.vars_ok(st[k].1, 0) by {}
    assert forall|k: int| 0 <= k < st.len() implies #[trigger] st[k].0 == st[k].1 by {}
    b.lemma_twins_solve(st, ctx);
}

} // verus!
