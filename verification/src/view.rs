//! Projection views: the pieces the printer builds its text from, and the
//! step that puts a file's comments back into its canonical rendering.

use vstd::prelude::*;
use vstd::string::StringSliceAdditionalSpecFns;
use crate::ast::{Ty, TyV, tys_view, lemma_tys_view};
use crate::lexer::{Comment, Tok, TokV, Token, lex_full, lexed, token_view};
use crate::diag::Span;
use crate::text::{
    ends_with, join, lines, lines_of, owned, push_char, push_joined, push_repeat, push_str, repeat, split_nl, strip_cr,
    chars_of,
};

verus! {

/// Which projection `vibe view` prints.
#[derive(Clone, Copy, PartialEq, Eq, Structural)]
pub enum Mode {
    Canon,
    SigOnly,
    Explicit,
    Flow,
}

// -------------------------------------------------------------------- pieces

/// `n` spaces.
pub fn sp(n: usize) -> (r: String)
    ensures
        r@ == repeat(' ', n as nat),
{
    let mut s = String::new();
    push_repeat(&mut s, ' ', n);
    s
}

/// The length of a text in bytes, as `str::len` gives it.
pub open spec fn byte_len(s: Seq<char>) -> usize {
    vstd::utf8::encode_utf8(s).len() as usize
}

/// `s` padded with spaces to `w` bytes; as it is when it is already as long.
pub open spec fn padded(s: Seq<char>, w: usize) -> Seq<char> {
    s + repeat(' ', if w > byte_len(s) { (w - byte_len(s)) as nat } else { 0 })
}

pub fn pad(s: &str, w: usize) -> (r: String)
    ensures
        r@ == padded(s@, w),
{
    let n = s.len();
    let mut out = owned(s);
    if w > n {
        push_repeat(&mut out, ' ', w - n);
    } else {
        push_repeat(&mut out, ' ', 0);
    }
    out
}

/// How a character is written inside a literal.
pub open spec fn esc_text(c: char) -> Seq<char> {
    if c == '\n' {
        "\\n"@
    } else if c == '\t' {
        "\\t"@
    } else if c == '\r' {
        "\\r"@
    } else if c == '\0' {
        "\\0"@
    } else if c == '\\' {
        "\\\\"@
    } else if c == '"' {
        "\\\""@
    } else {
        seq![c]
    }
}

pub fn esc(c: char) -> (r: String)
    ensures
        r@ == esc_text(c),
{
    if c == '\n' {
        owned("\\n")
    } else if c == '\t' {
        owned("\\t")
    } else if c == '\r' {
        owned("\\r")
    } else if c == '\0' {
        owned("\\0")
    } else if c == '\\' {
        owned("\\\\")
    } else if c == '"' {
        owned("\\\"")
    } else {
        let mut s = String::new();
        push_char(&mut s, c);
        assert(s@ =~= seq![c]);
        s
    }
}

/// Every character of `s`, escaped.
pub open spec fn escaped(s: Seq<char>) -> Seq<char>
    decreases s.len(),
{
    if s.len() == 0 {
        Seq::empty()
    } else {
        escaped(s.drop_last()) + esc_text(s.last())
    }
}

/// A string literal: `s` escaped, in double quotes.
pub open spec fn quoted(s: Seq<char>) -> Seq<char> {
    "\""@ + escaped(s) + "\""@
}

pub fn quote(s: &str) -> (r: String)
    ensures
        r@ == quoted(s@),
{
    let cs = chars_of(s);
    let mut out = owned("\"");
    for i in 0..cs.len()
        invariant
            cs@ == s@,
            out@ == "\""@ + escaped(cs@.take(i as int)),
    {
        assert(cs@.take(i + 1).drop_last() == cs@.take(i as int));
        let e = esc(cs[i]);
        push_str(&mut out, e.as_str());
        assert(out@ =~= "\""@ + escaped(cs@.take(i + 1)));
    }
    assert(cs@.take(cs@.len() as int) == cs@);
    push_str(&mut out, "\"");
    out
}

/// How tightly a binary operator binds; higher binds tighter.
pub open spec fn prec_of(op: Seq<char>) -> u8 {
    if op == "||"@ {
        1
    } else if op == "&&"@ {
        2
    } else if op == "=="@ || op == "!="@ || op == "<"@ || op == "<="@ || op == ">"@ || op == ">="@ {
        3
    } else if op == "++"@ {
        4
    } else if op == "+"@ || op == "-"@ {
        5
    } else {
        6
    }
}

pub fn prec(op: &str) -> (r: u8)
    ensures
        r == prec_of(op@),
{
    if crate::text::str_eq(op, "||") {
        1
    } else if crate::text::str_eq(op, "&&") {
        2
    } else if crate::text::str_eq(op, "==") || crate::text::str_eq(op, "!=") || crate::text::str_eq(
        op,
        "<",
    ) || crate::text::str_eq(op, "<=") || crate::text::str_eq(op, ">") || crate::text::str_eq(
        op,
        ">=",
    ) {
        3
    } else if crate::text::str_eq(op, "++") {
        4
    } else if crate::text::str_eq(op, "+") || crate::text::str_eq(op, "-") {
        5
    } else {
        6
    }
}

// --------------------------------------------------------------------- types

/// A written type: a function type, or an application.
pub open spec fn ty_text(t: TyV) -> Seq<char>
    decreases t, (if t is Fun { 1int } else { 2int }),
{
    match t {
        TyV::Fun(a, b) => ty_app_text(*a) + " -> "@ + ty_text(*b),
        _ => ty_app_text(t),
    }
}

/// A type where an application may stand: a function type in parentheses.
pub open spec fn ty_app_text(t: TyV) -> Seq<char>
    decreases t, (if t is Fun { 2int } else { 1int }),
{
    match t {
        TyV::Con(n, args) => if args.len() == 0 {
            n
        } else {
            n + " "@ + join(ty_atoms_text(args), " "@)
        },
        TyV::Var(v) => v,
        TyV::Ref(x) => "&"@ + ty_app_text(*x),
        TyV::Eff(x) => "E! "@ + ty_app_text(*x),
        TyV::Tuple(ts) => "("@ + join(tys_text(ts), ", "@) + ")"@,
        TyV::Fun(_, _) => "("@ + ty_text(t) + ")"@,
    }
}

/// A type as the argument of an application.
pub open spec fn ty_atom_text(t: TyV) -> Seq<char>
    decreases t, 3int,
{
    match t {
        TyV::Con(_, args) => if args.len() > 0 {
            "("@ + ty_text(t) + ")"@
        } else {
            ty_app_text(t)
        },
        TyV::Fun(_, _) => "("@ + ty_text(t) + ")"@,
        TyV::Eff(_) => "("@ + ty_text(t) + ")"@,
        TyV::Ref(x) => "&"@ + ty_atom_text(*x),
        _ => ty_app_text(t),
    }
}

pub open spec fn ty_atoms_text(ts: Seq<TyV>) -> Seq<Seq<char>>
    decreases ts, 4int,
{
    if ts.len() == 0 {
        Seq::empty()
    } else {
        ty_atoms_text(ts.drop_last()).push(ty_atom_text(ts.last()))
    }
}

pub open spec fn tys_text(ts: Seq<TyV>) -> Seq<Seq<char>>
    decreases ts, 4int,
{
    if ts.len() == 0 {
        Seq::empty()
    } else {
        tys_text(ts.drop_last()).push(ty_text(ts.last()))
    }
}

pub fn ty(t: &Ty) -> (r: String)
    ensures
        r@ == ty_text(t@),
    decreases t, (if t@ is Fun { 1int } else { 2int }),
{
    match t {
        Ty::Fun(a, b) => {
            let mut s = ty_app(a);
            push_str(&mut s, " -> ");
            let rb = ty(b);
            push_str(&mut s, rb.as_str());
            s
        },
        _ => ty_app(t),
    }
}

pub fn ty_app(t: &Ty) -> (r: String)
    ensures
        r@ == ty_app_text(t@),
    decreases t, (if t@ is Fun { 2int } else { 1int }),
{
    match t {
        Ty::Con(n, args) => {
            proof {
                lemma_tys_view(args@);
            }
            if args.len() == 0 {
                return n.clone();
            }
            let parts = ty_atoms(args);
            let mut s = n.clone();
            push_str(&mut s, " ");
            push_joined(&mut s, parts.as_slice(), " ");
            s
        },
        Ty::Var(v) => v.clone(),
        Ty::Ref(x) => {
            let mut s = owned("&");
            let rx = ty_app(x);
            push_str(&mut s, rx.as_str());
            s
        },
        Ty::Eff(x) => {
            let mut s = owned("E! ");
            let rx = ty_app(x);
            push_str(&mut s, rx.as_str());
            s
        },
        Ty::Tuple(ts) => {
            let parts = tys(ts);
            let mut s = owned("(");
            push_joined(&mut s, parts.as_slice(), ", ");
            push_str(&mut s, ")");
            s
        },
        Ty::Fun(_, _) => {
            let mut s = owned("(");
            let inner = ty(t);
            push_str(&mut s, inner.as_str());
            push_str(&mut s, ")");
            s
        },
    }
}

pub fn ty_atom(t: &Ty) -> (r: String)
    ensures
        r@ == ty_atom_text(t@),
    decreases t, 3int,
{
    match t {
        Ty::Con(_, args) => {
            proof {
                lemma_tys_view(args@);
            }
            if args.len() > 0 {
                let mut s = owned("(");
                let inner = ty(t);
                push_str(&mut s, inner.as_str());
                push_str(&mut s, ")");
                s
            } else {
                ty_app(t)
            }
        },
        Ty::Fun(_, _) | Ty::Eff(_) => {
            let mut s = owned("(");
            let inner = ty(t);
            push_str(&mut s, inner.as_str());
            push_str(&mut s, ")");
            s
        },
        Ty::Ref(x) => {
            let mut s = owned("&");
            let rx = ty_atom(x);
            push_str(&mut s, rx.as_str());
            s
        },
        _ => ty_app(t),
    }
}

fn ty_atoms(ts: &Vec<Ty>) -> (r: Vec<String>)
    ensures
        r@.map_values(|s: String| s@) == ty_atoms_text(tys_view(ts@)),
    decreases ts, 4int,
{
    let mut out: Vec<String> = Vec::new();
    for i in 0..ts.len()
        invariant
            out@.map_values(|s: String| s@) == ty_atoms_text(tys_view(ts@.take(i as int))),
    {
        proof {
            assert(decreases_to!(ts => ts@[i as int]));
        }
        let ghost prev = out@;
        let a = ty_atom(&ts[i]);
        out.push(a);
        proof {
            assert(ts@.take(i + 1).drop_last() == ts@.take(i as int));
            let v1 = tys_view(ts@.take(i + 1));
            assert(v1.drop_last() == tys_view(ts@.take(i as int)));
            assert(v1.last() == ts@[i as int]@);
            assert(out@.drop_last() == prev);
        }
        assert(out@.map_values(|s: String| s@) =~= prev.map_values(|s: String| s@).push(a@));
    }
    assert(ts@.take(ts@.len() as int) == ts@);
    out
}

fn tys(ts: &Vec<Ty>) -> (r: Vec<String>)
    ensures
        r@.map_values(|s: String| s@) == tys_text(tys_view(ts@)),
    decreases ts, 4int,
{
    let mut out: Vec<String> = Vec::new();
    for i in 0..ts.len()
        invariant
            out@.map_values(|s: String| s@) == tys_text(tys_view(ts@.take(i as int))),
    {
        proof {
            assert(decreases_to!(ts => ts@[i as int]));
        }
        let ghost prev = out@;
        let a = ty(&ts[i]);
        out.push(a);
        proof {
            assert(ts@.take(i + 1).drop_last() == ts@.take(i as int));
            let v1 = tys_view(ts@.take(i + 1));
            assert(v1.drop_last() == tys_view(ts@.take(i as int)));
            assert(v1.last() == ts@[i as int]@);
            assert(out@.drop_last() == prev);
        }
        assert(out@.map_values(|s: String| s@) =~= prev.map_values(|s: String| s@).push(a@));
    }
    assert(ts@.take(ts@.len() as int) == ts@);
    out
}

// --------------------------------------------------------------- comments

/// The lines of the tokens of a rendering that are neither newlines nor its
/// end: the tokens a comment's `after` counts.
pub open spec fn token_lines(ts: Seq<(TokV, Span)>) -> Seq<int>
    decreases ts.len(),
{
    if ts.len() == 0 {
        Seq::empty()
    } else {
        let rest = token_lines(ts.drop_last());
        if ts.last().0 is Newline || ts.last().0 is Eof {
            rest
        } else {
            rest.push(ts.last().1.line as int)
        }
    }
}

/// Where a comment goes back, by the lines of the tokens: at the end of the
/// line of the token before it, when code preceded it on its line; else on a
/// line of its own before the line of the token after it. `None` when there
/// is no such token.
pub open spec fn placed(c: Comment, tl: Seq<int>) -> Option<(int, bool)> {
    if !c.own_line && 0 < c.after <= tl.len() {
        Some((tl[c.after - 1], true))
    } else if c.after < tl.len() {
        Some((tl[c.after as int], false))
    } else {
        None
    }
}

/// The number of spaces a line starts with.
pub open spec fn indent_of(l: Seq<char>) -> nat
    decreases l.len(),
{
    if l.len() > 0 && l[0] == ' ' {
        1 + indent_of(l.drop_first())
    } else {
        0
    }
}

/// The comments that go back on lines of their own before line `n`, in
/// order, each at the indentation `ind`.
pub open spec fn before_line(cs: Seq<Comment>, tl: Seq<int>, n: int, ind: nat) -> Seq<Seq<char>>
    decreases cs.len(),
{
    if cs.len() == 0 {
        Seq::empty()
    } else {
        let rest = before_line(cs.drop_last(), tl, n, ind);
        if placed(cs.last(), tl) == Some((n, false)) {
            rest.push(repeat(' ', ind) + cs.last().text@)
        } else {
            rest
        }
    }
}

/// What goes back at the end of line `n`: each comment that ends it, in
/// order, after a space.
pub open spec fn after_line(cs: Seq<Comment>, tl: Seq<int>, n: int) -> Seq<char>
    decreases cs.len(),
{
    if cs.len() == 0 {
        Seq::empty()
    } else {
        let rest = after_line(cs.drop_last(), tl, n);
        if placed(cs.last(), tl) == Some((n, true)) {
            rest + " "@ + cs.last().text@
        } else {
            rest
        }
    }
}

/// A place on none of the `nl` lines of the rendering.
pub open spec fn stray(p: Option<(int, bool)>, nl: int) -> bool {
    match p {
        Some((l, _)) => l < 1 || l > nl,
        None => true,
    }
}

/// The comments with no line of the rendering to go back to, in order.
pub open spec fn strays(cs: Seq<Comment>, tl: Seq<int>, nl: int) -> Seq<Seq<char>>
    decreases cs.len(),
{
    if cs.len() == 0 {
        Seq::empty()
    } else {
        let rest = strays(cs.drop_last(), tl, nl);
        if stray(placed(cs.last(), tl), nl) {
            rest.push(cs.last().text@)
        } else {
            rest
        }
    }
}

/// The first `k` rendered lines with their comments put back.
pub open spec fn laid(rl: Seq<Seq<char>>, cs: Seq<Comment>, tl: Seq<int>, k: int) -> Seq<Seq<char>>
    decreases k,
{
    if k <= 0 {
        Seq::empty()
    } else {
        laid(rl, cs, tl, k - 1) + before_line(cs, tl, k, indent_of(rl[k - 1])) + seq![
            rl[k - 1] + after_line(cs, tl, k),
        ]
    }
}

/// Where line `k` of the rendering (from 0) stands among the lines put back.
pub open spec fn code_pos(rl: Seq<Seq<char>>, cs: Seq<Comment>, tl: Seq<int>, k: int) -> int {
    (laid(rl, cs, tl, k).len() + before_line(cs, tl, k + 1, indent_of(rl[k])).len()) as int
}

/// A line that holds one of the comments, at some indentation.
pub open spec fn comment_line(cs: Seq<Comment>, l: Seq<char>) -> bool {
    exists|i: int, m: nat| #![trigger cs[i], repeat(' ', m)] 0 <= i < cs.len() && l == repeat(' ', m) + cs[i].text@
}

proof fn lemma_before_lines(cs: Seq<Comment>, tl: Seq<int>, n: int, ind: nat)
    ensures
        forall|j: int| 0 <= j < before_line(cs, tl, n, ind).len() ==> comment_line(cs, #[trigger] before_line(cs, tl, n, ind)[j]),
    decreases cs.len(),
{
    if cs.len() > 0 {
        let d = cs.drop_last();
        lemma_before_lines(d, tl, n, ind);
        let r = before_line(d, tl, n, ind);
        assert forall|j: int| 0 <= j < before_line(cs, tl, n, ind).len() implies comment_line(cs, #[trigger] before_line(cs, tl, n, ind)[j]) by {
            let b = before_line(cs, tl, n, ind);
            if j < r.len() {
                assert(b[j] == r[j]);
                assert(comment_line(d, r[j]));
                let (i, m) = choose|i: int, m: nat| #![trigger d[i], repeat(' ', m)] 0 <= i < d.len() && r[j] == repeat(' ', m) + d[i].text@;
                assert(d[i] == cs[i]);
                assert(b[j] == repeat(' ', m) + cs[i].text@);
            } else {
                assert(b[j] == repeat(' ', ind) + cs[cs.len() - 1].text@);
                assert(0 <= cs.len() - 1 < cs.len());
            }
        }
    }
}

/// Putting comments back keeps the code: every line of the rendering comes
/// back whole, in its order, with at most comments after it, and every other
/// line is a comment on a line of its own.
pub proof fn lemma_reattach_keeps_code(rl: Seq<Seq<char>>, cs: Seq<Comment>, tl: Seq<int>, n: int)
    requires
        0 <= n <= rl.len(),
    ensures
        forall|k: int| 0 <= k < n ==> 0 <= #[trigger] code_pos(rl, cs, tl, k) < laid(rl, cs, tl, n).len()
            && laid(rl, cs, tl, n)[code_pos(rl, cs, tl, k)] == rl[k] + after_line(cs, tl, k + 1),
        forall|k1: int, k2: int| 0 <= k1 < k2 < n ==> #[trigger] code_pos(rl, cs, tl, k1) < #[trigger] code_pos(rl, cs, tl, k2),
        forall|j: int|
            0 <= j < laid(rl, cs, tl, n).len() ==> (exists|k: int| 0 <= k < n && j == #[trigger] code_pos(rl, cs, tl, k))
                || comment_line(cs, #[trigger] laid(rl, cs, tl, n)[j]),
    decreases n,
{
    if n > 0 {
        lemma_reattach_keeps_code(rl, cs, tl, n - 1);
        let a = laid(rl, cs, tl, n - 1);
        let bl = before_line(cs, tl, n, indent_of(rl[n - 1]));
        let l = laid(rl, cs, tl, n);
        assert(l == a + bl + seq![rl[n - 1] + after_line(cs, tl, n)]);
        lemma_before_lines(cs, tl, n, indent_of(rl[n - 1]));
        assert forall|k: int| 0 <= k < n implies 0 <= #[trigger] code_pos(rl, cs, tl, k) < l.len() && l[code_pos(rl, cs, tl, k)]
            == rl[k] + after_line(cs, tl, k + 1) by {
            if k < n - 1 {
                assert(l[code_pos(rl, cs, tl, k)] == a[code_pos(rl, cs, tl, k)]);
            }
        }
        assert forall|k1: int, k2: int| 0 <= k1 < k2 < n implies #[trigger] code_pos(rl, cs, tl, k1) < #[trigger] code_pos(rl, cs, tl, k2) by {
            if k2 == n - 1 {
                assert(code_pos(rl, cs, tl, k1) < a.len());
            }
        }
        assert forall|j: int| 0 <= j < l.len() implies (exists|k: int| 0 <= k < n && j == #[trigger] code_pos(rl, cs, tl, k))
            || comment_line(cs, #[trigger] l[j]) by {
            if j < a.len() {
                assert(l[j] == a[j]);
                if exists|k: int| 0 <= k < n - 1 && j == #[trigger] code_pos(rl, cs, tl, k) {
                    let k = choose|k: int| 0 <= k < n - 1 && j == #[trigger] code_pos(rl, cs, tl, k);
                    assert(0 <= k < n && j == code_pos(rl, cs, tl, k));
                }
            } else if j < a.len() + bl.len() {
                assert(l[j] == bl[j - a.len()]);
            } else {
                assert(j == code_pos(rl, cs, tl, n - 1));
            }
        }
    }
}

/// The rendering with the comments put back by the tokens they sat among:
/// the rendering untouched when there are no comments or it does not lex.
pub open spec fn reattached(rendered: Seq<char>, bytes: Seq<u8>, cs: Seq<Comment>) -> Seq<char> {
    if cs.len() == 0 {
        rendered
    } else {
        match lexed(bytes, 0) {
            Err(_) => rendered,
            Ok((ts, _)) => {
                let tl = token_lines(ts);
                let rl = lines(rendered);
                join(laid(rl, cs, tl, rl.len() as int) + strays(cs, tl, rl.len() as int), "\n"@) + if rendered.len()
                    > 0 && rendered.last() == '\n' {
                    "\n"@
                } else {
                    Seq::empty()
                }
            },
        }
    }
}

fn lines_of_tokens(toks: &Vec<Token>) -> (r: Vec<usize>)
    ensures
        r@.map_values(|x: usize| x as int) == token_lines(toks@.map_values(|t: Token| token_view(t))),
{
    let ghost tv = toks@.map_values(|t: Token| token_view(t));
    let mut out: Vec<usize> = Vec::new();
    assert(tv.take(0) =~= Seq::<(TokV, Span)>::empty());
    for i in 0..toks.len()
        invariant
            tv == toks@.map_values(|t: Token| token_view(t)),
            out@.map_values(|x: usize| x as int) == token_lines(tv.take(i as int)),
    {
        assert(tv.take(i + 1).drop_last() =~= tv.take(i as int));
        assert(tv.take(i + 1).last() == token_view(toks@[i as int]));
        let ghost prev = out@;
        let t = &toks[i];
        let skip = match t.tok {
            Tok::Newline | Tok::Eof => true,
            _ => false,
        };
        if !skip {
            out.push(t.span.line);
            assert(out@.map_values(|x: usize| x as int) =~= prev.map_values(|x: usize| x as int).push(
                t.span.line as int,
            ));
        }
    }
    assert(tv.take(toks@.len() as int) =~= tv);
    out
}

fn place(c: &Comment, tl: &Vec<usize>) -> (r: Option<(usize, bool)>)
    ensures
        match r {
            Some((l, t)) => placed(*c, tl@.map_values(|x: usize| x as int)) == Some((l as int, t)),
            None => placed(*c, tl@.map_values(|x: usize| x as int)) is None,
        },
{
    let ghost tv = tl@.map_values(|x: usize| x as int);
    if !c.own_line && 0 < c.after && c.after <= tl.len() {
        assert(tv[c.after - 1] == tl@[c.after - 1] as int);
        Some((tl[c.after - 1], true))
    } else if c.after < tl.len() {
        assert(tv[c.after as int] == tl@[c.after as int] as int);
        Some((tl[c.after], false))
    } else {
        None
    }
}

fn indent(l: &str) -> (r: usize)
    ensures
        r as nat == indent_of(l@),
{
    let cs = chars_of(l);
    let mut i: usize = 0;
    assert(l@.subrange(0, l@.len() as int) =~= l@);
    while i < cs.len() && cs[i] == ' '
        invariant
            cs@ == l@,
            i <= cs@.len(),
            indent_of(l@) == i + indent_of(l@.subrange(i as int, l@.len() as int)),
        decreases cs@.len() - i,
    {
        let ghost sub = l@.subrange(i as int, l@.len() as int);
        assert(sub.drop_first() =~= l@.subrange(i + 1, l@.len() as int));
        i += 1;
    }
    proof {
        let sub = l@.subrange(i as int, l@.len() as int);
        assert(indent_of(sub) == 0);
    }
    i
}

/// Appends the comments that go back before line `n`.
fn push_before(out: &mut Vec<String>, cs: &[Comment], tl: &Vec<usize>, n: usize, ind: usize)
    ensures
        final(out)@.map_values(|l: String| l@) == old(out)@.map_values(|l: String| l@) + before_line(
            cs@,
            tl@.map_values(|x: usize| x as int),
            n as int,
            ind as nat,
        ),
{
    let ghost tv = tl@.map_values(|x: usize| x as int);
    let ghost o0 = out@.map_values(|l: String| l@);
    assert(cs@.take(0) =~= Seq::<Comment>::empty());
    assert(o0 + Seq::<Seq<char>>::empty() =~= o0);
    for i in 0..cs.len()
        invariant
            tv == tl@.map_values(|x: usize| x as int),
            out@.map_values(|l: String| l@) == o0 + before_line(cs@.take(i as int), tv, n as int, ind as nat),
    {
        assert(cs@.take(i + 1).drop_last() =~= cs@.take(i as int));
        assert(cs@.take(i + 1).last() == cs@[i as int]);
        let ghost prev = out@.map_values(|l: String| l@);
        let c = &cs[i];
        match place(c, tl) {
            Some((l, false)) => {
                if l == n {
                    let mut line = sp(ind);
                    push_str(&mut line, c.text.as_str());
                    out.push(line);
                    assert(out@.map_values(|l: String| l@) =~= prev.push(repeat(' ', ind as nat) + c.text@));
                }
            },
            _ => {},
        }
    }
    assert(cs@.take(cs@.len() as int) =~= cs@);
}

/// Appends to `line` the comments that go back at the end of line `n`.
fn push_after(line: &mut String, cs: &[Comment], tl: &Vec<usize>, n: usize)
    ensures
        final(line)@ == old(line)@ + after_line(cs@, tl@.map_values(|x: usize| x as int), n as int),
{
    let ghost tv = tl@.map_values(|x: usize| x as int);
    let ghost l0 = line@;
    assert(cs@.take(0) =~= Seq::<Comment>::empty());
    assert(l0 + Seq::<char>::empty() =~= l0);
    for i in 0..cs.len()
        invariant
            tv == tl@.map_values(|x: usize| x as int),
            line@ == l0 + after_line(cs@.take(i as int), tv, n as int),
    {
        assert(cs@.take(i + 1).drop_last() =~= cs@.take(i as int));
        assert(cs@.take(i + 1).last() == cs@[i as int]);
        let c = &cs[i];
        match place(c, tl) {
            Some((l, true)) => {
                if l == n {
                    let ghost before = line@;
                    push_str(line, " ");
                    push_str(line, c.text.as_str());
                    proof {
                        reveal_strlit(" ");
                        assert(line@ =~= l0 + (after_line(cs@.take(i as int), tv, n as int) + " "@ + c.text@));
                    }
                }
            },
            _ => {},
        }
    }
    assert(cs@.take(cs@.len() as int) =~= cs@);
}

/// Appends the comments with no line of the rendering to go back to.
fn push_strays(out: &mut Vec<String>, cs: &[Comment], tl: &Vec<usize>, nl: usize)
    ensures
        final(out)@.map_values(|l: String| l@) == old(out)@.map_values(|l: String| l@) + strays(
            cs@,
            tl@.map_values(|x: usize| x as int),
            nl as int,
        ),
{
    let ghost tv = tl@.map_values(|x: usize| x as int);
    let ghost o0 = out@.map_values(|l: String| l@);
    assert(cs@.take(0) =~= Seq::<Comment>::empty());
    assert(o0 + Seq::<Seq<char>>::empty() =~= o0);
    for i in 0..cs.len()
        invariant
            tv == tl@.map_values(|x: usize| x as int),
            out@.map_values(|l: String| l@) == o0 + strays(cs@.take(i as int), tv, nl as int),
    {
        assert(cs@.take(i + 1).drop_last() =~= cs@.take(i as int));
        assert(cs@.take(i + 1).last() == cs@[i as int]);
        let ghost prev = out@.map_values(|l: String| l@);
        let c = &cs[i];
        let lost = match place(c, tl) {
            Some((l, _)) => l < 1 || l > nl,
            None => true,
        };
        if lost {
            let t = c.text.clone();
            out.push(t);
            assert(out@.map_values(|l: String| l@) =~= prev.push(c.text@));
        }
    }
    assert(cs@.take(cs@.len() as int) =~= cs@);
}

/// Puts the comments back into a canonical rendering by the tokens they sat
/// among. Newlines are not tokens, so a comment's place survives any change
/// of layout: one that followed code goes at the end of the line holding
/// the token before it, one on a line of its own goes on a line of its own
/// before the line holding the token after it, at that line's indentation,
/// and one with no such token goes after the rendering. The rendering comes
/// back untouched when there are no comments or it does not lex.
pub fn reattach(rendered: &str, comments: &[Comment]) -> (r: String)
    requires
        rendered.spec_bytes().len() < usize::MAX,
    ensures
        r@ == reattached(rendered@, rendered.spec_bytes(), comments@),
{
    if comments.len() == 0 {
        return owned(rendered);
    }
    let toks = match lex_full(rendered, 0) {
        Ok((ts, _)) => ts,
        Err(_) => {
            return owned(rendered);
        },
    };
    let tl = lines_of_tokens(&toks);
    let rl = lines_of(rendered);
    let ghost tv = tl@.map_values(|x: usize| x as int);
    let ghost rlv = rl@.map_values(|l: String| l@);
    let ghost cs = comments@;
    let mut out: Vec<String> = Vec::new();
    assert(out@.map_values(|l: String| l@) =~= Seq::<Seq<char>>::empty());
    for k in 0..rl.len()
        invariant
            tv == tl@.map_values(|x: usize| x as int),
            rlv == rl@.map_values(|l: String| l@),
            cs == comments@,
            out@.map_values(|l: String| l@) == laid(rlv, cs, tv, k as int),
    {
        let ghost o1 = out@.map_values(|l: String| l@);
        assert(rlv[k as int] == rl@[k as int]@);
        let ind = indent(rl[k].as_str());
        push_before(&mut out, comments, &tl, k + 1, ind);
        let mut line = rl[k].clone();
        push_after(&mut line, comments, &tl, k + 1);
        let ghost o2 = out@.map_values(|l: String| l@);
        out.push(line);
        assert(out@.map_values(|l: String| l@) =~= o2.push(line@));
        assert(laid(rlv, cs, tv, k + 1) =~= o1 + before_line(cs, tv, k + 1, indent_of(rlv[k as int])) + seq![
            rlv[k as int] + after_line(cs, tv, k + 1),
        ]);
    }
    push_strays(&mut out, comments, &tl, rl.len());
    let ghost outv = out@.map_values(|l: String| l@);
    let mut s = String::new();
    push_joined(&mut s, out.as_slice(), "\n");
    assert(s@ == join(outv, "\n"@));
    let ends = ends_with(rendered, "\n");
    proof {
        reveal_strlit("\n");
        assert(rendered@.len() > 0 ==> rendered@.skip(rendered@.len() - 1) =~= seq![rendered@.last()]);
        if ends {
            assert(rendered@.skip(rendered@.len() - 1)[0] == '\n');
        }
        if rendered@.len() > 0 && rendered@.last() == '\n' {
            assert(rendered@.skip(rendered@.len() - 1) =~= "\n"@);
        }
    }
    assert(ends == (rendered@.len() > 0 && rendered@.last() == '\n'));
    if ends {
        push_str(&mut s, "\n");
    }
    s
}


/// No line break and no carriage return in `l`.
pub open spec fn clean(l: Seq<char>) -> bool {
    forall|i: int| 0 <= i < l.len() ==> l[i] != '\n' && l[i] != '\r'
}

/// Every comment text is clean.
pub open spec fn clean_comments(cs: Seq<Comment>) -> bool {
    forall|c: int| 0 <= c < cs.len() ==> clean(#[trigger] cs[c].text@)
}

proof fn lemma_split_append(x: Seq<char>, y: Seq<char>)
    requires
        forall|i: int| 0 <= i < y.len() ==> y[i] != '\n',
    ensures
        split_nl(x).len() >= 1,
        split_nl(x + y) == split_nl(x).update(split_nl(x).len() - 1, split_nl(x).last() + y),
    decreases y.len(),
{
    crate::text::lemma_split_nl_len(x);
    if y.len() == 0 {
        assert(x + y =~= x);
        assert(split_nl(x).update(split_nl(x).len() - 1, split_nl(x).last() + y) =~= split_nl(x));
    } else {
        let y1 = y.drop_last();
        lemma_split_append(x, y1);
        assert((x + y).drop_last() =~= x + y1);
        assert((x + y).last() == y.last());
        let p = split_nl(x + y1);
        assert(p.len() == split_nl(x).len());
        assert(p.last() == split_nl(x).last() + y1);
        assert((split_nl(x).last() + y1).push(y.last()) =~= split_nl(x).last() + y);
        assert(p.update(p.len() - 1, p.last().push(y.last())) =~= split_nl(x).update(
            split_nl(x).len() - 1,
            split_nl(x).last() + y,
        ));
    }
}

proof fn lemma_split_join(ls: Seq<Seq<char>>)
    requires
        ls.len() > 0,
        forall|k: int| 0 <= k < ls.len() ==> clean(#[trigger] ls[k]),
    ensures
        split_nl(join(ls, "\n"@)) == ls,
    decreases ls.len(),
{
    reveal_strlit("\n");
    if ls.len() == 1 {
        lemma_split_append(Seq::empty(), ls[0]);
        assert(Seq::<char>::empty() + ls[0] =~= ls[0]);
        assert(split_nl(Seq::<char>::empty()) =~= seq![Seq::<char>::empty()]);
        assert(seq![Seq::<char>::empty()].update(0, Seq::<char>::empty() + ls[0]) =~= ls);
    } else {
        let d = ls.drop_last();
        lemma_split_join(d);
        let j = join(d, "\n"@);
        let x = j + "\n"@;
        assert(x.drop_last() =~= j);
        assert(x.last() == '\n');
        assert(split_nl(x) == split_nl(j).push(Seq::<char>::empty()));
        lemma_split_append(x, ls.last());
        assert(join(ls, "\n"@) == j + "\n"@ + ls.last());
        assert(split_nl(x).update(split_nl(x).len() - 1, split_nl(x).last() + ls.last()) =~= ls);
    }
}

proof fn lemma_split_clean(s: Seq<char>)
    requires
        forall|i: int| 0 <= i < s.len() ==> s[i] != '\r',
    ensures
        forall|k: int| 0 <= k < split_nl(s).len() ==> clean(#[trigger] split_nl(s)[k]),
    decreases s.len(),
{
    if s.len() > 0 {
        lemma_split_clean(s.drop_last());
        crate::text::lemma_split_nl_len(s.drop_last());
    }
}

proof fn lemma_comment_lines_clean(cs: Seq<Comment>, tl: Seq<int>, n: int, ind: nat)
    requires
        clean_comments(cs),
    ensures
        forall|k: int| 0 <= k < before_line(cs, tl, n, ind).len() ==> clean(#[trigger] before_line(cs, tl, n, ind)[k]),
        clean(after_line(cs, tl, n)),
        forall|k: int| 0 <= k < strays(cs, tl, n).len() ==> clean(#[trigger] strays(cs, tl, n)[k]),
    decreases cs.len(),
{
    reveal_strlit(" ");
    if cs.len() > 0 {
        let d = cs.drop_last();
        assert(clean_comments(d)) by {
            assert forall|c: int| 0 <= c < d.len() implies clean(#[trigger] d[c].text@) by {
                assert(d[c] == cs[c]);
            }
        }
        lemma_comment_lines_clean(d, tl, n, ind);
        let t = cs.last().text@;
        assert(clean(cs[cs.len() - 1].text@));
        assert(clean(repeat(' ', ind) + t)) by {
            assert forall|i: int| 0 <= i < (repeat(' ', ind) + t).len() implies (repeat(' ', ind) + t)[i] != '\n' && (repeat(' ', ind) + t)[i] != '\r' by {
                if i < ind {
                    assert((repeat(' ', ind) + t)[i] == ' ');
                } else {
                    assert((repeat(' ', ind) + t)[i] == t[i - ind]);
                }
            }
        }
        let b = before_line(cs, tl, n, ind);
        let rb = before_line(d, tl, n, ind);
        assert forall|k: int| 0 <= k < b.len() implies clean(#[trigger] b[k]) by {
            if k < rb.len() {
                assert(b[k] == rb[k]);
            }
        }
        let st = strays(cs, tl, n);
        let rs = strays(d, tl, n);
        assert forall|k: int| 0 <= k < st.len() implies clean(#[trigger] st[k]) by {
            if k < rs.len() {
                assert(st[k] == rs[k]);
            }
        }
        let a = after_line(d, tl, n);
        assert(clean(a + " "@ + t)) by {
            assert forall|i: int| 0 <= i < (a + " "@ + t).len() implies (a + " "@ + t)[i] != '\n' && (a + " "@ + t)[i] != '\r' by {
                if i < a.len() {
                    assert((a + " "@ + t)[i] == a[i]);
                } else if i == a.len() {
                    assert((a + " "@ + t)[i] == ' ');
                } else {
                    assert((a + " "@ + t)[i] == t[i - a.len() - 1]);
                }
            }
        }
    }
}

proof fn lemma_laid_clean(rl: Seq<Seq<char>>, cs: Seq<Comment>, tl: Seq<int>, k: int)
    requires
        clean_comments(cs),
        0 <= k <= rl.len(),
        forall|q: int| 0 <= q < rl.len() ==> clean(#[trigger] rl[q]),
    ensures
        forall|q: int| 0 <= q < laid(rl, cs, tl, k).len() ==> clean(#[trigger] laid(rl, cs, tl, k)[q]),
    decreases k,
{
    if k > 0 {
        lemma_laid_clean(rl, cs, tl, k - 1);
        lemma_comment_lines_clean(cs, tl, k, indent_of(rl[k - 1]));
        let r = rl[k - 1];
        let a = after_line(cs, tl, k);
        assert(clean(r));
        assert(clean(r + a)) by {
            assert forall|i: int| 0 <= i < (r + a).len() implies (r + a)[i] != '\n' && (r + a)[i] != '\r' by {
                if i < r.len() {
                    assert((r + a)[i] == r[i]);
                } else {
                    assert((r + a)[i] == a[i - r.len()]);
                }
            }
        }
        let l0 = laid(rl, cs, tl, k - 1);
        let b = before_line(cs, tl, k, indent_of(rl[k - 1]));
        let l = laid(rl, cs, tl, k);
        assert(l == l0 + b + seq![r + a]);
        assert forall|q: int| 0 <= q < l.len() implies clean(#[trigger] l[q]) by {
            if q < l0.len() {
                assert(l[q] == l0[q]);
            } else if q < l0.len() + b.len() {
                assert(l[q] == b[q - l0.len()]);
            } else {
                assert(l[q] == r + a);
            }
        }
    }
}

/// The token lines of a file that lexes; none for one that does not.
pub open spec fn lines_of_tokens_in(bytes: Seq<u8>) -> Seq<int> {
    match lexed(bytes, 0) {
        Ok((ts, _)) => token_lines(ts),
        Err(_) => Seq::empty(),
    }
}

/// Putting comments back into a rendering that ends its last line and holds
/// no carriage return gives, line for line, the rendering's lines with the
/// comments laid among them and the stray ones after: so deleting every
/// comment line, and every comment a code line gained at its end, gives the
/// rendering back (see `lemma_reattach_keeps_code`).
pub proof fn lemma_reattach_lines(rendered: Seq<char>, bytes: Seq<u8>, cs: Seq<Comment>)
    requires
        cs.len() > 0,
        lexed(bytes, 0) is Ok,
        rendered.len() > 0,
        rendered.last() == '\n',
        forall|i: int| 0 <= i < rendered.len() ==> rendered[i] != '\r',
        clean_comments(cs),
    ensures
        lines(reattached(rendered, bytes, cs)) == laid(
            lines(rendered),
            cs,
            lines_of_tokens_in(bytes),
            lines(rendered).len() as int,
        ) + strays(cs, lines_of_tokens_in(bytes), lines(rendered).len() as int),
{
    reveal_strlit("\n");
    let tl = lines_of_tokens_in(bytes);
    let rl = lines(rendered);
    let n = rl.len() as int;
    let p = split_nl(rendered);
    crate::text::lemma_split_nl_len(rendered);
    lemma_split_clean(rendered);
    assert forall|q: int| 0 <= q < rl.len() implies clean(#[trigger] rl[q]) by {
        assert(rl[q] == strip_cr(p.drop_last()[q]));
        assert(p.drop_last()[q] == p[q]);
        assert(clean(p[q]));
        if p[q].len() > 0 && p[q].last() == '\r' {
            assert(p[q][p[q].len() - 1] == '\r');
        }
    }
    let l = laid(rl, cs, tl, n) + strays(cs, tl, n);
    lemma_laid_clean(rl, cs, tl, n);
    lemma_comment_lines_clean(cs, tl, n, 0);
    assert forall|q: int| 0 <= q < l.len() implies clean(#[trigger] l[q]) by {
        if q >= laid(rl, cs, tl, n).len() {
            assert(l[q] == strays(cs, tl, n)[q - laid(rl, cs, tl, n).len()]);
        } else {
            assert(l[q] == laid(rl, cs, tl, n)[q]);
        }
    }
    assert(rl.len() > 0) by {
        assert(p.len() >= 2) by {
            assert(rendered.drop_last().len() < rendered.len());
            crate::text::lemma_split_nl_len(rendered.drop_last());
        }
    }
    lemma_laid_len(rl, cs, tl, n);
    let t = join(l, "\n"@);
    lemma_split_join(l);
    let out = t + "\n"@;
    assert(reattached(rendered, bytes, cs) == out);
    assert(out.drop_last() =~= t);
    assert(out.last() == '\n');
    assert(split_nl(out) == split_nl(t).push(Seq::<char>::empty()));
    assert(split_nl(out).drop_last() =~= l);
    assert forall|q: int| 0 <= q < l.len() implies strip_cr(#[trigger] l[q]) == l[q] by {
        if l[q].len() > 0 {
            assert(l[q][l[q].len() - 1] != '\r');
        }
    }
    assert(lines(out) =~= l);
}

proof fn lemma_laid_len(rl: Seq<Seq<char>>, cs: Seq<Comment>, tl: Seq<int>, k: int)
    requires
        0 <= k,
    ensures
        laid(rl, cs, tl, k).len() >= k,
    decreases k,
{
    if k > 0 {
        lemma_laid_len(rl, cs, tl, k - 1);
    }
}

} // verus!
