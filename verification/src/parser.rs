//! The parser over tokens: where it stands and how deep in brackets, and the
//! type and pattern grammars it reads (expressions and declarations have
//! modules of their own).
//!
//! ```text
//! ty      := app ( "->" ty )?
//! app     := "&" app | "E!" app | Ctor atom* | atom
//! atom    := "&" atom | "E!" atom | Ctor | name | "(" ")" | "(" ty ( "," ty )* ")"
//! ```
//!
//! Newlines count outside brackets and not inside them. A constructor name
//! may be qualified with one module: `Shape.Kind`.

use vstd::prelude::*;
use crate::ast::{Ty, TyV, tys_view, lemma_tys_view, Pat, PatV, pats_view, lemma_pats_view};
use crate::diag::{Diag, Span};
use crate::lexer::{lex, lexed, Tok, TokV, Token, token_view};
use crate::text::{owned, push_str, signed_decimal, str_eq};

verus! {

// ------------------------------------------------------------ the grammar

/// The token the parser looks at when it stands at `i`: past the end, the
/// last token (the end of file).
pub open spec fn cur_at(ts: Seq<TokV>, i: int) -> TokV {
    if ts.len() == 0 {
        TokV::Eof
    } else if 0 <= i < ts.len() {
        ts[i]
    } else {
        ts.last()
    }
}

/// Past the newlines that stand at `i`.
pub open spec fn synced(ts: Seq<TokV>, i: int) -> int
    decreases ts.len() - i,
{
    if 0 <= i < ts.len() && ts[i] is Newline {
        synced(ts, i + 1)
    } else {
        i
    }
}

/// Past the newlines at `i` when they do not count, inside brackets.
pub open spec fn skip(ts: Seq<TokV>, i: int, depth: int) -> int {
    if depth > 0 {
        synced(ts, i)
    } else {
        i
    }
}

/// What can begin a type argument.
pub open spec fn starts_atom(t: TokV) -> bool {
    t is Ctor || t is Name || t == TokV::Sym("("@) || t == TokV::Sym("&"@) || t == TokV::Sym("E!"@)
}

/// A constructor name at `i`, qualified when `.` and a second constructor
/// follow it directly.
pub open spec fn ctor_name_at(ts: Seq<TokV>, i: int) -> (Seq<char>, int) {
    match cur_at(ts, i) {
        TokV::Ctor(n) => if cur_at(ts, i + 1) == TokV::Sym("."@) && 0 <= i + 2 < ts.len() && ts[i + 2] is Ctor {
            (n + "."@ + ts[i + 2]->Ctor_0, i + 3)
        } else {
            (n, i + 1)
        },
        _ => (Seq::empty(), i),
    }
}

/// A constructor applied to the arguments read after it.
pub open spec fn headed(
    n: Seq<char>,
    r: Result<(Seq<TyV>, int), (int, Option<Seq<char>>)>,
) -> Result<(TyV, int), (int, Option<Seq<char>>)> {
    match r {
        Err(e) => Err(e),
        Ok((args, m)) => Ok((TyV::Con(n, args), m)),
    }
}

/// A parenthesised list after its types were read: the `)` that closes it,
/// then one type, or a tuple of several.
pub open spec fn closed_paren(
    ts: Seq<TokV>,
    d: int,
    r: Result<(Seq<TyV>, int), (int, Option<Seq<char>>)>,
) -> Result<(TyV, int), (int, Option<Seq<char>>)> {
    match r {
        Err(e) => Err(e),
        Ok((ps, j)) => {
            let e = skip(ts, j, d);
            if cur_at(ts, e) == TokV::Sym(")"@) {
                if ps.len() == 1 {
                    Ok((ps[0], e + 1))
                } else {
                    Ok((TyV::Tuple(ps), e + 1))
                }
            } else {
                Err((e, Some(")"@)))
            }
        },
    }
}

/// A type read from `i`: the type and where reading stopped; or, when the
/// tokens there are not a type, where reading failed and what it expected
/// there, a type (`None`) or the symbol named.
pub open spec fn ty_from(ts: Seq<TokV>, i: int, d: int) -> Result<(TyV, int), (int, Option<Seq<char>>)>
    decreases ts.len() - i, 3int,
{
    match app_from(ts, i, d) {
        Err(e) => Err(e),
        Ok((l, j)) => {
            let k = skip(ts, j, d);
            if cur_at(ts, k) == TokV::Sym("->"@) {
                if i < k + 1 <= ts.len() {
                    match ty_from(ts, k + 1, d) {
                        Err(e) => Err(e),
                        Ok((r, m)) => Ok((TyV::Fun(Box::new(l), Box::new(r)), m)),
                    }
                } else {
                    Err((k, None))
                }
            } else {
                Ok((l, k))
            }
        },
    }
}

pub open spec fn app_from(ts: Seq<TokV>, i: int, d: int) -> Result<(TyV, int), (int, Option<Seq<char>>)>
    decreases ts.len() - i, 2int,
{
    let k = skip(ts, i, d);
    if cur_at(ts, k) == TokV::Sym("&"@) {
        if i < k + 1 <= ts.len() {
            match app_from(ts, k + 1, d) {
                Err(e) => Err(e),
                Ok((x, j)) => Ok((TyV::Ref(Box::new(x)), j)),
            }
        } else {
            Err((k, None))
        }
    } else if cur_at(ts, k) == TokV::Sym("E!"@) {
        if i < k + 1 <= ts.len() {
            match app_from(ts, k + 1, d) {
                Err(e) => Err(e),
                Ok((x, j)) => Ok((TyV::Eff(Box::new(x)), j)),
            }
        } else {
            Err((k, None))
        }
    } else if cur_at(ts, k) is Ctor {
        let (n, j) = ctor_name_at(ts, k);
        if i < j <= ts.len() {
            headed(n, args_from(ts, j, d, Seq::empty()))
        } else {
            Err((k, None))
        }
    } else {
        atom_from(ts, i, d)
    }
}

/// The type arguments from `i` on, after `acc`: as many atoms as follow.
pub open spec fn args_from(ts: Seq<TokV>, i: int, d: int, acc: Seq<TyV>) -> Result<(Seq<TyV>, int), (int, Option<Seq<char>>)>
    decreases ts.len() - i, 1int,
{
    let k = skip(ts, i, d);
    if starts_atom(cur_at(ts, k)) {
        if i <= k < ts.len() {
            match atom_from(ts, k, d) {
                Err(e) => Err(e),
                Ok((a, j)) => if k < j <= ts.len() {
                    args_from(ts, j, d, acc.push(a))
                } else {
                    Err((k, None))
                },
            }
        } else {
            Err((k, None))
        }
    } else {
        Ok((acc, k))
    }
}

pub open spec fn atom_from(ts: Seq<TokV>, i: int, d: int) -> Result<(TyV, int), (int, Option<Seq<char>>)>
    decreases ts.len() - i, 0int,
{
    let k = skip(ts, i, d);
    let t = cur_at(ts, k);
    if t == TokV::Sym("&"@) {
        if i <= k < ts.len() {
            match atom_from(ts, k + 1, d) {
                Err(e) => Err(e),
                Ok((x, j)) => Ok((TyV::Ref(Box::new(x)), j)),
            }
        } else {
            Err((k, None))
        }
    } else if t == TokV::Sym("E!"@) {
        if i <= k < ts.len() {
            match atom_from(ts, k + 1, d) {
                Err(e) => Err(e),
                Ok((x, j)) => Ok((TyV::Eff(Box::new(x)), j)),
            }
        } else {
            Err((k, None))
        }
    } else if t is Ctor {
        let (n, j) = ctor_name_at(ts, k);
        Ok((TyV::Con(n, Seq::empty()), j))
    } else if t is Name {
        Ok((TyV::Var(t->Name_0), k + 1))
    } else if t == TokV::Sym("("@) {
        if cur_at(ts, k + 1) == TokV::Sym(")"@) {
            Ok((TyV::Con("Unit"@, Seq::empty()), k + 2))
        } else if i <= k < ts.len() {
            closed_paren(ts, d, parts_from(ts, k + 1, d + 1, Seq::empty()))
        } else {
            Err((k, None))
        }
    } else {
        Err((k, None))
    }
}

/// The types of a parenthesised list from `i` on, after `acc`: a type, then
/// as many `, ty` as follow.
pub open spec fn parts_from(ts: Seq<TokV>, i: int, d: int, acc: Seq<TyV>) -> Result<(Seq<TyV>, int), (int, Option<Seq<char>>)>
    decreases ts.len() - i, 4int,
{
    match ty_from(ts, i, d) {
        Err(e) => Err(e),
        Ok((p, j)) => {
            let k = skip(ts, j, d);
            if cur_at(ts, k) == TokV::Sym(","@) {
                if i < k + 1 <= ts.len() {
                    parts_from(ts, k + 1, d, acc.push(p))
                } else {
                    Err((k, None))
                }
            } else {
                Ok((acc.push(p), k))
            }
        },
    }
}

/// The type written in `src`, read from its first token; `None` when the
/// text does not lex or does not begin with a type.
pub open spec fn type_of_text(src: Seq<u8>) -> Option<TyV> {
    match lexed(src, usize::MAX) {
        Err(_) => None,
        Ok((toks, _)) => match ty_from(toks.map_values(|t: (TokV, Span)| t.0), 0, 1) {
            Err(_) => None,
            Ok((t, _)) => Some(t),
        },
    }
}

/// How a token is named in a message.
pub open spec fn describe_text(t: TokV) -> Seq<char> {
    match t {
        TokV::Int(n) => "`"@ + signed_decimal(n) + "`"@,
        TokV::Float(x) => "`"@ + x + "`"@,
        TokV::Name(x) => "`"@ + x + "`"@,
        TokV::Ctor(x) => "`"@ + x + "`"@,
        TokV::Str(_) => "a string literal"@,
        TokV::Char(_) => "a character literal"@,
        TokV::Kw(k) => "keyword `"@ + k + "`"@,
        TokV::Sym(x) => "`"@ + x + "`"@,
        TokV::Newline => "end of line"@,
        TokV::Eof => "end of file"@,
    }
}

/// Where the token at `i` is: past the end, where the last one is.
pub open spec fn span_at(toks: Seq<Token>, i: int) -> Span {
    if 0 <= i < toks.len() {
        toks[i].span
    } else {
        toks.last().span
    }
}

/// The diagnostic `d` reports that the tokens `toks` are not a type at
/// `pos`, where `want` (a type, or the symbol named) was expected.
pub open spec fn type_fails(d: Diag, toks: Seq<Token>, pos: int, want: Option<Seq<char>>) -> bool {
    let found = describe_text(cur_at(kinds(toks), pos));
    &&& d.span == span_at(toks, pos)
    &&& d.code@ == (if want is None {
        "parse.type"@
    } else {
        "parse.expected"@
    })
    &&& d.msg@ == match want {
        None => "expected a type, found "@ + found,
        Some(s) => "expected `"@ + s + "`, found "@ + found,
    }
    &&& d.path is None
    &&& d.witness is None
    &&& d.fix is None
}


// ------------------------------------------------------------ the pattern grammar
//
// pattern := Ctor patom* | patom
// patom   := "_" | literal | "True" | "False" | name | Ctor
//          | "[" ( pattern ( "," pattern )* )? "]" | "(" pattern ( "," pattern )* ")"
//
// Newlines count where the pattern stands outside brackets; inside a list
// or a tuple they do not.

/// What can begin a pattern argument.
pub open spec fn starts_pat(t: TokV) -> bool {
    ||| t is Int
    ||| t is Float
    ||| t is Str
    ||| t is Char
    ||| t is Name
    ||| t is Ctor
    ||| t == TokV::Kw("True"@)
    ||| t == TokV::Kw("False"@)
    ||| t == TokV::Sym("("@)
    ||| t == TokV::Sym("["@)
    ||| t == TokV::Sym("_"@)
}

/// A constructor applied to the patterns read after it.
pub open spec fn pat_headed(
    n: Seq<char>,
    r: Result<(Seq<PatV>, int), (int, Option<Seq<char>>)>,
) -> Result<(PatV, int), (int, Option<Seq<char>>)> {
    match r {
        Err(e) => Err(e),
        Ok((args, m)) => Ok((PatV::Ctor(n, args), m)),
    }
}

/// A list pattern after its patterns were read: the `]` that closes it.
pub open spec fn closed_list(
    ts: Seq<TokV>,
    r: Result<(Seq<PatV>, int), (int, Option<Seq<char>>)>,
    d: int,
) -> Result<(PatV, int), (int, Option<Seq<char>>)> {
    match r {
        Err(e) => Err(e),
        Ok((ps, j)) => {
            let e = skip(ts, j, d);
            if cur_at(ts, e) == TokV::Sym("]"@) {
                Ok((PatV::List(ps), e + 1))
            } else {
                Err((e, Some("]"@)))
            }
        },
    }
}

/// A parenthesised pattern list after its patterns were read: the `)` that
/// closes it, then one pattern, or a tuple of several.
pub open spec fn closed_tuple(
    ts: Seq<TokV>,
    r: Result<(Seq<PatV>, int), (int, Option<Seq<char>>)>,
    d: int,
) -> Result<(PatV, int), (int, Option<Seq<char>>)> {
    match r {
        Err(e) => Err(e),
        Ok((ps, j)) => {
            let e = skip(ts, j, d);
            if cur_at(ts, e) == TokV::Sym(")"@) {
                if ps.len() == 1 {
                    Ok((ps[0], e + 1))
                } else {
                    Ok((PatV::Tuple(ps), e + 1))
                }
            } else {
                Err((e, Some(")"@)))
            }
        },
    }
}

/// A pattern read from `i` at bracket depth `d`: the pattern and where
/// reading stopped; or where reading failed and what it expected there, a
/// pattern (`None`) or the symbol named.
pub open spec fn pat_from(ts: Seq<TokV>, i: int, d: int) -> Result<(PatV, int), (int, Option<Seq<char>>)>
    decreases ts.len() - i, 2int,
{
    let k = skip(ts, i, d);
    if cur_at(ts, k) is Ctor {
        let (n, j) = ctor_name_at(ts, k);
        if i < j <= ts.len() {
            pat_headed(n, pat_args_from(ts, j, d, Seq::empty()))
        } else {
            Err((k, None))
        }
    } else {
        pat_atom_from(ts, i, d)
    }
}

/// The patterns a constructor takes from `i` on, after `acc`.
pub open spec fn pat_args_from(ts: Seq<TokV>, i: int, d: int, acc: Seq<PatV>) -> Result<
    (Seq<PatV>, int),
    (int, Option<Seq<char>>),
>
    decreases ts.len() - i, 1int,
{
    let k = skip(ts, i, d);
    if starts_pat(cur_at(ts, k)) {
        if i <= k < ts.len() {
            match pat_atom_from(ts, k, d) {
                Err(e) => Err(e),
                Ok((a, j)) => if k < j <= ts.len() {
                    pat_args_from(ts, j, d, acc.push(a))
                } else {
                    Err((k, None))
                },
            }
        } else {
            Err((k, None))
        }
    } else {
        Ok((acc, k))
    }
}

pub open spec fn pat_atom_from(ts: Seq<TokV>, i: int, d: int) -> Result<(PatV, int), (int, Option<Seq<char>>)>
    decreases ts.len() - i, 0int,
{
    let k = skip(ts, i, d);
    let t = cur_at(ts, k);
    if t == TokV::Sym("_"@) {
        Ok((PatV::Wild, k + 1))
    } else if t is Int {
        Ok((PatV::Int(t->Int_0), k + 1))
    } else if t is Float {
        Ok((PatV::Float(t->Float_0), k + 1))
    } else if t is Str {
        Ok((PatV::Str(t->Str_0), k + 1))
    } else if t is Char {
        Ok((PatV::Char(t->Char_0), k + 1))
    } else if t == TokV::Kw("True"@) {
        Ok((PatV::Bool(true), k + 1))
    } else if t == TokV::Kw("False"@) {
        Ok((PatV::Bool(false), k + 1))
    } else if t is Name {
        Ok((PatV::Var(t->Name_0), k + 1))
    } else if t is Ctor {
        let (n, j) = ctor_name_at(ts, k);
        Ok((PatV::Ctor(n, Seq::empty()), j))
    } else if t == TokV::Sym("["@) {
        if i <= k < ts.len() {
            if cur_at(ts, k + 1) == TokV::Sym("]"@) {
                closed_list(ts, Ok((Seq::empty(), k + 1)), d)
            } else {
                closed_list(ts, pat_list_from(ts, k + 1, d + 1, Seq::empty()), d)
            }
        } else {
            Err((k, None))
        }
    } else if t == TokV::Sym("("@) {
        if i <= k < ts.len() {
            closed_tuple(ts, pat_list_from(ts, k + 1, d + 1, Seq::empty()), d)
        } else {
            Err((k, None))
        }
    } else {
        Err((k, None))
    }
}

/// The patterns of a bracketed list from `i` on, after `acc`: a pattern,
/// then as many `, pattern` as follow.
pub open spec fn pat_list_from(ts: Seq<TokV>, i: int, d: int, acc: Seq<PatV>) -> Result<
    (Seq<PatV>, int),
    (int, Option<Seq<char>>),
>
    decreases ts.len() - i, 3int,
{
    match pat_from(ts, i, d) {
        Err(e) => Err(e),
        Ok((p, j)) => {
            let k = skip(ts, j, d);
            if cur_at(ts, k) == TokV::Sym(","@) {
                if i < k + 1 <= ts.len() {
                    pat_list_from(ts, k + 1, d, acc.push(p))
                } else {
                    Err((k, None))
                }
            } else {
                Ok((acc.push(p), k))
            }
        },
    }
}

/// The diagnostic `d` reports that the tokens `toks` are not a pattern at
/// `pos`, where `want` (a pattern, or the symbol named) was expected.
pub open spec fn pattern_fails(d: Diag, toks: Seq<Token>, pos: int, want: Option<Seq<char>>) -> bool {
    let found = describe_text(cur_at(kinds(toks), pos));
    &&& d.span == span_at(toks, pos)
    &&& d.code@ == (if want is None {
        "parse.pattern"@
    } else {
        "parse.expected"@
    })
    &&& d.msg@ == match want {
        None => "expected a pattern, found "@ + found,
        Some(s) => "expected `"@ + s + "`, found "@ + found,
    }
    &&& d.path is None
    &&& d.witness is None
    &&& d.fix is None
}


// ------------------------------------------------------------ the parser

pub(crate) fn is_newline(t: &Token) -> (r: bool)
    ensures
        r == (t.tok@ is Newline),
{
    match t.tok {
        Tok::Newline => true,
        _ => false,
    }
}

/// A parser over tokens: where it stands, and how deep in brackets it is.
/// Inside brackets newlines are insignificant.
pub struct Parser {
    pub toks: Vec<Token>,
    pub i: usize,
    pub depth: usize,
    /// The name on the `mod` line.
    pub home: String,
}

/// The kinds of the tokens, without their spans.
pub open spec fn kinds(toks: Seq<Token>) -> Seq<TokV> {
    toks.map_values(|t: Token| t.tok@)
}

/// A token sequence as the lexer ends it: with the end of file.
pub open spec fn well_ended(ts: Seq<TokV>) -> bool {
    ts.len() > 0 && ts.last() is Eof
}

impl Parser {
    /// Where the parser may stand: on a token of a sequence that ends with
    /// the end of file, with at most one bracket opened per token read since
    /// the start.
    pub open spec fn placed(&self) -> bool {
        &&& self.depth <= self.i + 1
        &&& well_ended(kinds(self.toks@))
        &&& self.i < self.toks@.len()
    }


    pub(crate) fn cur(&self) -> (r: &Token)
        requires
            self.toks@.len() > 0,
        ensures
            r.tok@ == cur_at(kinds(self.toks@), self.i as int),
            r.span == (if self.i < self.toks@.len() { self.toks@[self.i as int].span } else {
                self.toks@.last().span
            }),
    {
        let n = self.toks.len();
        let k = if self.i < n - 1 {
            self.i
        } else {
            n - 1
        };
        &self.toks[k]
    }

    /// Past the newlines at the parser's position.
    pub(crate) fn sync(&mut self)
        requires
            old(self).placed(),
        ensures
            final(self).placed(),
            final(self).toks == old(self).toks,
            final(self).depth == old(self).depth,
            final(self).home == old(self).home,
            final(self).i == skip(kinds(old(self).toks@), old(self).i as int, old(self).depth as int),
            final(self).i >= old(self).i,
    {
        let ghost ts = kinds(self.toks@);
        if self.depth > 0 {
            while self.i < self.toks.len() && is_newline(&self.toks[self.i])
                invariant
                    self.placed(),
                    ts == kinds(self.toks@),
                    self.depth >= 1,
                    self.toks == old(self).toks,
                    self.depth == old(self).depth,
                    self.home == old(self).home,
                    old(self).i <= self.i <= self.toks@.len(),
                    synced(ts, old(self).i as int) == synced(ts, self.i as int),
                decreases self.toks@.len() - self.i,
            {
                assert(ts[self.i as int] == self.toks@[self.i as int].tok@);
                assert(self.i != self.toks@.len() - 1);
                self.i += 1;
            }
        }
    }

    /// Takes the symbol `s` if it is next.
    pub(crate) fn eat_sym(&mut self, s: &str) -> (r: bool)
        requires
            old(self).placed(),
        ensures
            final(self).placed(),
            final(self).toks == old(self).toks,
            final(self).depth == old(self).depth,
            final(self).home == old(self).home,
            final(self).i >= old(self).i,
            ({
                let k = skip(kinds(old(self).toks@), old(self).i as int, old(self).depth as int);
                if cur_at(kinds(old(self).toks@), k) == TokV::Sym(s@) {
                    r && final(self).i == k + 1
                } else {
                    !r && final(self).i == k
                }
            }),
    {
        self.sync();
        if self.cur().is_sym(s) {
            assert(kinds(self.toks@)[self.i as int] is Sym);
            assert(self.i < self.toks.len() - 1);
            self.i += 1;
            true
        } else {
            false
        }
    }
    /// A constructor name, qualified when `.` and a second constructor
    /// follow it directly.
    pub(crate) fn ctor_name(&mut self) -> (r: String)
        requires
            old(self).placed(),
            cur_at(kinds(old(self).toks@), old(self).i as int) is Ctor,
        ensures
            final(self).placed(),
            final(self).toks == old(self).toks,
            final(self).depth == old(self).depth,
            final(self).home == old(self).home,
            (r@, final(self).i as int) == ctor_name_at(kinds(old(self).toks@), old(self).i as int),
    {
        let ghost ts = kinds(self.toks@);
        let n = match &self.cur().tok {
            Tok::Ctor(n) => n.clone(),
            _ => String::new(),
        };
        assert(ts[self.i as int] == self.toks@[self.i as int].tok@);
        assert(self.i < self.toks.len() - 1);
        self.i += 1;
        if self.cur().is_sym(".") && self.i + 1 < self.toks.len() {
            assert(ts[self.i as int + 1] == self.toks@[self.i + 1].tok@);
            match &self.toks[self.i + 1].tok {
                Tok::Ctor(c) => {
                    let mut q = n;
                    push_str(&mut q, ".");
                    push_str(&mut q, c.as_str());
                    assert(self.i + 1 < self.toks.len() - 1);
                    self.i += 2;
                    return q;
                },
                _ => {},
            }
        }
        n
    }

    pub(crate) fn describe(&self) -> (r: String)
        requires
            self.toks@.len() > 0,
        ensures
            r@ == describe_text(cur_at(kinds(self.toks@), self.i as int)),
    {
        match &self.cur().tok {
            Tok::Int(n) => {
                let mut s = owned("`");
                crate::text::push_decimal(&mut s, *n);
                push_str(&mut s, "`");
                s
            },
            Tok::Float(x) | Tok::Name(x) | Tok::Ctor(x) => {
                let mut s = owned("`");
                push_str(&mut s, x.as_str());
                push_str(&mut s, "`");
                s
            },
            Tok::Str(_) => owned("a string literal"),
            Tok::Char(_) => owned("a character literal"),
            Tok::Kw(k) => {
                let mut s = owned("keyword `");
                push_str(&mut s, k);
                push_str(&mut s, "`");
                s
            },
            Tok::Sym(x) => {
                let mut s = owned("`");
                push_str(&mut s, x);
                push_str(&mut s, "`");
                s
            },
            Tok::Newline => owned("end of line"),
            Tok::Eof => owned("end of file"),
        }
    }

    pub(crate) fn err(&self, code: &str, msg: &str) -> (d: Diag)
        requires
            self.toks@.len() > 0,
        ensures
            d.span == span_at(self.toks@, self.i as int),
            d.code@ == code@,
            d.msg@ == msg@,
            d.path is None,
            d.witness is None,
            d.fix is None,
    {
        Diag::error(self.cur().span, code, msg)
    }

    /// A type: an application, or a function type.
    pub fn ty(&mut self) -> (r: Result<Ty, Diag>)
        requires
            old(self).placed(),
        ensures
            final(self).toks == old(self).toks,
            final(self).home == old(self).home,
            r is Ok ==> final(self).placed() && final(self).i > old(self).i
                && final(self).depth == old(self).depth,
            match ty_from(kinds(old(self).toks@), old(self).i as int, old(self).depth as int) {
                Ok((t, j)) => r matches Ok(x) && x@ == t && final(self).i == j,
                Err((pos, want)) => r matches Err(d) && type_fails(d, old(self).toks@, pos, want),
            },
        decreases old(self).toks@.len() - old(self).i, 3int,
    {
        let ghost ts = kinds(self.toks@);
        let ghost d = self.depth as int;
        let lhs = match self.ty_app() {
            Ok(t) => t,
            Err(d) => {
                return Err(d);
            },
        };
        let ghost j = self.i as int;
        proof {
            lemma_skip(ts, j, d);
        }
        if self.eat_sym("->") {
            let rhs = match self.ty() {
                Ok(t) => t,
                Err(d) => {
                    return Err(d);
                },
            };
            return Ok(Ty::Fun(Box::new(lhs), Box::new(rhs)));
        }
        Ok(lhs)
    }

    /// A type application, or a type under `&` or `E!`.
    fn ty_app(&mut self) -> (r: Result<Ty, Diag>)
        requires
            old(self).placed(),
        ensures
            final(self).toks == old(self).toks,
            final(self).home == old(self).home,
            r is Ok ==> final(self).placed() && final(self).i > old(self).i
                && final(self).depth == old(self).depth,
            match app_from(kinds(old(self).toks@), old(self).i as int, old(self).depth as int) {
                Ok((t, j)) => r matches Ok(x) && x@ == t && final(self).i == j,
                Err((pos, want)) => r matches Err(d) && type_fails(d, old(self).toks@, pos, want),
            },
        decreases old(self).toks@.len() - old(self).i, 2int,
    {
        let ghost ts = kinds(self.toks@);
        let ghost i0 = self.i as int;
        let ghost d = self.depth as int;
        proof {
            lemma_skip(ts, i0, d);
        }
        if self.eat_sym("&") {
            let x = match self.ty_app() {
                Ok(t) => t,
                Err(d) => {
                    return Err(d);
                },
            };
            return Ok(Ty::Ref(Box::new(x)));
        }
        if self.eat_sym("E!") {
            let x = match self.ty_app() {
                Ok(t) => t,
                Err(d) => {
                    return Err(d);
                },
            };
            return Ok(Ty::Eff(Box::new(x)));
        }
        let ghost k = self.i as int;
        assert(k == skip(ts, i0, d));
        let is_ctor = match &self.cur().tok {
            Tok::Ctor(_) => true,
            _ => false,
        };
        if is_ctor {
            let n = self.ctor_name();
            let ghost j0 = self.i as int;
            let mut args: Vec<Ty> = Vec::new();
            assert(tys_view(args@) =~= Seq::<TyV>::empty());
            assert(app_from(ts, i0, d) == headed(n@, args_from(ts, j0, d, Seq::empty())));
            loop
                invariant
                    self.placed(),
                    ts == kinds(self.toks@),
                    self.toks == old(self).toks,
                    self.depth == old(self).depth,
                    d == old(self).depth as int,
                    self.home == old(self).home,
                    self.i >= j0 > i0,
                    i0 == old(self).i,
                    app_from(ts, i0, d) == headed(n@, args_from(ts, self.i as int, d, tys_view(args@))),
                decreases self.toks@.len() - self.i,
            {
                let ghost i1 = self.i as int;
                self.sync();
                proof {
                    lemma_skip(ts, i1, d);
                }
                let starts = match &self.cur().tok {
                    Tok::Ctor(_) | Tok::Name(_) => true,
                    Tok::Sym(x) => crate::text::str_eq(x, "(") || crate::text::str_eq(x, "&")
                        || crate::text::str_eq(x, "E!"),
                    _ => false,
                };
                assert(starts == starts_atom(cur_at(ts, self.i as int)));
                if !starts {
                    return Ok(Ty::Con(n, args));
                }
                let ghost before = args@;
                let a = match self.type_atom() {
                    Ok(a) => a,
                    Err(d) => {
                        return Err(d);
                    },
                };
                args.push(a);
                proof {
                    lemma_tys_view(before);
                    assert(tys_view(args@) =~= tys_view(before).push(a@)) by {
                        assert(args@.drop_last() == before);
                    }
                }
            }
        }
        assert(atom_from(ts, k, d) == atom_from(ts, i0, d));
        self.type_atom()
    }

    /// A type argument: a name, a constructor, `()`, a parenthesised type or
    /// tuple, or an argument under `&` or `E!`.
    pub(crate) fn type_atom(&mut self) -> (r: Result<Ty, Diag>)
        requires
            old(self).placed(),
        ensures
            final(self).toks == old(self).toks,
            final(self).home == old(self).home,
            r is Ok ==> final(self).placed() && final(self).i > old(self).i
                && final(self).depth == old(self).depth,
            match atom_from(kinds(old(self).toks@), old(self).i as int, old(self).depth as int) {
                Ok((t, j)) => r matches Ok(x) && x@ == t && final(self).i == j,
                Err((pos, want)) => r matches Err(d) && type_fails(d, old(self).toks@, pos, want),
            },
        decreases old(self).toks@.len() - old(self).i, 0int,
    {
        let ghost ts = kinds(self.toks@);
        let ghost i0 = self.i as int;
        let ghost d = self.depth as int;
        proof {
            lemma_skip(ts, i0, d);
        }
        if self.eat_sym("&") {
            let x = match self.type_atom() {
                Ok(t) => t,
                Err(d) => {
                    return Err(d);
                },
            };
            return Ok(Ty::Ref(Box::new(x)));
        }
        if self.eat_sym("E!") {
            let x = match self.type_atom() {
                Ok(t) => t,
                Err(d) => {
                    return Err(d);
                },
            };
            return Ok(Ty::Eff(Box::new(x)));
        }
        let ghost k = self.i as int;
        assert(k == skip(ts, i0, d));
        assert(ts[k] == self.toks@[k].tok@);
        match &self.cur().tok {
            Tok::Ctor(_) => {
                let n = self.ctor_name();
                let v: Vec<Ty> = Vec::new();
                assert(tys_view(v@) =~= Seq::<TyV>::empty());
                return Ok(Ty::Con(n, v));
            },
            Tok::Name(n) => {
                let n = n.clone();
                assert(self.i < self.toks.len() - 1);
                self.i += 1;
                return Ok(Ty::Var(n));
            },
            _ => {},
        }
        if self.cur().is_sym("(") {
            assert(self.i < self.toks.len() - 1);
            self.i += 1;
            self.depth += 1;
            if self.cur().is_sym(")") {
                assert(ts[self.i as int] == self.toks@[self.i as int].tok@);
                assert(self.i < self.toks.len() - 1);
                self.depth -= 1;
                self.i += 1;
                return Ok(Ty::unit());
            }
            let ghost p0 = self.i as int;
            let mut parts: Vec<Ty> = Vec::new();
            assert(tys_view(parts@) =~= Seq::<TyV>::empty());
            assert(atom_from(ts, i0, d) == closed_paren(ts, d, parts_from(ts, p0, d + 1, Seq::empty())));
            loop
                invariant_except_break
                    atom_from(ts, i0, d) == closed_paren(ts, d, parts_from(ts, self.i as int, d + 1, tys_view(parts@))),
                invariant
                    self.placed(),
                    ts == kinds(self.toks@),
                    self.toks == old(self).toks,
                    self.depth == old(self).depth + 1,
                    d == old(self).depth as int,
                    self.home == old(self).home,
                    self.i >= p0 > i0,
                    i0 == old(self).i,
                ensures
                    atom_from(ts, i0, d) == closed_paren(ts, d, Ok((tys_view(parts@), self.i as int))),
                decreases self.toks@.len() - self.i,
            {
                let ghost i1 = self.i as int;
                let ghost acc = tys_view(parts@);
                let p = match self.ty() {
                    Ok(t) => t,
                    Err(d) => {
                        return Err(d);
                    },
                };
                let ghost before = parts@;
                parts.push(p);
                proof {
                    lemma_tys_view(before);
                    assert(tys_view(parts@) =~= acc.push(p@)) by {
                        assert(parts@.drop_last() == before);
                    }
                }
                let ghost j = self.i as int;
                proof {
                    lemma_skip(ts, j, d + 1);
                }
                if !self.eat_sym(",") {
                    break;
                }
            }
            self.depth -= 1;
            let ghost e0 = self.i as int;
            proof {
                lemma_skip(ts, e0, d);
            }
            if !self.eat_sym(")") {
                let msg = self.expected(")");
                return Err(self.err("parse.expected", msg.as_str()));
            }
            proof {
                lemma_tys_view(parts@);
            }
            if parts.len() == 1 {
                let p = parts.pop().unwrap();
                return Ok(p);
            }
            return Ok(Ty::Tuple(parts));
        }
        let mut msg = owned("expected a type, found ");
        let d = self.describe();
        push_str(&mut msg, d.as_str());
        Err(self.err("parse.type", msg.as_str()))
    }

    pub(crate) fn expected(&self, s: &str) -> (r: String)
        requires
            self.toks@.len() > 0,
        ensures
            r@ == "expected `"@ + s@ + "`, found "@ + describe_text(cur_at(kinds(self.toks@), self.i as int)),
    {
        let mut msg = owned("expected `");
        push_str(&mut msg, s);
        push_str(&mut msg, "`, found ");
        let d = self.describe();
        push_str(&mut msg, d.as_str());
        msg
    }
}

pub proof fn lemma_synced_ge(ts: Seq<TokV>, i: int)
    ensures
        synced(ts, i) >= i,
        i >= 0 ==> synced(ts, i) >= 0,
    decreases ts.len() - i,
{
    if 0 <= i < ts.len() && ts[i] is Newline {
        lemma_synced_ge(ts, i + 1);
    }
}

pub proof fn lemma_synced_idem(ts: Seq<TokV>, i: int)
    ensures
        synced(ts, synced(ts, i)) == synced(ts, i),
    decreases ts.len() - i,
{
    if 0 <= i < ts.len() && ts[i] is Newline {
        lemma_synced_idem(ts, i + 1);
    }
}


impl Parser {
    /// Whether a pattern argument comes next, past the newlines that do not
    /// count.
    fn starts_pattern_atom(&mut self) -> (r: bool)
        requires
            old(self).placed(),
        ensures
            final(self).placed(),
            final(self).toks == old(self).toks,
            final(self).depth == old(self).depth,
            final(self).home == old(self).home,
            final(self).i == skip(kinds(old(self).toks@), old(self).i as int, old(self).depth as int),
            r == starts_pat(cur_at(kinds(old(self).toks@), final(self).i as int)),
    {
        self.sync();
        match &self.cur().tok {
            Tok::Int(_) | Tok::Float(_) | Tok::Str(_) | Tok::Char(_) | Tok::Name(_) | Tok::Ctor(_) => true,
            Tok::Kw(k) => str_eq(k, "True") || str_eq(k, "False"),
            Tok::Sym(x) => str_eq(x, "(") || str_eq(x, "[") || str_eq(x, "_"),
            _ => false,
        }
    }

    /// A pattern: a constructor with the patterns it takes, or a pattern
    /// argument.
    pub fn pattern(&mut self) -> (r: Result<Pat, Diag>)
        requires
            old(self).placed(),
        ensures
            final(self).toks == old(self).toks,
            final(self).home == old(self).home,
            r is Ok ==> final(self).placed() && final(self).i > old(self).i
                && final(self).depth == old(self).depth,
            match pat_from(kinds(old(self).toks@), old(self).i as int, old(self).depth as int) {
                Ok((p, j)) => r matches Ok(x) && x@ == p && final(self).i == j,
                Err((pos, want)) => r matches Err(d) && pattern_fails(d, old(self).toks@, pos, want),
            },
        decreases old(self).toks@.len() - old(self).i, 2int,
    {
        let ghost ts = kinds(self.toks@);
        let ghost i0 = self.i as int;
        let ghost d0 = self.depth as int;
        proof {
            lemma_skip(ts, i0, d0);
        }
        self.sync();
        let ghost k = self.i as int;
        let is_ctor = match &self.cur().tok {
            Tok::Ctor(_) => true,
            _ => false,
        };
        if is_ctor {
            let n = self.ctor_name();
            let ghost j0 = self.i as int;
            let mut args: Vec<Pat> = Vec::new();
            assert(pats_view(args@) =~= Seq::<PatV>::empty());
            assert(pat_from(ts, i0, d0) == pat_headed(n@, pat_args_from(ts, j0, d0, Seq::empty())));
            loop
                invariant
                    self.placed(),
                    ts == kinds(self.toks@),
                    self.toks == old(self).toks,
                    self.depth == old(self).depth,
                    d0 == self.depth as int,
                    self.home == old(self).home,
                    self.i >= j0 > i0,
                    i0 == old(self).i,
                    pat_from(ts, i0, d0) == pat_headed(n@, pat_args_from(ts, self.i as int, d0, pats_view(args@))),
                decreases self.toks@.len() - self.i,
            {
                let ghost i1 = self.i as int;
                proof {
                    lemma_skip(ts, i1, d0);
                }
                if !self.starts_pattern_atom() {
                    return Ok(Pat::Ctor(n, args));
                }
                let ghost before = args@;
                let a = match self.pattern_atom() {
                    Ok(a) => a,
                    Err(d) => {
                        return Err(d);
                    },
                };
                args.push(a);
                proof {
                    lemma_pats_view(before);
                    assert(pats_view(args@) =~= pats_view(before).push(a@)) by {
                        assert(args@.drop_last() == before);
                    }
                }
            }
        }
        assert(pat_atom_from(ts, k, d0) == pat_atom_from(ts, i0, d0));
        self.pattern_atom()
    }

    /// A pattern argument: `_`, a literal, `True` or `False`, a name, a
    /// constructor alone, a bracketed list of patterns, or a parenthesised
    /// pattern or tuple of patterns.
    fn pattern_atom(&mut self) -> (r: Result<Pat, Diag>)
        requires
            old(self).placed(),
        ensures
            final(self).toks == old(self).toks,
            final(self).home == old(self).home,
            r is Ok ==> final(self).placed() && final(self).i > old(self).i
                && final(self).depth == old(self).depth,
            match pat_atom_from(kinds(old(self).toks@), old(self).i as int, old(self).depth as int) {
                Ok((p, j)) => r matches Ok(x) && x@ == p && final(self).i == j,
                Err((pos, want)) => r matches Err(d) && pattern_fails(d, old(self).toks@, pos, want),
            },
        decreases old(self).toks@.len() - old(self).i, 0int,
    {
        let ghost ts = kinds(self.toks@);
        let ghost i0 = self.i as int;
        let ghost d0 = self.depth as int;
        proof {
            lemma_skip(ts, i0, d0);
        }
        self.sync();
        let ghost k = self.i as int;
        assert(ts[k] == self.toks@[k].tok@);
        let simple: Option<Pat> = match &self.cur().tok {
            Tok::Sym(x) => if str_eq(x, "_") {
                Some(Pat::Wild)
            } else {
                None
            },
            Tok::Int(n) => Some(Pat::Int(*n)),
            Tok::Float(x) => Some(Pat::Float(x.clone())),
            Tok::Str(x) => Some(Pat::Str(x.clone())),
            Tok::Char(c) => Some(Pat::Char(*c)),
            Tok::Kw(w) => if str_eq(w, "True") {
                Some(Pat::Bool(true))
            } else if str_eq(w, "False") {
                Some(Pat::Bool(false))
            } else {
                None
            },
            Tok::Name(n) => Some(Pat::Var(n.clone())),
            _ => None,
        };
        match simple {
            Some(p) => {
                assert(self.i < self.toks.len() - 1);
                self.i += 1;
                return Ok(p);
            },
            None => {},
        }
        let is_ctor = match &self.cur().tok {
            Tok::Ctor(_) => true,
            _ => false,
        };
        if is_ctor {
            let n = self.ctor_name();
            let v: Vec<Pat> = Vec::new();
            assert(pats_view(v@) =~= Seq::<PatV>::empty());
            return Ok(Pat::Ctor(n, v));
        }
        if self.cur().is_sym("[") {
            assert(self.i < self.toks.len() - 1);
            self.i += 1;
            self.depth += 1;
            let mut ps: Vec<Pat> = Vec::new();
            assert(pats_view(ps@) =~= Seq::<PatV>::empty());
            if !self.cur().is_sym("]") {
                let ghost p0 = self.i as int;
                assert(pat_atom_from(ts, i0, d0) == closed_list(ts, pat_list_from(ts, p0, d0 + 1, Seq::empty()), d0));
                loop
                    invariant_except_break
                        pat_atom_from(ts, i0, d0) == closed_list(
                            ts,
                            pat_list_from(ts, self.i as int, d0 + 1, pats_view(ps@)),
                            d0,
                        ),
                    invariant
                        self.placed(),
                        ts == kinds(self.toks@),
                        self.toks == old(self).toks,
                        self.depth == old(self).depth + 1,
                        d0 == old(self).depth as int,
                        self.home == old(self).home,
                        self.i >= p0 > i0,
                        i0 == old(self).i,
                    ensures
                        pat_atom_from(ts, i0, d0) == closed_list(ts, Ok((pats_view(ps@), self.i as int)), d0),
                    decreases self.toks@.len() - self.i,
                {
                    let ghost acc = pats_view(ps@);
                    let p = match self.pattern() {
                        Ok(p) => p,
                        Err(d) => {
                            return Err(d);
                        },
                    };
                    let ghost before = ps@;
                    ps.push(p);
                    proof {
                        lemma_pats_view(before);
                        assert(pats_view(ps@) =~= acc.push(p@)) by {
                            assert(ps@.drop_last() == before);
                        }
                    }
                    let ghost j = self.i as int;
                    proof {
                        lemma_skip(ts, j, d0 + 1);
                    }
                    if !self.eat_sym(",") {
                        break;
                    }
                }
            } else {
                assert(ts[self.i as int] == self.toks@[self.i as int].tok@);
                assert(pat_atom_from(ts, i0, d0) == closed_list(ts, Ok((pats_view(ps@), self.i as int)), d0));
            }
            self.depth -= 1;
            let ghost e0 = self.i as int;
            proof {
                lemma_skip(ts, e0, d0);
            }
            if !self.eat_sym("]") {
                let msg = self.expected("]");
                return Err(self.err("parse.expected", msg.as_str()));
            }
            return Ok(Pat::List(ps));
        }
        if self.cur().is_sym("(") {
            assert(self.i < self.toks.len() - 1);
            self.i += 1;
            self.depth += 1;
            let ghost p0 = self.i as int;
            let mut ps: Vec<Pat> = Vec::new();
            assert(pats_view(ps@) =~= Seq::<PatV>::empty());
            assert(pat_atom_from(ts, i0, d0) == closed_tuple(ts, pat_list_from(ts, p0, d0 + 1, Seq::empty()), d0));
            loop
                invariant_except_break
                    pat_atom_from(ts, i0, d0) == closed_tuple(
                        ts,
                        pat_list_from(ts, self.i as int, d0 + 1, pats_view(ps@)),
                        d0,
                    ),
                invariant
                    self.placed(),
                    ts == kinds(self.toks@),
                    self.toks == old(self).toks,
                    self.depth == old(self).depth + 1,
                    d0 == old(self).depth as int,
                    self.home == old(self).home,
                    self.i >= p0 > i0,
                    i0 == old(self).i,
                ensures
                    pat_atom_from(ts, i0, d0) == closed_tuple(ts, Ok((pats_view(ps@), self.i as int)), d0),
                decreases self.toks@.len() - self.i,
            {
                let ghost acc = pats_view(ps@);
                let p = match self.pattern() {
                    Ok(p) => p,
                    Err(d) => {
                        return Err(d);
                    },
                };
                let ghost before = ps@;
                ps.push(p);
                proof {
                    lemma_pats_view(before);
                    assert(pats_view(ps@) =~= acc.push(p@)) by {
                        assert(ps@.drop_last() == before);
                    }
                }
                let ghost j = self.i as int;
                proof {
                    lemma_skip(ts, j, d0 + 1);
                }
                if !self.eat_sym(",") {
                    break;
                }
            }
            self.depth -= 1;
            let ghost e0 = self.i as int;
            proof {
                lemma_skip(ts, e0, d0);
            }
            if !self.eat_sym(")") {
                let msg = self.expected(")");
                return Err(self.err("parse.expected", msg.as_str()));
            }
            proof {
                lemma_pats_view(ps@);
            }
            if ps.len() == 1 {
                let p = ps.pop().unwrap();
                return Ok(p);
            }
            return Ok(Pat::Tuple(ps));
        }
        let mut msg = owned("expected a pattern, found ");
        let d = self.describe();
        push_str(&mut msg, d.as_str());
        Err(self.err("parse.pattern", msg.as_str()))
    }
}

pub proof fn lemma_skip(ts: Seq<TokV>, i: int, d: int)
    ensures
        skip(ts, i, d) >= i,
        i >= 0 ==> skip(ts, i, d) >= 0,
        skip(ts, skip(ts, i, d), d) == skip(ts, i, d),
{
    lemma_synced_ge(ts, i);
    lemma_synced_idem(ts, i);
}

} // verus!
