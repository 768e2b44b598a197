//! The expression grammar: how a body of tokens reads as an expression, and
//! the parser's methods that read one.
//!
//! ```text
//! body    := name "<-" expr ";" body | "let" name "=" expr "in" body | expr ( ";" body )?
//! expr    := binop ( "|>" binop )*
//! binop   := unary ( op binop )*
//! unary   := "-" unary | "!" unary | app
//! app     := postfix postfix*
//! postfix := "&" postfix | atom ( "." name )*
//! ```

use vstd::prelude::*;
use crate::ast::{Expr, ExprKind, ExprV, KindV, exprs_view, lemma_exprs_view, arms_view, fields_view};
use crate::ast::{Pat, PatV};
use crate::diag::{Diag, Span};
use crate::lexer::{Tok, TokV, Token};
use crate::parser::{Parser, cur_at, synced, skip, ctor_name_at, describe_text, span_at, kinds, pat_from};
use crate::parser::{well_ended, lemma_skip};
use crate::text::{owned, push_str, str_eq};

verus! {
// ------------------------------------------------------------ the expression grammar
//
// body    := name "<-" expr ";" body | "let" name "=" expr "in" body | expr ( ";" body )?
// expr    := binop ( "|>" binop )*            -- `x |> f a` is `f a x`
// binop   := unary ( op binop )*              -- by precedence, left to right
// unary   := "-" unary | "!" unary | app
// app     := postfix postfix*                 -- outside brackets, on one line
// postfix := "&" postfix | atom ( "." name )*
// atom    := literal | name | Ctor | "True" | "False" | "let" ... | "arena" name "in" body
//          | "\" name* "->" expr | "?" expr ( "|" pattern "->" body )+ "end"
//          | "(" ")" | "(" expr ( "," expr )* ")" | "[" ... "]" | "{" ( name "with" )? ... "}"

/// Why an expression does not parse: at which token, with what code,
/// message and fix.
pub struct Failure {
    pub pos: int,
    pub code: Seq<char>,
    pub msg: Seq<char>,
    pub fix: Option<Seq<char>>,
}

/// How the token at `pos` is named in a message.
pub open spec fn found(toks: Seq<Token>, pos: int) -> Seq<char> {
    describe_text(cur_at(kinds(toks), pos))
}

pub open spec fn failure(pos: int, code: Seq<char>, msg: Seq<char>) -> Failure {
    Failure { pos, code, msg, fix: None }
}

/// Where reading cannot go on at all; only reached on tokens that do not end
/// with the end of file.
pub open spec fn stuck(pos: int) -> Failure {
    Failure { pos, code: Seq::empty(), msg: Seq::empty(), fix: None }
}

pub open spec fn expected_at(toks: Seq<Token>, pos: int, s: Seq<char>) -> Failure {
    failure(pos, "parse.expected"@, "expected `"@ + s + "`, found "@ + found(toks, pos))
}

/// A pattern that does not parse, as the failure it is.
pub open spec fn pattern_failure(toks: Seq<Token>, pos: int, want: Option<Seq<char>>) -> Failure {
    match want {
        None => failure(pos, "parse.pattern"@, "expected a pattern, found "@ + found(toks, pos)),
        Some(s) => expected_at(toks, pos, s),
    }
}

/// The diagnostic `d` reports the failure `f` in `toks`.
pub open spec fn reports_failure(d: Diag, toks: Seq<Token>, f: Failure) -> bool {
    &&& d.span == span_at(toks, f.pos)
    &&& d.code@ == f.code
    &&& d.msg@ == f.msg
    &&& crate::diag::opt_view(d.fix) == f.fix
    &&& d.path is None
    &&& d.witness is None
}

/// A name, past the newlines that do not count.
pub open spec fn name_from(toks: Seq<Token>, i: int, d: int) -> Result<(Seq<char>, int), Failure> {
    let k = skip(kinds(toks), i, d);
    match cur_at(kinds(toks), k) {
        TokV::Name(n) => Ok((n, k + 1)),
        _ => Err(failure(k, "parse.name"@, "expected a name, found "@ + found(toks, k))),
    }
}

/// The symbol `s`, past the newlines that do not count.
pub open spec fn expect_from(toks: Seq<Token>, i: int, d: int, s: Seq<char>) -> Result<int, Failure> {
    let k = skip(kinds(toks), i, d);
    if cur_at(kinds(toks), k) == TokV::Sym(s) {
        Ok(k + 1)
    } else {
        Err(expected_at(toks, k, s))
    }
}

/// Whether the keyword `w` is next, and where reading stands afterwards.
pub open spec fn kw_from(toks: Seq<Token>, i: int, d: int, w: Seq<char>) -> (bool, int) {
    let k = skip(kinds(toks), i, d);
    if cur_at(kinds(toks), k) == TokV::Kw(w) {
        (true, k + 1)
    } else {
        (false, k)
    }
}

/// The `n`-th token from `i`, not counting newlines that do not count.
pub open spec fn peek_from(ts: Seq<TokV>, i: int, d: int, n: nat) -> TokV
    decreases ts.len() - i,
{
    if i < 0 || i >= ts.len() {
        TokV::Eof
    } else if d > 0 && ts[i] is Newline {
        peek_from(ts, i + 1, d, n)
    } else if n == 0 {
        ts[i]
    } else {
        peek_from(ts, i + 1, d, (n - 1) as nat)
    }
}

/// The precedence of a binary operator, 0 for a symbol that is none.
pub open spec fn prec_of(op: Seq<char>) -> int {
    if op == "||"@ {
        1
    } else if op == "&&"@ {
        2
    } else if op == "=="@ || op == "!="@ || op == "<"@ || op == "<="@ || op == ">"@ || op == ">="@ {
        3
    } else if op == "++"@ {
        4
    } else if op == "+"@ || op == "-"@ {
        5
    } else if op == "*"@ || op == "/"@ {
        6
    } else {
        0
    }
}

/// What can begin an argument.
pub open spec fn starts_e(t: TokV) -> bool {
    ||| t is Int
    ||| t is Float
    ||| t is Str
    ||| t is Char
    ||| t is Name
    ||| t is Ctor
    ||| t == TokV::Kw("True"@)
    ||| t == TokV::Kw("False"@)
    ||| t == TokV::Kw("arena"@)
    ||| t == TokV::Sym("("@)
    ||| t == TokV::Sym("["@)
    ||| t == TokV::Sym("{"@)
    ||| t == TokV::Sym("&"@)
    ||| t == TokV::Sym("?"@)
    ||| t == TokV::Sym("\\"@)
}

/// An expression that needs no parentheses around it.
pub open spec fn bare(k: KindV) -> bool {
    k is Int || k is Float || k is Str || k is Char || k is Bool || k is Var || k is Ctor
}

pub open spec fn mk(kind: KindV, span: Span) -> ExprV {
    ExprV { kind, span }
}

/// `x |> f a` is `f a x`: the pipe feeds the last argument.
pub open spec fn piped(lhs: ExprV, rhs: ExprV, span: Span) -> ExprV {
    match rhs.kind {
        KindV::App(f, args) => mk(KindV::App(f, args.push(lhs)), span),
        _ => mk(KindV::App(Box::new(rhs), seq![lhs]), span),
    }
}

/// The name `a ; b` binds its left side to: no identifier starts with `;`.
pub open spec fn seq_name() -> Seq<char> {
    SEQ@
}

/// The name a plain `a ; b` binds `a` to.
pub const SEQ: &'static str = ";seq";

pub open spec fn body_from(toks: Seq<Token>, i: int, d: int) -> Result<(ExprV, int), Failure>
    decreases toks.len() - i, 10int,
{
    let ts = kinds(toks);
    let k = synced(ts, i);
    let span = span_at(toks, k);
    if !(i <= k < toks.len()) {
        Err(stuck(k))
    } else if peek_from(ts, k, d, 0) is Name && peek_from(ts, k, d, 1) == TokV::Sym("<-"@) {
        match name_from(toks, k, d) {
            Err(f) => Err(f),
            Ok((n, j1)) => match expect_from(toks, j1, d, "<-"@) {
                Err(f) => Err(f),
                Ok(j2) => if i < j2 <= toks.len() {
                    match expr_from(toks, j2, d) {
                        Err(f) => Err(f),
                        Ok((val, j3)) => {
                            let k3 = skip(ts, j3, d);
                            if cur_at(ts, k3) == TokV::Sym(";"@) {
                                if i < k3 + 1 <= toks.len() {
                                    match body_from(toks, k3 + 1, d) {
                                        Err(f) => Err(f),
                                        Ok((rest, j4)) => Ok((mk(KindV::Bind(n, Box::new(val), Box::new(rest)), span), j4)),
                                    }
                                } else {
                                    Err(stuck(k3))
                                }
                            } else {
                                Err(
                                    Failure {
                                        pos: k3,
                                        code: "parse.bind"@,
                                        msg: "expected `;` after a `<-` binding"@,
                                        fix: Some("write `name <- value ;` and continue on the next line"@),
                                    },
                                )
                            }
                        },
                    }
                } else {
                    Err(stuck(j2))
                },
            },
        }
    } else if cur_at(ts, k) == TokV::Kw("let"@) {
        let_from(toks, k, d, span)
    } else {
        match expr_from(toks, k, d) {
            Err(f) => Err(f),
            Ok((e, j)) => {
                let k2 = skip(ts, j, d);
                if cur_at(ts, k2) == TokV::Sym(";"@) {
                    if i < k2 + 1 <= toks.len() {
                        match body_from(toks, k2 + 1, d) {
                            Err(f) => Err(f),
                            Ok((rest, j4)) => Ok((mk(KindV::Bind(seq_name(), Box::new(e), Box::new(rest)), span), j4)),
                        }
                    } else {
                        Err(stuck(k2))
                    }
                } else {
                    Ok((e, k2))
                }
            },
        }
    }
}

/// `let name = value in body`, from the `let` at `k`.
pub open spec fn let_from(toks: Seq<Token>, k: int, d: int, span: Span) -> Result<(ExprV, int), Failure>
    decreases toks.len() - k, 2int,
{
    match name_from(toks, k + 1, d) {
        Err(f) => Err(f),
        Ok((n, j1)) => match expect_from(toks, j1, d, "="@) {
            Err(f) => Err(f),
            Ok(j2) => if k < j2 <= toks.len() {
                match expr_from(toks, j2, d) {
                    Err(f) => Err(f),
                    Ok((val, j3)) => {
                        let (ok, j4) = kw_from(toks, j3, d, "in"@);
                        if !ok {
                            Err(failure(j4, "parse.let"@, "expected `in` after a `let` binding"@))
                        } else if k < j4 <= toks.len() {
                            match body_from(toks, j4, d) {
                                Err(f) => Err(f),
                                Ok((rest, j5)) => Ok((mk(KindV::Let(n, Box::new(val), Box::new(rest)), span), j5)),
                            }
                        } else {
                            Err(stuck(j4))
                        }
                    },
                }
            } else {
                Err(stuck(j2))
            },
        },
    }
}

pub open spec fn expr_from(toks: Seq<Token>, i: int, d: int) -> Result<(ExprV, int), Failure>
    decreases toks.len() - i, 9int,
{
    match binop_from(toks, i, d, 1) {
        Err(f) => Err(f),
        Ok((lhs, j)) => if i < j <= toks.len() {
            pipe_rest(toks, j, d, lhs)
        } else {
            Err(stuck(j))
        },
    }
}

pub open spec fn pipe_rest(toks: Seq<Token>, i: int, d: int, lhs: ExprV) -> Result<(ExprV, int), Failure>
    decreases toks.len() - i, 2int,
{
    if 0 <= i < toks.len() && cur_at(kinds(toks), i) == TokV::Sym("|>"@) {
        match binop_from(toks, i + 1, d, 1) {
            Err(f) => Err(f),
            Ok((rhs, j)) => if i < j <= toks.len() {
                pipe_rest(toks, j, d, piped(lhs, rhs, span_at(toks, i)))
            } else {
                Err(stuck(j))
            },
        }
    } else {
        Ok((lhs, i))
    }
}

pub open spec fn binop_from(toks: Seq<Token>, i: int, d: int, min: int) -> Result<(ExprV, int), Failure>
    decreases toks.len() - i, 8int,
{
    match unary_from(toks, i, d) {
        Err(f) => Err(f),
        Ok((lhs, j)) => if i < j <= toks.len() {
            binop_rest(toks, j, d, min, lhs)
        } else {
            Err(stuck(j))
        },
    }
}

pub open spec fn binop_rest(toks: Seq<Token>, i: int, d: int, min: int, lhs: ExprV) -> Result<(ExprV, int), Failure>
    decreases toks.len() - i, 2int,
{
    let ts = kinds(toks);
    let k = skip(ts, i, d);
    let t = cur_at(ts, k);
    if t is Sym && prec_of(t->Sym_0) > 0 && prec_of(t->Sym_0) >= min {
        if i <= k < toks.len() {
            match binop_from(toks, k + 1, d, prec_of(t->Sym_0) + 1) {
                Err(f) => Err(f),
                Ok((rhs, j)) => if i < j <= toks.len() {
                    binop_rest(toks, j, d, min, mk(KindV::Binop(t->Sym_0, Box::new(lhs), Box::new(rhs)), span_at(toks, k)))
                } else {
                    Err(stuck(j))
                },
            }
        } else {
            Err(stuck(k))
        }
    } else {
        Ok((lhs, k))
    }
}

pub open spec fn unary_from(toks: Seq<Token>, i: int, d: int) -> Result<(ExprV, int), Failure>
    decreases toks.len() - i, 7int,
{
    let ts = kinds(toks);
    let k = skip(ts, i, d);
    let span = span_at(toks, k);
    if !(i <= k < toks.len()) {
        Err(stuck(k))
    } else if cur_at(ts, k) == TokV::Sym("-"@) {
        match unary_from(toks, k + 1, d) {
            Err(f) => Err(f),
            Ok((x, j)) => Ok((mk(KindV::Neg(Box::new(x)), span), j)),
        }
    } else if cur_at(ts, k) == TokV::Sym("!"@) {
        match unary_from(toks, k + 1, d) {
            Err(f) => Err(f),
            Ok((x, j)) => Ok((mk(KindV::Not(Box::new(x)), span), j)),
        }
    } else {
        app_from_e(toks, k, d)
    }
}

pub open spec fn app_from_e(toks: Seq<Token>, i: int, d: int) -> Result<(ExprV, int), Failure>
    decreases toks.len() - i, 6int,
{
    match postfix_from(toks, i, d) {
        Err(f) => Err(f),
        Ok((head, j)) => if i < j <= toks.len() {
            applied(head, app_args(toks, j, d, Seq::empty()))
        } else {
            Err(stuck(j))
        },
    }
}

/// A head applied to the arguments read after it, if there are any.
pub open spec fn applied(head: ExprV, args: Result<(Seq<ExprV>, int), Failure>) -> Result<(ExprV, int), Failure> {
    match args {
        Err(f) => Err(f),
        Ok((xs, m)) => if xs.len() == 0 {
            Ok((head, m))
        } else {
            Ok((mk(KindV::App(Box::new(head), xs), head.span), m))
        },
    }
}

pub open spec fn app_args(toks: Seq<Token>, i: int, d: int, acc: Seq<ExprV>) -> Result<(Seq<ExprV>, int), Failure>
    decreases toks.len() - i, 5int,
{
    let ts = kinds(toks);
    if d == 0 && cur_at(ts, i) is Newline {
        Ok((acc, i))
    } else {
        let k = skip(ts, i, d);
        if starts_e(cur_at(ts, k)) {
            if i <= k < toks.len() {
                match postfix_from(toks, k, d) {
                    Err(f) => Err(f),
                    Ok((a, j)) => if k < j <= toks.len() {
                        app_args(toks, j, d, acc.push(a))
                    } else {
                        Err(stuck(j))
                    },
                }
            } else {
                Err(stuck(k))
            }
        } else {
            Ok((acc, k))
        }
    }
}

pub open spec fn postfix_from(toks: Seq<Token>, i: int, d: int) -> Result<(ExprV, int), Failure>
    decreases toks.len() - i, 4int,
{
    let ts = kinds(toks);
    let k = skip(ts, i, d);
    if !(i <= k < toks.len()) {
        Err(stuck(k))
    } else if cur_at(ts, k) == TokV::Sym("&"@) {
        match postfix_from(toks, k + 1, d) {
            Err(f) => Err(f),
            Ok((x, j)) => Ok((mk(KindV::Borrow(Box::new(x)), span_at(toks, k)), j)),
        }
    } else {
        match atom_e(toks, k, d) {
            Err(f) => Err(f),
            Ok((e, j)) => if k < j <= toks.len() {
                fields_rest(toks, j, d, e)
            } else {
                Err(stuck(j))
            },
        }
    }
}

/// `.name` after an expression, as often as it follows directly.
pub open spec fn fields_rest(toks: Seq<Token>, i: int, d: int, e: ExprV) -> Result<(ExprV, int), Failure>
    decreases toks.len() - i, 2int,
{
    if 0 <= i < toks.len() && cur_at(kinds(toks), i) == TokV::Sym("."@) {
        match name_from(toks, i + 1, d) {
            Err(f) => Err(f),
            Ok((f, j)) => if i < j <= toks.len() {
                fields_rest(toks, j, d, mk(KindV::Field(Box::new(e), f), span_at(toks, i)))
            } else {
                Err(stuck(j))
            },
        }
    } else {
        Ok((e, i))
    }
}

/// The names of a lambda, from `i` on, after `acc`.
pub open spec fn lambda_names(toks: Seq<Token>, i: int, d: int, acc: Seq<Seq<char>>) -> (Seq<Seq<char>>, int)
    decreases toks.len() - i,
{
    let ts = kinds(toks);
    let k = skip(ts, i, d);
    if cur_at(ts, k) is Name && i <= k < toks.len() {
        lambda_names(toks, k + 1, d, acc.push(cur_at(ts, k)->Name_0))
    } else {
        (acc, k)
    }
}

pub open spec fn atom_e(toks: Seq<Token>, i: int, d: int) -> Result<(ExprV, int), Failure>
    decreases toks.len() - i, 3int,
{
    let ts = kinds(toks);
    let k = skip(ts, i, d);
    let t = cur_at(ts, k);
    let span = span_at(toks, k);
    if !(i <= k < toks.len()) {
        Err(stuck(k))
    } else if t is Int {
        Ok((mk(KindV::Int(t->Int_0), span), k + 1))
    } else if t is Float {
        Ok((mk(KindV::Float(t->Float_0), span), k + 1))
    } else if t is Str {
        Ok((mk(KindV::Str(t->Str_0), span), k + 1))
    } else if t is Char {
        Ok((mk(KindV::Char(t->Char_0), span), k + 1))
    } else if t is Name {
        Ok((mk(KindV::Var(t->Name_0), span), k + 1))
    } else if t == TokV::Kw("True"@) {
        Ok((mk(KindV::Bool(true), span), k + 1))
    } else if t == TokV::Kw("False"@) {
        Ok((mk(KindV::Bool(false), span), k + 1))
    } else if t is Ctor {
        let (n, j) = ctor_name_at(ts, k);
        Ok((mk(KindV::Ctor(n), span), j))
    } else if t == TokV::Kw("let"@) {
        let_from(toks, k, d, span)
    } else if t == TokV::Kw("arena"@) {
        arena_from(toks, k, d, span)
    } else if t == TokV::Sym("\\"@) {
        lambda_from(toks, k, d, span)
    } else if t == TokV::Sym("?"@) {
        match_from(toks, k + 1, d, span)
    } else if t == TokV::Sym("("@) {
        paren_from(toks, k, d, span)
    } else if t == TokV::Sym("["@) {
        list_from(toks, k, d, span)
    } else if t == TokV::Sym("{"@) {
        record_from(toks, k, d, span)
    } else {
        Err(failure(k, "parse.expr"@, "expected an expression, found "@ + found(toks, k)))
    }
}

/// `arena name in body`, from the `arena` at `k`.
pub open spec fn arena_from(toks: Seq<Token>, k: int, d: int, span: Span) -> Result<(ExprV, int), Failure>
    decreases toks.len() - k, 2int,
{
    match name_from(toks, k + 1, d) {
        Err(f) => Err(f),
        Ok((n, j1)) => if k < j1 <= toks.len() {
            arena_in(toks, j1, d, n, span)
        } else {
            Err(stuck(j1))
        },
    }
}

/// The rest of an arena block after its name `n`, from `i`: `in body`.
pub open spec fn arena_in(toks: Seq<Token>, i: int, d: int, n: Seq<char>, span: Span) -> Result<(ExprV, int), Failure>
    decreases toks.len() - i, 1int,
{
    let (ok, j2) = kw_from(toks, i, d, "in"@);
    if !ok {
        Err(failure(j2, "parse.arena"@, "expected `in` after the arena name"@))
    } else if i < j2 <= toks.len() {
        match body_from(toks, j2, d) {
            Err(f) => Err(f),
            Ok((b, j3)) => Ok((mk(KindV::Arena(n, Box::new(b)), span), j3)),
        }
    } else {
        Err(stuck(j2))
    }
}

/// `\ names -> expr`, from the `\` at `k`.
pub open spec fn lambda_from(toks: Seq<Token>, k: int, d: int, span: Span) -> Result<(ExprV, int), Failure>
    decreases toks.len() - k, 2int,
{
    let (ps, j1) = lambda_names(toks, k + 1, d, Seq::empty());
    match expect_from(toks, j1, d, "->"@) {
        Err(f) => Err(f),
        Ok(j2) => if k < j2 <= toks.len() {
            match expr_from(toks, j2, d) {
                Err(f) => Err(f),
                Ok((b, j3)) => Ok((mk(KindV::Lambda(ps, Box::new(b)), span), j3)),
            }
        } else {
            Err(stuck(j2))
        },
    }
}

/// `()`, a parenthesised expression or a tuple, from the `(` at `k`.
pub open spec fn paren_from(toks: Seq<Token>, k: int, d: int, span: Span) -> Result<(ExprV, int), Failure>
    decreases toks.len() - k, 2int,
{
    if cur_at(kinds(toks), k + 1) == TokV::Sym(")"@) {
        Ok((mk(KindV::Unit, span), k + 2))
    } else if k < k + 1 <= toks.len() {
        closed_tuple_e(toks, k, d, span, parts_e(toks, k + 1, d + 1, Seq::empty()))
    } else {
        Err(stuck(k))
    }
}

/// The parenthesised expressions read from the `(` at `k`, closed by `)`.
pub open spec fn closed_tuple_e(
    toks: Seq<Token>,
    k: int,
    d: int,
    span: Span,
    parts: Result<(Seq<ExprV>, int), Failure>,
) -> Result<(ExprV, int), Failure> {
    match parts {
        Err(f) => Err(f),
        Ok((ps, j)) => {
            let e = skip(kinds(toks), j, d);
            if cur_at(kinds(toks), e) != TokV::Sym(")"@) {
                Err(expected_at(toks, e, ")"@))
            } else if ps.len() == 1 {
                if bare(ps[0].kind) {
                    Err(
                        Failure {
                            pos: k,
                            code: "canon.parens"@,
                            msg: "redundant parentheses"@,
                            fix: Some("remove the parentheses"@),
                        },
                    )
                } else {
                    Ok((ps[0], e + 1))
                }
            } else {
                Ok((mk(KindV::Tuple(ps), span), e + 1))
            }
        },
    }
}

/// A list literal, from the `[` at `k`.
pub open spec fn list_from(toks: Seq<Token>, k: int, d: int, span: Span) -> Result<(ExprV, int), Failure>
    decreases toks.len() - k, 2int,
{
    if cur_at(kinds(toks), k + 1) == TokV::Sym("]"@) {
        closed_list_e(toks, d, span, Ok((Seq::empty(), k + 1)))
    } else if k < k + 1 <= toks.len() {
        closed_list_e(toks, d, span, parts_e(toks, k + 1, d + 1, Seq::empty()))
    } else {
        Err(stuck(k))
    }
}

/// The items of a list literal, closed by `]`.
pub open spec fn closed_list_e(
    toks: Seq<Token>,
    d: int,
    span: Span,
    items: Result<(Seq<ExprV>, int), Failure>,
) -> Result<(ExprV, int), Failure> {
    match items {
        Err(f) => Err(f),
        Ok((ps, j)) => {
            let e = skip(kinds(toks), j, d);
            if cur_at(kinds(toks), e) == TokV::Sym("]"@) {
                Ok((mk(KindV::List(ps), span), e + 1))
            } else {
                Err(expected_at(toks, e, "]"@))
            }
        },
    }
}

/// Whether a record literal at `i` starts with `name with`.
pub open spec fn with_base(toks: Seq<Token>, i: int, d: int) -> bool {
    peek_from(kinds(toks), i, d, 0) is Name && peek_from(kinds(toks), i, d, 1) == TokV::Kw("with"@)
}

/// A record literal, from the `{` at `k`: `{ fields }` or `{ base with fields }`.
pub open spec fn record_from(toks: Seq<Token>, k: int, d: int, span: Span) -> Result<(ExprV, int), Failure>
    decreases toks.len() - k, 2int,
{
    let ts = kinds(toks);
    let d1 = d + 1;
    let i1 = skip(ts, k + 1, d1);
    let wb = with_base(toks, k + 1, d1);
    let base: Option<Box<ExprV>> = if wb {
        Some(Box::new(mk(KindV::Var(cur_at(ts, i1)->Name_0), span_at(toks, i1))))
    } else {
        None
    };
    let p = if wb {
        kw_from(toks, i1 + 1, d1, "with"@).1
    } else {
        i1
    };
    if cur_at(ts, p) == TokV::Sym("}"@) {
        closed_record(toks, d, span, base, Ok((Seq::empty(), p)))
    } else if k < p <= toks.len() {
        closed_record(toks, d, span, base, record_fields(toks, p, d1, Seq::empty()))
    } else {
        Err(stuck(p))
    }
}

/// The fields of a record literal, closed by `}`.
pub open spec fn closed_record(
    toks: Seq<Token>,
    d: int,
    span: Span,
    base: Option<Box<ExprV>>,
    fields: Result<(Seq<(Seq<char>, ExprV)>, int), Failure>,
) -> Result<(ExprV, int), Failure> {
    match fields {
        Err(f) => Err(f),
        Ok((fs, j)) => {
            let e = skip(kinds(toks), j, d);
            if cur_at(kinds(toks), e) == TokV::Sym("}"@) {
                Ok((mk(KindV::Record(base, fs), span), e + 1))
            } else {
                Err(expected_at(toks, e, "}"@))
            }
        },
    }
}

/// The expressions of a bracketed list from `i` on, after `acc`.
pub open spec fn parts_e(toks: Seq<Token>, i: int, d: int, acc: Seq<ExprV>) -> Result<(Seq<ExprV>, int), Failure>
    decreases toks.len() - i, 12int,
{
    match expr_from(toks, i, d) {
        Err(f) => Err(f),
        Ok((e, j)) => {
            let k = skip(kinds(toks), j, d);
            if cur_at(kinds(toks), k) == TokV::Sym(","@) {
                if i < k + 1 <= toks.len() {
                    parts_e(toks, k + 1, d, acc.push(e))
                } else {
                    Err(stuck(k))
                }
            } else {
                Ok((acc.push(e), k))
            }
        },
    }
}

/// The fields of a record literal from `i` on, after `acc`.
pub open spec fn record_fields(toks: Seq<Token>, i: int, d: int, acc: Seq<(Seq<char>, ExprV)>) -> Result<
    (Seq<(Seq<char>, ExprV)>, int),
    Failure,
>
    decreases toks.len() - i, 2int,
{
    match name_from(toks, i, d) {
        Err(f) => Err(f),
        Ok((f, j1)) => match expect_from(toks, j1, d, "="@) {
            Err(e) => Err(e),
            Ok(j2) => if i < j2 <= toks.len() {
                match expr_from(toks, j2, d) {
                    Err(e) => Err(e),
                    Ok((v, j3)) => {
                        let k = skip(kinds(toks), j3, d);
                        if cur_at(kinds(toks), k) == TokV::Sym(","@) {
                            if i < k + 1 <= toks.len() {
                                record_fields(toks, k + 1, d, acc.push((f, v)))
                            } else {
                                Err(stuck(k))
                            }
                        } else {
                            Ok((acc.push((f, v)), k))
                        }
                    },
                }
            } else {
                Err(stuck(j2))
            },
        },
    }
}

/// A match from its scrutinee at `i`, the `?` having been read at `span`.
pub open spec fn match_from(toks: Seq<Token>, i: int, d: int, span: Span) -> Result<(ExprV, int), Failure>
    decreases toks.len() - i, 11int,
{
    match expr_from(toks, i, d) {
        Err(f) => Err(f),
        Ok((scrut, j)) => if !(0 <= j < toks.len() && cur_at(kinds(toks), j) == TokV::Sym("|"@)) {
            Err(
                Failure {
                    pos: j,
                    code: "parse.match"@,
                    msg: "a `?` match needs at least one `|` arm"@,
                    fix: Some("add `|_ -> ...`"@),
                },
            )
        } else if i < j <= toks.len() {
            matched(toks, d, span, scrut, arms_from(toks, j, d, Seq::empty()))
        } else {
            Err(stuck(j))
        },
    }
}

/// The arms read after a scrutinee, closed by `end`.
pub open spec fn matched(
    toks: Seq<Token>,
    d: int,
    span: Span,
    scrut: ExprV,
    arms: Result<(Seq<(PatV, ExprV)>, int), Failure>,
) -> Result<(ExprV, int), Failure> {
    match arms {
        Err(f) => Err(f),
        Ok((xs, m)) => {
            let (ok, m2) = kw_from(toks, m, d, "end"@);
            if ok {
                Ok((mk(KindV::Match(Box::new(scrut), xs), span), m2))
            } else {
                Err(
                    Failure {
                        pos: m2,
                        code: "parse.match"@,
                        msg: "expected another `|` arm or `end` to close the match"@,
                        fix: Some("add `end` after the last arm"@),
                    },
                )
            }
        },
    }
}

/// One arm of a match, after its `|` at `k`: `pattern -> body`.
pub open spec fn arm_from(toks: Seq<Token>, k: int, d: int) -> Result<((PatV, ExprV), int), Failure>
    decreases toks.len() - k, 1int,
{
    match pat_from(kinds(toks), k + 1, d) {
        Err((pos, want)) => Err(pattern_failure(toks, pos, want)),
        Ok((p, j1)) => match expect_from(toks, j1, d, "->"@) {
            Err(f) => Err(f),
            Ok(j2) => if k < j2 <= toks.len() {
                match body_from(toks, j2, d) {
                    Err(f) => Err(f),
                    Ok((b, j3)) => Ok(((p, b), j3)),
                }
            } else {
                Err(stuck(j2))
            },
        },
    }
}

/// The arms of a match from `i` on, after `acc`: `| pattern -> body`.
pub open spec fn arms_from(toks: Seq<Token>, i: int, d: int, acc: Seq<(PatV, ExprV)>) -> Result<
    (Seq<(PatV, ExprV)>, int),
    Failure,
>
    decreases toks.len() - i, 2int,
{
    let ts = kinds(toks);
    let k = skip(ts, i, d);
    if cur_at(ts, k) == TokV::Sym("|"@) && i <= k < toks.len() {
        match arm_from(toks, k, d) {
            Err(f) => Err(f),
            Ok((a, j)) => if i < j <= toks.len() {
                arms_from(toks, j, d, acc.push(a))
            } else {
                Err(stuck(j))
            },
        }
    } else {
        Ok((acc, k))
    }
}



// ------------------------------------------------------------ reading expressions

/// The precedence of a binary operator, 0 for a symbol that is none.
fn prec(op: &str) -> (p: u8)
    ensures
        p as int == prec_of(op@),
{
    if str_eq(op, "||") {
        1
    } else if str_eq(op, "&&") {
        2
    } else if str_eq(op, "==") || str_eq(op, "!=") || str_eq(op, "<") || str_eq(op, "<=") || str_eq(op, ">")
        || str_eq(op, ">=") {
        3
    } else if str_eq(op, "++") {
        4
    } else if str_eq(op, "+") || str_eq(op, "-") {
        5
    } else if str_eq(op, "*") || str_eq(op, "/") {
        6
    } else {
        0
    }
}

/// Whether an expression needs no parentheses around it.
fn is_bare(k: &ExprKind) -> (r: bool)
    ensures
        r == bare(crate::ast::kind_view(*k)),
{
    match k {
        ExprKind::Int(_) | ExprKind::Float(_) | ExprKind::Str(_) | ExprKind::Char(_) | ExprKind::Bool(_)
        | ExprKind::Var(_) | ExprKind::Ctor(_) => true,
        _ => false,
    }
}

pub proof fn lemma_peek_synced(ts: Seq<TokV>, i: int, d: int, n: nat)
    requires
        d > 0,
    ensures
        peek_from(ts, synced(ts, i), d, n) == peek_from(ts, i, d, n),
    decreases ts.len() - i,
{
    if 0 <= i < ts.len() && ts[i] is Newline {
        lemma_peek_synced(ts, i + 1, d, n);
    }
}

impl Parser {
    /// Reading moved the parser forward and changed nothing else.
    pub open spec fn moved_from(&self, o: Parser) -> bool {
        &&& self.placed()
        &&& self.toks == o.toks
        &&& self.depth == o.depth
        &&& self.home == o.home
        &&& self.i >= o.i
    }

    /// Past every newline, significant or not.
    pub(crate) fn skip_newlines(&mut self)
        requires
            old(self).placed(),
        ensures
            final(self).moved_from(*old(self)),
            final(self).i == synced(kinds(old(self).toks@), old(self).i as int),
    {
        let ghost ts = kinds(self.toks@);
        while self.i < self.toks.len() && crate::parser::is_newline(&self.toks[self.i])
            invariant
                self.placed(),
                ts == kinds(self.toks@),
                self.toks == old(self).toks,
                self.depth == old(self).depth,
                self.home == old(self).home,
                old(self).i <= self.i <= self.toks@.len(),
                synced(ts, old(self).i as int) == synced(ts, self.i as int),
            decreases self.toks@.len() - self.i,
        {
            assert(ts[self.i as int] == self.toks@[self.i as int].tok@);
            assert(self.i != self.toks@.len() - 1);
            self.i += 1;
        }
    }

    /// The `n`-th token ahead, not counting the newlines that do not count.
    pub(crate) fn peek_at(&self, n: usize) -> (r: &Tok)
        requires
            self.placed(),
        ensures
            r@ == peek_from(kinds(self.toks@), self.i as int, self.depth as int, n as nat),
    {
        let ghost ts = kinds(self.toks@);
        let mut j = self.i;
        let mut k: usize = 0;
        while j < self.toks.len()
            invariant
                ts == kinds(self.toks@),
                well_ended(ts),
                self.i <= j <= self.toks@.len(),
                k <= n,
                peek_from(ts, self.i as int, self.depth as int, n as nat) == peek_from(
                    ts,
                    j as int,
                    self.depth as int,
                    (n - k) as nat,
                ),
            decreases self.toks@.len() - j, n - k,
        {
            assert(ts[j as int] == self.toks@[j as int].tok@);
            if self.depth > 0 && crate::parser::is_newline(&self.toks[j]) {
                j += 1;
            } else if k == n {
                return &self.toks[j].tok;
            } else {
                k += 1;
                j += 1;
            }
        }
        let last = self.toks.len() - 1;
        assert(ts[last as int] == self.toks@[last as int].tok@);
        &self.toks[last].tok
    }

    /// A name, past the newlines that do not count.
    pub(crate) fn name(&mut self) -> (r: Result<String, Diag>)
        requires
            old(self).placed(),
        ensures
            final(self).moved_from(*old(self)),
            r is Ok ==> final(self).i > old(self).i,
            match name_from(old(self).toks@, old(self).i as int, old(self).depth as int) {
                Ok((n, j)) => r matches Ok(x) && x@ == n && final(self).i == j,
                Err(f) => r matches Err(d) && reports_failure(d, old(self).toks@, f),
            },
    {
        let ghost ts = kinds(self.toks@);
        self.sync();
        let ghost k = self.i as int;
        assert(ts[k] == self.toks@[k].tok@);
        let n = match &self.cur().tok {
            Tok::Name(n) => Some(n.clone()),
            _ => None,
        };
        match n {
            Some(n) => {
                assert(self.i < self.toks.len() - 1);
                self.i += 1;
                Ok(n)
            },
            None => {
                let mut msg = owned("expected a name, found ");
                let d = self.describe();
                push_str(&mut msg, d.as_str());
                Err(self.err("parse.name", msg.as_str()))
            },
        }
    }

    /// The symbol `s`, past the newlines that do not count.
    pub(crate) fn expect_sym(&mut self, s: &str) -> (r: Result<(), Diag>)
        requires
            old(self).placed(),
        ensures
            final(self).moved_from(*old(self)),
            r is Ok ==> final(self).i > old(self).i,
            match expect_from(old(self).toks@, old(self).i as int, old(self).depth as int, s@) {
                Ok(j) => r is Ok && final(self).i == j,
                Err(f) => r matches Err(d) && reports_failure(d, old(self).toks@, f),
            },
    {
        let ghost ts = kinds(self.toks@);
        proof {
            lemma_skip(ts, self.i as int, self.depth as int);
        }
        if self.eat_sym(s) {
            Ok(())
        } else {
            let msg = self.expected(s);
            Err(self.err("parse.expected", msg.as_str()))
        }
    }

    /// Takes the keyword `w` if it is next, past the newlines that do not
    /// count.
    pub(crate) fn eat_kw(&mut self, w: &str) -> (r: bool)
        requires
            old(self).placed(),
        ensures
            final(self).moved_from(*old(self)),
            (r, final(self).i as int) == kw_from(old(self).toks@, old(self).i as int, old(self).depth as int, w@),
    {
        let ghost ts = kinds(self.toks@);
        self.sync();
        assert(ts[self.i as int] == self.toks@[self.i as int].tok@);
        if self.cur().is_kw(w) {
            assert(self.i < self.toks.len() - 1);
            self.i += 1;
            true
        } else {
            false
        }
    }

    /// Whether an argument follows on the same line, or anywhere inside
    /// brackets.
    fn starts_atom(&mut self) -> (r: bool)
        requires
            old(self).placed(),
        ensures
            final(self).moved_from(*old(self)),
            ({
                let ts = kinds(old(self).toks@);
                let i = old(self).i as int;
                let d = old(self).depth as int;
                if d == 0 && cur_at(ts, i) is Newline {
                    !r && final(self).i == i
                } else {
                    final(self).i == skip(ts, i, d) && r == starts_e(cur_at(ts, final(self).i as int))
                }
            }),
    {
        if self.depth == 0 && crate::parser::is_newline(self.cur()) {
            return false;
        }
        self.sync();
        match &self.cur().tok {
            Tok::Int(_) | Tok::Float(_) | Tok::Str(_) | Tok::Char(_) | Tok::Name(_) | Tok::Ctor(_) => true,
            Tok::Kw(k) => str_eq(k, "True") || str_eq(k, "False") || str_eq(k, "arena"),
            Tok::Sym(x) => str_eq(x, "(") || str_eq(x, "[") || str_eq(x, "{") || str_eq(x, "&") || str_eq(x, "?")
                || str_eq(x, "\\"),
            _ => false,
        }
    }
}


/// What a reading method promises: the tokens stay, and the result and the
/// position it stops at are what the grammar `g` gives.
pub open spec fn read_as(r: Result<Expr, Diag>, after: Parser, before: Parser, g: Result<(ExprV, int), Failure>) -> bool {
    &&& after.toks == before.toks
    &&& after.home == before.home
    &&& (r is Ok ==> after.placed() && after.i > before.i && after.depth == before.depth)
    &&& match g {
        Ok((e, j)) => r matches Ok(x) && x@ == e && after.i == j,
        Err(f) => r matches Err(d) && reports_failure(d, before.toks@, f),
    }
}

/// The base of a record literal, as a value.
pub open spec fn base_view(b: Option<Box<Expr>>) -> Option<Box<ExprV>> {
    match b {
        Some(x) => Some(Box::new(crate::ast::expr_view(*x))),
        None => None,
    }
}

pub proof fn lemma_synced_stops(ts: Seq<TokV>, i: int)
    ensures
        0 <= synced(ts, i) < ts.len() ==> !(ts[synced(ts, i)] is Newline),
    decreases ts.len() - i,
{
    if 0 <= i < ts.len() && ts[i] is Newline {
        lemma_synced_stops(ts, i + 1);
    }
}

/// `x |> f a` is `f a x`.
fn pipe_into(lhs: Expr, rhs: Expr, span: Span) -> (r: Expr)
    ensures
        r@ == piped(lhs@, rhs@, span),
{
    let ghost rv = rhs@;
    let Expr { kind, span: rspan } = rhs;
    match kind {
        ExprKind::App(f, args) => {
            let ghost fv = crate::ast::expr_view(*f);
            let ghost before = args@;
            assert(rv.kind == KindV::App(Box::new(fv), exprs_view(before)));
            let mut args = args;
            args.push(lhs);
            proof {
                assert(args@.drop_last() == before);
                assert(exprs_view(args@) == exprs_view(before).push(lhs@));
            }
            let r = Expr::app(f, args, span);
            assert(r@.kind == KindV::App(Box::new(fv), exprs_view(args@)));
            r
        },
        other => {
            let inner = Expr::new(other, rspan);
            let mut args: Vec<Expr> = Vec::new();
            args.push(lhs);
            proof {
                assert(args@.drop_last() =~= Seq::<Expr>::empty());
                assert(exprs_view(Seq::<Expr>::empty()) =~= Seq::<ExprV>::empty());
                assert(exprs_view(args@) =~= seq![lhs@]);
                assert(inner@ == rv);
            }
            Expr::app(Box::new(inner), args, span)
        },
    }
}

impl Parser {
    /// A body: `name <- value ; rest`, `let name = value in rest`, or an
    /// expression, possibly followed by `; rest`.
    #[verifier::spinoff_prover]
    pub fn body(&mut self) -> (r: Result<Expr, Diag>)
        requires
            old(self).placed(),
        ensures
            read_as(r, *final(self), *old(self), body_from(old(self).toks@, old(self).i as int, old(self).depth as int)),
        decreases old(self).toks@.len() - old(self).i, 10int,
    {
        let ghost toks = self.toks@;
        let ghost ts = kinds(toks);
        let ghost d = self.depth as int;
        self.skip_newlines();
        let span = self.cur().span;
        let first_name = match self.peek_at(0) {
            Tok::Name(_) => true,
            _ => false,
        };
        let then_bind = match self.peek_at(1) {
            Tok::Sym(x) => str_eq(x, "<-"),
            _ => false,
        };
        if first_name && then_bind {
            let n = match self.name() {
                Ok(n) => n,
                Err(x) => {
                    return Err(x);
                },
            };
            match self.expect_sym("<-") {
                Ok(()) => {},
                Err(x) => {
                    return Err(x);
                },
            }
            let val = match self.expr() {
                Ok(v) => v,
                Err(x) => {
                    return Err(x);
                },
            };
            if !self.eat_sym(";") {
                let x = self.err("parse.bind", "expected `;` after a `<-` binding").with_fix(
                    "write `name <- value ;` and continue on the next line",
                );
                return Err(x);
            }
            let rest = match self.body() {
                Ok(b) => b,
                Err(x) => {
                    return Err(x);
                },
            };
            return Ok(Expr::bind(n, val, rest, span));
        }
        if self.cur().is_kw("let") {
            return self.let_rest(span);
        }
        let e = match self.expr() {
            Ok(e) => e,
            Err(x) => {
                return Err(x);
            },
        };
        if self.eat_sym(";") {
            let rest = match self.body() {
                Ok(b) => b,
                Err(x) => {
                    return Err(x);
                },
            };
            return Ok(Expr::bind(owned(SEQ), e, rest, span));
        }
        Ok(e)
    }

    /// `let name = value in body`, from the `let`.
    #[verifier::spinoff_prover]
    fn let_rest(&mut self, span: Span) -> (r: Result<Expr, Diag>)
        requires
            old(self).placed(),
            cur_at(kinds(old(self).toks@), old(self).i as int) == TokV::Kw("let"@),
        ensures
            read_as(r, *final(self), *old(self), let_from(old(self).toks@, old(self).i as int, old(self).depth as int, span)),
        decreases old(self).toks@.len() - old(self).i, 2int,
    {
        let ghost ts = kinds(self.toks@);
        assert(ts[self.i as int] == self.toks@[self.i as int].tok@);
        assert(self.i < self.toks.len() - 1);
        self.i += 1;
        let n = match self.name() {
            Ok(n) => n,
            Err(x) => {
                return Err(x);
            },
        };
        match self.expect_sym("=") {
            Ok(()) => {},
            Err(x) => {
                return Err(x);
            },
        }
        let val = match self.expr() {
            Ok(v) => v,
            Err(x) => {
                return Err(x);
            },
        };
        if !self.eat_kw("in") {
            return Err(self.err("parse.let", "expected `in` after a `let` binding"));
        }
        let rest = match self.body() {
            Ok(b) => b,
            Err(x) => {
                return Err(x);
            },
        };
        Ok(Expr::let_in(n, val, rest, span))
    }

    /// An expression: operators, then any `|>` stages.
    #[verifier::spinoff_prover]
    pub fn expr(&mut self) -> (r: Result<Expr, Diag>)
        requires
            old(self).placed(),
        ensures
            read_as(r, *final(self), *old(self), expr_from(old(self).toks@, old(self).i as int, old(self).depth as int)),
        decreases old(self).toks@.len() - old(self).i, 9int,
    {
        let ghost toks = self.toks@;
        let ghost ts = kinds(toks);
        let ghost d = self.depth as int;
        let ghost i0 = self.i as int;
        let mut lhs = match self.binop(1) {
            Ok(e) => e,
            Err(x) => {
                return Err(x);
            },
        };
        loop
            invariant
                self.placed(),
                self.toks@ == toks,
                ts == kinds(toks),
                self.toks == old(self).toks,
                self.depth == old(self).depth,
                self.home == old(self).home,
                d == self.depth as int,
                i0 == old(self).i as int,
                self.i > i0,
                expr_from(toks, i0, d) == pipe_rest(toks, self.i as int, d, lhs@),
            decreases self.toks@.len() - self.i,
        {
            assert(ts[self.i as int] == toks[self.i as int].tok@);
            if !self.cur().is_sym("|>") {
                return Ok(lhs);
            }
            let span = self.cur().span;
            assert(self.i < self.toks.len() - 1);
            self.i += 1;
            let rhs = match self.binop(1) {
                Ok(e) => e,
                Err(x) => {
                    return Err(x);
                },
            };
            lhs = pipe_into(lhs, rhs, span);
        }
    }

    /// Operators of precedence at least `min`, left to right.
    #[verifier::spinoff_prover]
    fn binop(&mut self, min: u8) -> (r: Result<Expr, Diag>)
        requires
            old(self).placed(),
        ensures
            read_as(
                r,
                *final(self),
                *old(self),
                binop_from(old(self).toks@, old(self).i as int, old(self).depth as int, min as int),
            ),
        decreases old(self).toks@.len() - old(self).i, 8int,
    {
        let ghost toks = self.toks@;
        let ghost ts = kinds(toks);
        let ghost d = self.depth as int;
        let ghost i0 = self.i as int;
        let mut lhs = match self.unary() {
            Ok(e) => e,
            Err(x) => {
                return Err(x);
            },
        };
        loop
            invariant
                self.placed(),
                self.toks@ == toks,
                ts == kinds(toks),
                self.toks == old(self).toks,
                self.depth == old(self).depth,
                self.home == old(self).home,
                d == self.depth as int,
                i0 == old(self).i as int,
                self.i > i0,
                binop_from(toks, i0, d, min as int) == binop_rest(toks, self.i as int, d, min as int, lhs@),
            decreases self.toks@.len() - self.i,
        {
            self.sync();
            assert(ts[self.i as int] == toks[self.i as int].tok@);
            let (p, op): (u8, &'static str) = match &self.cur().tok {
                Tok::Sym(x) => (prec(x), *x),
                _ => (0, ""),
            };
            if p == 0 || p < min {
                return Ok(lhs);
            }
            let span = self.cur().span;
            assert(self.i < self.toks.len() - 1);
            self.i += 1;
            let rhs = match self.binop(p + 1) {
                Ok(e) => e,
                Err(x) => {
                    return Err(x);
                },
            };
            lhs = Expr::binop(owned(op), lhs, rhs, span);
        }
    }

    /// `-` or `!` before an application.
    #[verifier::spinoff_prover]
    fn unary(&mut self) -> (r: Result<Expr, Diag>)
        requires
            old(self).placed(),
        ensures
            read_as(r, *final(self), *old(self), unary_from(old(self).toks@, old(self).i as int, old(self).depth as int)),
        decreases old(self).toks@.len() - old(self).i, 7int,
    {
        let ghost toks = self.toks@;
        let ghost ts = kinds(toks);
        self.sync();
        assert(ts[self.i as int] == toks[self.i as int].tok@);
        let span = self.cur().span;
        if self.cur().is_sym("-") {
            assert(self.i < self.toks.len() - 1);
            self.i += 1;
            let x = match self.unary() {
                Ok(e) => e,
                Err(x) => {
                    return Err(x);
                },
            };
            return Ok(Expr::neg(x, span));
        }
        if self.cur().is_sym("!") {
            assert(self.i < self.toks.len() - 1);
            self.i += 1;
            let x = match self.unary() {
                Ok(e) => e,
                Err(x) => {
                    return Err(x);
                },
            };
            return Ok(Expr::not(x, span));
        }
        self.app()
    }

    /// A head and the arguments that follow it.
    #[verifier::spinoff_prover]
    fn app(&mut self) -> (r: Result<Expr, Diag>)
        requires
            old(self).placed(),
        ensures
            read_as(r, *final(self), *old(self), app_from_e(old(self).toks@, old(self).i as int, old(self).depth as int)),
        decreases old(self).toks@.len() - old(self).i, 6int,
    {
        let ghost toks = self.toks@;
        let ghost ts = kinds(toks);
        let ghost d = self.depth as int;
        let ghost i0 = self.i as int;
        let head = match self.postfix() {
            Ok(e) => e,
            Err(x) => {
                return Err(x);
            },
        };
        let mut args: Vec<Expr> = Vec::new();
        assert(exprs_view(args@) =~= Seq::<ExprV>::empty());
        loop
            invariant_except_break
                app_from_e(toks, i0, d) == applied(head@, app_args(toks, self.i as int, d, exprs_view(args@))),
            invariant
                self.placed(),
                self.toks@ == toks,
                ts == kinds(toks),
                self.toks == old(self).toks,
                self.depth == old(self).depth,
                self.home == old(self).home,
                d == self.depth as int,
                i0 == old(self).i as int,
                self.i > i0,
            ensures
                app_from_e(toks, i0, d) == applied(head@, Ok((exprs_view(args@), self.i as int))),
            decreases self.toks@.len() - self.i,
        {
            if !self.starts_atom() {
                break;
            }
            let ghost before = args@;
            let a = match self.postfix() {
                Ok(e) => e,
                Err(x) => {
                    return Err(x);
                },
            };
            args.push(a);
            proof {
                assert(args@.drop_last() == before);
            }
        }
        proof {
            lemma_exprs_view(args@);
        }
        if args.len() == 0 {
            Ok(head)
        } else {
            let span = head.span;
            Ok(Expr::app(Box::new(head), args, span))
        }
    }

    /// `&` before a postfix, or an atom and the fields read from it.
    #[verifier::spinoff_prover]
    fn postfix(&mut self) -> (r: Result<Expr, Diag>)
        requires
            old(self).placed(),
        ensures
            read_as(r, *final(self), *old(self), postfix_from(old(self).toks@, old(self).i as int, old(self).depth as int)),
        decreases old(self).toks@.len() - old(self).i, 4int,
    {
        let ghost toks = self.toks@;
        let ghost ts = kinds(toks);
        let ghost d = self.depth as int;
        let ghost i0 = self.i as int;
        self.sync();
        assert(ts[self.i as int] == toks[self.i as int].tok@);
        if self.cur().is_sym("&") {
            let span = self.cur().span;
            assert(self.i < self.toks.len() - 1);
            self.i += 1;
            let x = match self.postfix() {
                Ok(e) => e,
                Err(x) => {
                    return Err(x);
                },
            };
            return Ok(Expr::borrow(x, span));
        }
        let mut e = match self.atom() {
            Ok(e) => e,
            Err(x) => {
                return Err(x);
            },
        };
        loop
            invariant
                self.placed(),
                self.toks@ == toks,
                ts == kinds(toks),
                self.toks == old(self).toks,
                self.depth == old(self).depth,
                self.home == old(self).home,
                d == self.depth as int,
                i0 == old(self).i as int,
                self.i > i0,
                postfix_from(toks, i0, d) == fields_rest(toks, self.i as int, d, e@),
            decreases self.toks@.len() - self.i,
        {
            assert(ts[self.i as int] == toks[self.i as int].tok@);
            if !self.cur().is_sym(".") {
                return Ok(e);
            }
            let span = self.cur().span;
            assert(self.i < self.toks.len() - 1);
            self.i += 1;
            let f = match self.name() {
                Ok(f) => f,
                Err(x) => {
                    return Err(x);
                },
            };
            e = Expr::field(e, f, span);
        }
    }

    /// An atom: a literal, a name, a constructor, or a bracketed or keyword
    /// form.
    #[verifier::spinoff_prover]
    fn atom(&mut self) -> (r: Result<Expr, Diag>)
        requires
            old(self).placed(),
        ensures
            read_as(r, *final(self), *old(self), atom_e(old(self).toks@, old(self).i as int, old(self).depth as int)),
        decreases old(self).toks@.len() - old(self).i, 3int,
    {
        let ghost toks = self.toks@;
        let ghost ts = kinds(toks);
        self.sync();
        assert(ts[self.i as int] == toks[self.i as int].tok@);
        let span = self.cur().span;
        let simple: Option<ExprKind> = match &self.cur().tok {
            Tok::Int(n) => Some(ExprKind::Int(*n)),
            Tok::Float(x) => Some(ExprKind::Float(x.clone())),
            Tok::Str(x) => Some(ExprKind::Str(x.clone())),
            Tok::Char(c) => Some(ExprKind::Char(*c)),
            Tok::Name(n) => Some(ExprKind::Var(n.clone())),
            Tok::Kw(w) => if str_eq(w, "True") {
                Some(ExprKind::Bool(true))
            } else if str_eq(w, "False") {
                Some(ExprKind::Bool(false))
            } else {
                None
            },
            _ => None,
        };
        match simple {
            Some(kind) => {
                assert(self.i < self.toks.len() - 1);
                self.i += 1;
                return Ok(Expr::new(kind, span));
            },
            None => {},
        }
        let is_ctor = match &self.cur().tok {
            Tok::Ctor(_) => true,
            _ => false,
        };
        if is_ctor {
            let n = self.ctor_name();
            return Ok(Expr::ctor(n, span));
        }
        if self.cur().is_kw("let") {
            return self.let_rest(span);
        }
        if self.cur().is_kw("arena") {
            return self.arena_rest(span);
        }
        if self.cur().is_sym("\\") {
            return self.lambda_rest(span);
        }
        if self.cur().is_sym("?") {
            assert(self.i < self.toks.len() - 1);
            self.i += 1;
            return self.match_expr(span);
        }
        if self.cur().is_sym("(") {
            return self.paren_rest(span);
        }
        if self.cur().is_sym("[") {
            return self.list_rest(span);
        }
        if self.cur().is_sym("{") {
            return self.record_rest(span);
        }
        let mut msg = owned("expected an expression, found ");
        let found = self.describe();
        push_str(&mut msg, found.as_str());
        Err(self.err("parse.expr", msg.as_str()))
    }

    /// `arena name in body`, from the `arena`.
    #[verifier::spinoff_prover]
    fn arena_rest(&mut self, span: Span) -> (r: Result<Expr, Diag>)
        requires
            old(self).placed(),
            cur_at(kinds(old(self).toks@), old(self).i as int) == TokV::Kw("arena"@),
        ensures
            read_as(r, *final(self), *old(self), arena_from(old(self).toks@, old(self).i as int, old(self).depth as int, span)),
        decreases old(self).toks@.len() - old(self).i, 2int,
    {
        let ghost ts = kinds(self.toks@);
        assert(ts[self.i as int] == self.toks@[self.i as int].tok@);
        assert(self.i < self.toks.len() - 1);
        self.i += 1;
        let n = match self.name() {
            Ok(n) => n,
            Err(x) => {
                return Err(x);
            },
        };
        self.arena_in(n, span)
    }

    /// The rest of an arena block after its name: `in body`.
    #[verifier::spinoff_prover]
    fn arena_in(&mut self, n: String, span: Span) -> (r: Result<Expr, Diag>)
        requires
            old(self).placed(),
        ensures
            read_as(r, *final(self), *old(self), arena_in(old(self).toks@, old(self).i as int, old(self).depth as int, n@, span)),
        decreases old(self).toks@.len() - old(self).i, 1int,
    {
        let ghost toks = self.toks@;
        let ghost i0 = self.i as int;
        let ghost d = self.depth as int;
        proof {
            lemma_skip(kinds(toks), i0, d);
        }
        let ok = self.eat_kw("in");
        let ghost j2 = self.i as int;
        assert(kw_from(toks, i0, d, "in"@) == (ok, j2));
        if !ok {
            assert(arena_in(toks, i0, d, n@, span) == Err::<(ExprV, int), Failure>(failure(j2, "parse.arena"@, "expected `in` after the arena name"@)));
            return Err(self.err("parse.arena", "expected `in` after the arena name"));
        }
        assert(i0 < j2);
        let b = match self.body() {
            Ok(b) => b,
            Err(x) => {
                return Err(x);
            },
        };
        Ok(Expr::arena(n, b, span))
    }

    /// `\ names -> expr`, from the `\`.
    #[verifier::spinoff_prover]
    fn lambda_rest(&mut self, span: Span) -> (r: Result<Expr, Diag>)
        requires
            old(self).placed(),
            cur_at(kinds(old(self).toks@), old(self).i as int) == TokV::Sym("\\"@),
        ensures
            read_as(r, *final(self), *old(self), lambda_from(old(self).toks@, old(self).i as int, old(self).depth as int, span)),
        decreases old(self).toks@.len() - old(self).i, 2int,
    {
        let ghost toks = self.toks@;
        let ghost ts = kinds(toks);
        let ghost d = self.depth as int;
        assert(ts[self.i as int] == toks[self.i as int].tok@);
        assert(self.i < self.toks.len() - 1);
        self.i += 1;
        let ghost j0 = self.i as int;
        let mut ps: Vec<String> = Vec::new();
        assert(ps@.map_values(|s: String| s@) =~= Seq::<Seq<char>>::empty());
        loop
            invariant_except_break
                lambda_names(toks, j0, d, Seq::empty()) == lambda_names(
                    toks,
                    self.i as int,
                    d,
                    ps@.map_values(|s: String| s@),
                ),
            invariant
                self.placed(),
                self.toks@ == toks,
                ts == kinds(toks),
                self.toks == old(self).toks,
                self.depth == old(self).depth,
                self.home == old(self).home,
                d == self.depth as int,
                j0 == old(self).i + 1,
                self.i >= j0,
            ensures
                lambda_names(toks, j0, d, Seq::empty()) == (ps@.map_values(|s: String| s@), self.i as int),
            decreases self.toks@.len() - self.i,
        {
            let ghost i1 = self.i as int;
            proof {
                lemma_skip(ts, i1, d);
            }
            self.sync();
            assert(ts[self.i as int] == toks[self.i as int].tok@);
            let is_name = match &self.cur().tok {
                Tok::Name(_) => true,
                _ => false,
            };
            if !is_name {
                break;
            }
            let n = match self.name() {
                Ok(n) => n,
                Err(x) => {
                    return Err(x);
                },
            };
            let ghost before = ps@;
            ps.push(n);
            assert(ps@.map_values(|s: String| s@) =~= before.map_values(|s: String| s@).push(n@));
        }
        match self.expect_sym("->") {
            Ok(()) => {},
            Err(x) => {
                return Err(x);
            },
        }
        let b = match self.expr() {
            Ok(b) => b,
            Err(x) => {
                return Err(x);
            },
        };
        Ok(Expr::lambda(ps, b, span))
    }

    /// `()`, a parenthesised expression or a tuple, from the `(`.
    #[verifier::spinoff_prover]
    fn paren_rest(&mut self, span: Span) -> (r: Result<Expr, Diag>)
        requires
            old(self).placed(),
            cur_at(kinds(old(self).toks@), old(self).i as int) == TokV::Sym("("@),
            span == span_at(old(self).toks@, old(self).i as int),
        ensures
            read_as(r, *final(self), *old(self), paren_from(old(self).toks@, old(self).i as int, old(self).depth as int, span)),
        decreases old(self).toks@.len() - old(self).i, 2int,
    {
        let ghost toks = self.toks@;
        let ghost ts = kinds(toks);
        let ghost d = self.depth as int;
        let ghost k = self.i as int;
        assert(ts[self.i as int] == toks[self.i as int].tok@);
        assert(self.i < self.toks.len() - 1);
        self.i += 1;
        self.depth += 1;
        assert(ts[self.i as int] == toks[self.i as int].tok@);
        if self.cur().is_sym(")") {
            assert(self.i < self.toks.len() - 1);
            self.depth -= 1;
            self.i += 1;
            return Ok(Expr::unit(span));
        }
        let mut parts = match self.list_items(Vec::new()) {
            Ok(v) => v,
            Err(x) => {
                return Err(x);
            },
        };
        self.depth -= 1;
        if !self.eat_sym(")") {
            let msg = self.expected(")");
            return Err(self.err("parse.expected", msg.as_str()));
        }
        proof {
            lemma_exprs_view(parts@);
        }
        if parts.len() == 1 {
            let p = parts.pop().unwrap();
            if is_bare(&p.kind) {
                return Err(Diag::error(span, "canon.parens", "redundant parentheses").with_fix("remove the parentheses"));
            }
            return Ok(p);
        }
        Ok(Expr::tuple(parts, span))
    }

    /// The items of a bracketed list and the `]`, the `[` having been read.
    #[verifier::spinoff_prover]
    fn list_items(&mut self, acc: Vec<Expr>) -> (r: Result<Vec<Expr>, Diag>)
        requires
            old(self).placed(),
            old(self).depth >= 1,
        ensures
            final(self).toks == old(self).toks,
            final(self).home == old(self).home,
            r is Ok ==> final(self).placed() && final(self).i > old(self).i && final(self).depth == old(self).depth,
            match parts_e(old(self).toks@, old(self).i as int, old(self).depth as int, exprs_view(acc@)) {
                Ok((xs, j)) => r matches Ok(v) && exprs_view(v@) == xs && final(self).i == j,
                Err(f) => r matches Err(d) && reports_failure(d, old(self).toks@, f),
            },
        decreases old(self).toks@.len() - old(self).i, 12int,
    {
        let ghost toks = self.toks@;
        let ghost ts = kinds(toks);
        let ghost d = self.depth as int;
        let ghost i0 = self.i as int;
        let mut items = acc;
        loop
            invariant_except_break
                parts_e(toks, i0, d, exprs_view(acc@)) == parts_e(toks, self.i as int, d, exprs_view(items@)),
            invariant
                self.placed(),
                self.toks@ == toks,
                ts == kinds(toks),
                self.toks == old(self).toks,
                self.depth == old(self).depth,
                self.home == old(self).home,
                d == self.depth as int,
                i0 == old(self).i as int,
                self.i >= i0,
            ensures
                self.i > i0,
                parts_e(toks, i0, d, exprs_view(acc@)) == Ok::<(Seq<ExprV>, int), Failure>((exprs_view(items@), self.i as int)),
            decreases self.toks@.len() - self.i,
        {
            let p = match self.expr() {
                Ok(e) => e,
                Err(x) => {
                    return Err(x);
                },
            };
            let ghost before = items@;
            items.push(p);
            proof {
                assert(items@.drop_last() == before);
            }
            if !self.eat_sym(",") {
                break;
            }
        }
        Ok(items)
    }

    /// A list literal, from the `[`.
    #[verifier::spinoff_prover]
    fn list_rest(&mut self, span: Span) -> (r: Result<Expr, Diag>)
        requires
            old(self).placed(),
            cur_at(kinds(old(self).toks@), old(self).i as int) == TokV::Sym("["@),
        ensures
            read_as(r, *final(self), *old(self), list_from(old(self).toks@, old(self).i as int, old(self).depth as int, span)),
        decreases old(self).toks@.len() - old(self).i, 2int,
    {
        let ghost toks = self.toks@;
        let ghost ts = kinds(toks);
        assert(ts[self.i as int] == toks[self.i as int].tok@);
        assert(self.i < self.toks.len() - 1);
        self.i += 1;
        self.depth += 1;
        assert(ts[self.i as int] == toks[self.i as int].tok@);
        let items = if self.cur().is_sym("]") {
            let v: Vec<Expr> = Vec::new();
            assert(exprs_view(v@) =~= Seq::<ExprV>::empty());
            v
        } else {
            match self.list_items(Vec::new()) {
                Ok(v) => v,
                Err(x) => {
                    return Err(x);
                },
            }
        };
        self.depth -= 1;
        if !self.eat_sym("]") {
            let msg = self.expected("]");
            return Err(self.err("parse.expected", msg.as_str()));
        }
        Ok(Expr::list(items, span))
    }

    /// A record literal, from the `{`.
    #[verifier::spinoff_prover]
    fn record_rest(&mut self, span: Span) -> (r: Result<Expr, Diag>)
        requires
            old(self).placed(),
            cur_at(kinds(old(self).toks@), old(self).i as int) == TokV::Sym("{"@),
        ensures
            read_as(r, *final(self), *old(self), record_from(old(self).toks@, old(self).i as int, old(self).depth as int, span)),
        decreases old(self).toks@.len() - old(self).i, 2int,
    {
        let ghost toks = self.toks@;
        let ghost ts = kinds(toks);
        let ghost d = self.depth as int;
        let ghost k = self.i as int;
        assert(ts[self.i as int] == toks[self.i as int].tok@);
        assert(self.i < self.toks.len() - 1);
        self.i += 1;
        self.depth += 1;
        let ghost k1 = self.i as int;
        self.sync();
        let ghost i1 = self.i as int;
        proof {
            lemma_peek_synced(ts, k1, d + 1, 0);
            lemma_peek_synced(ts, k1, d + 1, 1);
            lemma_synced_stops(ts, k1);
            lemma_skip(ts, k1, d + 1);
        }
        assert(ts[i1] == toks[i1].tok@);
        let first_name = match self.peek_at(0) {
            Tok::Name(_) => true,
            _ => false,
        };
        let then_with = match self.peek_at(1) {
            Tok::Kw(w) => str_eq(w, "with"),
            _ => false,
        };
        let base: Option<Box<Expr>> = if first_name && then_with {
            let sp = self.cur().span;
            let n = match self.name() {
                Ok(n) => n,
                Err(x) => {
                    return Err(x);
                },
            };
            let _ = self.eat_kw("with");
            Some(Box::new(Expr::var(n, sp)))
        } else {
            None
        };
        let ghost p = self.i as int;
        assert(ts[p] == toks[p].tok@);
        let mut fields: Vec<(String, Expr)> = Vec::new();
        assert(fields_view(fields@) =~= Seq::<(Seq<char>, ExprV)>::empty());
        if !self.cur().is_sym("}") {
            loop
                invariant_except_break
                    record_from(toks, k, d, span) == closed_record(
                        toks,
                        d,
                        span,
                        base_view(base),
                        record_fields(toks, self.i as int, d + 1, fields_view(fields@)),
                    ),
                invariant
                    self.placed(),
                    self.toks@ == toks,
                    ts == kinds(toks),
                    self.toks == old(self).toks,
                    self.depth == old(self).depth + 1,
                    self.home == old(self).home,
                    d == old(self).depth as int,
                    k == old(self).i as int,
                    self.i > k,
                ensures
                    record_from(toks, k, d, span) == closed_record(
                        toks,
                        d,
                        span,
                        base_view(base),
                        Ok((fields_view(fields@), self.i as int)),
                    ),
                decreases self.toks@.len() - self.i,
            {
                let f = match self.name() {
                    Ok(f) => f,
                    Err(x) => {
                        return Err(x);
                    },
                };
                match self.expect_sym("=") {
                    Ok(()) => {},
                    Err(x) => {
                        return Err(x);
                    },
                }
                let v = match self.expr() {
                    Ok(v) => v,
                    Err(x) => {
                        return Err(x);
                    },
                };
                let ghost before = fields@;
                fields.push((f, v));
                proof {
                    assert(fields@.drop_last() == before);
                }
                if !self.eat_sym(",") {
                    break;
                }
            }
        }
        self.depth -= 1;
        if !self.eat_sym("}") {
            let msg = self.expected("}");
            return Err(self.err("parse.expected", msg.as_str()));
        }
        Ok(Expr::record(base, fields, span))
    }

    /// A match from its scrutinee, the `?` having been read at `span`.
    #[verifier::spinoff_prover]
    fn match_expr(&mut self, span: Span) -> (r: Result<Expr, Diag>)
        requires
            old(self).placed(),
        ensures
            read_as(r, *final(self), *old(self), match_from(old(self).toks@, old(self).i as int, old(self).depth as int, span)),
        decreases old(self).toks@.len() - old(self).i, 11int,
    {
        let ghost toks = self.toks@;
        let ghost ts = kinds(toks);
        let ghost d = self.depth as int;
        let ghost i0 = self.i as int;
        let scrut = match self.expr() {
            Ok(e) => e,
            Err(x) => {
                return Err(x);
            },
        };
        assert(ts[self.i as int] == toks[self.i as int].tok@);
        if !self.cur().is_sym("|") {
            return Err(
                self.err("parse.match", "a `?` match needs at least one `|` arm").with_fix("add `|_ -> ...`"),
            );
        }
        let mut arms: Vec<(Pat, Expr)> = Vec::new();
        assert(arms_view(arms@) =~= Seq::<(PatV, ExprV)>::empty());
        loop
            invariant_except_break
                match_from(toks, i0, d, span) == matched(toks, d, span, scrut@, arms_from(toks, self.i as int, d, arms_view(arms@))),
            invariant
                self.placed(),
                self.toks@ == toks,
                ts == kinds(toks),
                self.toks == old(self).toks,
                self.depth == old(self).depth,
                self.home == old(self).home,
                d == self.depth as int,
                i0 == old(self).i as int,
                self.i > i0,
            ensures
                match_from(toks, i0, d, span) == matched(toks, d, span, scrut@, Ok((arms_view(arms@), self.i as int))),
            decreases self.toks@.len() - self.i,
        {
            let ghost i1 = self.i as int;
            proof {
                lemma_skip(ts, i1, d);
            }
            self.sync();
            assert(ts[self.i as int] == toks[self.i as int].tok@);
            if !self.cur().is_sym("|") {
                break;
            }
            let a = match self.arm() {
                Ok(a) => a,
                Err(x) => {
                    return Err(x);
                },
            };
            let ghost before = arms@;
            arms.push(a);
            proof {
                assert(arms@.drop_last() == before);
            }
        }
        if !self.eat_kw("end") {
            return Err(
                self.err("parse.match", "expected another `|` arm or `end` to close the match").with_fix(
                    "add `end` after the last arm",
                ),
            );
        }
        Ok(Expr::match_of(scrut, arms, span))
    }

    /// One arm of a match, from its `|`: `pattern -> body`.
    #[verifier::spinoff_prover]
    fn arm(&mut self) -> (r: Result<(Pat, Expr), Diag>)
        requires
            old(self).placed(),
            cur_at(kinds(old(self).toks@), old(self).i as int) == TokV::Sym("|"@),
        ensures
            final(self).toks == old(self).toks,
            final(self).home == old(self).home,
            r is Ok ==> final(self).placed() && final(self).i > old(self).i && final(self).depth == old(self).depth,
            match arm_from(old(self).toks@, old(self).i as int, old(self).depth as int) {
                Ok((a, j)) => r matches Ok(x) && x.0@ == a.0 && x.1@ == a.1 && final(self).i == j,
                Err(f) => r matches Err(d) && reports_failure(d, old(self).toks@, f),
            },
        decreases old(self).toks@.len() - old(self).i, 1int,
    {
        let ghost ts = kinds(self.toks@);
        assert(ts[self.i as int] == self.toks@[self.i as int].tok@);
        assert(self.i < self.toks.len() - 1);
        self.i += 1;
        let p = match self.pattern() {
            Ok(p) => p,
            Err(x) => {
                return Err(x);
            },
        };
        match self.expect_sym("->") {
            Ok(()) => {},
            Err(x) => {
                return Err(x);
            },
        }
        let b = match self.body() {
            Ok(b) => b,
            Err(x) => {
                return Err(x);
            },
        };
        Ok((p, b))
    }
}


/// An expression read from `i`, as `expr_from` gives it; kept opaque so that
/// readers of declarations need not look inside the expression grammar.
#[verifier::opaque]
pub open spec fn expr_at(toks: Seq<Token>, i: int, d: int) -> Result<(ExprV, int), Failure> {
    expr_from(toks, i, d)
}

/// A body read from `i`, as `body_from` gives it; kept opaque like
/// `expr_at`.
#[verifier::opaque]
pub open spec fn body_at(toks: Seq<Token>, i: int, d: int) -> Result<(ExprV, int), Failure> {
    body_from(toks, i, d)
}

impl Parser {
    /// An expression, as a part of a declaration.
    pub(crate) fn read_expr(&mut self) -> (r: Result<Expr, Diag>)
        requires
            old(self).placed(),
        ensures
            read_as(r, *final(self), *old(self), expr_at(old(self).toks@, old(self).i as int, old(self).depth as int)),
    {
        reveal(expr_at);
        self.expr()
    }

    /// A body, as a part of a declaration.
    pub(crate) fn read_body(&mut self) -> (r: Result<Expr, Diag>)
        requires
            old(self).placed(),
        ensures
            read_as(r, *final(self), *old(self), body_at(old(self).toks@, old(self).i as int, old(self).depth as int)),
    {
        reveal(body_at);
        self.body()
    }
}

} // verus!
