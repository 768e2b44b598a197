//! The declaration grammar: a module line, then type, function, `ext c`
//! and `exp c` declarations, each ending with its line; and `parse`, which
//! reads a module from its tokens.
//!
//! ```text
//! module  := "mod" Ctor eol decl*
//! decl    := typedecl | extblock | "exp" "c" name ( "," name )* eol | "ghost"? fundecl
//! typedecl:= "type" Ctor name* ( "=" ( record | variant ( "|" variant )* ) )? eol
//! record  := "{" ( ( name ":" ty | expr ) ( "," ... )* )? "}"
//! extblock:= "ext" "c" Str ( "link" Str | "pkg" Str )* eol ( typedecl | sig )* "end"
//! sig     := name ( "=" Str )? ":" ty ( "," expr )* eol
//! fundecl := name param* ( ":" ty )? "=" body ( "%" expr )? eol
//! param   := name | "(" name+ ":" ty ( "," expr )* ")"
//! ```
//!
//! Outside brackets a newline ends a declaration.

use vstd::prelude::*;
use crate::ast::{Ty, TyV, tys_view, lemma_tys_view, Expr, ExprV, exprs_view};
use crate::ast::{Param, ParamV, FunDecl, FunDeclV, RecordDef, RecordDefV, VariantDef, TypeBody, TypeBodyV};
use crate::ast::{TypeDecl, TypeDeclV, ExtSig, ExtSigV, ExtBlock, ExtBlockV, Decl, DeclV, Module, ModuleV};
use crate::ast::{texts_of, typed_fields, variants_view};
use crate::diag::{Diag, Span};
use crate::lexer::{Tok, TokV, Token};
use crate::parser::{Parser, cur_at, synced, skip, ctor_name_at, span_at, kinds, ty_from, args_from};
use crate::parser::{well_ended, lemma_skip};
use crate::expr::{Failure, failure, found, stuck, expected_at, reports_failure, name_from, expect_from, kw_from};
use crate::expr::{peek_from, lambda_names, body_at, expr_at};
use crate::text::{owned, push_str, str_eq};

verus! {

// ------------------------------------------------------------ the grammar

/// A type that does not parse, as the failure it is.
pub open spec fn type_failure(toks: Seq<Token>, pos: int, want: Option<Seq<char>>) -> Failure {
    match want {
        None => failure(pos, "parse.type"@, "expected a type, found "@ + found(toks, pos)),
        Some(s) => expected_at(toks, pos, s),
    }
}

/// The type from `i` at depth `d`, its failure as a `Failure`; kept opaque
/// so that readers of declarations need not look inside the type grammar.
#[verifier::opaque]
pub open spec fn type_at(toks: Seq<Token>, i: int, d: int) -> Result<(TyV, int), Failure> {
    match ty_from(kinds(toks), i, d) {
        Err((pos, want)) => Err(type_failure(toks, pos, want)),
        Ok(r) => Ok(r),
    }
}

/// The type arguments from `i` at depth `d`, their failure as a `Failure`;
/// kept opaque like `type_at`.
#[verifier::opaque]
pub open spec fn args_at(toks: Seq<Token>, i: int, d: int) -> Result<(Seq<TyV>, int), Failure> {
    match args_from(kinds(toks), i, d, Seq::empty()) {
        Err((pos, want)) => Err(type_failure(toks, pos, want)),
        Ok(r) => Ok(r),
    }
}

/// Whether the symbol `s` is next, and where reading stands afterwards.
pub open spec fn sym_from(toks: Seq<Token>, i: int, d: int, s: Seq<char>) -> (bool, int) {
    let k = skip(kinds(toks), i, d);
    if cur_at(kinds(toks), k) == TokV::Sym(s) {
        (true, k + 1)
    } else {
        (false, k)
    }
}

/// Whether the name `w` is next (a word that is a keyword only where it
/// stands), and where reading stands afterwards.
pub open spec fn word_from(toks: Seq<Token>, i: int, d: int, w: Seq<char>) -> (bool, int) {
    let k = skip(kinds(toks), i, d);
    if cur_at(kinds(toks), k) == TokV::Name(w) {
        (true, k + 1)
    } else {
        (false, k)
    }
}

/// A capitalised name, possibly qualified.
pub open spec fn ctor_from(toks: Seq<Token>, i: int, d: int) -> Result<(Seq<char>, int), Failure> {
    let k = skip(kinds(toks), i, d);
    if cur_at(kinds(toks), k) is Ctor {
        Ok(ctor_name_at(kinds(toks), k))
    } else {
        Err(failure(k, "parse.ctor"@, "expected a capitalised name, found "@ + found(toks, k)))
    }
}

/// A string literal taken as the next token; `msg` says what was wanted
/// where the next token is something else.
pub open spec fn str_from(toks: Seq<Token>, i: int, d: int, msg: Seq<char>) -> Result<(Seq<char>, int), Failure> {
    let k = skip(kinds(toks), i, d);
    let t = cur_at(kinds(toks), k);
    let j = if t is Eof {
        k
    } else {
        k + 1
    };
    if t is Str {
        Ok((t->Str_0, j))
    } else {
        Err(failure(j, "parse.ext"@, msg))
    }
}

/// The end of a declaration's line: a newline or the end of file, then past
/// every newline.
pub open spec fn eol_from(toks: Seq<Token>, i: int) -> Result<int, Failure> {
    let t = cur_at(kinds(toks), i);
    if t is Newline || t is Eof {
        Ok(synced(kinds(toks), i))
    } else {
        Err(failure(i, "parse.trailing"@, "unexpected "@ + found(toks, i) + " at end of declaration"@))
    }
}

/// Names separated by commas, from `i` on, after `acc`.
pub open spec fn names_from(toks: Seq<Token>, i: int, d: int, acc: Seq<Seq<char>>) -> Result<(Seq<Seq<char>>, int), Failure>
    decreases toks.len() - i,
{
    match name_from(toks, i, d) {
        Err(f) => Err(f),
        Ok((n, j)) => {
            let (c, k) = sym_from(toks, j, d, ","@);
            if !c {
                Ok((acc.push(n), k))
            } else if i < k <= toks.len() {
                names_from(toks, k, d, acc.push(n))
            } else {
                Err(stuck(k))
            }
        },
    }
}

/// Refinements, each after a comma, from `i` on, after `acc`.
pub open spec fn refines_from(toks: Seq<Token>, i: int, d: int, acc: Seq<ExprV>) -> Result<(Seq<ExprV>, int), Failure>
    decreases toks.len() - i,
{
    let (c, k) = sym_from(toks, i, d, ","@);
    if !c {
        Ok((acc, k))
    } else if i < k <= toks.len() {
        match expr_at(toks, k, d) {
            Err(f) => Err(f),
            Ok((e, j)) => if k < j <= toks.len() {
                refines_from(toks, j, d, acc.push(e))
            } else {
                Err(stuck(j))
            },
        }
    } else {
        Err(stuck(k))
    }
}

/// `exp c name, ...` from the `exp` at `k`.
pub open spec fn exp_from(toks: Seq<Token>, k: int) -> Result<(DeclV, int), Failure> {
    let span = span_at(toks, k);
    let (_, j0) = kw_from(toks, k, 0, "exp"@);
    let (c, j1) = word_from(toks, j0, 0, "c"@);
    if !c {
        Err(failure(j1, "parse.exp"@, "expected `exp c <name>, <name>`"@))
    } else {
        match names_from(toks, j1, 0, Seq::empty()) {
            Err(f) => Err(f),
            Ok((ns, j2)) => match eol_from(toks, j2) {
                Err(f) => Err(f),
                Ok(j3) => Ok((DeclV::Exp(ns, span), j3)),
            },
        }
    }
}

/// The items of a record type from `i` on, inside its braces: fields
/// `name : ty` and refinements, separated by commas.
pub open spec fn record_items(
    toks: Seq<Token>,
    i: int,
    d: int,
    fs: Seq<(Seq<char>, TyV)>,
    rs: Seq<ExprV>,
) -> Result<(Seq<(Seq<char>, TyV)>, Seq<ExprV>, int), Failure>
    decreases toks.len() - i,
{
    let ts = kinds(toks);
    if cur_at(ts, i) == TokV::Sym("}"@) {
        Ok((fs, rs, i))
    } else {
        let k = skip(ts, i, d);
        let item: Result<(Seq<(Seq<char>, TyV)>, Seq<ExprV>, int), Failure> = if peek_from(ts, k, d, 0) is Name
            && peek_from(ts, k, d, 1) == TokV::Sym(":"@) {
            match name_from(toks, k, d) {
                Err(f) => Err(f),
                Ok((n, j1)) => match expect_from(toks, j1, d, ":"@) {
                    Err(f) => Err(f),
                    Ok(j2) => match type_at(toks, j2, d) {
                        Err(f) => Err(f),
                        Ok((t, j3)) => Ok((fs.push((n, t)), rs, j3)),
                    },
                },
            }
        } else {
            match expr_at(toks, k, d) {
                Err(f) => Err(f),
                Ok((e, j3)) => Ok((fs, rs.push(e), j3)),
            }
        };
        match item {
            Err(f) => Err(f),
            Ok((fs2, rs2, j3)) => {
                let (c, j4) = sym_from(toks, j3, d, ","@);
                if !c {
                    Ok((fs2, rs2, j4))
                } else if i < j4 <= toks.len() {
                    record_items(toks, j4, d, fs2, rs2)
                } else {
                    Err(stuck(j4))
                }
            },
        }
    }
}

/// A record type from its `{` at `i`, outside brackets at depth `d`.
pub open spec fn record_def_from(toks: Seq<Token>, i: int, d: int) -> Result<(RecordDefV, int), Failure> {
    match expect_from(toks, i, d, "{"@) {
        Err(f) => Err(f),
        Ok(j0) => record_closed(toks, d, record_items(toks, j0, d + 1, Seq::empty(), Seq::empty())),
    }
}

/// The items of a record type, closed by `}`.
pub open spec fn record_closed(
    toks: Seq<Token>,
    d: int,
    items: Result<(Seq<(Seq<char>, TyV)>, Seq<ExprV>, int), Failure>,
) -> Result<(RecordDefV, int), Failure> {
    match items {
        Err(f) => Err(f),
        Ok((fs, rs, j1)) => match expect_from(toks, j1, d, "}"@) {
            Err(f) => Err(f),
            Ok(j2) => Ok((RecordDefV { fields: fs, refines: rs }, j2)),
        },
    }
}

/// The constructors of a variant type from `i` on, after `acc`.
pub open spec fn variants_from(toks: Seq<Token>, i: int, acc: Seq<(Seq<char>, Seq<TyV>)>) -> Result<
    (Seq<(Seq<char>, Seq<TyV>)>, int),
    Failure,
>
    decreases toks.len() - i,
{
    match ctor_from(toks, i, 0) {
        Err(f) => Err(f),
        Ok((cn, j1)) => match args_at(toks, j1, 0) {
            Err(f) => Err(f),
            Ok((args, j2)) => {
                let (bar, j3) = sym_from(toks, j2, 0, "|"@);
                if !bar {
                    Ok((acc.push((cn, args)), j3))
                } else if i < j3 <= toks.len() {
                    variants_from(toks, j3, acc.push((cn, args)))
                } else {
                    Err(stuck(j3))
                }
            },
        },
    }
}

/// A type declaration from its `type` at `k`, in the module `home`.
pub open spec fn typedecl_from(toks: Seq<Token>, k: int, home: Seq<char>) -> Result<(TypeDeclV, int), Failure> {
    let ts = kinds(toks);
    let span = span_at(toks, k);
    let (_, j0) = kw_from(toks, k, 0, "type"@);
    match ctor_from(toks, j0, 0) {
        Err(f) => Err(f),
        Ok((name, j1)) => {
            let (ps, j2) = lambda_names(toks, j1, 0, Seq::empty());
            let (eq, j3) = sym_from(toks, j2, 0, "="@);
            let body: Result<(TypeBodyV, int), Failure> = if !eq {
                Ok((TypeBodyV::Opaque, j3))
            } else if cur_at(ts, j3) == TokV::Sym("{"@) {
                match record_def_from(toks, j3, 0) {
                    Err(f) => Err(f),
                    Ok((r, j4)) => Ok((TypeBodyV::Record(r), j4)),
                }
            } else {
                match variants_from(toks, j3, Seq::empty()) {
                    Err(f) => Err(f),
                    Ok((vs, j4)) => Ok((TypeBodyV::Variants(vs), j4)),
                }
            };
            match body {
                Err(f) => Err(f),
                Ok((b, j4)) => match eol_from(toks, j4) {
                    Err(f) => Err(f),
                    Ok(j5) => Ok((TypeDeclV { name, home, params: ps, body: b, span }, j5)),
                },
            }
        },
    }
}

/// The `link` and `pkg` clauses of an `ext c` line from `i` on.
pub open spec fn links_from(toks: Seq<Token>, i: int, links: Seq<Seq<char>>, pkgs: Seq<Seq<char>>) -> Result<
    (Seq<Seq<char>>, Seq<Seq<char>>, int),
    Failure,
>
    decreases toks.len() - i,
{
    let (l, jl) = word_from(toks, i, 0, "link"@);
    if l {
        match str_from(toks, jl, 0, "expected a library name after `link`"@) {
            Err(f) => Err(f),
            Ok((s, j)) => if i < j <= toks.len() {
                links_from(toks, j, links.push(s), pkgs)
            } else {
                Err(stuck(j))
            },
        }
    } else {
        let (p, jp) = word_from(toks, jl, 0, "pkg"@);
        if p {
            match str_from(toks, jp, 0, "expected a package name after `pkg`"@) {
                Err(f) => Err(f),
                Ok((s, j)) => if i < j <= toks.len() {
                    links_from(toks, j, links, pkgs.push(s))
                } else {
                    Err(stuck(j))
                },
            }
        } else {
            Ok((links, pkgs, jp))
        }
    }
}

/// A C signature from its name at `k`: `name ( = "symbol" )? : ty ( , refinement )*`.
pub open spec fn sig_from(toks: Seq<Token>, k: int) -> Result<(ExtSigV, int), Failure> {
    match name_from(toks, k, 0) {
        Err(f) => Err(f),
        Ok((name, j1)) => {
            let (eq, j2) = sym_from(toks, j1, 0, "="@);
            let symbol: Result<(Seq<char>, int), Failure> = if eq {
                str_from(toks, j2, 0, "expected the C symbol name in quotes"@)
            } else {
                Ok((name, j2))
            };
            match symbol {
                Err(f) => Err(f),
                Ok((sym, j3)) => match expect_from(toks, j3, 0, ":"@) {
                    Err(f) => Err(f),
                    Ok(j4) => match type_at(toks, j4, 0) {
                        Err(f) => Err(f),
                        Ok((t, j5)) => match refines_from(toks, j5, 0, Seq::empty()) {
                            Err(f) => Err(f),
                            Ok((rs, j6)) => match eol_from(toks, j6) {
                                Err(f) => Err(f),
                                Ok(j7) => Ok(
                                    (
                                        ExtSigV { name, symbol: sym, ty: t, refines: rs, span: span_at(toks, k) },
                                        j7,
                                    ),
                                ),
                            },
                        },
                    },
                },
            }
        },
    }
}

/// The body of an `ext c` block from `i` on: type declarations and
/// signatures up to `end`.
pub open spec fn ext_items(
    toks: Seq<Token>,
    i: int,
    home: Seq<char>,
    sigs: Seq<ExtSigV>,
    types: Seq<TypeDeclV>,
) -> Result<(Seq<ExtSigV>, Seq<TypeDeclV>, int), Failure>
    decreases toks.len() - i,
{
    let ts = kinds(toks);
    let k = synced(ts, i);
    let (e, j) = kw_from(toks, k, 0, "end"@);
    if e {
        Ok((sigs, types, j))
    } else if cur_at(ts, k) is Eof {
        Err(
            Failure {
                pos: k,
                code: "parse.ext"@,
                msg: "expected `end` to close the `ext c` block"@,
                fix: Some("add `end` after the last signature"@),
            },
        )
    } else if cur_at(ts, k) == TokV::Kw("type"@) {
        match typedecl_from(toks, k, home) {
            Err(f) => Err(f),
            Ok((td, j1)) => if i < j1 <= toks.len() {
                ext_items(toks, j1, home, sigs, types.push(td))
            } else {
                Err(stuck(j1))
            },
        }
    } else {
        match sig_from(toks, k) {
            Err(f) => Err(f),
            Ok((sg, j1)) => if i < j1 <= toks.len() {
                ext_items(toks, j1, home, sigs.push(sg), types)
            } else {
                Err(stuck(j1))
            },
        }
    }
}

/// An `ext c` block once its items are read up to `end`.
pub open spec fn ext_closed(
    span: Span,
    header: Seq<char>,
    links: Seq<Seq<char>>,
    pkgs: Seq<Seq<char>>,
    items: Result<(Seq<ExtSigV>, Seq<TypeDeclV>, int), Failure>,
) -> Result<(ExtBlockV, int), Failure> {
    match items {
        Err(f) => Err(f),
        Ok((sigs, types, j5)) => Ok((ExtBlockV { header, links, pkgs, sigs, types, span }, j5)),
    }
}

/// An `ext c` block from its `ext` at `k`.
pub open spec fn ext_from(toks: Seq<Token>, k: int, home: Seq<char>) -> Result<(ExtBlockV, int), Failure> {
    let span = span_at(toks, k);
    let (_, j0) = kw_from(toks, k, 0, "ext"@);
    let (c, j1) = word_from(toks, j0, 0, "c"@);
    if !c {
        Err(
            Failure {
                pos: j1,
                code: "parse.ext"@,
                msg: "expected `ext c \"header.h\"`"@,
                fix: Some("write `ext c \"stdio.h\"`"@),
            },
        )
    } else {
        match str_from(toks, j1, 0, "expected a header name in quotes"@) {
            Err(f) => Err(f),
            Ok((header, j2)) => match links_from(toks, j2, Seq::empty(), Seq::empty()) {
                Err(f) => Err(f),
                Ok((links, pkgs, j3)) => match eol_from(toks, j3) {
                    Err(f) => Err(f),
                    Ok(j4) => ext_closed(span, header, links, pkgs, ext_items(toks, j4, home, Seq::empty(), Seq::empty())),
                },
            },
        }
    }
}

/// The parameters of a function from `i` on, after `acc`.
pub open spec fn params_from(toks: Seq<Token>, i: int, acc: Seq<ParamV>) -> Result<(Seq<ParamV>, int), Failure>
    decreases toks.len() - i,
{
    let ts = kinds(toks);
    let t = cur_at(ts, i);
    if !(0 <= i < toks.len()) {
        Err(stuck(i))
    } else if t is Name {
        params_from(
            toks,
            i + 1,
            acc.push(ParamV { names: seq![t->Name_0], ty: None, refines: Seq::empty(), span: span_at(toks, i) }),
        )
    } else if t == TokV::Sym("("@) {
        let (ns, j1) = lambda_names(toks, i + 1, 1, Seq::empty());
        if ns.len() == 0 {
            Err(failure(j1, "parse.param"@, "expected parameter names before `:`"@))
        } else {
            match expect_from(toks, j1, 1, ":"@) {
                Err(f) => Err(f),
                Ok(j2) => match type_at(toks, j2, 1) {
                    Err(f) => Err(f),
                    Ok((ty, j3)) => match refines_from(toks, j3, 1, Seq::empty()) {
                        Err(f) => Err(f),
                        Ok((rs, j4)) => match expect_from(toks, j4, 0, ")"@) {
                            Err(f) => Err(f),
                            Ok(j5) => if i < j5 <= toks.len() {
                                params_from(
                                    toks,
                                    j5,
                                    acc.push(ParamV { names: ns, ty: Some(ty), refines: rs, span: span_at(toks, i) }),
                                )
                            } else {
                                Err(stuck(j5))
                            },
                        },
                    },
                },
            }
        }
    } else {
        Ok((acc, i))
    }
}

/// A function declaration from its name at `i`, in the module `home`.
pub open spec fn fundecl_from(toks: Seq<Token>, i: int, home: Seq<char>, ghost: bool) -> Result<(FunDeclV, int), Failure> {
    match name_from(toks, i, 0) {
        Err(f) => Err(f),
        Ok((name, j1)) => match params_from(toks, j1, Seq::empty()) {
            Err(f) => Err(f),
            Ok((ps, j2)) => {
                let (r, j3) = sym_from(toks, j2, 0, ":"@);
                let ret: Result<(Option<TyV>, int), Failure> = if r {
                    match type_at(toks, j3, 0) {
                        Err(f) => Err(f),
                        Ok((t, j4)) => Ok((Some(t), j4)),
                    }
                } else {
                    Ok((None, j3))
                };
                match ret {
                    Err(f) => Err(f),
                    Ok((rt, j4)) => match expect_from(toks, j4, 0, "="@) {
                        Err(f) => Err(f),
                        Ok(j5) => match body_at(toks, j5, 0) {
                            Err(f) => Err(f),
                            Ok((b, j6)) => {
                                let (m, j7) = sym_from(toks, j6, 0, "%"@);
                                let measure: Result<(Option<ExprV>, int), Failure> = if m {
                                    match expr_at(toks, j7, 0) {
                                        Err(f) => Err(f),
                                        Ok((e, j8)) => Ok((Some(e), j8)),
                                    }
                                } else {
                                    Ok((None, j7))
                                };
                                match measure {
                                    Err(f) => Err(f),
                                    Ok((me, j8)) => match eol_from(toks, j8) {
                                        Err(f) => Err(f),
                                        Ok(j9) => Ok(
                                            (
                                                FunDeclV {
                                                    name,
                                                    home,
                                                    is_ghost: ghost,
                                                    params: ps,
                                                    ret: rt,
                                                    body: b,
                                                    measure: me,
                                                    span: span_at(toks, i),
                                                },
                                                j9,
                                            ),
                                        ),
                                    },
                                }
                            },
                        },
                    },
                }
            },
        },
    }
}

/// One declaration from `k`, in the module `home`.
pub open spec fn decl_from(toks: Seq<Token>, k: int, home: Seq<char>) -> Result<(DeclV, int), Failure> {
    let t = cur_at(kinds(toks), k);
    if t == TokV::Kw("type"@) {
        match typedecl_from(toks, k, home) {
            Err(f) => Err(f),
            Ok((td, j)) => Ok((DeclV::Type(td), j)),
        }
    } else if t == TokV::Kw("ext"@) {
        match ext_from(toks, k, home) {
            Err(f) => Err(f),
            Ok((x, j)) => Ok((DeclV::Ext(x), j)),
        }
    } else if t == TokV::Kw("exp"@) {
        exp_from(toks, k)
    } else {
        let (g, j0) = kw_from(toks, k, 0, "ghost"@);
        match fundecl_from(toks, j0, home, g) {
            Err(f) => Err(f),
            Ok((fd, j)) => Ok((DeclV::Fun(fd), j)),
        }
    }
}

/// The declarations from `i` on, after `acc`, up to the end of file.
pub open spec fn decls_from(toks: Seq<Token>, i: int, home: Seq<char>, acc: Seq<DeclV>) -> Result<(Seq<DeclV>, int), Failure>
    decreases toks.len() - i,
{
    let ts = kinds(toks);
    let k = synced(ts, i);
    if cur_at(ts, k) is Eof {
        Ok((acc, k))
    } else {
        match decl_from(toks, k, home) {
            Err(f) => Err(f),
            Ok((dl, j)) => if i < j <= toks.len() {
                decls_from(toks, j, home, acc.push(dl))
            } else {
                Err(stuck(j))
            },
        }
    }
}

/// The module the tokens hold.
pub open spec fn module_from(toks: Seq<Token>) -> Result<ModuleV, Failure> {
    let ts = kinds(toks);
    let k = synced(ts, 0);
    let span = span_at(toks, k);
    let (m, j0) = kw_from(toks, k, 0, "mod"@);
    if !m {
        Err(
            Failure {
                pos: j0,
                code: "parse.mod"@,
                msg: "a module must start with `mod <Name>`"@,
                fix: Some("add `mod MyModule` as the first line"@),
            },
        )
    } else {
        match ctor_from(toks, j0, 0) {
            Err(f) => Err(f),
            Ok((name, j1)) => match eol_from(toks, j1) {
                Err(f) => Err(f),
                Ok(j2) => match decls_from(toks, j2, name, Seq::empty()) {
                    Err(f) => Err(f),
                    Ok((ds, _)) => Ok(ModuleV { name, decls: ds, span }),
                },
            },
        }
    }
}


// ------------------------------------------------------------ reading declarations

/// What a declaration reader promises: the tokens and the home stay, and the
/// result and where reading stops are what the grammar `g` gives.
pub open spec fn read_to<T: View>(r: Result<T, Diag>, after: Parser, before: Parser, g: Result<(T::V, int), Failure>) -> bool {
    &&& after.toks == before.toks
    &&& after.home == before.home
    &&& (r is Ok ==> after.placed() && after.i > before.i && after.depth == before.depth)
    &&& match g {
        Ok((v, j)) => r matches Ok(x) && x@ == v && after.i == j,
        Err(f) => r matches Err(d) && reports_failure(d, before.toks@, f),
    }
}

impl Parser {
    /// Takes the name `w` if it is next.
    fn eat_word(&mut self, w: &str) -> (r: bool)
        requires
            old(self).placed(),
        ensures
            final(self).moved_from(*old(self)),
            (r, final(self).i as int) == word_from(old(self).toks@, old(self).i as int, old(self).depth as int, w@),
    {
        let ghost ts = kinds(self.toks@);
        self.sync();
        assert(ts[self.i as int] == self.toks@[self.i as int].tok@);
        let is = match &self.cur().tok {
            Tok::Name(n) => str_eq(n.as_str(), w),
            _ => false,
        };
        if is {
            assert(self.i < self.toks.len() - 1);
            self.i += 1;
        }
        is
    }

    /// A capitalised name, possibly qualified.
    fn ctor(&mut self) -> (r: Result<String, Diag>)
        requires
            old(self).placed(),
        ensures
            final(self).moved_from(*old(self)),
            r is Ok ==> final(self).i > old(self).i,
            match ctor_from(old(self).toks@, old(self).i as int, old(self).depth as int) {
                Ok((n, j)) => r matches Ok(x) && x@ == n && final(self).i == j,
                Err(f) => r matches Err(d) && reports_failure(d, old(self).toks@, f),
            },
    {
        let ghost ts = kinds(self.toks@);
        self.sync();
        assert(ts[self.i as int] == self.toks@[self.i as int].tok@);
        let is = match &self.cur().tok {
            Tok::Ctor(_) => true,
            _ => false,
        };
        if is {
            return Ok(self.ctor_name());
        }
        let mut msg = owned("expected a capitalised name, found ");
        let found = self.describe();
        push_str(&mut msg, found.as_str());
        Err(self.err("parse.ctor", msg.as_str()))
    }

    /// The next token, which must be a string literal; `msg` says what was
    /// wanted where it is something else.
    fn str_tok(&mut self, msg: &str) -> (r: Result<String, Diag>)
        requires
            old(self).placed(),
        ensures
            final(self).moved_from(*old(self)),
            match str_from(old(self).toks@, old(self).i as int, old(self).depth as int, msg@) {
                Ok((s, j)) => r matches Ok(x) && x@ == s && final(self).i == j && final(self).i > old(self).i,
                Err(f) => r matches Err(d) && reports_failure(d, old(self).toks@, f),
            },
    {
        let ghost ts = kinds(self.toks@);
        self.sync();
        assert(ts[self.i as int] == self.toks@[self.i as int].tok@);
        let s = match &self.cur().tok {
            Tok::Str(s) => Some(s.clone()),
            _ => None,
        };
        let eof = match &self.cur().tok {
            Tok::Eof => true,
            _ => false,
        };
        if !eof {
            assert(self.i < self.toks.len() - 1);
            self.i += 1;
        }
        match s {
            Some(s) => Ok(s),
            None => Err(self.err("parse.ext", msg)),
        }
    }

    /// The end of a declaration's line.
    fn end_of_line(&mut self) -> (r: Result<(), Diag>)
        requires
            old(self).placed(),
        ensures
            final(self).moved_from(*old(self)),
            match eol_from(old(self).toks@, old(self).i as int) {
                Ok(j) => r is Ok && final(self).i == j,
                Err(f) => r matches Err(d) && reports_failure(d, old(self).toks@, f),
            },
    {
        let ghost ts = kinds(self.toks@);
        assert(ts[self.i as int] == self.toks@[self.i as int].tok@);
        let ends = match &self.cur().tok {
            Tok::Newline | Tok::Eof => true,
            _ => false,
        };
        if ends {
            self.skip_newlines();
            return Ok(());
        }
        let mut msg = owned("unexpected ");
        let found = self.describe();
        push_str(&mut msg, found.as_str());
        push_str(&mut msg, " at end of declaration");
        Err(self.err("parse.trailing", msg.as_str()))
    }

    /// The names that follow, as many as there are.
    fn bare_names(&mut self) -> (r: Vec<String>)
        requires
            old(self).placed(),
        ensures
            final(self).moved_from(*old(self)),
            (texts_of(r@), final(self).i as int) == lambda_names(
                old(self).toks@,
                old(self).i as int,
                old(self).depth as int,
                Seq::empty(),
            ),
    {
        let ghost toks = self.toks@;
        let ghost ts = kinds(toks);
        let ghost d = self.depth as int;
        let ghost i0 = self.i as int;
        let mut ps: Vec<String> = Vec::new();
        assert(texts_of(ps@) =~= Seq::<Seq<char>>::empty());
        loop
            invariant_except_break
                lambda_names(toks, i0, d, Seq::empty()) == lambda_names(toks, self.i as int, d, texts_of(ps@)),
            invariant
                self.placed(),
                self.toks@ == toks,
                ts == kinds(toks),
                self.toks == old(self).toks,
                self.depth == old(self).depth,
                self.home == old(self).home,
                d == self.depth as int,
                i0 == old(self).i as int,
                self.i >= i0,
            ensures
                lambda_names(toks, i0, d, Seq::empty()) == (texts_of(ps@), self.i as int),
            decreases self.toks@.len() - self.i,
        {
            let ghost i1 = self.i as int;
            proof {
                lemma_skip(ts, i1, d);
            }
            self.sync();
            assert(ts[self.i as int] == toks[self.i as int].tok@);
            let is_name = match &self.cur().tok {
                Tok::Name(_) => true,
                _ => false,
            };
            if !is_name {
                break;
            }
            let n = match self.name() {
                Ok(n) => n,
                Err(_) => {
                    break;
                },
            };
            let ghost before = ps@;
            ps.push(n);
            assert(texts_of(ps@) =~= texts_of(before).push(n@));
        }
        ps
    }

    /// Names separated by commas.
    fn names(&mut self) -> (r: Result<Vec<String>, Diag>)
        requires
            old(self).placed(),
        ensures
            final(self).toks == old(self).toks,
            final(self).home == old(self).home,
            r is Ok ==> final(self).placed() && final(self).i > old(self).i && final(self).depth == old(self).depth,
            match names_from(old(self).toks@, old(self).i as int, old(self).depth as int, Seq::empty()) {
                Ok((ns, j)) => r matches Ok(v) && texts_of(v@) == ns && final(self).i == j,
                Err(f) => r matches Err(d) && reports_failure(d, old(self).toks@, f),
            },
    {
        let ghost toks = self.toks@;
        let ghost ts = kinds(toks);
        let ghost d = self.depth as int;
        let ghost i0 = self.i as int;
        let mut v: Vec<String> = Vec::new();
        assert(texts_of(v@) =~= Seq::<Seq<char>>::empty());
        loop
            invariant_except_break
                names_from(toks, i0, d, Seq::empty()) == names_from(toks, self.i as int, d, texts_of(v@)),
            invariant
                self.placed(),
                self.toks@ == toks,
                ts == kinds(toks),
                self.toks == old(self).toks,
                self.depth == old(self).depth,
                self.home == old(self).home,
                d == self.depth as int,
                i0 == old(self).i as int,
                self.i >= i0,
            ensures
                self.i > i0,
                names_from(toks, i0, d, Seq::empty()) == Ok::<(Seq<Seq<char>>, int), Failure>((texts_of(v@), self.i as int)),
            decreases self.toks@.len() - self.i,
        {
            let n = match self.name() {
                Ok(n) => n,
                Err(x) => {
                    return Err(x);
                },
            };
            let ghost before = v@;
            v.push(n);
            assert(texts_of(v@) =~= texts_of(before).push(n@));
            if !self.eat_sym(",") {
                break;
            }
        }
        Ok(v)
    }

    /// Refinements, each after a comma.
    #[verifier::spinoff_prover]
    #[verifier::rlimit(60)]
    fn refines(&mut self) -> (r: Result<Vec<Expr>, Diag>)
        requires
            old(self).placed(),
        ensures
            final(self).toks == old(self).toks,
            final(self).home == old(self).home,
            r is Ok ==> final(self).placed() && final(self).i >= old(self).i && final(self).depth == old(self).depth,
            match refines_from(old(self).toks@, old(self).i as int, old(self).depth as int, Seq::empty()) {
                Ok((rs, j)) => r matches Ok(v) && exprs_view(v@) == rs && final(self).i == j,
                Err(f) => r matches Err(d) && reports_failure(d, old(self).toks@, f),
            },
    {
        let ghost toks = self.toks@;
        let ghost ts = kinds(toks);
        let ghost d = self.depth as int;
        let ghost i0 = self.i as int;
        let mut v: Vec<Expr> = Vec::new();
        assert(exprs_view(v@) =~= Seq::<ExprV>::empty());
        loop
            invariant_except_break
                refines_from(toks, i0, d, Seq::empty()) == refines_from(toks, self.i as int, d, exprs_view(v@)),
            invariant
                self.placed(),
                self.toks@ == toks,
                ts == kinds(toks),
                self.toks == old(self).toks,
                self.depth == old(self).depth,
                self.home == old(self).home,
                d == self.depth as int,
                i0 == old(self).i as int,
                self.i >= i0,
            ensures
                refines_from(toks, i0, d, Seq::empty()) == Ok::<(Seq<ExprV>, int), Failure>((exprs_view(v@), self.i as int)),
            decreases self.toks@.len() - self.i,
        {
            let ghost i1 = self.i as int;
            proof {
                lemma_skip(ts, i1, d);
            }
            if !self.eat_sym(",") {
                break;
            }
            let e = match self.read_expr() {
                Ok(e) => e,
                Err(x) => {
                    return Err(x);
                },
            };
            let ghost before = v@;
            v.push(e);
            proof {
                assert(v@.drop_last() == before);
            }
        }
        Ok(v)
    }

    /// Type arguments, as many atoms as follow.
    fn type_args(&mut self) -> (r: Result<Vec<Ty>, Diag>)
        requires
            old(self).placed(),
        ensures
            final(self).toks == old(self).toks,
            final(self).home == old(self).home,
            r is Ok ==> final(self).placed() && final(self).i >= old(self).i && final(self).depth == old(self).depth,
            match args_at(old(self).toks@, old(self).i as int, old(self).depth as int) {
                Ok((xs, j)) => r matches Ok(v) && tys_view(v@) == xs && final(self).i == j,
                Err(f) => r matches Err(d) && reports_failure(d, old(self).toks@, f),
            },
    {
        reveal(args_at);
        let ghost toks = self.toks@;
        let ghost ts = kinds(toks);
        let ghost d = self.depth as int;
        let ghost i0 = self.i as int;
        let mut args: Vec<Ty> = Vec::new();
        assert(tys_view(args@) =~= Seq::<TyV>::empty());
        loop
            invariant
                self.placed(),
                self.toks@ == toks,
                ts == kinds(toks),
                self.toks == old(self).toks,
                self.depth == old(self).depth,
                self.home == old(self).home,
                d == self.depth as int,
                i0 == old(self).i as int,
                self.i >= i0,
                args_from(ts, i0, d, Seq::empty()) == args_from(ts, self.i as int, d, tys_view(args@)),
            decreases self.toks@.len() - self.i,
        {
            reveal(args_at);
            let ghost i1 = self.i as int;
            proof {
                lemma_skip(ts, i1, d);
            }
            self.sync();
            assert(ts[self.i as int] == toks[self.i as int].tok@);
            let starts = match &self.cur().tok {
                Tok::Ctor(_) | Tok::Name(_) => true,
                Tok::Sym(x) => str_eq(x, "(") || str_eq(x, "&") || str_eq(x, "E!"),
                _ => false,
            };
            assert(starts == crate::parser::starts_atom(cur_at(ts, self.i as int)));
            if !starts {
                return Ok(args);
            }
            let ghost before = args@;
            let a = match self.type_atom() {
                Ok(a) => a,
                Err(x) => {
                    return Err(x);
                },
            };
            args.push(a);
            proof {
                lemma_tys_view(before);
                assert(tys_view(args@) =~= tys_view(before).push(a@)) by {
                    assert(args@.drop_last() == before);
                }
            }
        }
    }
}


impl Parser {
    /// `exp c name, ...`, from the `exp`.
    fn expdecl(&mut self) -> (r: Result<Decl, Diag>)
        requires
            old(self).placed(),
            old(self).depth == 0,
        ensures
            read_to(r, *final(self), *old(self), exp_from(old(self).toks@, old(self).i as int)),
    {
        let span = self.cur().span;
        let _ = self.eat_kw("exp");
        if !self.eat_word("c") {
            return Err(self.err("parse.exp", "expected `exp c <name>, <name>`"));
        }
        let ns = match self.names() {
            Ok(ns) => ns,
            Err(x) => {
                return Err(x);
            },
        };
        match self.end_of_line() {
            Ok(()) => {},
            Err(x) => {
                return Err(x);
            },
        }
        Ok(Decl::Exp(ns, span))
    }

    /// A record type, from its `{`.
    #[verifier::spinoff_prover]
    #[verifier::rlimit(60)]
    fn record_def(&mut self) -> (r: Result<RecordDef, Diag>)
        requires
            old(self).placed(),
        ensures
            read_to(r, *final(self), *old(self), record_def_from(old(self).toks@, old(self).i as int, old(self).depth as int)),
    {
        let ghost toks = self.toks@;
        let ghost ts = kinds(toks);
        let ghost d = self.depth as int;
        let ghost i0 = self.i as int;
        match self.expect_sym("{") {
            Ok(()) => {},
            Err(x) => {
                return Err(x);
            },
        }
        let ghost j0 = self.i as int;
        let n: usize = self.toks.len();
        assert(self.depth <= i0 + 1 <= self.i < n);
        self.depth += 1;
        let mut fields: Vec<(String, Ty)> = Vec::new();
        let mut refines: Vec<Expr> = Vec::new();
        assert(typed_fields(fields@) =~= Seq::<(Seq<char>, TyV)>::empty());
        assert(exprs_view(refines@) =~= Seq::<ExprV>::empty());
        loop
            invariant_except_break
                record_items(toks, j0, d + 1, Seq::empty(), Seq::empty()) == record_items(
                    toks,
                    self.i as int,
                    d + 1,
                    typed_fields(fields@),
                    exprs_view(refines@),
                ),
            invariant
                self.placed(),
                self.toks@ == toks,
                ts == kinds(toks),
                self.toks == old(self).toks,
                self.depth == old(self).depth + 1,
                self.home == old(self).home,
                d == old(self).depth as int,
                i0 == old(self).i as int,
                self.i >= j0 > i0,
                record_def_from(toks, i0, d) == record_closed(
                    toks,
                    d,
                    record_items(toks, j0, d + 1, Seq::empty(), Seq::empty()),
                ),
            ensures
                record_items(toks, j0, d + 1, Seq::empty(), Seq::empty()) == Ok::<
                    (Seq<(Seq<char>, TyV)>, Seq<ExprV>, int),
                    Failure,
                >((typed_fields(fields@), exprs_view(refines@), self.i as int)),
            decreases self.toks@.len() - self.i,
        {
            assert(ts[self.i as int] == toks[self.i as int].tok@);
            if self.cur().is_sym("}") {
                break;
            }
            self.sync();
            let first_name = match self.peek_at(0) {
                Tok::Name(_) => true,
                _ => false,
            };
            let then_colon = match self.peek_at(1) {
                Tok::Sym(x) => str_eq(x, ":"),
                _ => false,
            };
            if first_name && then_colon {
                let n = match self.name() {
                    Ok(n) => n,
                    Err(x) => {
                        return Err(x);
                    },
                };
                match self.expect_sym(":") {
                    Ok(()) => {},
                    Err(x) => {
                        return Err(x);
                    },
                }
                let t = match self.read_type() {
                    Ok(t) => t,
                    Err(x) => {
                        return Err(x);
                    },
                };
                let ghost before = fields@;
                let ghost item = (n@, t@);
                fields.push((n, t));
                assert(typed_fields(fields@) =~= typed_fields(before).push(item));
            } else {
                let e = match self.read_expr() {
                    Ok(e) => e,
                    Err(x) => {
                        return Err(x);
                    },
                };
                let ghost before = refines@;
                refines.push(e);
                proof {
                    assert(refines@.drop_last() == before);
                }
            }
            if !self.eat_sym(",") {
                break;
            }
        }
        self.depth -= 1;
        match self.expect_sym("}") {
            Ok(()) => {},
            Err(x) => {
                return Err(x);
            },
        }
        Ok(RecordDef { fields, refines })
    }

    /// The constructors of a variant type.
    #[verifier::spinoff_prover]
    fn variants(&mut self) -> (r: Result<Vec<VariantDef>, Diag>)
        requires
            old(self).placed(),
            old(self).depth == 0,
        ensures
            final(self).toks == old(self).toks,
            final(self).home == old(self).home,
            r is Ok ==> final(self).placed() && final(self).i > old(self).i && final(self).depth == old(self).depth,
            match variants_from(old(self).toks@, old(self).i as int, Seq::empty()) {
                Ok((vs, j)) => r matches Ok(v) && variants_view(v@) == vs && final(self).i == j,
                Err(f) => r matches Err(d) && reports_failure(d, old(self).toks@, f),
            },
    {
        let ghost toks = self.toks@;
        let ghost ts = kinds(toks);
        let ghost i0 = self.i as int;
        let mut vs: Vec<VariantDef> = Vec::new();
        assert(variants_view(vs@) =~= Seq::<(Seq<char>, Seq<TyV>)>::empty());
        loop
            invariant_except_break
                variants_from(toks, i0, Seq::empty()) == variants_from(toks, self.i as int, variants_view(vs@)),
            invariant
                self.placed(),
                self.toks@ == toks,
                ts == kinds(toks),
                self.toks == old(self).toks,
                self.depth == 0,
                self.home == old(self).home,
                i0 == old(self).i as int,
                self.i >= i0,
            ensures
                self.i > i0,
                variants_from(toks, i0, Seq::empty()) == Ok::<(Seq<(Seq<char>, Seq<TyV>)>, int), Failure>(
                    (variants_view(vs@), self.i as int),
                ),
            decreases self.toks@.len() - self.i,
        {
            let cn = match self.ctor() {
                Ok(n) => n,
                Err(x) => {
                    return Err(x);
                },
            };
            let args = match self.type_args() {
                Ok(a) => a,
                Err(x) => {
                    return Err(x);
                },
            };
            let ghost before = vs@;
            let ghost item = (cn@, tys_view(args@));
            vs.push(VariantDef { name: cn, args });
            assert(variants_view(vs@) =~= variants_view(before).push(item));
            if !self.eat_sym("|") {
                break;
            }
        }
        Ok(vs)
    }

    /// A type declaration, from its `type`.
    #[verifier::spinoff_prover]
    #[verifier::rlimit(60)]
    fn typedecl(&mut self) -> (r: Result<TypeDecl, Diag>)
        requires
            old(self).placed(),
            old(self).depth == 0,
        ensures
            read_to(r, *final(self), *old(self), typedecl_from(old(self).toks@, old(self).i as int, old(self).home@)),
    {
        let ghost toks = self.toks@;
        let ghost ts = kinds(toks);
        let span = self.cur().span;
        let _ = self.eat_kw("type");
        let name = match self.ctor() {
            Ok(n) => n,
            Err(x) => {
                return Err(x);
            },
        };
        let params = self.bare_names();
        let body = if !self.eat_sym("=") {
            TypeBody::Opaque
        } else {
            assert(ts[self.i as int] == toks[self.i as int].tok@);
            if self.cur().is_sym("{") {
                match self.record_def() {
                    Ok(r) => TypeBody::Record(r),
                    Err(x) => {
                        return Err(x);
                    },
                }
            } else {
                match self.variants() {
                    Ok(vs) => TypeBody::Variants(vs),
                    Err(x) => {
                        return Err(x);
                    },
                }
            }
        };
        match self.end_of_line() {
            Ok(()) => {},
            Err(x) => {
                return Err(x);
            },
        }
        Ok(TypeDecl { name, home: self.home.clone(), params, body, span })
    }

    /// The `link` and `pkg` clauses of an `ext c` line.
    fn links(&mut self) -> (r: Result<(Vec<String>, Vec<String>), Diag>)
        requires
            old(self).placed(),
            old(self).depth == 0,
        ensures
            final(self).toks == old(self).toks,
            final(self).home == old(self).home,
            r is Ok ==> final(self).placed() && final(self).i >= old(self).i && final(self).depth == old(self).depth,
            match links_from(old(self).toks@, old(self).i as int, Seq::empty(), Seq::empty()) {
                Ok((ls, ps, j)) => r matches Ok(x) && texts_of(x.0@) == ls && texts_of(x.1@) == ps && final(self).i == j,
                Err(f) => r matches Err(d) && reports_failure(d, old(self).toks@, f),
            },
    {
        let ghost toks = self.toks@;
        let ghost ts = kinds(toks);
        let ghost i0 = self.i as int;
        let mut links: Vec<String> = Vec::new();
        let mut pkgs: Vec<String> = Vec::new();
        assert(texts_of(links@) =~= Seq::<Seq<char>>::empty());
        assert(texts_of(pkgs@) =~= Seq::<Seq<char>>::empty());
        loop
            invariant_except_break
                links_from(toks, i0, Seq::empty(), Seq::empty()) == links_from(
                    toks,
                    self.i as int,
                    texts_of(links@),
                    texts_of(pkgs@),
                ),
            invariant
                self.placed(),
                self.toks@ == toks,
                ts == kinds(toks),
                self.toks == old(self).toks,
                self.depth == 0,
                self.home == old(self).home,
                i0 == old(self).i as int,
                self.i >= i0,
            ensures
                links_from(toks, i0, Seq::empty(), Seq::empty()) == Ok::<
                    (Seq<Seq<char>>, Seq<Seq<char>>, int),
                    Failure,
                >((texts_of(links@), texts_of(pkgs@), self.i as int)),
            decreases self.toks@.len() - self.i,
        {
            if self.eat_word("link") {
                let s = match self.str_tok("expected a library name after `link`") {
                    Ok(s) => s,
                    Err(x) => {
                        return Err(x);
                    },
                };
                let ghost before = links@;
                links.push(s);
                assert(texts_of(links@) =~= texts_of(before).push(s@));
            } else if self.eat_word("pkg") {
                let s = match self.str_tok("expected a package name after `pkg`") {
                    Ok(s) => s,
                    Err(x) => {
                        return Err(x);
                    },
                };
                let ghost before = pkgs@;
                pkgs.push(s);
                assert(texts_of(pkgs@) =~= texts_of(before).push(s@));
            } else {
                break;
            }
        }
        Ok((links, pkgs))
    }

    /// A C signature, from its name.
    #[verifier::spinoff_prover]
    #[verifier::rlimit(60)]
    fn sig(&mut self) -> (r: Result<ExtSig, Diag>)
        requires
            old(self).placed(),
            old(self).depth == 0,
        ensures
            read_to(r, *final(self), *old(self), sig_from(old(self).toks@, old(self).i as int)),
    {
        let span = self.cur().span;
        let name = match self.name() {
            Ok(n) => n,
            Err(x) => {
                return Err(x);
            },
        };
        let symbol = if self.eat_sym("=") {
            match self.str_tok("expected the C symbol name in quotes") {
                Ok(s) => s,
                Err(x) => {
                    return Err(x);
                },
            }
        } else {
            name.clone()
        };
        match self.expect_sym(":") {
            Ok(()) => {},
            Err(x) => {
                return Err(x);
            },
        }
        let ty = match self.read_type() {
            Ok(t) => t,
            Err(x) => {
                return Err(x);
            },
        };
        let refines = match self.refines() {
            Ok(v) => v,
            Err(x) => {
                return Err(x);
            },
        };
        match self.end_of_line() {
            Ok(()) => {},
            Err(x) => {
                return Err(x);
            },
        }
        Ok(ExtSig { name, symbol, ty, refines, span })
    }

    /// An `ext c` block, from its `ext`.
    #[verifier::spinoff_prover]
    #[verifier::rlimit(60)]
    fn extblock(&mut self) -> (r: Result<ExtBlock, Diag>)
        requires
            old(self).placed(),
            old(self).depth == 0,
        ensures
            read_to(r, *final(self), *old(self), ext_from(old(self).toks@, old(self).i as int, old(self).home@)),
    {
        let ghost toks = self.toks@;
        let ghost ts = kinds(toks);
        let ghost i0 = self.i as int;
        let ghost home = self.home@;
        let span = self.cur().span;
        let _ = self.eat_kw("ext");
        if !self.eat_word("c") {
            return Err(self.err("parse.ext", "expected `ext c \"header.h\"`").with_fix("write `ext c \"stdio.h\"`"));
        }
        let header = match self.str_tok("expected a header name in quotes") {
            Ok(s) => s,
            Err(x) => {
                return Err(x);
            },
        };
        let (links, pkgs) = match self.links() {
            Ok(x) => x,
            Err(x) => {
                return Err(x);
            },
        };
        match self.end_of_line() {
            Ok(()) => {},
            Err(x) => {
                return Err(x);
            },
        }
        let ghost j4 = self.i as int;
        let mut sigs: Vec<ExtSig> = Vec::new();
        let mut types: Vec<TypeDecl> = Vec::new();
        assert(sigs@.map_values(|g: ExtSig| g@) =~= Seq::<ExtSigV>::empty());
        assert(types@.map_values(|t: TypeDecl| t@) =~= Seq::<TypeDeclV>::empty());
        loop
            invariant_except_break
                ext_items(toks, j4, home, Seq::empty(), Seq::empty()) == ext_items(
                    toks,
                    self.i as int,
                    home,
                    sigs@.map_values(|g: ExtSig| g@),
                    types@.map_values(|t: TypeDecl| t@),
                ),
            invariant
                self.placed(),
                self.toks@ == toks,
                ts == kinds(toks),
                self.toks == old(self).toks,
                self.depth == 0,
                self.home == old(self).home,
                home == self.home@,
                i0 == old(self).i as int,
                self.i >= j4 > i0,
                ext_from(toks, i0, home) == ext_closed(
                    span,
                    header@,
                    texts_of(links@),
                    texts_of(pkgs@),
                    ext_items(toks, j4, home, Seq::empty(), Seq::empty()),
                ),
            ensures
                ext_items(toks, j4, home, Seq::empty(), Seq::empty()) == Ok::<
                    (Seq<ExtSigV>, Seq<TypeDeclV>, int),
                    Failure,
                >((sigs@.map_values(|g: ExtSig| g@), types@.map_values(|t: TypeDecl| t@), self.i as int)),
            decreases self.toks@.len() - self.i,
        {
            self.skip_newlines();
            if self.eat_kw("end") {
                break;
            }
            assert(ts[self.i as int] == toks[self.i as int].tok@);
            let eof = match &self.cur().tok {
                Tok::Eof => true,
                _ => false,
            };
            if eof {
                return Err(
                    self.err("parse.ext", "expected `end` to close the `ext c` block").with_fix(
                        "add `end` after the last signature",
                    ),
                );
            }
            if self.cur().is_kw("type") {
                let td = match self.typedecl() {
                    Ok(t) => t,
                    Err(x) => {
                        return Err(x);
                    },
                };
                let ghost before = types@;
                let ghost tv = td@;
                types.push(td);
                assert(types@.map_values(|t: TypeDecl| t@) =~= before.map_values(|t: TypeDecl| t@).push(tv));
            } else {
                let g = match self.sig() {
                    Ok(g) => g,
                    Err(x) => {
                        return Err(x);
                    },
                };
                let ghost before = sigs@;
                let ghost gv = g@;
                sigs.push(g);
                assert(sigs@.map_values(|g: ExtSig| g@) =~= before.map_values(|g: ExtSig| g@).push(gv));
            }
        }
        Ok(ExtBlock { header, links, pkgs, sigs, types, span })
    }
}


impl Parser {
    /// A type, as a part of a declaration.
    fn read_type(&mut self) -> (r: Result<Ty, Diag>)
        requires
            old(self).placed(),
        ensures
            read_to(r, *final(self), *old(self), type_at(old(self).toks@, old(self).i as int, old(self).depth as int)),
    {
        reveal(type_at);
        self.ty()
    }
}


impl Parser {
    /// The parameters of a function.
    #[verifier::spinoff_prover]
    #[verifier::rlimit(60)]
    fn params(&mut self) -> (r: Result<Vec<Param>, Diag>)
        requires
            old(self).placed(),
            old(self).depth == 0,
        ensures
            final(self).toks == old(self).toks,
            final(self).home == old(self).home,
            r is Ok ==> final(self).placed() && final(self).i >= old(self).i && final(self).depth == old(self).depth,
            match params_from(old(self).toks@, old(self).i as int, Seq::empty()) {
                Ok((ps, j)) => r matches Ok(v) && v@.map_values(|p: Param| p@) == ps && final(self).i == j,
                Err(f) => r matches Err(d) && reports_failure(d, old(self).toks@, f),
            },
    {
        let ghost toks = self.toks@;
        let ghost ts = kinds(toks);
        let ghost i0 = self.i as int;
        let mut v: Vec<Param> = Vec::new();
        assert(v@.map_values(|p: Param| p@) =~= Seq::<ParamV>::empty());
        loop
            invariant_except_break
                params_from(toks, i0, Seq::empty()) == params_from(toks, self.i as int, v@.map_values(|p: Param| p@)),
            invariant
                self.placed(),
                self.toks@ == toks,
                ts == kinds(toks),
                self.toks == old(self).toks,
                self.depth == 0,
                self.home == old(self).home,
                i0 == old(self).i as int,
                self.i >= i0,
            ensures
                params_from(toks, i0, Seq::empty()) == Ok::<(Seq<ParamV>, int), Failure>(
                    (v@.map_values(|p: Param| p@), self.i as int),
                ),
            decreases self.toks@.len() - self.i,
        {
            let ghost i1 = self.i as int;
            assert(ts[self.i as int] == toks[self.i as int].tok@);
            let span = self.cur().span;
            let single = match &self.cur().tok {
                Tok::Name(n) => Some(n.clone()),
                _ => None,
            };
            let ghost before = v@;
            match single {
                Some(n) => {
                    assert(self.i < self.toks.len() - 1);
                    self.i += 1;
                    let mut names: Vec<String> = Vec::new();
                    names.push(n);
                    let refines: Vec<Expr> = Vec::new();
                    assert(texts_of(names@) =~= seq![n@]);
                    assert(exprs_view(refines@) =~= Seq::<ExprV>::empty());
                    let p = Param { names, ty: None, refines, span };
                    let ghost pv = p@;
                    v.push(p);
                    assert(v@.map_values(|p: Param| p@) =~= before.map_values(|p: Param| p@).push(pv));
                },
                None => {
                    if !self.cur().is_sym("(") {
                        break;
                    }
                    assert(self.i < self.toks.len() - 1);
                    self.i += 1;
                    self.depth += 1;
                    let names = self.bare_names();
                    if names.len() == 0 {
                        return Err(self.err("parse.param", "expected parameter names before `:`"));
                    }
                    match self.expect_sym(":") {
                        Ok(()) => {},
                        Err(x) => {
                            return Err(x);
                        },
                    }
                    let ty = match self.read_type() {
                        Ok(t) => t,
                        Err(x) => {
                            return Err(x);
                        },
                    };
                    let refines = match self.refines() {
                        Ok(rs) => rs,
                        Err(x) => {
                            return Err(x);
                        },
                    };
                    self.depth -= 1;
                    match self.expect_sym(")") {
                        Ok(()) => {},
                        Err(x) => {
                            return Err(x);
                        },
                    }
                    let p = Param { names, ty: Some(ty), refines, span };
                    let ghost pv = p@;
                    v.push(p);
                    assert(v@.map_values(|p: Param| p@) =~= before.map_values(|p: Param| p@).push(pv));
                },
            }
        }
        Ok(v)
    }

    /// A function declaration, from its name.
    #[verifier::spinoff_prover]
    #[verifier::rlimit(60)]
    fn fundecl(&mut self, is_ghost: bool) -> (r: Result<FunDecl, Diag>)
        requires
            old(self).placed(),
            old(self).depth == 0,
        ensures
            read_to(r, *final(self), *old(self), fundecl_from(old(self).toks@, old(self).i as int, old(self).home@, is_ghost)),
    {
        let span = self.cur().span;
        let name = match self.name() {
            Ok(n) => n,
            Err(x) => {
                return Err(x);
            },
        };
        let params = match self.params() {
            Ok(ps) => ps,
            Err(x) => {
                return Err(x);
            },
        };
        let ret = if self.eat_sym(":") {
            match self.read_type() {
                Ok(t) => Some(t),
                Err(x) => {
                    return Err(x);
                },
            }
        } else {
            None
        };
        match self.expect_sym("=") {
            Ok(()) => {},
            Err(x) => {
                return Err(x);
            },
        }
        let body = match self.read_body() {
            Ok(b) => b,
            Err(x) => {
                return Err(x);
            },
        };
        let measure = if self.eat_sym("%") {
            match self.read_expr() {
                Ok(e) => Some(e),
                Err(x) => {
                    return Err(x);
                },
            }
        } else {
            None
        };
        match self.end_of_line() {
            Ok(()) => {},
            Err(x) => {
                return Err(x);
            },
        }
        Ok(FunDecl { name, home: self.home.clone(), is_ghost, params, ret, body, measure, span })
    }

    /// One declaration.
    fn decl(&mut self) -> (r: Result<Decl, Diag>)
        requires
            old(self).placed(),
            old(self).depth == 0,
        ensures
            read_to(r, *final(self), *old(self), decl_from(old(self).toks@, old(self).i as int, old(self).home@)),
    {
        if self.cur().is_kw("type") {
            return match self.typedecl() {
                Ok(t) => Ok(Decl::Type(t)),
                Err(x) => Err(x),
            };
        }
        if self.cur().is_kw("ext") {
            return match self.extblock() {
                Ok(x) => Ok(Decl::Ext(x)),
                Err(x) => Err(x),
            };
        }
        if self.cur().is_kw("exp") {
            return self.expdecl();
        }
        let g = self.eat_kw("ghost");
        match self.fundecl(g) {
            Ok(f) => Ok(Decl::Fun(f)),
            Err(x) => Err(x),
        }
    }

    /// A module: the `mod` line and every declaration after it.
    fn module(&mut self) -> (r: Result<Module, Diag>)
        requires
            old(self).placed(),
            old(self).depth == 0,
            old(self).i == 0,
        ensures
            match module_from(old(self).toks@) {
                Ok(m) => r matches Ok(x) && x@ == m,
                Err(f) => r matches Err(d) && reports_failure(d, old(self).toks@, f),
            },
    {
        let ghost toks = self.toks@;
        let ghost ts = kinds(toks);
        self.skip_newlines();
        let span = self.cur().span;
        if !self.eat_kw("mod") {
            return Err(
                self.err("parse.mod", "a module must start with `mod <Name>`").with_fix("add `mod MyModule` as the first line"),
            );
        }
        let name = match self.ctor() {
            Ok(n) => n,
            Err(x) => {
                return Err(x);
            },
        };
        self.home = name.clone();
        match self.end_of_line() {
            Ok(()) => {},
            Err(x) => {
                return Err(x);
            },
        }
        let ghost j2 = self.i as int;
        let mut decls: Vec<Decl> = Vec::new();
        assert(decls@.map_values(|d: Decl| d@) =~= Seq::<DeclV>::empty());
        loop
            invariant_except_break
                decls_from(toks, j2, name@, Seq::empty()) == decls_from(
                    toks,
                    self.i as int,
                    name@,
                    decls@.map_values(|d: Decl| d@),
                ),
            invariant
                self.placed(),
                self.toks@ == toks,
                ts == kinds(toks),
                self.toks == old(self).toks,
                self.depth == 0,
                self.home@ == name@,
                self.i >= j2,
                module_from(toks) == (match decls_from(toks, j2, name@, Seq::empty()) {
                    Err(f) => Err(f),
                    Ok((ds, _)) => Ok(ModuleV { name: name@, decls: ds, span }),
                }),
            ensures
                decls_from(toks, j2, name@, Seq::empty()) == Ok::<(Seq<DeclV>, int), Failure>(
                    (decls@.map_values(|d: Decl| d@), self.i as int),
                ),
            decreases self.toks@.len() - self.i,
        {
            self.skip_newlines();
            assert(ts[self.i as int] == toks[self.i as int].tok@);
            let eof = match &self.cur().tok {
                Tok::Eof => true,
                _ => false,
            };
            if eof {
                break;
            }
            let dl = match self.decl() {
                Ok(d) => d,
                Err(x) => {
                    return Err(x);
                },
            };
            let ghost before = decls@;
            let ghost dv = dl@;
            decls.push(dl);
            assert(decls@.map_values(|d: Decl| d@) =~= before.map_values(|d: Decl| d@).push(dv));
        }
        Ok(Module { name, decls, span })
    }
}

/// Reads a module from its tokens.
pub fn parse(toks: Vec<Token>) -> (r: Result<Module, Diag>)
    requires
        well_ended(kinds(toks@)),
    ensures
        match module_from(toks@) {
            Ok(m) => r matches Ok(x) && x@ == m,
            Err(f) => r matches Err(d) && reports_failure(d, toks@, f),
        },
{
    let mut p = Parser { toks, i: 0, depth: 0, home: String::new() };
    p.module()
}


// ------------------------------------------------------------ what every parsed module keeps

/// A declaration belongs to the module `home`: a function or a type names it
/// as its home, and so does every type an `ext c` block declares.
pub open spec fn declared_in(dl: DeclV, home: Seq<char>) -> bool {
    match dl {
        DeclV::Fun(f) => f.home == home,
        DeclV::Type(t) => t.home == home,
        DeclV::Ext(x) => forall|j: int| 0 <= j < x.types.len() ==> (#[trigger] x.types[j]).home == home,
        DeclV::Exp(_, _) => true,
    }
}

pub proof fn lemma_typedecl_home(toks: Seq<Token>, k: int, home: Seq<char>)
    ensures
        typedecl_from(toks, k, home) matches Ok((t, _)) ==> t.home == home,
{
}

pub proof fn lemma_ext_items_home(
    toks: Seq<Token>,
    i: int,
    home: Seq<char>,
    sigs: Seq<ExtSigV>,
    types: Seq<TypeDeclV>,
)
    requires
        forall|j: int| 0 <= j < types.len() ==> (#[trigger] types[j]).home == home,
    ensures
        ext_items(toks, i, home, sigs, types) matches Ok((_, ts, _)) ==> forall|j: int|
            0 <= j < ts.len() ==> (#[trigger] ts[j]).home == home,
    decreases toks.len() - i,
{
    let ts = kinds(toks);
    let k = synced(ts, i);
    let (e, j) = kw_from(toks, k, 0, "end"@);
    if !e && !(cur_at(ts, k) is Eof) {
        if cur_at(ts, k) == TokV::Kw("type"@) {
            lemma_typedecl_home(toks, k, home);
            match typedecl_from(toks, k, home) {
                Ok((td, j1)) => if i < j1 <= toks.len() {
                    assert forall|m: int| 0 <= m < types.push(td).len() implies (#[trigger] types.push(td)[m]).home
                        == home by {
                        if m < types.len() {
                            assert(types.push(td)[m] == types[m]);
                        }
                    }
                    lemma_ext_items_home(toks, j1, home, sigs, types.push(td));
                },
                Err(_) => {},
            }
        } else {
            match sig_from(toks, k) {
                Ok((sg, j1)) => if i < j1 <= toks.len() {
                    lemma_ext_items_home(toks, j1, home, sigs.push(sg), types);
                },
                Err(_) => {},
            }
        }
    }
}

pub proof fn lemma_decl_home(toks: Seq<Token>, k: int, home: Seq<char>)
    ensures
        decl_from(toks, k, home) matches Ok((dl, _)) ==> declared_in(dl, home),
{
    let t = cur_at(kinds(toks), k);
    if t == TokV::Kw("type"@) {
        lemma_typedecl_home(toks, k, home);
    } else if t == TokV::Kw("ext"@) {
        let (_, j0) = kw_from(toks, k, 0, "ext"@);
        let (c, j1) = word_from(toks, j0, 0, "c"@);
        if c {
            match str_from(toks, j1, 0, "expected a header name in quotes"@) {
                Ok((header, j2)) => match links_from(toks, j2, Seq::empty(), Seq::empty()) {
                    Ok((links, pkgs, j3)) => match eol_from(toks, j3) {
                        Ok(j4) => {
                            lemma_ext_items_home(toks, j4, home, Seq::empty(), Seq::empty());
                        },
                        Err(_) => {},
                    },
                    Err(_) => {},
                },
                Err(_) => {},
            }
        }
    }
}

pub proof fn lemma_decls_home(toks: Seq<Token>, i: int, home: Seq<char>, acc: Seq<DeclV>)
    requires
        forall|j: int| 0 <= j < acc.len() ==> declared_in(#[trigger] acc[j], home),
    ensures
        decls_from(toks, i, home, acc) matches Ok((ds, _)) ==> forall|j: int|
            0 <= j < ds.len() ==> declared_in(#[trigger] ds[j], home),
    decreases toks.len() - i,
{
    let ts = kinds(toks);
    let k = synced(ts, i);
    if !(cur_at(ts, k) is Eof) {
        lemma_decl_home(toks, k, home);
        match decl_from(toks, k, home) {
            Ok((dl, j)) => if i < j <= toks.len() {
                assert forall|m: int| 0 <= m < acc.push(dl).len() implies declared_in(#[trigger] acc.push(dl)[m], home) by {
                    if m < acc.len() {
                        assert(acc.push(dl)[m] == acc[m]);
                    }
                }
                lemma_decls_home(toks, j, home, acc.push(dl));
            },
            Err(_) => {},
        }
    }
}

/// Every function and type a parsed module declares, at the top level or in
/// an `ext c` block, has that module as its home.
pub proof fn lemma_parsed_decls_are_home(toks: Seq<Token>)
    requires
        module_from(toks) is Ok,
    ensures
        forall|j: int|
            0 <= j < module_from(toks)->Ok_0.decls.len() ==> declared_in(
                #[trigger] module_from(toks)->Ok_0.decls[j],
                module_from(toks)->Ok_0.name,
            ),
{
    let ts = kinds(toks);
    let k = synced(ts, 0);
    let (_, j0) = kw_from(toks, k, 0, "mod"@);
    match ctor_from(toks, j0, 0) {
        Ok((name, j1)) => match eol_from(toks, j1) {
            Ok(j2) => {
                lemma_decls_home(toks, j2, name, Seq::empty());
            },
            Err(_) => {},
        },
        Err(_) => {},
    }
}

} // verus!
