//! Abstract syntax: the surface types a signature is written in.

use vstd::prelude::*;
use crate::text::owned;
use crate::diag::Span;

verus! {

#[derive(Debug)]
pub enum Ty {
    /// `TypeName arg arg`, also the 0-ary case (`U64`, `Str`, a user ADT).
    Con(String, Vec<Ty>),
    /// Lower-case type variable in a signature (`a`, `b`).
    Var(String),
    Fun(Box<Ty>, Box<Ty>),
    /// `&T`.
    Ref(Box<Ty>),
    /// `E! T`.
    Eff(Box<Ty>),
    Tuple(Vec<Ty>),
}

/// What a written type is: its names as character sequences.
pub enum TyV {
    Con(Seq<char>, Seq<TyV>),
    Var(Seq<char>),
    Fun(Box<TyV>, Box<TyV>),
    Ref(Box<TyV>),
    Eff(Box<TyV>),
    Tuple(Seq<TyV>),
}

pub open spec fn ty_view(t: Ty) -> TyV
    decreases t,
{
    match t {
        Ty::Con(n, args) => TyV::Con(n@, tys_view(args@)),
        Ty::Var(n) => TyV::Var(n@),
        Ty::Fun(a, b) => TyV::Fun(Box::new(ty_view(*a)), Box::new(ty_view(*b))),
        Ty::Ref(a) => TyV::Ref(Box::new(ty_view(*a))),
        Ty::Eff(a) => TyV::Eff(Box::new(ty_view(*a))),
        Ty::Tuple(ts) => TyV::Tuple(tys_view(ts@)),
    }
}

/// The views of a sequence of types.
pub open spec fn tys_view(ts: Seq<Ty>) -> Seq<TyV>
    decreases ts,
{
    if ts.len() == 0 {
        Seq::empty()
    } else {
        tys_view(ts.drop_last()).push(ty_view(ts.last()))
    }
}

impl View for Ty {
    type V = TyV;

    open spec fn view(&self) -> TyV {
        ty_view(*self)
    }
}

pub proof fn lemma_tys_view(ts: Seq<Ty>)
    ensures
        tys_view(ts).len() == ts.len(),
        forall|i: int| 0 <= i < ts.len() ==> #[trigger] tys_view(ts)[i] == ts[i]@,
    decreases ts.len(),
{
    if ts.len() > 0 {
        lemma_tys_view(ts.drop_last());
    }
}

/// A copy of `t`, equal to it.
pub fn copy_ty(t: &Ty) -> (r: Ty)
    ensures
        r@ == t@,
    decreases t,
{
    match t {
        Ty::Con(n, args) => {
            Ty::Con(n.clone(), copy_tys(args))
        },
        Ty::Var(n) => Ty::Var(n.clone()),
        Ty::Fun(a, b) => Ty::Fun(Box::new(copy_ty(a)), Box::new(copy_ty(b))),
        Ty::Ref(a) => Ty::Ref(Box::new(copy_ty(a))),
        Ty::Eff(a) => Ty::Eff(Box::new(copy_ty(a))),
        Ty::Tuple(ts) => {
            Ty::Tuple(copy_tys(ts))
        },
    }
}

/// A copy of every type in `ts`.
pub fn copy_tys(ts: &Vec<Ty>) -> (r: Vec<Ty>)
    ensures
        tys_view(r@) == tys_view(ts@),
    decreases ts,
{
    let mut out: Vec<Ty> = Vec::new();
    for i in 0..ts.len()
        invariant
            tys_view(out@) == tys_view(ts@.take(i as int)),
    {
        proof {
            assert(decreases_to!(ts => ts@[i as int]));
        }
        let ghost prev = out@;
        let c = copy_ty(&ts[i]);
        out.push(c);
        assert(out@.drop_last() == prev);
        assert(ts@.take(i + 1).drop_last() == ts@.take(i as int));
    }
    assert(ts@.take(ts@.len() as int) == ts@);
    out
}

impl Clone for Ty {
    fn clone(&self) -> (r: Ty)
        ensures
            r@ == self@,
    {
        copy_ty(self)
    }
}

impl Ty {
    pub fn unit() -> (t: Ty)
        ensures
            t@ == TyV::Con("Unit"@, Seq::empty()),
    {
        let v: Vec<Ty> = Vec::new();
        assert(tys_view(v@) == Seq::<TyV>::empty());
        Ty::Con(owned("Unit"), v)
    }

    pub fn con(n: &str) -> (t: Ty)
        ensures
            t@ == TyV::Con(n@, Seq::empty()),
    {
        let v: Vec<Ty> = Vec::new();
        assert(tys_view(v@) == Seq::<TyV>::empty());
        Ty::Con(owned(n), v)
    }
}

/// A pattern. A decimal literal is kept as it was written, digits and
/// point, without underscores.
#[derive(Debug)]
pub enum Pat {
    Wild,
    Var(String),
    Int(u64),
    Float(String),
    Str(String),
    Char(char),
    Bool(bool),
    Ctor(String, Vec<Pat>),
    List(Vec<Pat>),
    Tuple(Vec<Pat>),
}

/// What a pattern is, with its names as character sequences.
pub enum PatV {
    Wild,
    Var(Seq<char>),
    Int(int),
    Float(Seq<char>),
    Str(Seq<char>),
    Char(char),
    Bool(bool),
    Ctor(Seq<char>, Seq<PatV>),
    List(Seq<PatV>),
    Tuple(Seq<PatV>),
}

pub open spec fn pat_view(p: Pat) -> PatV
    decreases p,
{
    match p {
        Pat::Wild => PatV::Wild,
        Pat::Var(n) => PatV::Var(n@),
        Pat::Int(n) => PatV::Int(n as int),
        Pat::Float(x) => PatV::Float(x@),
        Pat::Str(x) => PatV::Str(x@),
        Pat::Char(c) => PatV::Char(c),
        Pat::Bool(b) => PatV::Bool(b),
        Pat::Ctor(n, ps) => PatV::Ctor(n@, pats_view(ps@)),
        Pat::List(ps) => PatV::List(pats_view(ps@)),
        Pat::Tuple(ps) => PatV::Tuple(pats_view(ps@)),
    }
}

/// The views of a sequence of patterns.
pub open spec fn pats_view(ps: Seq<Pat>) -> Seq<PatV>
    decreases ps,
{
    if ps.len() == 0 {
        Seq::empty()
    } else {
        pats_view(ps.drop_last()).push(pat_view(ps.last()))
    }
}

impl View for Pat {
    type V = PatV;

    open spec fn view(&self) -> PatV {
        pat_view(*self)
    }
}

pub proof fn lemma_pats_view(ps: Seq<Pat>)
    ensures
        pats_view(ps).len() == ps.len(),
        forall|i: int| 0 <= i < ps.len() ==> #[trigger] pats_view(ps)[i] == ps[i]@,
    decreases ps.len(),
{
    if ps.len() > 0 {
        lemma_pats_view(ps.drop_last());
    }
}

/// The names a pattern binds, left to right, each as often as it is bound.
pub open spec fn pat_names_of(p: PatV) -> Seq<Seq<char>>
    decreases p, 0int,
{
    match p {
        PatV::Var(n) => seq![n],
        PatV::Ctor(_, ps) => pats_names_of(ps),
        PatV::List(ps) => pats_names_of(ps),
        PatV::Tuple(ps) => pats_names_of(ps),
        _ => Seq::empty(),
    }
}

pub open spec fn pats_names_of(ps: Seq<PatV>) -> Seq<Seq<char>>
    decreases ps, 1int,
{
    if ps.len() == 0 {
        Seq::empty()
    } else {
        pats_names_of(ps.drop_last()) + pat_names_of(ps.last())
    }
}

/// An expression with where it starts.
#[derive(Debug)]
pub struct Expr {
    pub kind: ExprKind,
    pub span: Span,
}

/// The forms of expression. A decimal literal is kept as it was written.
#[derive(Debug)]
pub enum ExprKind {
    Int(u64),
    Float(String),
    Str(String),
    Char(char),
    Bool(bool),
    Unit,
    Var(String),
    Ctor(String),
    App(Box<Expr>, Vec<Expr>),
    Binop(String, Box<Expr>, Box<Expr>),
    Neg(Box<Expr>),
    Not(Box<Expr>),
    Match(Box<Expr>, Vec<(Pat, Expr)>),
    /// `name <- value` followed by the rest of the effectful block.
    Bind(String, Box<Expr>, Box<Expr>),
    Let(String, Box<Expr>, Box<Expr>),
    Lambda(Vec<String>, Box<Expr>),
    /// `{f = v, ...}` or `{base with f = v, ...}`.
    Record(Option<Box<Expr>>, Vec<(String, Expr)>),
    Field(Box<Expr>, String),
    Borrow(Box<Expr>),
    /// `arena a in body`: everything the body allocates dies with the block.
    Arena(String, Box<Expr>),
    Tuple(Vec<Expr>),
    List(Vec<Expr>),
}

/// What an expression is, with its names as character sequences.
pub struct ExprV {
    pub kind: KindV,
    pub span: Span,
}

pub enum KindV {
    Int(int),
    Float(Seq<char>),
    Str(Seq<char>),
    Char(char),
    Bool(bool),
    Unit,
    Var(Seq<char>),
    Ctor(Seq<char>),
    App(Box<ExprV>, Seq<ExprV>),
    Binop(Seq<char>, Box<ExprV>, Box<ExprV>),
    Neg(Box<ExprV>),
    Not(Box<ExprV>),
    Match(Box<ExprV>, Seq<(PatV, ExprV)>),
    Bind(Seq<char>, Box<ExprV>, Box<ExprV>),
    Let(Seq<char>, Box<ExprV>, Box<ExprV>),
    Lambda(Seq<Seq<char>>, Box<ExprV>),
    Record(Option<Box<ExprV>>, Seq<(Seq<char>, ExprV)>),
    Field(Box<ExprV>, Seq<char>),
    Borrow(Box<ExprV>),
    Arena(Seq<char>, Box<ExprV>),
    Tuple(Seq<ExprV>),
    List(Seq<ExprV>),
}

pub open spec fn expr_view(e: Expr) -> ExprV
    decreases e, 0int,
{
    ExprV { kind: kind_view(e.kind), span: e.span }
}

pub open spec fn kind_view(k: ExprKind) -> KindV
    decreases k, 0int,
{
    match k {
        ExprKind::Int(n) => KindV::Int(n as int),
        ExprKind::Float(x) => KindV::Float(x@),
        ExprKind::Str(x) => KindV::Str(x@),
        ExprKind::Char(c) => KindV::Char(c),
        ExprKind::Bool(b) => KindV::Bool(b),
        ExprKind::Unit => KindV::Unit,
        ExprKind::Var(n) => KindV::Var(n@),
        ExprKind::Ctor(n) => KindV::Ctor(n@),
        ExprKind::App(f, xs) => KindV::App(Box::new(expr_view(*f)), exprs_view(xs@)),
        ExprKind::Binop(o, a, b) => KindV::Binop(o@, Box::new(expr_view(*a)), Box::new(expr_view(*b))),
        ExprKind::Neg(x) => KindV::Neg(Box::new(expr_view(*x))),
        ExprKind::Not(x) => KindV::Not(Box::new(expr_view(*x))),
        ExprKind::Match(x, arms) => KindV::Match(Box::new(expr_view(*x)), arms_view(arms@)),
        ExprKind::Bind(n, a, b) => KindV::Bind(n@, Box::new(expr_view(*a)), Box::new(expr_view(*b))),
        ExprKind::Let(n, a, b) => KindV::Let(n@, Box::new(expr_view(*a)), Box::new(expr_view(*b))),
        ExprKind::Lambda(ps, b) => KindV::Lambda(ps@.map_values(|s: String| s@), Box::new(expr_view(*b))),
        ExprKind::Record(base, fs) => KindV::Record(
            match base {
                Some(x) => Some(Box::new(expr_view(*x))),
                None => None,
            },
            fields_view(fs@),
        ),
        ExprKind::Field(x, f) => KindV::Field(Box::new(expr_view(*x)), f@),
        ExprKind::Borrow(x) => KindV::Borrow(Box::new(expr_view(*x))),
        ExprKind::Arena(n, b) => KindV::Arena(n@, Box::new(expr_view(*b))),
        ExprKind::Tuple(xs) => KindV::Tuple(exprs_view(xs@)),
        ExprKind::List(xs) => KindV::List(exprs_view(xs@)),
    }
}

pub open spec fn exprs_view(xs: Seq<Expr>) -> Seq<ExprV>
    decreases xs, 1int,
{
    if xs.len() == 0 {
        Seq::empty()
    } else {
        exprs_view(xs.drop_last()).push(expr_view(xs.last()))
    }
}

pub open spec fn arms_view(xs: Seq<(Pat, Expr)>) -> Seq<(PatV, ExprV)>
    decreases xs, 1int,
{
    if xs.len() == 0 {
        Seq::empty()
    } else {
        arms_view(xs.drop_last()).push((xs.last().0@, expr_view(xs.last().1)))
    }
}

pub open spec fn fields_view(xs: Seq<(String, Expr)>) -> Seq<(Seq<char>, ExprV)>
    decreases xs, 1int,
{
    if xs.len() == 0 {
        Seq::empty()
    } else {
        fields_view(xs.drop_last()).push((xs.last().0@, expr_view(xs.last().1)))
    }
}

impl View for Expr {
    type V = ExprV;

    open spec fn view(&self) -> ExprV {
        expr_view(*self)
    }
}

impl Expr {
    pub fn new(kind: ExprKind, span: Span) -> (e: Expr)
        ensures
            e.kind == kind,
            e.span == span,
    {
        Expr { kind, span }
    }

    /// `arena n in b`.
    pub fn arena(n: String, b: Expr, span: Span) -> (e: Expr)
        ensures
            e@ == (ExprV { kind: KindV::Arena(n@, Box::new(b@)), span }),
    {
        Expr { kind: ExprKind::Arena(n, Box::new(b)), span }
    }

    /// `f args`.
    pub fn app(f: Box<Expr>, args: Vec<Expr>, span: Span) -> (e: Expr)
        ensures
            e@ == (ExprV { kind: KindV::App(Box::new((*f)@), exprs_view(args@)), span }),
    {
        Expr { kind: ExprKind::App(f, args), span }
    }

    /// `n <- a ; b`, or `a ; b` under the sequencing name.
    pub fn bind(n: String, a: Expr, b: Expr, span: Span) -> (e: Expr)
        ensures
            e@ == (ExprV { kind: KindV::Bind(n@, Box::new(a@), Box::new(b@)), span }),
    {
        Expr { kind: ExprKind::Bind(n, Box::new(a), Box::new(b)), span }
    }

    /// `let n = a in b`.
    pub fn let_in(n: String, a: Expr, b: Expr, span: Span) -> (e: Expr)
        ensures
            e@ == (ExprV { kind: KindV::Let(n@, Box::new(a@), Box::new(b@)), span }),
    {
        Expr { kind: ExprKind::Let(n, Box::new(a), Box::new(b)), span }
    }

    /// `a op b`.
    pub fn binop(op: String, a: Expr, b: Expr, span: Span) -> (e: Expr)
        ensures
            e@ == (ExprV { kind: KindV::Binop(op@, Box::new(a@), Box::new(b@)), span }),
    {
        Expr { kind: ExprKind::Binop(op, Box::new(a), Box::new(b)), span }
    }

    /// `- x`.
    pub fn neg(x: Expr, span: Span) -> (e: Expr)
        ensures
            e@ == (ExprV { kind: KindV::Neg(Box::new(x@)), span }),
    {
        Expr { kind: ExprKind::Neg(Box::new(x)), span }
    }

    /// `! x`.
    pub fn not(x: Expr, span: Span) -> (e: Expr)
        ensures
            e@ == (ExprV { kind: KindV::Not(Box::new(x@)), span }),
    {
        Expr { kind: ExprKind::Not(Box::new(x)), span }
    }

    /// `& x`.
    pub fn borrow(x: Expr, span: Span) -> (e: Expr)
        ensures
            e@ == (ExprV { kind: KindV::Borrow(Box::new(x@)), span }),
    {
        Expr { kind: ExprKind::Borrow(Box::new(x)), span }
    }

    /// `x.f`.
    pub fn field(x: Expr, f: String, span: Span) -> (e: Expr)
        ensures
            e@ == (ExprV { kind: KindV::Field(Box::new(x@), f@), span }),
    {
        Expr { kind: ExprKind::Field(Box::new(x), f), span }
    }

    /// A constructor name.
    pub fn ctor(n: String, span: Span) -> (e: Expr)
        ensures
            e@ == (ExprV { kind: KindV::Ctor(n@), span }),
    {
        Expr { kind: ExprKind::Ctor(n), span }
    }

    /// A variable.
    pub fn var(n: String, span: Span) -> (e: Expr)
        ensures
            e@ == (ExprV { kind: KindV::Var(n@), span }),
    {
        Expr { kind: ExprKind::Var(n), span }
    }

    /// `\ ps -> b`.
    pub fn lambda(ps: Vec<String>, b: Expr, span: Span) -> (e: Expr)
        ensures
            e@ == (ExprV { kind: KindV::Lambda(ps@.map_values(|s: String| s@), Box::new(b@)), span }),
    {
        Expr { kind: ExprKind::Lambda(ps, Box::new(b)), span }
    }

    /// `()`.
    pub fn unit(span: Span) -> (e: Expr)
        ensures
            e@ == (ExprV { kind: KindV::Unit, span }),
    {
        Expr { kind: ExprKind::Unit, span }
    }

    /// `(a, b, ...)`.
    pub fn tuple(xs: Vec<Expr>, span: Span) -> (e: Expr)
        ensures
            e@ == (ExprV { kind: KindV::Tuple(exprs_view(xs@)), span }),
    {
        Expr { kind: ExprKind::Tuple(xs), span }
    }

    /// `[a, b, ...]`.
    pub fn list(xs: Vec<Expr>, span: Span) -> (e: Expr)
        ensures
            e@ == (ExprV { kind: KindV::List(exprs_view(xs@)), span }),
    {
        Expr { kind: ExprKind::List(xs), span }
    }

    /// `{ base with f = v, ... }`.
    pub fn record(base: Option<Box<Expr>>, fs: Vec<(String, Expr)>, span: Span) -> (e: Expr)
        ensures
            e@ == (ExprV {
                kind: KindV::Record(
                    match base {
                        Some(x) => Some(Box::new((*x)@)),
                        None => None,
                    },
                    fields_view(fs@),
                ),
                span,
            }),
    {
        Expr { kind: ExprKind::Record(base, fs), span }
    }

    /// `? x | p -> b ... end`.
    pub fn match_of(x: Expr, arms: Vec<(Pat, Expr)>, span: Span) -> (e: Expr)
        ensures
            e@ == (ExprV { kind: KindV::Match(Box::new(x@), arms_view(arms@)), span }),
    {
        Expr { kind: ExprKind::Match(Box::new(x), arms), span }
    }
}

pub proof fn lemma_exprs_view(xs: Seq<Expr>)
    ensures
        exprs_view(xs).len() == xs.len(),
        forall|i: int| 0 <= i < xs.len() ==> #[trigger] exprs_view(xs)[i] == xs[i]@,
    decreases xs.len(),
{
    if xs.len() > 0 {
        lemma_exprs_view(xs.drop_last());
    }
}

/// One constructor of a variant type, with the types it takes.
#[derive(Debug)]
pub struct VariantDef {
    pub name: String,
    pub args: Vec<Ty>,
}

/// A parameter group: a bare name, or `(a b : T, refinement, ...)`.
#[derive(Debug)]
pub struct Param {
    pub names: Vec<String>,
    pub ty: Option<Ty>,
    pub refines: Vec<Expr>,
    pub span: Span,
}

/// A function declaration.
#[derive(Debug)]
pub struct FunDecl {
    pub name: String,
    /// The module the function is declared in.
    pub home: String,
    pub is_ghost: bool,
    pub params: Vec<Param>,
    pub ret: Option<Ty>,
    pub body: Expr,
    /// The termination measure after `%`.
    pub measure: Option<Expr>,
    pub span: Span,
}

/// The fields of a record type and the refinements it states.
#[derive(Debug)]
pub struct RecordDef {
    pub fields: Vec<(String, Ty)>,
    pub refines: Vec<Expr>,
}

#[derive(Debug)]
pub enum TypeBody {
    Record(RecordDef),
    Variants(Vec<VariantDef>),
    /// `type Window` inside an `ext c` block: an opaque C type.
    Opaque,
}

/// A type declaration.
#[derive(Debug)]
pub struct TypeDecl {
    pub name: String,
    /// The module the type is declared in.
    pub home: String,
    pub params: Vec<String>,
    pub body: TypeBody,
    pub span: Span,
}

/// A C function signature inside an `ext c` block.
#[derive(Debug)]
pub struct ExtSig {
    pub name: String,
    /// The C symbol, when it differs from the name (`name = "c_symbol"`).
    pub symbol: String,
    pub ty: Ty,
    pub refines: Vec<Expr>,
    pub span: Span,
}

/// An `ext c "header.h"` block.
#[derive(Debug)]
pub struct ExtBlock {
    pub header: String,
    /// `-l` names.
    pub links: Vec<String>,
    /// pkg-config package names.
    pub pkgs: Vec<String>,
    pub sigs: Vec<ExtSig>,
    pub types: Vec<TypeDecl>,
    pub span: Span,
}

#[derive(Debug)]
pub enum Decl {
    Type(TypeDecl),
    Fun(FunDecl),
    Ext(ExtBlock),
    /// `exp c name, name`: the functions a library exports.
    Exp(Vec<String>, Span),
}

/// A module: its name and its declarations in order.
#[derive(Debug)]
pub struct Module {
    pub name: String,
    pub decls: Vec<Decl>,
    pub span: Span,
}

/// The text of each string.
pub open spec fn texts_of(v: Seq<String>) -> Seq<Seq<char>> {
    v.map_values(|s: String| s@)
}

pub open spec fn opt_ty(t: Option<Ty>) -> Option<TyV> {
    match t {
        Some(x) => Some(x@),
        None => None,
    }
}

pub open spec fn opt_expr(e: Option<Expr>) -> Option<ExprV> {
    match e {
        Some(x) => Some(x@),
        None => None,
    }
}

pub struct ParamV {
    pub names: Seq<Seq<char>>,
    pub ty: Option<TyV>,
    pub refines: Seq<ExprV>,
    pub span: Span,
}

impl View for Param {
    type V = ParamV;

    open spec fn view(&self) -> ParamV {
        ParamV { names: texts_of(self.names@), ty: opt_ty(self.ty), refines: exprs_view(self.refines@), span: self.span }
    }
}

pub struct FunDeclV {
    pub name: Seq<char>,
    pub home: Seq<char>,
    pub is_ghost: bool,
    pub params: Seq<ParamV>,
    pub ret: Option<TyV>,
    pub body: ExprV,
    pub measure: Option<ExprV>,
    pub span: Span,
}

impl View for FunDecl {
    type V = FunDeclV;

    open spec fn view(&self) -> FunDeclV {
        FunDeclV {
            name: self.name@,
            home: self.home@,
            is_ghost: self.is_ghost,
            params: self.params@.map_values(|p: Param| p@),
            ret: opt_ty(self.ret),
            body: self.body@,
            measure: opt_expr(self.measure),
            span: self.span,
        }
    }
}

pub struct RecordDefV {
    pub fields: Seq<(Seq<char>, TyV)>,
    pub refines: Seq<ExprV>,
}

pub open spec fn typed_fields(v: Seq<(String, Ty)>) -> Seq<(Seq<char>, TyV)> {
    v.map_values(|f: (String, Ty)| (f.0@, f.1@))
}

impl View for RecordDef {
    type V = RecordDefV;

    open spec fn view(&self) -> RecordDefV {
        RecordDefV { fields: typed_fields(self.fields@), refines: exprs_view(self.refines@) }
    }
}

pub enum TypeBodyV {
    Record(RecordDefV),
    Variants(Seq<(Seq<char>, Seq<TyV>)>),
    Opaque,
}

pub open spec fn variants_view(v: Seq<VariantDef>) -> Seq<(Seq<char>, Seq<TyV>)> {
    v.map_values(|c: VariantDef| (c.name@, tys_view(c.args@)))
}

impl View for TypeBody {
    type V = TypeBodyV;

    open spec fn view(&self) -> TypeBodyV {
        match self {
            TypeBody::Record(r) => TypeBodyV::Record(r@),
            TypeBody::Variants(vs) => TypeBodyV::Variants(variants_view(vs@)),
            TypeBody::Opaque => TypeBodyV::Opaque,
        }
    }
}

pub struct TypeDeclV {
    pub name: Seq<char>,
    pub home: Seq<char>,
    pub params: Seq<Seq<char>>,
    pub body: TypeBodyV,
    pub span: Span,
}

impl View for TypeDecl {
    type V = TypeDeclV;

    open spec fn view(&self) -> TypeDeclV {
        TypeDeclV {
            name: self.name@,
            home: self.home@,
            params: texts_of(self.params@),
            body: self.body@,
            span: self.span,
        }
    }
}

pub struct ExtSigV {
    pub name: Seq<char>,
    pub symbol: Seq<char>,
    pub ty: TyV,
    pub refines: Seq<ExprV>,
    pub span: Span,
}

impl View for ExtSig {
    type V = ExtSigV;

    open spec fn view(&self) -> ExtSigV {
        ExtSigV {
            name: self.name@,
            symbol: self.symbol@,
            ty: self.ty@,
            refines: exprs_view(self.refines@),
            span: self.span,
        }
    }
}

pub struct ExtBlockV {
    pub header: Seq<char>,
    pub links: Seq<Seq<char>>,
    pub pkgs: Seq<Seq<char>>,
    pub sigs: Seq<ExtSigV>,
    pub types: Seq<TypeDeclV>,
    pub span: Span,
}

impl View for ExtBlock {
    type V = ExtBlockV;

    open spec fn view(&self) -> ExtBlockV {
        ExtBlockV {
            header: self.header@,
            links: texts_of(self.links@),
            pkgs: texts_of(self.pkgs@),
            sigs: self.sigs@.map_values(|g: ExtSig| g@),
            types: self.types@.map_values(|t: TypeDecl| t@),
            span: self.span,
        }
    }
}

pub enum DeclV {
    Type(TypeDeclV),
    Fun(FunDeclV),
    Ext(ExtBlockV),
    Exp(Seq<Seq<char>>, Span),
}

impl View for Decl {
    type V = DeclV;

    open spec fn view(&self) -> DeclV {
        match self {
            Decl::Type(t) => DeclV::Type(t@),
            Decl::Fun(f) => DeclV::Fun(f@),
            Decl::Ext(x) => DeclV::Ext(x@),
            Decl::Exp(ns, span) => DeclV::Exp(texts_of(ns@), *span),
        }
    }
}

pub struct ModuleV {
    pub name: Seq<char>,
    pub decls: Seq<DeclV>,
    pub span: Span,
}

impl View for Module {
    type V = ModuleV;

    open spec fn view(&self) -> ModuleV {
        ModuleV { name: self.name@, decls: self.decls@.map_values(|d: Decl| d@), span: self.span }
    }
}


/// The functions among `ds`, in order.
pub open spec fn funs_of(ds: Seq<Decl>) -> Seq<FunDecl>
    decreases ds.len(),
{
    if ds.len() == 0 {
        Seq::empty()
    } else {
        funs_of(ds.drop_last()) + match ds.last() {
            Decl::Fun(f) => seq![f],
            _ => Seq::empty(),
        }
    }
}

/// The `ext c` blocks among `ds`, in order.
pub open spec fn exts_of(ds: Seq<Decl>) -> Seq<ExtBlock>
    decreases ds.len(),
{
    if ds.len() == 0 {
        Seq::empty()
    } else {
        exts_of(ds.drop_last()) + match ds.last() {
            Decl::Ext(x) => seq![x],
            _ => Seq::empty(),
        }
    }
}

/// The types `ds` declare, in order: at the top level, and inside `ext c`
/// blocks.
pub open spec fn types_of(ds: Seq<Decl>) -> Seq<TypeDecl>
    decreases ds.len(),
{
    if ds.len() == 0 {
        Seq::empty()
    } else {
        types_of(ds.drop_last()) + match ds.last() {
            Decl::Type(t) => seq![t],
            Decl::Ext(x) => x.types@,
            _ => Seq::empty(),
        }
    }
}

/// The names every `exp c` line of `ds` exports, in order.
pub open spec fn exports_of(ds: Seq<Decl>) -> Seq<Seq<char>>
    decreases ds.len(),
{
    if ds.len() == 0 {
        Seq::empty()
    } else {
        exports_of(ds.drop_last()) + match ds.last() {
            Decl::Exp(ns, _) => texts_of(ns@),
            _ => Seq::empty(),
        }
    }
}

impl Module {
    /// The module's functions, in order.
    pub fn funs(&self) -> (r: Vec<&FunDecl>)
        ensures
            r@.map_values(|f: &FunDecl| *f) == funs_of(self.decls@),
    {
        let mut v: Vec<&FunDecl> = Vec::new();
        for i in 0..self.decls.len()
            invariant
                v@.map_values(|f: &FunDecl| *f) == funs_of(self.decls@.take(i as int)),
        {
            assert(self.decls@.take(i + 1).drop_last() == self.decls@.take(i as int));
            match &self.decls[i] {
                Decl::Fun(f) => {
                    v.push(f);
                },
                _ => {},
            }
            assert(v@.map_values(|f: &FunDecl| *f) =~= funs_of(self.decls@.take(i + 1)));
        }
        assert(self.decls@.take(self.decls@.len() as int) == self.decls@);
        v
    }

    /// The module's `ext c` blocks, in order.
    pub fn exts(&self) -> (r: Vec<&ExtBlock>)
        ensures
            r@.map_values(|x: &ExtBlock| *x) == exts_of(self.decls@),
    {
        let mut v: Vec<&ExtBlock> = Vec::new();
        for i in 0..self.decls.len()
            invariant
                v@.map_values(|x: &ExtBlock| *x) == exts_of(self.decls@.take(i as int)),
        {
            assert(self.decls@.take(i + 1).drop_last() == self.decls@.take(i as int));
            match &self.decls[i] {
                Decl::Ext(x) => {
                    v.push(x);
                },
                _ => {},
            }
            assert(v@.map_values(|x: &ExtBlock| *x) =~= exts_of(self.decls@.take(i + 1)));
        }
        assert(self.decls@.take(self.decls@.len() as int) == self.decls@);
        v
    }

    /// Every type the module declares, in order, those of its `ext c`
    /// blocks included.
    pub fn types(&self) -> (r: Vec<&TypeDecl>)
        ensures
            r@.map_values(|t: &TypeDecl| *t) == types_of(self.decls@),
    {
        let mut v: Vec<&TypeDecl> = Vec::new();
        for i in 0..self.decls.len()
            invariant
                v@.map_values(|t: &TypeDecl| *t) == types_of(self.decls@.take(i as int)),
        {
            assert(self.decls@.take(i + 1).drop_last() == self.decls@.take(i as int));
            let ghost before = v@.map_values(|t: &TypeDecl| *t);
            match &self.decls[i] {
                Decl::Type(t) => {
                    v.push(t);
                },
                Decl::Ext(x) => {
                    for k in 0..x.types.len()
                        invariant
                            v@.map_values(|t: &TypeDecl| *t) == before + x.types@.take(k as int),
                    {
                        let ghost pre = v@;
                        v.push(&x.types[k]);
                        assert(v@.map_values(|t: &TypeDecl| *t) =~= pre.map_values(|t: &TypeDecl| *t).push(x.types@[k as int]));
                        assert(x.types@.take(k + 1) =~= x.types@.take(k as int).push(x.types@[k as int]));
                        assert(v@.map_values(|t: &TypeDecl| *t) =~= before + x.types@.take(k + 1));
                    }
                    assert(x.types@.take(x.types@.len() as int) == x.types@);
                },
                _ => {},
            }
            assert(v@.map_values(|t: &TypeDecl| *t) =~= types_of(self.decls@.take(i + 1)));
        }
        assert(self.decls@.take(self.decls@.len() as int) == self.decls@);
        v
    }

    /// The names the module exports, in order.
    pub fn exports(&self) -> (r: Vec<String>)
        ensures
            texts_of(r@) == exports_of(self.decls@),
    {
        let mut v: Vec<String> = Vec::new();
        for i in 0..self.decls.len()
            invariant
                texts_of(v@) == exports_of(self.decls@.take(i as int)),
        {
            assert(self.decls@.take(i + 1).drop_last() == self.decls@.take(i as int));
            let ghost before = texts_of(v@);
            match &self.decls[i] {
                Decl::Exp(ns, _) => {
                    for k in 0..ns.len()
                        invariant
                            texts_of(v@) == before + texts_of(ns@.take(k as int)),
                    {
                        let n = ns[k].clone();
                        let ghost pre = v@;
                        v.push(n);
                        assert(texts_of(v@) =~= texts_of(pre).push(ns@[k as int]@));
                        assert(texts_of(ns@.take(k + 1)) =~= texts_of(ns@.take(k as int)).push(ns@[k as int]@));
                        assert(texts_of(v@) =~= before + texts_of(ns@.take(k + 1)));
                    }
                    assert(ns@.take(ns@.len() as int) == ns@);
                },
                _ => {},
            }
            assert(texts_of(v@) =~= exports_of(self.decls@.take(i + 1)));
        }
        assert(self.decls@.take(self.decls@.len() as int) == self.decls@);
        v
    }
}


/// The immediate sub-expressions of `e`, in evaluation order: an
/// application's head and then its arguments, both sides of an operator or
/// a binding, a match's scrutinee and then every arm's body, a record's base
/// and then its field values, and the items of a tuple or list.
pub open spec fn children(e: Expr) -> Seq<Expr> {
    match e.kind {
        ExprKind::App(h, xs) => seq![*h] + xs@,
        ExprKind::Binop(_, a, b) => seq![*a, *b],
        ExprKind::Bind(_, a, b) => seq![*a, *b],
        ExprKind::Let(_, a, b) => seq![*a, *b],
        ExprKind::Neg(a) => seq![*a],
        ExprKind::Not(a) => seq![*a],
        ExprKind::Borrow(a) => seq![*a],
        ExprKind::Field(a, _) => seq![*a],
        ExprKind::Lambda(_, a) => seq![*a],
        ExprKind::Arena(_, a) => seq![*a],
        ExprKind::Match(x, arms) => seq![*x] + arms@.map_values(|a: (Pat, Expr)| a.1),
        ExprKind::Record(base, fs) => (match base {
            Some(b) => seq![*b],
            None => Seq::empty(),
        }) + fs@.map_values(|f: (String, Expr)| f.1),
        ExprKind::Tuple(xs) => xs@,
        ExprKind::List(xs) => xs@,
        _ => Seq::empty(),
    }
}

/// The immediate sub-expressions of the view `e`, in the order of
/// `children`.
pub open spec fn children_v(e: ExprV) -> Seq<ExprV> {
    match e.kind {
        KindV::App(h, xs) => seq![*h] + xs,
        KindV::Binop(_, a, b) => seq![*a, *b],
        KindV::Bind(_, a, b) => seq![*a, *b],
        KindV::Let(_, a, b) => seq![*a, *b],
        KindV::Neg(a) => seq![*a],
        KindV::Not(a) => seq![*a],
        KindV::Borrow(a) => seq![*a],
        KindV::Field(a, _) => seq![*a],
        KindV::Lambda(_, a) => seq![*a],
        KindV::Arena(_, a) => seq![*a],
        KindV::Match(x, arms) => seq![*x] + arms.map_values(|a: (PatV, ExprV)| a.1),
        KindV::Record(base, fs) => (match base {
            Some(b) => seq![*b],
            None => Seq::empty(),
        }) + fs.map_values(|f: (Seq<char>, ExprV)| f.1),
        KindV::Tuple(xs) => xs,
        KindV::List(xs) => xs,
        _ => Seq::empty(),
    }
}

/// What either part of a sequence holds, the two together hold.
pub proof fn lemma_in_concat<A>(a: Seq<A>, b: Seq<A>)
    ensures
        forall|q: A| a.contains(q) ==> #[trigger] (a + b).contains(q),
        forall|q: A| b.contains(q) ==> #[trigger] (a + b).contains(q),
{
    assert forall|q: A| a.contains(q) implies #[trigger] (a + b).contains(q) by {
        let i = choose|i: int| 0 <= i < a.len() && a[i] == q;
        assert((a + b)[i] == q);
    }
    assert forall|q: A| b.contains(q) implies #[trigger] (a + b).contains(q) by {
        let i = choose|i: int| 0 <= i < b.len() && b[i] == q;
        assert((a + b)[a.len() + i] == q);
    }
}

} // verus!
