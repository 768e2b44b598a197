use vstd::prelude::*;

pub mod text;
pub mod ast;
pub mod diag;
pub mod patch;
pub mod refine;
pub mod types;
pub mod lexer;
pub mod view;
pub mod codegen;
pub mod infer;
pub mod own;
pub mod load;
pub mod cli;
pub mod total;
pub mod parser;
pub mod expr;
pub mod decl;
pub mod cover;
pub mod edit;
pub mod deps;
pub mod escape;
pub mod mangle;

verus! {
}
