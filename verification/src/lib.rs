//! Verified core of `oql`, a query syntax that compiles to iterator chains.
use vstd::prelude::*;

pub mod token;
pub mod lexer;
pub mod ast;
pub mod parse;
pub mod names;
pub mod liveness;
pub mod order;
pub mod runtime;
pub mod plan;
pub mod rewrite;
pub mod emit;
pub mod emit_laws;
pub mod expand;
pub mod tree;

verus! {

} // verus!
