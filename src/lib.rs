//! Core of a small Lisp: tokens, a parser for S-expressions, a runtime object
//! model, chained lexical environments and a tree-walking evaluator.
pub mod token;
pub mod lex;
pub mod expr;
pub mod object;
pub mod env;
pub mod prim;
pub mod semantics;
pub mod eval;
