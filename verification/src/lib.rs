//! An interpreter for a small Lisp-like language: parenthesized call forms,
//! angle-bracket list literals, numeric and string literals, `set` and `let`
//! binding forms, and a handful of arithmetic and output builtins.
//!
//! The heart of the crate is the evaluator: an explicit-stack tree walker
//! that rewrites the parsed syntax tree in place, together with a lexical
//! scope chain holding a sorted function table and the dispatch protocol
//! that routes fully expanded call nodes to builtins or to user-defined
//! substitution.

pub mod ast;
pub mod builtins;
pub mod eval;
pub mod lex;
pub mod num;
pub mod parse;
pub mod scope;
pub mod strutil;
pub mod token;
