//! A tree-walking interpreter for the Lox language: scanner, parser,
//! lexical environments and evaluator.

pub mod callable;
pub mod env;
pub mod error;
pub mod expr;
pub mod interpreter;
pub mod parser;
pub mod precedence;
pub mod repl;
pub mod scoping;
pub mod semantics;
pub mod stmt;
pub mod text;
pub mod token;
