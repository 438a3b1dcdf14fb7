//! A small pattern-matching language: surface syntax, desugaring of `case`
//! and multi-clause functions into decision trees, lowering to a linear
//! bytecode, and a stack machine that runs it.
pub mod ast;
pub mod desugar;
pub mod eval;
pub mod lexer;
pub mod names;
pub mod parser;
pub mod pool;
pub mod compile;
