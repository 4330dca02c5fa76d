//! An INTERCAL front end and interpreter: a tokenizer and parser, the
//! abstract syntax tree, semantic analysis, an optimizer and an execution
//! engine, with their behaviour stated as Verus contracts.

pub mod err;
pub mod ops;
pub mod lex;
pub mod ast;
pub mod parse;
pub mod analyze;
pub mod store;
pub mod eval;
pub mod opt;
pub mod print;
