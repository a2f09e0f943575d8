//! A verified calculator for single-line infix arithmetic expressions.
//!
//! The library is a three-stage pipeline: [`lexer::lex`] turns a string into
//! tokens, [`parser::parse`] turns the tokens into an abstract syntax tree by
//! the shunting-yard algorithm, and [`eval::evaluate`] computes the value of
//! the tree.  [`pipeline::run_line`] composes the three stages.  Every stage
//! is specified against a mathematical model and proved to match it; the
//! general laws that relate the stages stand in [`laws`].

pub mod ast;
pub mod eval;
pub mod laws;
pub mod lexer;
pub mod parser;
pub mod pipeline;
pub mod token;
pub mod wrap;
