//! The whole pipeline on one line of input: lexing, parsing, evaluation,
//! in strict data-flow order.  Every error is terminal for the line and is
//! returned to the caller, so a read-eval-print loop around the library can
//! go on to the next line.

use crate::ast::wf_ast;
use crate::eval::{eval_spec, evaluate, EvalError};
use crate::lexer::{lex, lex_spec};
use crate::parser::{lemma_parse_wf, parse, parse_spec, ParseError};
use crate::token::LexError;
use vstd::prelude::*;

verus! {

/// Everything that can go wrong on one line.
#[derive(Clone, Copy, Debug, PartialEq, Eq, Structural)]
pub enum CalcError {
    /// The input held a character outside the grammar.
    Lex(LexError),
    /// The tokens did not form one well-parenthesized expression.
    Parse(ParseError),
    /// A division met a zero right operand.
    Eval(EvalError),
}

/// The value of one line: its tokens, their tree, the tree's value; the
/// first error of the three stages otherwise.
pub open spec fn run_line_spec(s: Seq<char>) -> Result<i32, CalcError> {
    match lex_spec(s) {
        Err(e) => Err(CalcError::Lex(e)),
        Ok(tokens) => match parse_spec(tokens) {
            Err(e) => Err(CalcError::Parse(e)),
            Ok(ast) => match eval_spec(ast) {
                Err(e) => Err(CalcError::Eval(e)),
                Ok(v) => Ok(v),
            },
        },
    }
}

/// Lexes, parses and evaluates one line.  Each error comes back as a
/// value, never as a crash, and leaves the caller free to read the next
/// line.
pub fn run_line(expr: &str) -> (res: Result<i32, CalcError>)
    ensures
        res == run_line_spec(expr@),
{
    let tokens = match lex(expr) {
        Ok(t) => t,
        Err(e) => {
            return Err(CalcError::Lex(e));
        },
    };
    proof {
        lemma_parse_wf(tokens@);
    }
    let ast = match parse(&tokens) {
        Ok(a) => a,
        Err(e) => {
            return Err(CalcError::Parse(e));
        },
    };
    assert(wf_ast(ast));
    match evaluate(&ast) {
        Ok(v) => Ok(v),
        Err(e) => Err(CalcError::Eval(e)),
    }
}

} // verus!
