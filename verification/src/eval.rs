//! The evaluator: the value of a syntax tree, left subtree before right.
//!
//! `+`, `-` and `*` are total modulo the host integer width; `/` truncates
//! toward zero and is the error when its right operand is zero.

use crate::ast::{wf_ast, Ast};
use crate::wrap::{
    add_wrapping, div_wrapping, divide_trunc, mul_wrapping, sub_wrapping, wrap_to_i32,
};
use vstd::prelude::*;

verus! {

/// The error of the evaluator: a division met a zero right operand.
#[derive(Clone, Copy, Debug, PartialEq, Eq, Structural)]
pub enum EvalError {
    /// `/` with a zero right operand.
    DivisionByZero,
}

/// One operator application over already-computed operands, wrapped to the
/// host integer.  Meaningful for the four operators; `/` only with a
/// nonzero right operand.
pub open spec fn apply_op(op: char, l: i32, r: i32) -> i32 {
    if op == '+' {
        wrap_to_i32(l as int + r as int)
    } else if op == '-' {
        wrap_to_i32(l as int - r as int)
    } else if op == '*' {
        wrap_to_i32(l as int * r as int)
    } else {
        wrap_to_i32(divide_trunc(l as int, r as int))
    }
}

/// The value of a tree: a leaf is its number; an internal node applies its
/// operator to the values of its subtrees, the left one first; a division
/// whose right operand is zero is the error, and an error in a subtree is
/// the error of the whole tree.
pub open spec fn eval_spec(a: Ast) -> Result<i32, EvalError>
    decreases a,
{
    match a {
        Ast::Number(n) => Ok(n),
        Ast::BinaryOp { op, left, right } => match eval_spec(*left) {
            Err(e) => Err(e),
            Ok(l) => match eval_spec(*right) {
                Err(e) => Err(e),
                Ok(r) => if op == '/' && r == 0 {
                    Err(EvalError::DivisionByZero)
                } else {
                    Ok(apply_op(op, l, r))
                },
            },
        },
    }
}

/// Walks the tree and computes its value.  Division by zero comes back as
/// the error, never as a crash.
pub fn evaluate(ast: &Ast) -> (res: Result<i32, EvalError>)
    requires
        wf_ast(*ast),
    ensures
        res == eval_spec(*ast),
    decreases *ast,
{
    match ast {
        Ast::Number(n) => Ok(*n),
        Ast::BinaryOp { op, left, right } => {
            let l = match evaluate(left) {
                Ok(v) => v,
                Err(e) => {
                    return Err(e);
                },
            };
            let r = match evaluate(right) {
                Ok(v) => v,
                Err(e) => {
                    return Err(e);
                },
            };
            let o = *op;
            if o == '+' {
                Ok(add_wrapping(l, r))
            } else if o == '-' {
                Ok(sub_wrapping(l, r))
            } else if o == '*' {
                Ok(mul_wrapping(l, r))
            } else {
                if r == 0 {
                    Err(EvalError::DivisionByZero)
                } else {
                    Ok(div_wrapping(l, r))
                }
            }
        },
    }
}

} // verus!
