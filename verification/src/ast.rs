//! The abstract syntax tree: a strict binary tree of operator applications
//! over integer leaves.  Parentheses of the source are implicit in the
//! shape; no node is shared and no subtree is empty.

use crate::token::is_operator_char;
use vstd::prelude::*;

verus! {

/// A node of the syntax tree.
#[derive(Debug, PartialEq)]
pub enum Ast {
    /// A leaf: an integer literal.
    Number(i32),
    /// An internal node: an operator applied to two exclusively owned
    /// subtrees.
    BinaryOp { op: char, left: Box<Ast>, right: Box<Ast> },
}

/// Every operator in the tree is one of the four supported symbols.
pub open spec fn wf_ast(a: Ast) -> bool
    decreases a,
{
    match a {
        Ast::Number(_) => true,
        Ast::BinaryOp { op, left, right } => is_operator_char(op) && wf_ast(*left) && wf_ast(
            *right,
        ),
    }
}

/// Number of internal nodes: one per binary operator of the source.
pub open spec fn op_node_count(a: Ast) -> nat
    decreases a,
{
    match a {
        Ast::Number(_) => 0,
        Ast::BinaryOp { left, right, .. } => 1 + op_node_count(*left) + op_node_count(*right),
    }
}

/// Number of leaves: one per number of the source.
pub open spec fn leaf_count(a: Ast) -> nat
    decreases a,
{
    match a {
        Ast::Number(_) => 1,
        Ast::BinaryOp { left, right, .. } => leaf_count(*left) + leaf_count(*right),
    }
}

/// Runtime test for [`wf_ast`].
pub fn ast_well_formed(a: &Ast) -> (b: bool)
    ensures
        b == wf_ast(*a),
    decreases *a,
{
    match a {
        Ast::Number(_) => true,
        Ast::BinaryOp { op, left, right } => crate::token::operator_char(*op) && ast_well_formed(
            left,
        ) && ast_well_formed(right),
    }
}

} // verus!
