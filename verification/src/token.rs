//! Tokens of an infix arithmetic expression, and the character classes the
//! lexer sorts input into.

use vstd::prelude::*;

verus! {

/// A lexical token, produced in left-to-right source order.
#[derive(Clone, Copy, Debug, PartialEq, Eq, Structural)]
pub enum Token {
    /// An unsigned integer literal.
    Number(i32),
    /// One of the four binary operators `+`, `-`, `*`, `/`.
    Operator(char),
    /// An opening parenthesis.
    LeftParen,
    /// A closing parenthesis.
    RightParen,
}

/// The error of the lexer: the input held a character outside the grammar.
#[derive(Clone, Copy, Debug, PartialEq, Eq, Structural)]
pub struct LexError {
    /// The offending character.
    pub ch: char,
}

/// Characters `0` through `9`.
pub open spec fn is_digit_char(c: char) -> bool {
    '0' as u32 <= c as u32 && c as u32 <= '9' as u32
}

/// The four operator characters.
pub open spec fn is_operator_char(c: char) -> bool {
    c == '+' || c == '-' || c == '*' || c == '/'
}

/// Characters the lexer accepts: digits, operators, parentheses and space.
pub open spec fn is_expression_char(c: char) -> bool {
    is_digit_char(c) || is_operator_char(c) || c == '(' || c == ')' || c == ' '
}

/// Binding strength of an operator: `*` and `/` bind tighter than `+` and
/// `-`; any other character is below both.
pub open spec fn precedence(op: char) -> int {
    if op == '*' || op == '/' {
        2
    } else if op == '+' || op == '-' {
        1
    } else {
        0
    }
}

/// An `Operator` token carries one of the four operator characters.
pub open spec fn wf_token(t: Token) -> bool {
    match t {
        Token::Operator(c) => is_operator_char(c),
        _ => true,
    }
}

/// Every token of the sequence is well formed.
pub open spec fn wf_tokens(ts: Seq<Token>) -> bool {
    forall|i: int| 0 <= i < ts.len() ==> wf_token(#[trigger] ts[i])
}

/// Runtime test for [`is_digit_char`].
pub fn digit_char(c: char) -> (b: bool)
    ensures
        b == is_digit_char(c),
{
    '0' as u32 <= c as u32 && c as u32 <= '9' as u32
}

/// Runtime test for [`is_operator_char`].
pub fn operator_char(c: char) -> (b: bool)
    ensures
        b == is_operator_char(c),
{
    c == '+' || c == '-' || c == '*' || c == '/'
}

/// Runtime value of [`precedence`].
pub fn op_precedence(op: char) -> (p: u8)
    ensures
        p as int == precedence(op),
{
    if op == '*' || op == '/' {
        2
    } else if op == '+' || op == '-' {
        1
    } else {
        0
    }
}

} // verus!
