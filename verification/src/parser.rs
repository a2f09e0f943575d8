//! The parser: shunting yard with an explicit operand stack and operator
//! stack.
//!
//! `*` and `/` bind tighter than `+` and `-`; equal precedence folds
//! immediately, so operators of one level group left to right.  An opening
//! parenthesis is a barrier on the operator stack; a closing one folds back
//! to the matching barrier.  Every way the stacks can run dry is a
//! [`ParseError`], never a crash.  [`parse_from`] is the mathematical
//! algorithm; the executable [`parse`] is proved to return exactly its
//! result.

use crate::ast::{wf_ast, Ast};
use crate::token::{is_operator_char, op_precedence, precedence, wf_token, wf_tokens, Token};
use vstd::pervasive::unreached;
use vstd::prelude::*;

verus! {

/// The error of the parser.
#[derive(Clone, Copy, Debug, PartialEq, Eq, Structural)]
pub enum ParseError {
    /// A closing parenthesis without an opening one, or an opening one
    /// never closed.
    UnbalancedParens,
    /// The tokens do not fold into exactly one expression.
    MalformedExpression,
}

/// An entry of the operator stack: a pending operator, or the barrier an
/// opening parenthesis leaves.
#[derive(Clone, Copy, Debug, PartialEq, Eq, Structural)]
pub enum OpEntry {
    /// An operator waiting for its right operand.
    Pending(char),
    /// The mark of an opening parenthesis not yet closed.
    Barrier,
}

/// One fold of the shunting yard: the two topmost operands combine under
/// `op`.  The operand popped first is the right one.  Meaningful only with
/// two operands on the stack.
pub open spec fn fold_once(operands: Seq<Ast>, op: char) -> Seq<Ast> {
    let n = operands.len() as int;
    operands.take(n - 2).push(
        Ast::BinaryOp {
            op,
            left: Box::new(operands[n - 2]),
            right: Box::new(operands[n - 1]),
        },
    )
}

/// Folds while the operator stack's top is a pending operator of
/// precedence at least `p`; a barrier or the bottom of the stack stops it.
/// Fewer than two operands for a fold is a malformed expression.
pub open spec fn fold_ge(ops: Seq<OpEntry>, operands: Seq<Ast>, p: int) -> Result<
    (Seq<OpEntry>, Seq<Ast>),
    ParseError,
>
    decreases ops.len(),
{
    if ops.len() > 0 && ops.last() is Pending && precedence(ops.last()->Pending_0) >= p {
        if operands.len() < 2 {
            Err(ParseError::MalformedExpression)
        } else {
            fold_ge(ops.drop_last(), fold_once(operands, ops.last()->Pending_0), p)
        }
    } else {
        Ok((ops, operands))
    }
}

/// Folds until the barrier of the matching opening parenthesis is popped.
/// A stack that runs dry first means the parenthesis was never opened.
pub open spec fn fold_group(ops: Seq<OpEntry>, operands: Seq<Ast>) -> Result<
    (Seq<OpEntry>, Seq<Ast>),
    ParseError,
>
    decreases ops.len(),
{
    if ops.len() == 0 {
        Err(ParseError::UnbalancedParens)
    } else if ops.last() is Barrier {
        Ok((ops.drop_last(), operands))
    } else if operands.len() < 2 {
        Err(ParseError::MalformedExpression)
    } else {
        fold_group(ops.drop_last(), fold_once(operands, ops.last()->Pending_0))
    }
}

/// After the last token: folds what remains on the operator stack.  A
/// leftover barrier is an unbalanced parenthesis, and anything but exactly
/// one operand left at the bottom is a malformed expression.
pub open spec fn fold_rest(ops: Seq<OpEntry>, operands: Seq<Ast>) -> Result<Ast, ParseError>
    decreases ops.len(),
{
    if ops.len() == 0 {
        if operands.len() == 1 {
            Ok(operands[0])
        } else {
            Err(ParseError::MalformedExpression)
        }
    } else if ops.last() is Barrier {
        Err(ParseError::UnbalancedParens)
    } else if operands.len() < 2 {
        Err(ParseError::MalformedExpression)
    } else {
        fold_rest(ops.drop_last(), fold_once(operands, ops.last()->Pending_0))
    }
}

/// The shunting yard over the tokens from index `i` on, with the stacks as
/// they stand: a number becomes a leaf on the operand stack; an operator
/// first folds everything of at least its own precedence; parentheses
/// open and close barrier groups.
pub open spec fn parse_from(
    tokens: Seq<Token>,
    i: int,
    ops: Seq<OpEntry>,
    operands: Seq<Ast>,
) -> Result<Ast, ParseError>
    decreases tokens.len() - i
        when 0 <= i <= tokens.len()
{
    if i >= tokens.len() {
        fold_rest(ops, operands)
    } else {
        match tokens[i] {
            Token::Number(n) => parse_from(tokens, i + 1, ops, operands.push(Ast::Number(n))),
            Token::Operator(c) => match fold_ge(ops, operands, precedence(c)) {
                Err(e) => Err(e),
                Ok(folded) => parse_from(
                    tokens,
                    i + 1,
                    folded.0.push(OpEntry::Pending(c)),
                    folded.1,
                ),
            },
            Token::LeftParen => parse_from(tokens, i + 1, ops.push(OpEntry::Barrier), operands),
            Token::RightParen => match fold_group(ops, operands) {
                Err(e) => Err(e),
                Ok(folded) => parse_from(tokens, i + 1, folded.0, folded.1),
            },
        }
    }
}

/// The tree of a token sequence, by the shunting-yard algorithm, or the
/// error on which the algorithm cannot resolve one.
pub open spec fn parse_spec(tokens: Seq<Token>) -> Result<Ast, ParseError> {
    parse_from(tokens, 0, Seq::empty(), Seq::empty())
}

/// Every tree on the operand stack is well formed.
pub open spec fn wf_operands(operands: Seq<Ast>) -> bool {
    forall|j: int| 0 <= j < operands.len() ==> wf_ast(#[trigger] operands[j])
}

/// Every pending operator on the stack is one of the four symbols.
pub open spec fn wf_ops(ops: Seq<OpEntry>) -> bool {
    forall|j: int|
        0 <= j < ops.len() ==> ((#[trigger] ops[j]) is Pending ==> is_operator_char(
            ops[j]->Pending_0,
        ))
}

proof fn lemma_fold_once_wf(operands: Seq<Ast>, op: char)
    requires
        operands.len() >= 2,
        wf_operands(operands),
        is_operator_char(op),
    ensures
        wf_operands(fold_once(operands, op)),
{
    let n = operands.len() as int;
    let folded = fold_once(operands, op);
    assert forall|j: int| 0 <= j < folded.len() implies wf_ast(#[trigger] folded[j]) by {
        if j < n - 2 {
            assert(folded[j] == operands[j]);
        } else {
            assert(wf_ast(operands[n - 2]) && wf_ast(operands[n - 1]));
        }
    }
}

proof fn lemma_fold_ge_wf(ops: Seq<OpEntry>, operands: Seq<Ast>, p: int)
    requires
        wf_ops(ops),
        wf_operands(operands),
    ensures
        fold_ge(ops, operands, p) matches Ok(folded) ==> wf_ops(folded.0) && wf_operands(folded.1),
    decreases ops.len(),
{
    if ops.len() > 0 && ops.last() is Pending && precedence(ops.last()->Pending_0) >= p
        && operands.len() >= 2 {
        assert(is_operator_char(ops.last()->Pending_0)) by {
            assert(ops[ops.len() - 1] is Pending);
        }
        lemma_fold_once_wf(operands, ops.last()->Pending_0);
        lemma_fold_ge_wf(ops.drop_last(), fold_once(operands, ops.last()->Pending_0), p);
    }
}

proof fn lemma_fold_group_wf(ops: Seq<OpEntry>, operands: Seq<Ast>)
    requires
        wf_ops(ops),
        wf_operands(operands),
    ensures
        fold_group(ops, operands) matches Ok(folded) ==> wf_ops(folded.0) && wf_operands(folded.1),
    decreases ops.len(),
{
    if ops.len() > 0 && !(ops.last() is Barrier) && operands.len() >= 2 {
        assert(is_operator_char(ops.last()->Pending_0)) by {
            assert(ops[ops.len() - 1] is Pending);
        }
        lemma_fold_once_wf(operands, ops.last()->Pending_0);
        lemma_fold_group_wf(ops.drop_last(), fold_once(operands, ops.last()->Pending_0));
    }
}

proof fn lemma_fold_rest_wf(ops: Seq<OpEntry>, operands: Seq<Ast>)
    requires
        wf_ops(ops),
        wf_operands(operands),
    ensures
        fold_rest(ops, operands) matches Ok(ast) ==> wf_ast(ast),
    decreases ops.len(),
{
    if ops.len() > 0 && !(ops.last() is Barrier) && operands.len() >= 2 {
        assert(is_operator_char(ops.last()->Pending_0)) by {
            assert(ops[ops.len() - 1] is Pending);
        }
        lemma_fold_once_wf(operands, ops.last()->Pending_0);
        lemma_fold_rest_wf(ops.drop_last(), fold_once(operands, ops.last()->Pending_0));
    }
}

proof fn lemma_parse_from_wf(tokens: Seq<Token>, i: int, ops: Seq<OpEntry>, operands: Seq<Ast>)
    requires
        0 <= i <= tokens.len(),
        wf_tokens(tokens),
        wf_ops(ops),
        wf_operands(operands),
    ensures
        parse_from(tokens, i, ops, operands) matches Ok(ast) ==> wf_ast(ast),
    decreases tokens.len() - i,
{
    if i >= tokens.len() {
        lemma_fold_rest_wf(ops, operands);
    } else {
        match tokens[i] {
            Token::Number(n) => {
                lemma_parse_from_wf(tokens, i + 1, ops, operands.push(Ast::Number(n)));
            },
            Token::Operator(c) => {
                assert(is_operator_char(c)) by {
                    assert(wf_token(tokens[i]));
                }
                lemma_fold_ge_wf(ops, operands, precedence(c));
                match fold_ge(ops, operands, precedence(c)) {
                    Err(_) => {},
                    Ok(folded) => {
                        lemma_parse_from_wf(
                            tokens,
                            i + 1,
                            folded.0.push(OpEntry::Pending(c)),
                            folded.1,
                        );
                    },
                }
            },
            Token::LeftParen => {
                lemma_parse_from_wf(tokens, i + 1, ops.push(OpEntry::Barrier), operands);
            },
            Token::RightParen => {
                lemma_fold_group_wf(ops, operands);
                match fold_group(ops, operands) {
                    Err(_) => {},
                    Ok(folded) => {
                        lemma_parse_from_wf(tokens, i + 1, folded.0, folded.1);
                    },
                }
            },
        }
    }
}

/// A successful parse of well-formed tokens is a well-formed tree: every
/// operator in it is one of the four supported symbols.
pub proof fn lemma_parse_wf(tokens: Seq<Token>)
    requires
        wf_tokens(tokens),
    ensures
        parse_spec(tokens) matches Ok(ast) ==> wf_ast(ast),
{
    lemma_parse_from_wf(tokens, 0, Seq::empty(), Seq::empty());
}

/// Pops the two topmost operands and pushes their combination under `op`.
fn fold_step(operands: &mut Vec<Ast>, op: char)
    requires
        old(operands)@.len() >= 2,
    ensures
        final(operands)@ == fold_once(old(operands)@, op),
{
    let ghost before = operands@;
    let right = match operands.pop() {
        Some(a) => a,
        None => unreached(),
    };
    let left = match operands.pop() {
        Some(a) => a,
        None => unreached(),
    };
    operands.push(Ast::BinaryOp { op, left: Box::new(left), right: Box::new(right) });
    proof {
        assert(operands@ =~= fold_once(before, op));
    }
}

/// Builds the syntax tree of `tokens`.  Precedence folds eagerly, so equal
/// precedence groups left to right; malformed input comes back as the
/// matching [`ParseError`], never as a crash.
pub fn parse(tokens: &Vec<Token>) -> (res: Result<Ast, ParseError>)
    ensures
        res == parse_spec(tokens@),
{
    let ghost toks = tokens@;
    let mut operands: Vec<Ast> = Vec::new();
    let mut ops: Vec<OpEntry> = Vec::new();
    let n = tokens.len();
    let mut i: usize = 0;
    while i < n
        invariant
            n == toks.len(),
            toks == tokens@,
            i <= n,
            parse_spec(toks) == parse_from(toks, i as int, ops@, operands@),
        decreases n - i,
    {
        let t = tokens[i];
        match t {
            Token::Number(v) => {
                operands.push(Ast::Number(v));
            },
            Token::Operator(c) => {
                let ghost ops0 = ops@;
                let ghost operands0 = operands@;
                let p = op_precedence(c);
                loop
                    invariant
                        p as int == precedence(c),
                        fold_ge(ops@, operands@, p as int) == fold_ge(ops0, operands0, p as int),
                        toks == tokens@,
                        n == toks.len(),
                        i < n,
                        toks[i as int] == Token::Operator(c),
                        parse_spec(toks) == parse_from(toks, i as int, ops0, operands0),
                    ensures
                        fold_ge(ops0, operands0, p as int) == Ok::<_, ParseError>(
                            (ops@, operands@),
                        ),
                    decreases ops@.len(),
                {
                    if ops.len() == 0 {
                        break ;
                    }
                    let top = ops[ops.len() - 1];
                    match top {
                        OpEntry::Barrier => {
                            break ;
                        },
                        OpEntry::Pending(tc) => {
                            if op_precedence(tc) < p {
                                break ;
                            }
                            if operands.len() < 2 {
                                return Err(ParseError::MalformedExpression);
                            }
                            ops.pop();
                            fold_step(&mut operands, tc);
                        },
                    }
                }
                ops.push(OpEntry::Pending(c));
            },
            Token::LeftParen => {
                ops.push(OpEntry::Barrier);
            },
            Token::RightParen => {
                let ghost ops0 = ops@;
                let ghost operands0 = operands@;
                loop
                    invariant_except_break
                        fold_group(ops@, operands@) == fold_group(ops0, operands0),
                    invariant
                        toks == tokens@,
                        n == toks.len(),
                        i < n,
                        toks[i as int] == Token::RightParen,
                        parse_spec(toks) == parse_from(toks, i as int, ops0, operands0),
                    ensures
                        fold_group(ops0, operands0) == Ok::<_, ParseError>((ops@, operands@)),
                    decreases ops@.len(),
                {
                    if ops.len() == 0 {
                        return Err(ParseError::UnbalancedParens);
                    }
                    let top = ops[ops.len() - 1];
                    match top {
                        OpEntry::Barrier => {
                            ops.pop();
                            break ;
                        },
                        OpEntry::Pending(tc) => {
                            if operands.len() < 2 {
                                return Err(ParseError::MalformedExpression);
                            }
                            ops.pop();
                            fold_step(&mut operands, tc);
                        },
                    }
                }
            },
        }
        i = i + 1;
    }
    loop
        invariant
            toks == tokens@,
            parse_spec(toks) == fold_rest(ops@, operands@),
        ensures
            parse_spec(toks) == fold_rest(ops@, operands@),
            ops@.len() == 0,
        decreases ops@.len(),
    {
        if ops.len() == 0 {
            break ;
        }
        let top = ops[ops.len() - 1];
        match top {
            OpEntry::Barrier => {
                return Err(ParseError::UnbalancedParens);
            },
            OpEntry::Pending(tc) => {
                if operands.len() < 2 {
                    return Err(ParseError::MalformedExpression);
                }
                ops.pop();
                fold_step(&mut operands, tc);
            },
        }
    }
    if operands.len() == 1 {
        let root = match operands.pop() {
            Some(a) => a,
            None => unreached(),
        };
        Ok(root)
    } else {
        Err(ParseError::MalformedExpression)
    }
}

} // verus!
