//! General laws of the pipeline, each proved once and for all inputs: what
//! the lexer accepts, that lexing is pure, that a digit-only input comes
//! back as its own value, and the shape of every successfully parsed tree.

use crate::ast::{leaf_count, op_node_count, Ast};
use crate::lexer::{
    digit_run_end, digits_value, lemma_digit_run_end_bounds, lemma_digits_value_nonneg, lex_from,
    lex_spec,
};
use crate::parser::{
    fold_ge, fold_group, fold_once, fold_rest, parse_from, parse_spec, OpEntry, ParseError,
};
use crate::pipeline::{run_line_spec, CalcError};
use crate::token::{is_digit_char, is_expression_char, LexError, Token};
use crate::wrap::lemma_wrap_in_range;
use vstd::prelude::*;

verus! {

// ---------------------------------------------------------------------
// What the lexer accepts, and what its error points at.
// ---------------------------------------------------------------------
proof fn lemma_lex_from_characters(s: Seq<char>, i: int)
    requires
        0 <= i <= s.len(),
    ensures
        lex_from(s, i) is Ok <==> (forall|j: int|
            i <= j < s.len() ==> is_expression_char(#[trigger] s[j])),
        lex_from(s, i) matches Err(e) ==> !is_expression_char(e.ch) && exists|j: int|
            i <= j < s.len() && s[j] == e.ch,
    decreases s.len() - i,
{
    if i >= s.len() {
    } else if is_digit_char(s[i]) {
        lemma_digit_run_end_bounds(s, i);
        let k = digit_run_end(s, i);
        lemma_lex_from_characters(s, k);
        if forall|j: int| i <= j < s.len() ==> is_expression_char(#[trigger] s[j]) {
            assert(lex_from(s, k) is Ok);
        }
        if lex_from(s, i) is Ok {
            assert forall|j: int| i <= j < s.len() implies is_expression_char(#[trigger] s[j]) by {
                if j >= k {
                    assert(is_expression_char(s[j]));
                } else {
                    assert(is_digit_char(s[j]));
                }
            }
        }
    } else if is_expression_char(s[i]) {
        lemma_lex_from_characters(s, i + 1);
        if forall|j: int| i <= j < s.len() ==> is_expression_char(#[trigger] s[j]) {
            assert(lex_from(s, i + 1) is Ok);
        }
        if lex_from(s, i) is Ok {
            assert forall|j: int| i <= j < s.len() implies is_expression_char(#[trigger] s[j]) by {
                if j > i {
                    assert(is_expression_char(s[j]));
                }
            }
        }
    } else {
        assert(lex_from(s, i) == Err::<Seq<Token>, LexError>(LexError { ch: s[i] }));
        assert(i <= i < s.len() && s[i] == s[i]);
    }
}

/// WHAT THE LEXER ACCEPTS: lexing succeeds exactly when every character of
/// the input is a digit, an operator, a parenthesis or a space; otherwise
/// the error carries a character of the input that is none of these.
pub proof fn lemma_lex_characters(s: Seq<char>)
    ensures
        lex_spec(s) is Ok <==> (forall|j: int|
            0 <= j < s.len() ==> is_expression_char(#[trigger] s[j])),
        lex_spec(s) matches Err(e) ==> !is_expression_char(e.ch) && s.contains(e.ch),
{
    lemma_lex_from_characters(s, 0);
}

/// LEXING IS PURE: the tokens are a function of the characters alone, so
/// any two results that meet the lexer's contract on the same input are
/// identical token sequences.
pub proof fn lemma_lex_idempotent(
    s: Seq<char>,
    first: Result<Seq<Token>, LexError>,
    second: Result<Seq<Token>, LexError>,
)
    requires
        first == lex_spec(s),
        second == lex_spec(s),
    ensures
        first == second,
{
}

// ---------------------------------------------------------------------
// A digit-only input is its own value.
// ---------------------------------------------------------------------
/// DIGITS ROUND TRIP: an input of digits alone lexes to one number token,
/// parses to one leaf, and evaluates to exactly the decimal value the
/// digits spell, whenever that value fits the host integer.
pub proof fn lemma_digits_round_trip(s: Seq<char>)
    requires
        s.len() > 0,
        forall|j: int| 0 <= j < s.len() ==> is_digit_char(#[trigger] s[j]),
        digits_value(s, 0, s.len() as int) <= i32::MAX,
    ensures
        lex_spec(s) == Ok::<Seq<Token>, LexError>(
            seq![Token::Number(digits_value(s, 0, s.len() as int) as i32)],
        ),
        run_line_spec(s) == Ok::<i32, CalcError>(digits_value(s, 0, s.len() as int) as i32),
{
    let n = s.len() as int;
    let v = digits_value(s, 0, n);
    lemma_digit_run_end_bounds(s, 0);
    lemma_digits_value_nonneg(s, 0, n);
    lemma_wrap_in_range(v);
    let tok = Token::Number(v as i32);
    assert(digit_run_end(s, 0) == n);
    assert(lex_from(s, n) == Ok::<Seq<Token>, LexError>(Seq::empty()));
    assert(seq![tok] + Seq::<Token>::empty() =~= seq![tok]);
    assert(lex_spec(s) == Ok::<Seq<Token>, LexError>(seq![tok]));
    let ts = seq![tok];
    let leaf = Ast::Number(v as i32);
    assert(Seq::<Ast>::empty().push(leaf) =~= seq![leaf]);
    assert(fold_rest(Seq::empty(), seq![leaf]) == Ok::<Ast, ParseError>(leaf));
    assert(parse_from(ts, 1, Seq::empty(), seq![leaf]) == Ok::<Ast, ParseError>(leaf));
    assert(parse_spec(ts) == Ok::<Ast, ParseError>(leaf));
}

// ---------------------------------------------------------------------
// Precedence and associativity.
// ---------------------------------------------------------------------
/// PRECEDENCE AND ASSOCIATIVITY: over three operands, the first operator
/// becomes the inner node whenever it binds at least as tightly as the
/// second — equal precedence groups left to right — and the second becomes
/// the inner node only when it binds strictly tighter.
pub proof fn lemma_three_term_shape(a: i32, op1: char, b: i32, op2: char, c: i32)
    ensures
        ({
            let ts = seq![
                Token::Number(a),
                Token::Operator(op1),
                Token::Number(b),
                Token::Operator(op2),
                Token::Number(c),
            ];
            let grouped_left = (Ast::BinaryOp {
                op: op2,
                left: Box::new(
                    Ast::BinaryOp {
                        op: op1,
                        left: Box::new(Ast::Number(a)),
                        right: Box::new(Ast::Number(b)),
                    },
                ),
                right: Box::new(Ast::Number(c)),
            });
            let grouped_right = (Ast::BinaryOp {
                op: op1,
                left: Box::new(Ast::Number(a)),
                right: Box::new(
                    Ast::BinaryOp {
                        op: op2,
                        left: Box::new(Ast::Number(b)),
                        right: Box::new(Ast::Number(c)),
                    },
                ),
            });
            parse_spec(ts) == Ok::<Ast, ParseError>(
                if crate::token::precedence(op1) >= crate::token::precedence(op2) {
                    grouped_left
                } else {
                    grouped_right
                },
            )
        }),
{
    let ts = seq![
        Token::Number(a),
        Token::Operator(op1),
        Token::Number(b),
        Token::Operator(op2),
        Token::Number(c),
    ];
    let p1 = crate::token::precedence(op1);
    let p2 = crate::token::precedence(op2);
    let na = Ast::Number(a);
    let nb = Ast::Number(b);
    let nc = Ast::Number(c);
    let e_ops = Seq::<OpEntry>::empty();
    let e_ods = Seq::<Ast>::empty();
    let stack1 = seq![OpEntry::Pending(op1)];
    assert(e_ods.push(na) =~= seq![na]);
    assert(parse_from(ts, 0, e_ops, e_ods) == parse_from(ts, 1, e_ops, seq![na]));
    assert(fold_ge(e_ops, seq![na], p1) == Ok::<_, ParseError>((e_ops, seq![na])));
    assert(e_ops.push(OpEntry::Pending(op1)) =~= stack1);
    assert(parse_from(ts, 1, e_ops, seq![na]) == parse_from(ts, 2, stack1, seq![na]));
    assert(seq![na].push(nb) =~= seq![na, nb]);
    assert(parse_from(ts, 2, stack1, seq![na]) == parse_from(ts, 3, stack1, seq![na, nb]));
    if p1 >= p2 {
        let inner = (Ast::BinaryOp { op: op1, left: Box::new(na), right: Box::new(nb) });
        assert(fold_once(seq![na, nb], op1) =~= seq![inner]);
        assert(stack1.drop_last() =~= e_ops);
        assert(fold_ge(e_ops, seq![inner], p2) == Ok::<_, ParseError>((e_ops, seq![inner])));
        assert(fold_ge(stack1, seq![na, nb], p2) == Ok::<_, ParseError>((e_ops, seq![inner])));
        assert(e_ops.push(OpEntry::Pending(op2)) =~= seq![OpEntry::Pending(op2)]);
        assert(parse_from(ts, 3, stack1, seq![na, nb]) == parse_from(
            ts,
            4,
            seq![OpEntry::Pending(op2)],
            seq![inner],
        ));
        assert(seq![inner].push(nc) =~= seq![inner, nc]);
        assert(parse_from(ts, 4, seq![OpEntry::Pending(op2)], seq![inner]) == parse_from(
            ts,
            5,
            seq![OpEntry::Pending(op2)],
            seq![inner, nc],
        ));
        let outer = (Ast::BinaryOp { op: op2, left: Box::new(inner), right: Box::new(nc) });
        assert(fold_once(seq![inner, nc], op2) =~= seq![outer]);
        assert(seq![OpEntry::Pending(op2)].drop_last() =~= e_ops);
        assert(fold_rest(e_ops, seq![outer]) == Ok::<Ast, ParseError>(outer));
        assert(fold_rest(seq![OpEntry::Pending(op2)], seq![inner, nc]) == Ok::<Ast, ParseError>(
            outer,
        ));
        assert(parse_from(ts, 5, seq![OpEntry::Pending(op2)], seq![inner, nc])
            == Ok::<Ast, ParseError>(outer));
        assert(parse_spec(ts) == Ok::<Ast, ParseError>(outer));
    } else {
        assert(fold_ge(stack1, seq![na, nb], p2) == Ok::<_, ParseError>((stack1, seq![na, nb])));
        let stack2 = seq![OpEntry::Pending(op1), OpEntry::Pending(op2)];
        assert(stack1.push(OpEntry::Pending(op2)) =~= stack2);
        assert(parse_from(ts, 3, stack1, seq![na, nb]) == parse_from(ts, 4, stack2, seq![na, nb]));
        assert(seq![na, nb].push(nc) =~= seq![na, nb, nc]);
        assert(parse_from(ts, 4, stack2, seq![na, nb]) == parse_from(ts, 5, stack2, seq![na, nb, nc]));
        let inner = (Ast::BinaryOp { op: op2, left: Box::new(nb), right: Box::new(nc) });
        assert(fold_once(seq![na, nb, nc], op2) =~= seq![na, inner]);
        assert(stack2.drop_last() =~= stack1);
        let outer = (Ast::BinaryOp { op: op1, left: Box::new(na), right: Box::new(inner) });
        assert(fold_once(seq![na, inner], op1) =~= seq![outer]);
        assert(stack1.drop_last() =~= e_ops);
        assert(fold_rest(e_ops, seq![outer]) == Ok::<Ast, ParseError>(outer));
        assert(fold_rest(stack1, seq![na, inner]) == Ok::<Ast, ParseError>(outer));
        assert(fold_rest(stack2, seq![na, nb, nc]) == Ok::<Ast, ParseError>(outer));
        assert(parse_from(ts, 5, stack2, seq![na, nb, nc]) == Ok::<Ast, ParseError>(outer));
        assert(parse_spec(ts) == Ok::<Ast, ParseError>(outer));
    }
}

// ---------------------------------------------------------------------
// The shape of a successfully parsed tree.
// ---------------------------------------------------------------------
/// Number of `Operator` tokens from index `i` on.
pub open spec fn operator_count_from(ts: Seq<Token>, i: int) -> nat
    decreases ts.len() - i
        when 0 <= i <= ts.len()
{
    if i >= ts.len() {
        0
    } else {
        (if ts[i] is Operator {
            1nat
        } else {
            0nat
        }) + operator_count_from(ts, i + 1)
    }
}

/// Number of `Number` tokens from index `i` on.
pub open spec fn number_count_from(ts: Seq<Token>, i: int) -> nat
    decreases ts.len() - i
        when 0 <= i <= ts.len()
{
    if i >= ts.len() {
        0
    } else {
        (if ts[i] is Number {
            1nat
        } else {
            0nat
        }) + number_count_from(ts, i + 1)
    }
}

/// Number of `Operator` tokens of the sequence.
pub open spec fn operator_token_count(ts: Seq<Token>) -> nat {
    operator_count_from(ts, 0)
}

/// Number of `Number` tokens of the sequence.
pub open spec fn number_token_count(ts: Seq<Token>) -> nat {
    number_count_from(ts, 0)
}

/// Internal nodes summed over the operand stack.
spec fn stacked_op_nodes(operands: Seq<Ast>) -> nat
    decreases operands.len(),
{
    if operands.len() == 0 {
        0
    } else {
        stacked_op_nodes(operands.drop_last()) + op_node_count(operands.last())
    }
}

/// Leaves summed over the operand stack.
spec fn stacked_leaves(operands: Seq<Ast>) -> nat
    decreases operands.len(),
{
    if operands.len() == 0 {
        0
    } else {
        stacked_leaves(operands.drop_last()) + leaf_count(operands.last())
    }
}

/// Pending operators on the operator stack, barriers not counted.
spec fn pending_count(ops: Seq<OpEntry>) -> nat
    decreases ops.len(),
{
    if ops.len() == 0 {
        0
    } else {
        pending_count(ops.drop_last()) + (if ops.last() is Pending {
            1nat
        } else {
            0nat
        })
    }
}

proof fn lemma_stacked_push(operands: Seq<Ast>, a: Ast)
    ensures
        stacked_op_nodes(operands.push(a)) == stacked_op_nodes(operands) + op_node_count(a),
        stacked_leaves(operands.push(a)) == stacked_leaves(operands) + leaf_count(a),
{
    assert(operands.push(a).drop_last() =~= operands);
    assert(operands.push(a).last() == a);
}

proof fn lemma_pending_push(ops: Seq<OpEntry>, e: OpEntry)
    ensures
        pending_count(ops.push(e)) == pending_count(ops) + (if e is Pending {
            1nat
        } else {
            0nat
        }),
{
    assert(ops.push(e).drop_last() =~= ops);
    assert(ops.push(e).last() == e);
}

proof fn lemma_fold_once_counts(operands: Seq<Ast>, op: char)
    requires
        operands.len() >= 2,
    ensures
        stacked_op_nodes(fold_once(operands, op)) == stacked_op_nodes(operands) + 1,
        stacked_leaves(fold_once(operands, op)) == stacked_leaves(operands),
{
    let n = operands.len() as int;
    let prefix = operands.take(n - 2);
    let node = Ast::BinaryOp {
        op,
        left: Box::new(operands[n - 2]),
        right: Box::new(operands[n - 1]),
    };
    lemma_stacked_push(prefix, node);
    assert(operands =~= prefix.push(operands[n - 2]).push(operands[n - 1]));
    lemma_stacked_push(prefix, operands[n - 2]);
    lemma_stacked_push(prefix.push(operands[n - 2]), operands[n - 1]);
    assert(op_node_count(node) == 1 + op_node_count(operands[n - 2]) + op_node_count(
        operands[n - 1],
    ));
    assert(leaf_count(node) == leaf_count(operands[n - 2]) + leaf_count(operands[n - 1]));
}

proof fn lemma_fold_ge_counts(ops: Seq<OpEntry>, operands: Seq<Ast>, p: int)
    ensures
        fold_ge(ops, operands, p) matches Ok(folded) ==> {
            &&& stacked_op_nodes(folded.1) + pending_count(folded.0) == stacked_op_nodes(operands)
                + pending_count(ops)
            &&& stacked_leaves(folded.1) == stacked_leaves(operands)
        },
    decreases ops.len(),
{
    if ops.len() > 0 && ops.last() is Pending && crate::token::precedence(ops.last()->Pending_0)
        >= p && operands.len() >= 2 {
        lemma_fold_once_counts(operands, ops.last()->Pending_0);
        lemma_fold_ge_counts(ops.drop_last(), fold_once(operands, ops.last()->Pending_0), p);
    }
}

proof fn lemma_fold_group_counts(ops: Seq<OpEntry>, operands: Seq<Ast>)
    ensures
        fold_group(ops, operands) matches Ok(folded) ==> {
            &&& stacked_op_nodes(folded.1) + pending_count(folded.0) == stacked_op_nodes(operands)
                + pending_count(ops)
            &&& stacked_leaves(folded.1) == stacked_leaves(operands)
        },
    decreases ops.len(),
{
    if ops.len() > 0 && !(ops.last() is Barrier) && operands.len() >= 2 {
        lemma_fold_once_counts(operands, ops.last()->Pending_0);
        lemma_fold_group_counts(ops.drop_last(), fold_once(operands, ops.last()->Pending_0));
    }
}

proof fn lemma_fold_rest_counts(ops: Seq<OpEntry>, operands: Seq<Ast>)
    ensures
        fold_rest(ops, operands) matches Ok(ast) ==> {
            &&& op_node_count(ast) == stacked_op_nodes(operands) + pending_count(ops)
            &&& leaf_count(ast) == stacked_leaves(operands)
        },
    decreases ops.len(),
{
    if ops.len() == 0 {
        if operands.len() == 1 {
            assert(operands =~= Seq::empty().push(operands[0]));
            lemma_stacked_push(Seq::empty(), operands[0]);
        }
    } else if !(ops.last() is Barrier) && operands.len() >= 2 {
        lemma_fold_once_counts(operands, ops.last()->Pending_0);
        lemma_fold_rest_counts(ops.drop_last(), fold_once(operands, ops.last()->Pending_0));
    }
}

proof fn lemma_parse_from_counts(
    tokens: Seq<Token>,
    i: int,
    ops: Seq<OpEntry>,
    operands: Seq<Ast>,
)
    requires
        0 <= i <= tokens.len(),
    ensures
        parse_from(tokens, i, ops, operands) matches Ok(ast) ==> {
            &&& op_node_count(ast) == stacked_op_nodes(operands) + pending_count(ops)
                + operator_count_from(tokens, i)
            &&& leaf_count(ast) == stacked_leaves(operands) + number_count_from(tokens, i)
        },
    decreases tokens.len() - i,
{
    if i >= tokens.len() {
        lemma_fold_rest_counts(ops, operands);
    } else {
        match tokens[i] {
            Token::Number(v) => {
                lemma_stacked_push(operands, Ast::Number(v));
                lemma_parse_from_counts(tokens, i + 1, ops, operands.push(Ast::Number(v)));
            },
            Token::Operator(c) => {
                lemma_fold_ge_counts(ops, operands, crate::token::precedence(c));
                match fold_ge(ops, operands, crate::token::precedence(c)) {
                    Err(_) => {},
                    Ok(folded) => {
                        lemma_pending_push(folded.0, OpEntry::Pending(c));
                        lemma_parse_from_counts(
                            tokens,
                            i + 1,
                            folded.0.push(OpEntry::Pending(c)),
                            folded.1,
                        );
                    },
                }
            },
            Token::LeftParen => {
                lemma_pending_push(ops, OpEntry::Barrier);
                lemma_parse_from_counts(tokens, i + 1, ops.push(OpEntry::Barrier), operands);
            },
            Token::RightParen => {
                lemma_fold_group_counts(ops, operands);
                match fold_group(ops, operands) {
                    Err(_) => {},
                    Ok(folded) => {
                        lemma_parse_from_counts(tokens, i + 1, folded.0, folded.1);
                    },
                }
            },
        }
    }
}

/// A strict binary tree has one more leaf than internal nodes.
pub proof fn lemma_tree_counts(a: Ast)
    ensures
        leaf_count(a) == op_node_count(a) + 1,
    decreases a,
{
    match a {
        Ast::Number(_) => {},
        Ast::BinaryOp { left, right, .. } => {
            lemma_tree_counts(*left);
            lemma_tree_counts(*right);
        },
    }
}

/// PARSED SHAPE: a token sequence with `k` operator tokens, when it parses
/// at all, parses to a tree of exactly `k` internal nodes and `k + 1`
/// leaves — and those leaves are exactly the number tokens.
pub proof fn lemma_parse_counts(tokens: Seq<Token>)
    ensures
        parse_spec(tokens) matches Ok(ast) ==> {
            &&& op_node_count(ast) == operator_token_count(tokens)
            &&& leaf_count(ast) == operator_token_count(tokens) + 1
            &&& leaf_count(ast) == number_token_count(tokens)
        },
{
    lemma_parse_from_counts(tokens, 0, Seq::empty(), Seq::empty());
    match parse_spec(tokens) {
        Ok(ast) => {
            lemma_tree_counts(ast);
        },
        Err(_) => {},
    }
}

} // verus!
