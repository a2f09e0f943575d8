use infix_calc::ast::{ast_well_formed, Ast};
use infix_calc::eval::{evaluate, EvalError};
use infix_calc::lexer::lex;
use infix_calc::parser::{parse, ParseError};
use infix_calc::pipeline::{run_line, CalcError};
use infix_calc::token::Token;

fn eval_str(input: &str) -> Result<i32, CalcError> {
    run_line(input)
}

fn count_ops(a: &Ast) -> u32 {
    match a {
        Ast::Number(_) => 0,
        Ast::BinaryOp { left, right, .. } => 1 + count_ops(left) + count_ops(right),
    }
}

fn count_leaves(a: &Ast) -> u32 {
    match a {
        Ast::Number(_) => 1,
        Ast::BinaryOp { left, right, .. } => count_leaves(left) + count_leaves(right),
    }
}

#[test]
fn lex_digits_and_operators() {
    let tokens = lex("12+345").unwrap();
    assert_eq!(
        tokens,
        vec![
            Token::Number(12),
            Token::Operator('+'),
            Token::Number(345),
        ]
    );
}

#[test]
fn lex_parens_and_spaces() {
    let tokens = lex(" ( 1 ) ").unwrap();
    assert_eq!(
        tokens,
        vec![Token::LeftParen, Token::Number(1), Token::RightParen]
    );
}

#[test]
fn lex_empty_input() {
    assert_eq!(lex(""), Ok(vec![]));
}

#[test]
fn lex_unknown_character() {
    let err = lex("3 & 4").unwrap_err();
    assert_eq!(err.ch, '&');
}

#[test]
fn lex_reports_first_unknown_character() {
    let err = lex("1 + x ? 2").unwrap_err();
    assert_eq!(err.ch, 'x');
}

#[test]
fn lex_twice_is_identical() {
    let first = lex("(1 + 2) * 3");
    let second = lex("(1 + 2) * 3");
    assert_eq!(first, second);
}

#[test]
fn lex_wraps_wide_number() {
    // 2^32 wraps to 0 and 2^31 to the smallest value, as on the host type.
    assert_eq!(lex("4294967296"), Ok(vec![Token::Number(0)]));
    assert_eq!(lex("2147483648"), Ok(vec![Token::Number(i32::MIN)]));
}

#[test]
fn parse_single_number() {
    let tokens = lex("42").unwrap();
    assert_eq!(parse(&tokens), Ok(Ast::Number(42)));
}

#[test]
fn parse_precedence_shape() {
    // 2 + 3 * 4 parses as 2 + (3 * 4).
    let tokens = lex("2 + 3 * 4").unwrap();
    let ast = parse(&tokens).unwrap();
    assert_eq!(
        ast,
        Ast::BinaryOp {
            op: '+',
            left: Box::new(Ast::Number(2)),
            right: Box::new(Ast::BinaryOp {
                op: '*',
                left: Box::new(Ast::Number(3)),
                right: Box::new(Ast::Number(4)),
            }),
        }
    );
}

#[test]
fn parse_left_associative_shape() {
    // 10 - 2 - 3 parses as (10 - 2) - 3.
    let tokens = lex("10 - 2 - 3").unwrap();
    let ast = parse(&tokens).unwrap();
    assert_eq!(
        ast,
        Ast::BinaryOp {
            op: '-',
            left: Box::new(Ast::BinaryOp {
                op: '-',
                left: Box::new(Ast::Number(10)),
                right: Box::new(Ast::Number(2)),
            }),
            right: Box::new(Ast::Number(3)),
        }
    );
}

#[test]
fn parse_unbalanced_open_paren() {
    let tokens = lex("(1 + 2").unwrap();
    assert_eq!(parse(&tokens), Err(ParseError::UnbalancedParens));
}

#[test]
fn parse_unbalanced_close_paren() {
    let tokens = lex("1 + 2)").unwrap();
    assert_eq!(parse(&tokens), Err(ParseError::UnbalancedParens));
}

#[test]
fn parse_empty_tokens() {
    let tokens = lex("").unwrap();
    assert_eq!(parse(&tokens), Err(ParseError::MalformedExpression));
}

#[test]
fn parse_empty_parens() {
    let tokens = lex("()").unwrap();
    assert_eq!(parse(&tokens), Err(ParseError::MalformedExpression));
}

#[test]
fn parse_trailing_operator() {
    let tokens = lex("1 +").unwrap();
    assert_eq!(parse(&tokens), Err(ParseError::MalformedExpression));
}

#[test]
fn parse_leading_operator() {
    // There is no unary minus in the grammar.
    let tokens = lex("-3").unwrap();
    assert_eq!(parse(&tokens), Err(ParseError::MalformedExpression));
}

#[test]
fn parse_adjacent_numbers() {
    let tokens = lex("1 2").unwrap();
    assert_eq!(parse(&tokens), Err(ParseError::MalformedExpression));
}

#[test]
fn parsed_tree_has_k_ops_and_k_plus_one_leaves() {
    let tokens = lex("(2 + 3) * 4 - 5 / 1").unwrap();
    let ast = parse(&tokens).unwrap();
    assert_eq!(count_ops(&ast), 4);
    assert_eq!(count_leaves(&ast), 5);
}

#[test]
fn well_formed_trees() {
    let tokens = lex("1 * (2 - 3)").unwrap();
    let ast = parse(&tokens).unwrap();
    assert!(ast_well_formed(&ast));
    let stray = Ast::BinaryOp {
        op: '%',
        left: Box::new(Ast::Number(1)),
        right: Box::new(Ast::Number(2)),
    };
    assert!(!ast_well_formed(&stray));
}

#[test]
fn evaluate_division_by_zero() {
    let tokens = lex("5 / 0").unwrap();
    let ast = parse(&tokens).unwrap();
    assert_eq!(evaluate(&ast), Err(EvalError::DivisionByZero));
}

#[test]
fn evaluate_wraps_on_overflow() {
    let ast = Ast::BinaryOp {
        op: '+',
        left: Box::new(Ast::Number(i32::MAX)),
        right: Box::new(Ast::Number(1)),
    };
    assert_eq!(evaluate(&ast), Ok(i32::MIN));
}

#[test]
fn evaluate_division_wraps_at_the_edge() {
    let ast = Ast::BinaryOp {
        op: '/',
        left: Box::new(Ast::Number(i32::MIN)),
        right: Box::new(Ast::BinaryOp {
            op: '-',
            left: Box::new(Ast::Number(0)),
            right: Box::new(Ast::Number(1)),
        }),
    };
    assert_eq!(evaluate(&ast), Ok(i32::MIN));
}

#[test]
fn digit_only_round_trip() {
    assert_eq!(eval_str("0"), Ok(0));
    assert_eq!(eval_str("7"), Ok(7));
    assert_eq!(eval_str("007"), Ok(7));
    assert_eq!(eval_str("2147483647"), Ok(2147483647));
}

#[test]
fn precedence_values() {
    assert_eq!(eval_str("2 + 3 * 4"), Ok(14));
    assert_eq!(eval_str("(2 + 3) * 4"), Ok(20));
}

#[test]
fn left_associativity_value() {
    assert_eq!(eval_str("10 - 2 - 3"), Ok(5));
    assert_eq!(eval_str("100 / 10 / 2"), Ok(5));
}

#[test]
fn division_truncates_toward_zero() {
    assert_eq!(eval_str("8 / 3"), Ok(2));
    assert_eq!(eval_str("(0 - 7) / 2"), Ok(-3));
}

#[test]
fn pipeline_all_operators() {
    assert_eq!(eval_str("1 + 2"), Ok(3));
    assert_eq!(eval_str("7 - 5"), Ok(2));
    assert_eq!(eval_str("6 * 7"), Ok(42));
    assert_eq!(eval_str("9 / 2"), Ok(4));
}

#[test]
fn pipeline_nested_parens() {
    assert_eq!(eval_str("((2))"), Ok(2));
    assert_eq!(eval_str("2 * (3 + (4 - 1))"), Ok(12));
}

#[test]
fn pipeline_no_spaces() {
    assert_eq!(eval_str("2+3*4"), Ok(14));
}

#[test]
fn pipeline_errors() {
    assert!(matches!(eval_str("3 & 4"), Err(CalcError::Lex(_))));
    assert_eq!(
        eval_str("(1 + 2"),
        Err(CalcError::Parse(ParseError::UnbalancedParens))
    );
    assert_eq!(
        eval_str("5 / 0"),
        Err(CalcError::Eval(EvalError::DivisionByZero))
    );
    assert_eq!(
        eval_str(""),
        Err(CalcError::Parse(ParseError::MalformedExpression))
    );
}
