//! Tests of the expression engine: tokenizing, postfix compilation,
//! operator ordering, and parenthesis mismatches.

use pipeconf::eval::{tokenize, to_postfix, Token, Operator, prio};
use pipeconf::types::{Value, Num, ParseError};

fn cs(s: &str) -> Vec<char> {
    s.chars().collect()
}

fn n(mantissa: u64) -> Value {
    Value::Number(Num { neg: false, mantissa, exp: 0 })
}

#[test]
fn test_expr() {
    let s = cs("1.0 == [var] AND 2 == 6");
    let expected = vec![
        Token::Value(n(1)),
        Token::Operator(Operator::Eq),
        Token::Variable(vec![cs("var")]),
        Token::Operator(Operator::And),
        Token::Value(n(2)),
        Token::Operator(Operator::Eq),
        Token::Value(n(6)),
    ];
    assert_eq!(tokenize(&s).unwrap(), expected);
}

#[test]
fn test_rpn() {
    let s = cs("(1.0 == 3.0 AND 2 == 6) OR 4 == 7");
    let tokens = tokenize(&s).unwrap();
    let rpn = to_postfix(&tokens).unwrap();
    let expected = vec![
        Token::Value(n(1)),
        Token::Value(n(3)),
        Token::Operator(Operator::Eq),
        Token::Value(n(2)),
        Token::Value(n(6)),
        Token::Operator(Operator::Eq),
        Token::Operator(Operator::And),
        Token::Value(n(4)),
        Token::Value(n(7)),
        Token::Operator(Operator::Eq),
        Token::Operator(Operator::Or),
    ];
    assert_eq!(rpn, expected);
}

#[test]
fn test_rpn_1() {
    let s = cs("1.0 == 3.0 AND (2 == 6 OR 4 == 7)");
    let tokens = tokenize(&s).unwrap();
    let rpn = to_postfix(&tokens).unwrap();
    let expected = vec![
        Token::Value(n(1)),
        Token::Value(n(3)),
        Token::Operator(Operator::Eq),
        Token::Value(n(2)),
        Token::Value(n(6)),
        Token::Operator(Operator::Eq),
        Token::Value(n(4)),
        Token::Value(n(7)),
        Token::Operator(Operator::Eq),
        Token::Operator(Operator::Or),
        Token::Operator(Operator::And),
    ];
    assert_eq!(rpn, expected);
}

#[test]
#[should_panic]
fn test_rpn_should_panic_right_paren() {
    let s = cs("1.0 == 3.0) AND (2 == 6 OR 4 == 7)");
    let tokens = tokenize(&s).unwrap();
    let _rpn = to_postfix(&tokens).unwrap();
}

#[test]
#[should_panic]
fn test_rpn_should_panic_left_paren() {
    let s = cs("(1.0 == 3.0 AND (2 == 6 OR 4 == 7)");
    let tokens = tokenize(&s).unwrap();
    let _rpn = to_postfix(&tokens).unwrap();
}

#[test]
fn test_op_orderign() {
    assert_eq!(Operator::And <= Operator::Eq, true);
    assert_eq!(Operator::Gt > Operator::Or, true);
}

#[test]
fn test_prio_tiers() {
    for c in [Operator::Eq, Operator::Ne, Operator::Gt, Operator::Lt, Operator::Gte, Operator::Lte]
    {
        for b in [Operator::And, Operator::Or] {
            assert!(prio(&c) > prio(&b));
        }
    }
}

#[test]
fn test_mismatch_right_paren_error() {
    let s = cs("1 == 2)");
    let tokens = tokenize(&s).unwrap();
    assert_eq!(to_postfix(&tokens), Err(ParseError::MismatchedParenthesis));
}

#[test]
fn test_mismatch_left_paren_error() {
    let s = cs("(1 == 2");
    let tokens = tokenize(&s).unwrap();
    assert_eq!(to_postfix(&tokens), Err(ParseError::MismatchedParenthesis));
}

#[test]
fn test_left_to_right_same_tier() {
    // equal-tier operators take effect left to right
    let s = cs("[a] AND [b] OR [c]");
    let tokens = tokenize(&s).unwrap();
    let rpn = to_postfix(&tokens).unwrap();
    let expected = vec![
        Token::Variable(vec![cs("a")]),
        Token::Variable(vec![cs("b")]),
        Token::Operator(Operator::And),
        Token::Variable(vec![cs("c")]),
        Token::Operator(Operator::Or),
    ];
    assert_eq!(rpn, expected);
}

#[test]
fn test_variable_segment_digits() {
    let s = cs("[seg2][x] == 1");
    let tokens = tokenize(&s).unwrap();
    assert_eq!(tokens[0], Token::Variable(vec![cs("seg2"), cs("x")]));
}

#[test]
fn test_operator_longest_match() {
    let s = cs("[a] >= 1");
    let tokens = tokenize(&s).unwrap();
    assert_eq!(tokens[1], Token::Operator(Operator::Gte));
}

#[test]
fn test_postfix_stack_consumable() {
    // the compiled postfix of a balanced expression runs on a binary-
    // operator stack machine without underflow and leaves one result
    let s = cs("(1.0 == 3.0 AND 2 == 6) OR 4 == 7");
    let tokens = tokenize(&s).unwrap();
    let rpn = to_postfix(&tokens).unwrap();
    let mut depth: i64 = 0;
    for t in &rpn {
        match t {
            Token::Value(_) | Token::Variable(_) => depth += 1,
            Token::Operator(_) => {
                assert!(depth >= 2, "stack underflow");
                depth -= 1;
            }
            _ => panic!("parenthesis in postfix output"),
        }
    }
    assert_eq!(depth, 1);
}

#[test]
fn test_tokenize_rejects_garbage() {
    let s = cs("1 == $");
    assert!(tokenize(&s).is_err());
}
