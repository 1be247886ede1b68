use parsemath::ast::Node;
use parsemath::ast::Node::{Add, Caret, Multiply, Number, Or};
use parsemath::parser::{parse_text, ParseError, Parser};

fn n(text: &str) -> Box<Node> {
    Box::new(Number(text.to_string()))
}

#[test]
fn test_parse_exponentiation() {
    let mut parser = Parser::new("2^3").unwrap();
    let expected = Caret(n("2"), n("3"));
    assert_eq!(parser.parse().unwrap(), expected);
}

#[test]
fn test_parse_complex_expression() {
    let mut parser = Parser::new("3+2*4").unwrap();
    let expected = Add(n("3"), Box::new(Multiply(n("2"), n("4"))));
    assert_eq!(parser.parse().unwrap(), expected);
}

#[test]
fn test_parse_bitwise_or() {
    let mut parser = Parser::new("6|2").unwrap();
    let expected = Or(n("6"), n("2"));
    assert_eq!(parser.parse().unwrap(), expected);
}

#[test]
fn test_parse_negative_number() {
    let mut parser = Parser::new("-5").unwrap();
    let expected = Node::Negative(n("5"));
    assert_eq!(parser.parse().unwrap(), expected);
}

#[test]
fn test_parse_parentheses() {
    let mut parser = Parser::new("(2+3)").unwrap();
    let expected = Add(n("2"), n("3"));
    assert_eq!(parser.parse().unwrap(), expected);
}

#[test]
fn parse_mixed_expression_tree() {
    // 2*3 + (4-5) + 2^3/4
    let expected = Add(
        Box::new(Add(
            Box::new(Multiply(n("2"), n("3"))),
            Box::new(Node::Subtract(n("4"), n("5"))),
        )),
        Box::new(Node::Divide(Box::new(Caret(n("2"), n("3"))), n("4"))),
    );
    assert_eq!(parse_text("2*3+(4-5)+2^3/4").unwrap(), expected);
}

#[test]
fn parse_simple_operations() {
    assert_eq!(parse_text("10-4").unwrap(), Node::Subtract(n("10"), n("4")));
    assert_eq!(parse_text("3*7").unwrap(), Multiply(n("3"), n("7")));
    assert_eq!(
        parse_text("(8+2)-3").unwrap(),
        Node::Subtract(Box::new(Add(n("8"), n("2"))), n("3"))
    );
    assert_eq!(parse_text("2^10").unwrap(), Caret(n("2"), n("10")));
}

#[test]
fn parse_bitwise_operators() {
    assert_eq!(parse_text("5&3").unwrap(), Node::And(n("5"), n("3")));
    assert_eq!(
        parse_text("1|2+3").unwrap(),
        Or(n("1"), Box::new(Add(n("2"), n("3"))))
    );
}

#[test]
fn parse_division_by_zero_is_a_tree() {
    assert_eq!(parse_text("5/0").unwrap(), Node::Divide(n("5"), n("0")));
    assert_eq!(parse_text("5*0").unwrap(), Multiply(n("5"), n("0")));
}

#[test]
fn parse_bad_character_mid_expression() {
    match parse_text("2+3$4") {
        Err(ParseError::InvalidOperator(m)) => assert_eq!(m, "Unexpected end of input"),
        other => panic!("unexpected outcome {:?}", other),
    }
}

#[test]
fn parse_bad_first_character() {
    assert!(matches!(Parser::new("$2"), Err(ParseError::InvalidOperator(_))));
    match parse_text("1.2.3") {
        Err(ParseError::InvalidOperator(m)) => assert_eq!(m, "Invalid character"),
        other => panic!("unexpected outcome {:?}", other),
    }
}

#[test]
fn parse_unbalanced_parenthesis() {
    match parse_text("(2+3") {
        Err(ParseError::InvalidOperator(m)) => assert_eq!(m, "Expected RightParen, got EOF"),
        other => panic!("unexpected outcome {:?}", other),
    }
}

#[test]
fn parse_unexpected_token() {
    assert!(matches!(parse_text("+2"), Err(ParseError::UnableToParse(_))));
    assert!(matches!(parse_text(""), Err(ParseError::UnableToParse(_))));
    assert!(matches!(parse_text("2*"), Err(ParseError::UnableToParse(_))));
    assert!(matches!(parse_text("()"), Err(ParseError::UnableToParse(_))));
}

#[test]
fn parse_equal_levels_group_left() {
    assert_eq!(
        parse_text("8-2-1").unwrap(),
        Node::Subtract(Box::new(Node::Subtract(n("8"), n("2"))), n("1"))
    );
    assert_eq!(
        parse_text("2^3^2").unwrap(),
        Caret(Box::new(Caret(n("2"), n("3"))), n("2"))
    );
}

#[test]
fn parse_negation_binds_tightest() {
    assert_eq!(
        parse_text("-2^2").unwrap(),
        Caret(Box::new(Node::Negative(n("2"))), n("2"))
    );
    assert_eq!(
        parse_text("3--1").unwrap(),
        Node::Subtract(n("3"), Box::new(Node::Negative(n("1"))))
    );
}

#[test]
fn parse_stops_at_token_that_cannot_continue() {
    assert_eq!(parse_text("2)").unwrap(), *n("2"));
    assert_eq!(parse_text("(2)3").unwrap(), *n("2"));
}

#[test]
fn parse_keeps_literal_text() {
    assert_eq!(parse_text(" 3.5 * 1. ").unwrap(), Multiply(n("3.5"), n("1.")));
}

#[test]
fn parse_twice_gives_same_tree() {
    let first = parse_text("2*3+(4-5)+2^3/4").unwrap();
    let second = parse_text("2*3+(4-5)+2^3/4").unwrap();
    assert_eq!(first, second);
}

#[test]
fn parse_paren_closed_by_other_token() {
    match parse_text("(2 3)") {
        Err(ParseError::InvalidOperator(m)) => assert_eq!(m, "Expected RightParen, got Num(3)"),
        other => panic!("unexpected outcome {:?}", other),
    }
    match parse_text("(2(") {
        Err(ParseError::InvalidOperator(m)) => assert_eq!(m, "Expected RightParen, got LeftParen"),
        other => panic!("unexpected outcome {:?}", other),
    }
}

#[test]
fn parser_can_parse_again_after_failure() {
    let mut parser = Parser::new("+1").unwrap();
    assert!(matches!(parser.parse(), Err(ParseError::UnableToParse(_))));
    assert!(matches!(parser.parse(), Err(ParseError::UnableToParse(_))));
}
