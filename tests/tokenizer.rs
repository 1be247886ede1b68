use parsemath::token::{OperPrec, Token};
use parsemath::tokenizer::Tokenizer;

fn num(text: &str) -> Token {
    Token::Num(text.to_string())
}

#[test]
fn test_tokenize_decimal_number() {
    let mut tokenizer = Tokenizer::new("3.14");
    assert_eq!(tokenizer.next().unwrap(), num("3.14"));
}

#[test]
fn test_tokenize_mixed_operators() {
    let mut tokenizer = Tokenizer::new("2+3*4-5/2");
    assert_eq!(tokenizer.next().unwrap(), num("2"));
    assert_eq!(tokenizer.next().unwrap(), Token::Add);
    assert_eq!(tokenizer.next().unwrap(), num("3"));
    assert_eq!(tokenizer.next().unwrap(), Token::Multiply);
    assert_eq!(tokenizer.next().unwrap(), num("4"));
    assert_eq!(tokenizer.next().unwrap(), Token::Subtract);
    assert_eq!(tokenizer.next().unwrap(), num("5"));
    assert_eq!(tokenizer.next().unwrap(), Token::Divide);
    assert_eq!(tokenizer.next().unwrap(), num("2"));
}

#[test]
fn test_tokenize_unrecognized_character() {
    let mut tokenizer = Tokenizer::new("2+3$4");
    assert_eq!(tokenizer.next().unwrap(), num("2"));
    assert_eq!(tokenizer.next().unwrap(), Token::Add);
    assert_eq!(tokenizer.next().unwrap(), num("3"));
    assert!(tokenizer.next().is_none());
}

#[test]
fn test_tokenize_empty_string() {
    let mut tokenizer = Tokenizer::new("");
    assert_eq!(tokenizer.next().unwrap(), Token::EOF);
}

#[test]
fn test_tokenize_whitespace() {
    let mut tokenizer = Tokenizer::new("   4   +  6 ");
    assert_eq!(tokenizer.next().unwrap(), num("4"));
    assert_eq!(tokenizer.next().unwrap(), Token::Add);
    assert_eq!(tokenizer.next().unwrap(), num("6"));
}

#[test]
fn tokenize_end_marker_repeats() {
    let mut tokenizer = Tokenizer::new("7");
    assert_eq!(tokenizer.next().unwrap(), num("7"));
    assert_eq!(tokenizer.next().unwrap(), Token::EOF);
    assert_eq!(tokenizer.next().unwrap(), Token::EOF);
}

#[test]
fn tokenize_all_symbols() {
    let mut tokenizer = Tokenizer::new("&|^()\t\n");
    assert_eq!(tokenizer.next().unwrap(), Token::And);
    assert_eq!(tokenizer.next().unwrap(), Token::Or);
    assert_eq!(tokenizer.next().unwrap(), Token::Caret);
    assert_eq!(tokenizer.next().unwrap(), Token::LeftParen);
    assert_eq!(tokenizer.next().unwrap(), Token::RightParen);
    assert_eq!(tokenizer.next().unwrap(), Token::EOF);
}

#[test]
fn tokenize_literal_with_two_dots_fails() {
    let mut tokenizer = Tokenizer::new("1.2.3+4");
    assert!(tokenizer.next().is_none());
    assert_eq!(tokenizer.next().unwrap(), Token::Add);
    assert_eq!(tokenizer.next().unwrap(), num("4"));
}

#[test]
fn tokenize_literal_with_trailing_dot() {
    let mut tokenizer = Tokenizer::new("12.*3");
    assert_eq!(tokenizer.next().unwrap(), num("12."));
    assert_eq!(tokenizer.next().unwrap(), Token::Multiply);
}

#[test]
fn tokenize_skips_bad_character() {
    let mut tokenizer = Tokenizer::new("$1");
    assert!(tokenizer.next().is_none());
    assert_eq!(tokenizer.next().unwrap(), num("1"));
}

#[test]
fn operator_precedence_levels() {
    assert_eq!(Token::And.get_oper_prec(), OperPrec::Bitwise);
    assert_eq!(Token::Or.get_oper_prec(), OperPrec::Bitwise);
    assert_eq!(Token::Add.get_oper_prec(), OperPrec::AddSub);
    assert_eq!(Token::Subtract.get_oper_prec(), OperPrec::AddSub);
    assert_eq!(Token::Multiply.get_oper_prec(), OperPrec::MulDiv);
    assert_eq!(Token::Divide.get_oper_prec(), OperPrec::MulDiv);
    assert_eq!(Token::Caret.get_oper_prec(), OperPrec::Exponent);
    assert_eq!(num("1").get_oper_prec(), OperPrec::DefaultZero);
    assert_eq!(Token::EOF.get_oper_prec(), OperPrec::DefaultZero);
    assert!(OperPrec::Bitwise.is_below(&OperPrec::AddSub));
    assert!(!OperPrec::Negative.is_below(&OperPrec::Exponent));
    assert!(!OperPrec::MulDiv.is_below(&OperPrec::MulDiv));
    assert_eq!(OperPrec::Negative.level(), 5);
}
