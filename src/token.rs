//! Tokens and operator precedence.
use vstd::prelude::*;
use vstd::string::StringExecFns;

verus! {

/// A lexical unit of an arithmetic expression.
///
/// A numeric literal keeps its text: digits and at most one `.`,
/// starting with a digit.
#[derive(Debug, Clone, PartialEq)]
pub enum Token {
    And,
    Or,
    Add,
    Subtract,
    Multiply,
    Divide,
    Caret,
    LeftParen,
    RightParen,
    Num(String),
    EOF,
}

/// The mathematical model of a token.
pub enum SpecToken {
    And,
    Or,
    Add,
    Subtract,
    Multiply,
    Divide,
    Caret,
    LeftParen,
    RightParen,
    Num(Seq<char>),
    Eof,
}

impl View for Token {
    type V = SpecToken;

    open spec fn view(&self) -> SpecToken {
        match self {
            Token::And => SpecToken::And,
            Token::Or => SpecToken::Or,
            Token::Add => SpecToken::Add,
            Token::Subtract => SpecToken::Subtract,
            Token::Multiply => SpecToken::Multiply,
            Token::Divide => SpecToken::Divide,
            Token::Caret => SpecToken::Caret,
            Token::LeftParen => SpecToken::LeftParen,
            Token::RightParen => SpecToken::RightParen,
            Token::Num(s) => SpecToken::Num(s@),
            Token::EOF => SpecToken::Eof,
        }
    }
}

/// Precedence levels, from lowest to highest.
#[derive(Debug, Clone, Copy, PartialEq, Eq, Structural, PartialOrd, Ord)]
pub enum OperPrec {
    DefaultZero,
    Bitwise,
    AddSub,
    MulDiv,
    Exponent,
    Negative,
}

impl OperPrec {
    /// The position of the level in the order from lowest to highest.
    pub open spec fn rank(self) -> nat {
        match self {
            OperPrec::DefaultZero => 0,
            OperPrec::Bitwise => 1,
            OperPrec::AddSub => 2,
            OperPrec::MulDiv => 3,
            OperPrec::Exponent => 4,
            OperPrec::Negative => 5,
        }
    }

    /// Executable form of `rank`.
    pub fn level(&self) -> (r: u8)
        ensures
            r as nat == self.rank(),
    {
        match self {
            OperPrec::DefaultZero => 0,
            OperPrec::Bitwise => 1,
            OperPrec::AddSub => 2,
            OperPrec::MulDiv => 3,
            OperPrec::Exponent => 4,
            OperPrec::Negative => 5,
        }
    }

    /// Whether `self` binds strictly less tightly than `other`.
    pub fn is_below(&self, other: &OperPrec) -> (r: bool)
        ensures
            r == (self.rank() < other.rank()),
    {
        self.level() < other.level()
    }
}

/// The precedence level of a token as an infix operator.
pub open spec fn prec_of(t: SpecToken) -> OperPrec {
    match t {
        SpecToken::And | SpecToken::Or => OperPrec::Bitwise,
        SpecToken::Add | SpecToken::Subtract => OperPrec::AddSub,
        SpecToken::Multiply | SpecToken::Divide => OperPrec::MulDiv,
        SpecToken::Caret => OperPrec::Exponent,
        _ => OperPrec::DefaultZero,
    }
}

/// The name by which a message shows a token; a number shows its text.
pub open spec fn token_name(t: SpecToken) -> Seq<char> {
    match t {
        SpecToken::And => "And"@,
        SpecToken::Or => "Or"@,
        SpecToken::Add => "Add"@,
        SpecToken::Subtract => "Subtract"@,
        SpecToken::Multiply => "Multiply"@,
        SpecToken::Divide => "Divide"@,
        SpecToken::Caret => "Caret"@,
        SpecToken::LeftParen => "LeftParen"@,
        SpecToken::RightParen => "RightParen"@,
        SpecToken::Num(lit) => "Num("@ + lit + ")"@,
        SpecToken::Eof => "EOF"@,
    }
}

impl Token {
    /// The precedence level of this token as an infix operator; numbers,
    /// parentheses and the end marker have the lowest level.
    pub fn get_oper_prec(&self) -> (r: OperPrec)
        ensures
            r == prec_of(self@),
    {
        match self {
            Token::And | Token::Or => OperPrec::Bitwise,
            Token::Add | Token::Subtract => OperPrec::AddSub,
            Token::Multiply | Token::Divide => OperPrec::MulDiv,
            Token::Caret => OperPrec::Exponent,
            _ => OperPrec::DefaultZero,
        }
    }

    /// `prefix` followed by the name of this token.
    pub fn describe(&self, prefix: &str) -> (r: String)
        ensures
            r@ == prefix@ + token_name(self@),
    {
        let mut r = prefix.to_owned();
        match self {
            Token::And => r.append("And"),
            Token::Or => r.append("Or"),
            Token::Add => r.append("Add"),
            Token::Subtract => r.append("Subtract"),
            Token::Multiply => r.append("Multiply"),
            Token::Divide => r.append("Divide"),
            Token::Caret => r.append("Caret"),
            Token::LeftParen => r.append("LeftParen"),
            Token::RightParen => r.append("RightParen"),
            Token::Num(lit) => {
                r.append("Num(");
                r.append(lit.as_str());
                r.append(")");
            },
            Token::EOF => r.append("EOF"),
        }
        r
    }
}

} // verus!
