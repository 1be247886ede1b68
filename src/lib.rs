//! Lexing and precedence-climbing parsing of arithmetic expressions.
//!
//! The lexer (`tokenizer`) turns text into tokens one at a time; the parser
//! (`parser`) builds an expression tree (`ast`) from them. Both are specified
//! over character sequences: `tokenizer::scan` is one step of the lexer and
//! `parser::parse_spec` the tree of a whole text. Numeric literals are kept
//! as their text, which is always a decimal literal.
pub mod ast;
pub mod parser;
pub mod token;
pub mod tokenizer;
