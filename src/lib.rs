//! The front end of a small interpreted language: a scanner that turns source
//! text into tokens, and a precedence-climbing parser that builds a syntax tree
//! from them, each proved against a specification of what it computes.
pub mod ast;
pub mod grammar;
pub mod lexer;
pub mod parser;
pub mod roundtrip;
pub mod strings;
pub mod token;

pub use lexer::{is_digit, is_letter, Lexer};
pub use parser::{parse, ParseError, Parser};
pub use token::{Token, TokenType, Value};
