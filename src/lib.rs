//! Lexical analysis of arithmetic expressions: a source string becomes an
//! ordered sequence of number and operator tokens.

pub mod token;
pub mod lexer;
pub mod laws;

pub use token::Token;
pub use lexer::Lexer;
