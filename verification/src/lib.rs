//! Lexical analysis for a small language: a scanner that turns source text
//! into classified tokens, and an escape decoder for quoted literals.

pub mod ext;
pub mod scanner;
pub mod token;
pub mod unescape;

pub use scanner::Lexer;
pub use token::Token;
pub use token::TokenType;
pub use unescape::UnescapeError;
pub use unescape::unescape;
