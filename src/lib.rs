//! A lazy stream of scope-classified tokens over a text, built on a
//! line-by-line grammar engine.
pub mod line_iterator;
pub mod line_tokens;
pub mod syntax;
pub mod token;
pub mod token_iterator;

pub use line_iterator::LineIterator;
pub use line_tokens::{line_length, line_tokens};
pub use token::{Lexeme, Position, Token};
pub use syntax::Syntaxes;
pub use token_iterator::TokenIterator;
