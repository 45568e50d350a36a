//! A lexical analyzer for a small C-like scripting language.
//!
//! Source text is turned into a forward-only sequence of classified,
//! position-tagged tokens. The scanner skips spaces, keeps newlines as
//! structural tokens, resolves keywords, disambiguates the two-character
//! operators `==` and `!=` with one character of lookahead, and recovers
//! from unrecognized characters and oversized integer literals by emitting
//! dedicated tokens instead of failing.

pub mod lexer;
pub mod token;

pub use lexer::Lexer;
pub use token::Token;
pub use token::TokenType;
pub use token::tokens_to_tokentypes;
