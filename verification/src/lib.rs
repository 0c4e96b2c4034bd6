//! Front end for a small stack-based language: a lexer that turns source
//! bytes into classified tokens with source positions, and a recursive
//! descent parser that builds procedure declarations from the token stream.

pub mod mylexer;
pub mod myparser;
pub mod numbers;
