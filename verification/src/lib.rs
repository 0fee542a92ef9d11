//! A lexer for a small parenthesised, whitespace-delimited notation.
//!
//! [`lexer::tokenize`] turns source text into a flat sequence of
//! [`lexer::Token`]s. What the sequence is, for every source text, is given by
//! the spec function [`grammar::lex`]; the module `laws` proves what follows
//! from it.

pub mod text;
pub mod grammar;
pub mod lexer;
pub mod laws;
