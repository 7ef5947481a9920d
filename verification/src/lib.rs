//! A tokenizer for a small expression/statement language.
//!
//! The input is a borrowed piece of source text; the output is a stream of
//! classified tokens (keywords, identifiers, symbols, literals), pulled one at
//! a time with [`lexer::Tokenizer::next_token`]. The lexical grammar itself is
//! written down once, as specification functions over sequences of characters
//! (module [`grammar`]), and the executable scanner is proved to follow it.

pub mod grammar;
pub mod laws;
pub mod lexer;
pub mod token;
