//! Lexical analysis for a small Lox-family scripting language.
//!
//! [`scanner::Scanner`] turns source text into a sequence of [`token::Token`]s
//! ending with a single end-of-input token. Its behaviour is stated against the
//! mathematical lexer in [`lexicon`], which also holds the laws proved of it.
use vstd::prelude::*;

pub mod lexicon;
pub mod scanner;
pub mod token;

verus! {

} // verus!
