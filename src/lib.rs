//! Lexical analysis for the Elysabettian scripting language: a scanner that
//! turns source text into a finite, ordered stream of typed tokens.
pub mod grammar;
pub mod token;
pub mod tokenizer;
