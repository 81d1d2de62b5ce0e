//! A tokenizer for a small scripting language with English-like keywords.
//!
//! The language knows the keywords `create`, `extern` and `in`, the
//! possessive `'s`, the assignment sign `=`, identifiers, decimal numbers,
//! string literals between double quotes, line ends, and comments that run
//! from `#` to the end of the line.
//!
//! [`grammar`] says, over sequences of characters, which token a source text
//! starts with and what is left after it. [`lexer`] holds the executable
//! tokenizer, which is proved to follow the grammar, and [`laws`] holds what
//! follows from the grammar for every source text. [`chars`] and [`number`]
//! hold the character classes and the shape of a number, and [`std_specs`]
//! what is taken for granted of the standard library.

pub mod std_specs;
pub mod chars;
pub mod number;
pub mod grammar;
pub mod lexer;
pub mod laws;
