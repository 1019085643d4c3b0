//! A line-oriented evaluator for a tiny parenthesised expression language.
//!
//! The language has unsigned integers, the two built-in operations `+` and
//! `-`, symbols, and a lambda form that keeps the source text of its body
//! without evaluating it. [`lexer`] turns text into tokens, one per call;
//! [`eval`] pulls tokens and reduces them to a single value.
pub mod eval;
pub mod lexer;
pub mod round_trip;
pub mod text;
