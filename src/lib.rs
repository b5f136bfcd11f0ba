//! Lexer and inline-modifier resolver for a lightweight markup dialect.
//!
//! Raw text is classified character by character into atoms
//! ([`tokenizer`]), then grouped into words, space runs and breaks while
//! opening and closing delimiters are matched into nested modifier spans
//! ([`parser`]). Every token carries its (line, column) range.
//!
//! [`model`] gives tokens a mathematical value, [`rules`] states the
//! resolution as a state machine over atoms that [`parser::parse`] is
//! proved to follow, and [`laws`] proves what holds of every result.

pub mod tokenizer;
pub mod model;
pub mod rules;
pub mod parser;
pub mod laws;
