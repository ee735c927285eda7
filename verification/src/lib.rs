//! An arithmetic calculator: text is split into tokens, the tokens are put
//! into postfix order, and the postfix stream is folded into a term.
//!
//! - `lexer`: tokens and the scanner.
//! - `parser`: the conversion to postfix order, the evaluation of a postfix
//!   stream, and the two in a row.
//! - `term`: the terms that a postfix stream denotes.
//! - `notation`: infix notation, and the proof that it is read as meant.

pub mod lexer;
pub mod notation;
pub mod parser;
pub mod term;
