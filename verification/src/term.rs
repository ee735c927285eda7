//! Arithmetic terms: what a postfix stream denotes.

use crate::lexer::{is_digit, symbol_of, Lexeme, TokenType};
use vstd::prelude::*;

verus! {

/// The four binary operations.
#[derive(Debug, Copy, Clone, PartialEq, Eq, Structural)]
pub enum Operation {
    Add,
    Subtract,
    Multiply,
    Divide,
}

/// A term: a literal, written as its digits, or an operation applied to a
/// left and a right term.
#[derive(Debug, PartialEq)]
pub enum Expr {
    Number(String),
    Binary(Operation, Box<Expr>, Box<Expr>),
}

/// The mathematical content of an `Expr`.
pub enum Term {
    Number(Seq<char>),
    Binary(Operation, Box<Term>, Box<Term>),
}

impl View for Expr {
    type V = Term;

    open spec fn view(&self) -> Term
        decreases self,
    {
        match self {
            Expr::Number(digits) => Term::Number(digits@),
            Expr::Binary(operation, left, right) => Term::Binary(
                *operation,
                Box::new((**left).view()),
                Box::new((**right).view()),
            ),
        }
    }
}

/// The operation that an operator kind stands for.
pub open spec fn operation_of(kind: TokenType) -> Operation
    recommends
        kind == TokenType::Plus || kind == TokenType::Minus || kind == TokenType::Multiply || kind
            == TokenType::Divide,
{
    match kind {
        TokenType::Plus => Operation::Add,
        TokenType::Minus => Operation::Subtract,
        TokenType::Multiply => Operation::Multiply,
        _ => Operation::Divide,
    }
}

/// The operator kind that an operation is written with.
pub open spec fn kind_of(operation: Operation) -> TokenType {
    match operation {
        Operation::Add => TokenType::Plus,
        Operation::Subtract => TokenType::Minus,
        Operation::Multiply => TokenType::Multiply,
        Operation::Divide => TokenType::Divide,
    }
}

/// The contents of a run of terms.
pub open spec fn terms(exprs: Seq<Expr>) -> Seq<Term> {
    exprs.map_values(|e: Expr| e@)
}

impl Term {
    /// Every literal of the term is a non-empty run of digits.
    pub open spec fn well_formed(self) -> bool
        decreases self,
    {
        match self {
            Term::Number(digits) => (Lexeme { kind: TokenType::Int, text: digits }).well_formed(),
            Term::Binary(_, left, right) => left.well_formed() && right.well_formed(),
        }
    }

    /// The term in postfix order: left side, right side, operator.
    pub open spec fn postfix(self) -> Seq<Lexeme>
        decreases self,
    {
        match self {
            Term::Number(digits) => seq![Lexeme { kind: TokenType::Int, text: digits }],
            Term::Binary(operation, left, right) => (left.postfix() + right.postfix()).push(
                operator(operation),
            ),
        }
    }
}

/// The token that an operation is written with.
pub open spec fn operator(operation: Operation) -> Lexeme {
    Lexeme { kind: kind_of(operation), text: seq![symbol_of(kind_of(operation))] }
}

} // verus!
