//! Arithmetic expressions over text: a lexer that hands out tokens, a
//! Shunting-Yard parser that puts them in postfix order, and an evaluator that
//! reduces the postfix form to the expression tree it denotes.

pub mod lexer;
pub mod parser;
pub mod evaluator;
pub mod expression;
