//! An evaluator for the untyped lambda calculus: terms are read from text
//! into a binder-distance representation, named definitions are expanded,
//! and the result is reduced in normal order and rendered back to text.

pub mod lexer;
pub mod numeral;
pub mod parser;
pub mod printer;
pub mod reduction;
pub mod runtime;
pub mod term;
pub mod text;
