//! A small prefix expression language: signed decimal numbers, the
//! parenthesized operators `add`, `sub`, `mul`, `div` and the variadic
//! `max` and `min`, and a dice-roll primitive `d<N>`.
//!
//! `parse` turns a byte input into an expression tree or a syntax error,
//! and is proved to return exactly what the grammar in `grammar` assigns
//! to the input. Number literals are kept as their exact byte spans, so an
//! evaluator applies standard floating-point conversion to precisely the
//! recognized text; `dice` holds the integer core of the dice primitive.

pub mod ast;
pub mod dice;
pub mod grammar;
pub mod parse;
