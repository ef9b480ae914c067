//! Single-variable function expressions: a tokenizer, a recursive-descent
//! parser producing an expression tree, and an order-preserving batch
//! evaluator over sample points.

pub mod lexer;
pub mod parser;
pub mod samples;
