//! A verified parser for mathematical formulas.
//!
//! The library turns a formula string into a token stream (`lexer`) and
//! resolves that stream into an expression tree (`parser`) in three passes:
//! parenthesis resolution, function binding, and operator precedence.

pub mod lexer;
pub mod node;
pub mod parser;
