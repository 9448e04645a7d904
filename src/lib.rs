//! Tabulation of a polynomial at the points of an arithmetic progression by
//! finite differences: after a setup that evaluates the polynomial at as many
//! points as it has coefficients, every further value costs only additions.
//!
//! Values are `i64` with two's-complement wrap-around, so every operation is
//! exact in the ring of integers modulo 2^64; the contracts state each result
//! as the mathematical value reduced by [`modular::wrap`].

pub mod modular;
pub mod polynomial;
pub mod differences;
pub mod tabulation;

pub use polynomial::{evaluate, PolynomialError};
pub use tabulation::PolynomialEvaluator;
