//! Small verified number-theory utilities: a congruence-modulus operation
//! on integer-like values, and the generation and summation of the
//! multiples of a collection of factors below an exclusive bound.

pub mod modulus;
pub mod multiples;
pub mod numbers;
