//! Cyclic redundancy checks over GF(2) polynomials held in a 16-bit register.
//!
//! A polynomial is the bit pattern of an unsigned integer: bit `i` is the
//! coefficient of `x^i`. Addition is XOR, and division is binary long division
//! in which subtraction is XOR as well.
pub mod bits;
pub mod division;
pub mod gf2;

pub use bits::{bring_down, extend_message, length};
pub use division::{polynomial_long_division, DivisionError, DivisionResult};
