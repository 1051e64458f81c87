//! Graded ("odd") polynomial algebra with divided-difference operators.
//!
//! Monomials multiply with a sign that records crossings of odd exponents;
//! polynomials are canonical lists of monomials; three operator families act on
//! them by a Leibniz recursion, and a closure enumerates what the operators
//! reach from a seed.
pub mod closure;
pub mod coefficients;
pub mod error;
pub mod laws;
pub mod linearity;
pub mod monomial;
pub mod operators;
pub mod polynomial;
pub mod sign;
pub mod text;

pub use monomial::OddMonomial;
pub use polynomial::OddPolynomial;
