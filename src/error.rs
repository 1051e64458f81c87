//! Errors reported by the library.
use vstd::prelude::*;

verus! {

/// What can go wrong when reading or transforming a polynomial.
#[derive(Clone, Copy, Debug, PartialEq, Eq, Structural)]
pub enum PolyError {
    /// A term has no coefficient, or its coefficient is not an integer.
    InvalidCoefficient,
    /// An exponent is not a non-negative integer.
    InvalidPower,
    /// A strand index below the operator family's minimum, or a rank below two.
    InvalidStrand,
    /// An operator symbol other than `s`, `b` or `d`.
    UnknownOperator,
    /// An operator whose strand index is not a `u32`.
    InvalidOperatorNumber,
    /// A term whose exponents could overflow under the operators.
    ExponentOverflow,
}

} // verus!
