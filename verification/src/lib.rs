//! A verified sum-check toolkit over the BN254 base field: multilinear
//! polynomials in evaluation form with bit-indexed hypercube pairing, a
//! product and sum-of-products algebra on top of them, univariate polynomials
//! with Lagrange interpolation, a Keccak-based Fiat-Shamir transcript, and the
//! basic and generalized sum-check protocols.

use vstd::prelude::*;

pub mod fiat_shamir;
pub mod field;
pub mod multilinear_poly;
pub mod polynomial;
pub mod sum_check_protocol;

verus! {

/// The failures the library's constructors and operations report.
#[derive(Clone, Copy, Debug, PartialEq, Eq, Structural)]
pub enum PolyError {
    /// An evaluation vector whose length is not a power of two.
    InvalidShape,
    /// A wrong number of evaluation-point values.
    ArityMismatch,
    /// Factor vectors of unequal length, or operands of unequal length.
    ShapeMismatch,
    /// Product terms of unequal degree.
    DegreeMismatch,
    /// Interpolation abscissas that coincide.
    DegenerateInput,
}

} // verus!
