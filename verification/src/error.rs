//! The ways in which constructing or combining values can fail.

use vstd::prelude::*;

verus! {

/// Reasons why an operation on field elements or curve points is refused.
///
/// Every failure is reported at the point of violation; no operation returns
/// a placeholder value in its place.
#[derive(Clone, Copy, Debug, PartialEq, Eq, Structural)]
pub enum MathError {
    /// A field element was requested with a residue outside `[0, prime)`.
    RangeError,
    /// A point was requested whose coordinates do not satisfy the curve
    /// equation and are not the identity sentinel.
    NotOnCurveError,
    /// Two field elements of different primes were combined.
    FieldMismatchError,
    /// Two points of different curves were added.
    CurveMismatchError,
    /// A division by the zero element (or by the integer zero) was requested.
    DivisionByZeroError,
    /// A result over raw fixed-width integers does not fit the integer type.
    OverflowError,
}

} // verus!
