//! Compact in-memory representations of three special matrix shapes:
//! general sparse matrices in coordinate-list form, and packed
//! lower- and upper-triangular matrices, together with conversion
//! to and from the dense row-of-rows form, transposition, and
//! multiplication of sparse matrices.
#![verifier::loop_isolation(false)]
use vstd::prelude::*;

pub mod dense;
pub mod entries;
pub mod lower;
pub mod sparse;
pub mod upper;

verus! {

/// Failures reported by the fallible constructors and by multiplication.
#[derive(Debug, PartialEq, Eq)]
pub enum MatrixError {
    /// Multiplication was attempted on shapes whose inner dimensions differ;
    /// carries the shapes of both operands for diagnostics.
    DimensionMismatch((usize, usize), (usize, usize)),
    /// A triangular matrix was to be built from a non-square dense matrix.
    NotSquare,
    /// The dense input has a nonzero cell strictly above the diagonal.
    NotLowerTriangular,
    /// The dense input has a nonzero cell strictly below the diagonal.
    NotUpperTriangular,
}

} // verus!
