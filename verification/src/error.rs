use vstd::prelude::*;

verus! {

/// All errors surfaced by the index.
#[derive(Debug, Clone, Copy, PartialEq, Eq, Structural)]
pub enum AnnFlatError {
    /// Caller supplied a vector of the wrong dimensionality.
    DimMismatch {
        /// Expected dimensionality (set by the first insert).
        expected: usize,
        /// Provided dimensionality.
        got: usize,
    },
    /// Caller asked for more results than exist in the index.
    KTooLarge {
        /// Requested k.
        k: usize,
        /// Available entries.
        n: usize,
    },
    /// Caller passed `k = 0`.
    KZero,
    /// Batch insert whose id count and matrix row count disagree.
    BatchLengthMismatch {
        /// Number of ids supplied.
        ids: usize,
        /// Number of rows in the matrix.
        rows: usize,
    },
}

} // verus!
