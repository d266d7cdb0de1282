use vstd::prelude::*;

verus! {

/// Failures reported by the matrix operations.
#[derive(Debug, Clone, Copy, PartialEq, Eq, Structural)]
pub enum MatrixError {
    /// The shapes of the operands do not fit the operation.
    DimensionMismatchError,
    /// An input grid is empty or ragged.
    MalformedInputError,
    /// Row reduction met a column with no usable pivot.
    SingularPivotError,
}

} // verus!
