use vstd::prelude::*;

verus! {

/// Errors reported by matrix construction and operations.
#[derive(Debug, Clone, Copy, PartialEq, Eq, Structural)]
pub enum MatrixError {
    /// The token at this flat position of the input is not a number.
    ParseError { index: usize },
    /// This row has a different number of entries than the rows before it.
    RaggedInput { row: usize },
    /// A matrix needs at least one row and one column.
    InvalidDimensions,
    /// The operation needs a square matrix; the shape found is given.
    NotSquare { rows: usize, cols: usize },
    /// The shapes of the two operands do not fit the operation.
    DimensionMismatch { rows_a: usize, cols_a: usize, rows_b: usize, cols_b: usize },
    /// The determinant is zero, so there is no inverse.
    SingularMatrix,
}

} // verus!
