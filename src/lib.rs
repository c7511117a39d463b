// Dense matrices stored as one row-major buffer, generic in their entries: the scalar
// arithmetic (and the reading and showing of single entries) comes in as pure functions,
// and every operation is stated and proved over the matrix as a sequence of rows.

pub mod determinant;
pub mod display;
pub mod error;
pub mod laws;
pub mod matrix;
pub mod product;
pub mod reduce;
pub mod scalar;
pub mod text;
