//! Dense square linear systems: a row-major square matrix type, solved by
//! Gauss-Jordan elimination with a one-column-ahead pivot step, and the
//! reading of rows of numbers (fractions such as `3/5` included) from text.
//!
//! The matrix is generic over its scalar type; the usual choice is `f64`.
//! Contracts speak of the scalar's operators through vstd's spec functions for
//! `Div`, `Sub`, `Mul`, `PartialEq`, `PartialOrd` and `From<u8>`: what they
//! state about values holds wherever those operators follow their spec
//! functions, and what they state about shape (lengths, which cells and rows
//! move, when `None` is forced) holds for every scalar type.
pub mod layout;
pub mod matrix;
pub mod row_input;
pub mod solver;

pub use matrix::Matrix;
pub use row_input::{parse_row_input, RowError};
pub use solver::solve;
