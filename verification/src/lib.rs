//! Dense and sparse matrices of integers, with a verified multiplication
//! engine, determinants and sparse arithmetic.
//!
//! The elements of a matrix are machine integers (`i8` to `i128`, see
//! [`MatrixElement`]). Their arithmetic never fails: a result that the type
//! does not hold wraps around, as two's complement does. The contracts
//! state every result as the exact integer result, wrapped once into the
//! element type; where the exact result is in range, that is the exact
//! result.
//!
//! - [`common`]: the element type and the arithmetic that it obeys.
//! - [`matrix`]: dense matrices, one row-major buffer for all cells.
//! - [`sparse`]: sparse matrices, a map from coordinates to the non-zero
//!   cells.
//! - [`parallel`], [`random`], [`sorting`]: what the library takes from
//!   rayon, rand and itertools.
//! - [`text`]: tokens, lines and decimal integers in text.
//! - [`error`], [`constants`]: the errors and some limits.

pub mod common;
pub mod constants;
pub mod error;
pub mod matrix;
pub mod parallel;
pub mod random;
pub mod sorting;
pub mod sparse;
pub mod text;

pub use common::{swap, MatrixElement, Operation};
pub use constants::{MAXI128, MAXI32, MAXI64, MAXI8, MINI128, MINI32, MINI64, MINI8};
pub use error::MatrixError;
pub use matrix::{Dimension, Matrix, Shape};
pub use sparse::{SparseMatrix, SparseMatrixData};
