//! Errors on matrices.

use vstd::prelude::*;
use vstd::string::StringExecFns;

verus! {

/// What can go wrong when a matrix is built or two matrices are combined.
#[derive(Debug, PartialEq)]
pub enum MatrixError {
    /// The buffer handed to a constructor does not have `rows * cols` elements.
    MatrixCreationError,
    /// A cell outside the matrix was addressed.
    MatrixIndexOutOfBoundsError,
    /// A matrix product was asked for two matrices that are not of the
    /// shapes (M x N) and (N x P).
    MatrixMultiplicationDimensionMismatchError,
    /// An element-wise operation was asked for two matrices of different
    /// shapes.
    MatrixDimensionMismatchError,
    /// Two matrices could not be concatenated along the requested dimension.
    MatrixConcatinationError,
    /// The text of a matrix could not be parsed.
    MatrixParseError,
    /// An element-wise division met a zero in the divisor.
    MatrixDivideByZeroError,
    /// The file at the given path could not be read.
    MatrixFileReadError(&'static str),
}

impl MatrixError {
    /// The text that describes the error.
    pub open spec fn message_spec(self) -> Seq<char> {
        match self {
            MatrixError::MatrixCreationError => "There was an error creating the matrix."@,
            MatrixError::MatrixIndexOutOfBoundsError => "The indexes are out of bounds for the matrix"@,
            MatrixError::MatrixMultiplicationDimensionMismatchError => "The two matrices supplied are not on the form M x N @ N x P"@,
            MatrixError::MatrixDimensionMismatchError => "The matrixs provided are both not on the form M x N"@,
            MatrixError::MatrixConcatinationError => "Matrixs could not be concatinated or extended due to more than 1 dim mismatch"@,
            MatrixError::MatrixParseError => "Failed to parse matrix from file"@,
            MatrixError::MatrixDivideByZeroError => "Tried to divide by zero"@,
            MatrixError::MatrixFileReadError(path) => "Could not read file from path: "@ + path@,
        }
    }

    /// Renders the error as text, the path included where the error has one.
    pub fn message(&self) -> (text: String)
        ensures
            text@ == self.message_spec(),
    {
        match self {
            MatrixError::MatrixCreationError => String::from_str(
                "There was an error creating the matrix.",
            ),
            MatrixError::MatrixIndexOutOfBoundsError => String::from_str(
                "The indexes are out of bounds for the matrix",
            ),
            MatrixError::MatrixMultiplicationDimensionMismatchError => String::from_str(
                "The two matrices supplied are not on the form M x N @ N x P",
            ),
            MatrixError::MatrixDimensionMismatchError => String::from_str(
                "The matrixs provided are both not on the form M x N",
            ),
            MatrixError::MatrixConcatinationError => String::from_str(
                "Matrixs could not be concatinated or extended due to more than 1 dim mismatch",
            ),
            MatrixError::MatrixParseError => String::from_str("Failed to parse matrix from file"),
            MatrixError::MatrixDivideByZeroError => String::from_str("Tried to divide by zero"),
            MatrixError::MatrixFileReadError(path) => String::from_str(
                "Could not read file from path: ",
            ).concat(path),
        }
    }
}

} // verus!
