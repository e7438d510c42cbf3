use sukker::{swap, MatrixError};

#[test]
fn every_error_has_its_text() {
    assert_eq!(
        MatrixError::MatrixCreationError.message(),
        "There was an error creating the matrix."
    );
    assert_eq!(
        MatrixError::MatrixIndexOutOfBoundsError.message(),
        "The indexes are out of bounds for the matrix"
    );
    assert_eq!(
        MatrixError::MatrixMultiplicationDimensionMismatchError.message(),
        "The two matrices supplied are not on the form M x N @ N x P"
    );
    assert_eq!(
        MatrixError::MatrixDimensionMismatchError.message(),
        "The matrixs provided are both not on the form M x N"
    );
    assert_eq!(
        MatrixError::MatrixConcatinationError.message(),
        "Matrixs could not be concatinated or extended due to more than 1 dim mismatch"
    );
    assert_eq!(MatrixError::MatrixParseError.message(), "Failed to parse matrix from file");
    assert_eq!(MatrixError::MatrixDivideByZeroError.message(), "Tried to divide by zero");
    assert_eq!(
        MatrixError::MatrixFileReadError("a/b.txt").message(),
        "Could not read file from path: a/b.txt"
    );
}

#[test]
fn swap_exchanges_two_numbers() {
    let mut a = 3usize;
    let mut b = 8usize;
    swap(&mut a, &mut b);
    assert_eq!((a, b), (8, 3));
}
