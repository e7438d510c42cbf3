use sukker::text::{count_newlines, read_int, tokenize};
use sukker::{Matrix, MatrixError, SparseMatrix};

fn dense(text: &str) -> Result<Matrix<i32>, MatrixError> {
    Matrix::from_text(text)
}

#[test]
fn tokens_are_runs_between_white_space() {
    assert_eq!(tokenize(b""), vec![]);
    assert_eq!(tokenize(b" \n\t"), vec![]);
    assert_eq!(tokenize(b"ab"), vec![(0, 2)]);
    assert_eq!(tokenize(b" 12\t-3\r\n4 "), vec![(1, 3), (4, 6), (8, 9)]);
    assert_eq!(count_newlines(b"a\n\nb\n", 0, 5), 3);
    assert_eq!(count_newlines(b"a\n\nb\n", 2, 4), 1);
    assert_eq!(count_newlines(b"a\n\nb\n", 3, 3), 0);
}

#[test]
fn integers_are_read_in_decimal() {
    assert_eq!(read_int(b"0", 0, 1), Some(0));
    assert_eq!(read_int(b"x-120y", 1, 5), Some(-120));
    assert_eq!(read_int(b"+7", 0, 2), Some(7));
    assert_eq!(read_int(b"007", 0, 3), Some(7));
    assert_eq!(read_int(b"-", 0, 1), None);
    assert_eq!(read_int(b"+", 0, 1), None);
    assert_eq!(read_int(b"1a", 0, 2), None);
    assert_eq!(read_int(b"--1", 0, 3), None);
    assert_eq!(read_int(b"170141183460469231731687303715884105727", 0, 39), Some(i128::MAX));
    assert_eq!(read_int(b"170141183460469231731687303715884105728", 0, 39), None);
    assert_eq!(read_int(b"-170141183460469231731687303715884105728", 0, 40), Some(i128::MIN));
    assert_eq!(read_int(b"-170141183460469231731687303715884105729", 0, 40), None);
    assert_eq!(read_int(b"1701411834604692317316873037158841057270", 0, 40), None);
}

#[test]
fn dense_matrices_are_read_line_by_line() {
    let a = dense("1 2 3\n4 5 6").unwrap();
    assert_eq!(a.shape(), (2, 3));
    assert_eq!(a.get_vec(), vec![1, 2, 3, 4, 5, 6]);
    let b = dense("\n\n  1\t-2 \r\n+3 4 \n\n").unwrap();
    assert_eq!(b.shape(), (2, 2));
    assert_eq!(b.get_vec(), vec![1, -2, 3, 4]);
    let c = dense("7").unwrap();
    assert_eq!(c.shape(), (1, 1));
    let ragged = dense("1 2\n3\n4 5 6").unwrap();
    assert_eq!(ragged.shape(), (3, 2));
    assert_eq!(ragged.get_vec(), vec![1, 2, 3, 4, 5, 6]);
    let parsed: Matrix<i64> = "1 2\n3 4".parse().unwrap();
    assert_eq!(parsed.get_vec(), vec![1i64, 2, 3, 4]);
    assert_eq!(Matrix::<i8>::from_bytes(b"127 -128").unwrap().get_vec(), vec![127i8, -128]);
}

#[test]
fn text_that_spells_no_dense_matrix_is_refused() {
    assert_eq!(dense(""), Err(MatrixError::MatrixParseError));
    assert_eq!(dense("  \n "), Err(MatrixError::MatrixParseError));
    assert_eq!(dense("1 2\n3"), Err(MatrixError::MatrixParseError));
    assert_eq!(dense("1 x"), Err(MatrixError::MatrixParseError));
    assert_eq!(dense("1 2\n\n3 4"), Err(MatrixError::MatrixParseError));
    assert_eq!(dense("1.5"), Err(MatrixError::MatrixParseError));
    assert_eq!(dense("2147483648"), Err(MatrixError::MatrixParseError));
    assert_eq!(Matrix::<i8>::from_text("128"), Err(MatrixError::MatrixParseError));
    assert_eq!("1 2\n3".parse::<Matrix<i32>>(), Err(MatrixError::MatrixParseError));
}

#[test]
fn dense_matrices_are_written_row_by_row() {
    assert_eq!(Matrix::<i32>::eye(2).render(), "[1 0 \n 0 1], dtype=i32\n");
    let a = Matrix::new(vec![-12i64, 0, 305], (1, 3)).unwrap();
    assert_eq!(a.render(), "[-12 0 305 ], dtype=i64\n");
    let b = Matrix::new(vec![1i8, 2, 3], (3, 1)).unwrap();
    assert_eq!(b.render(), "[1 \n 2\n 3], dtype=i8\n");
    let empty = Matrix::<i16>::new(vec![], (0, 0)).unwrap();
    assert_eq!(empty.render(), "[], dtype=i16\n");
    let wide = Matrix::init(7i128, (1, 11));
    assert_eq!(wide.render(), "[...7 7 7 7 7 7 7 7 7 7 7 ], dtype=i128\n");
    let limits = Matrix::new(vec![i128::MIN, i128::MAX], (1, 2)).unwrap();
    assert_eq!(
        limits.render(),
        "[-170141183460469231731687303715884105728 170141183460469231731687303715884105727 ], dtype=i128\n"
    );
    let round: Matrix<i64> = a.render()[1..11].parse().unwrap();
    assert_eq!(round, a);
}

#[test]
fn sparse_matrices_are_read_cell_by_cell() {
    let a: SparseMatrix<i32> = SparseMatrix::from_text("3 4\n0 1 2\n1 0 -4\n2 3 6").unwrap();
    assert_eq!(a.shape(), (3, 4));
    let mut cells = a.entries();
    cells.sort();
    assert_eq!(cells, vec![((0, 1), 2), ((1, 0), -4), ((2, 3), 6)]);
    let b: SparseMatrix<i32> = "\n 2 2 extra\n0 0 5 note\n0 0 7\n1 1 0\n5 5 9\n".parse().unwrap();
    assert_eq!(b.shape(), (2, 2));
    assert_eq!(b.entries(), vec![((0, 0), 7)]);
    let none: SparseMatrix<i32> = SparseMatrix::from_bytes(b"4 5").unwrap();
    assert_eq!(none.shape(), (4, 5));
    assert_eq!(none.stored(), 0);
    let kept: SparseMatrix<i32> = SparseMatrix::from_text("2 2\n0 0 5\n0 0 0").unwrap();
    assert_eq!(kept.at(0, 0), 5);
}

#[test]
fn text_that_spells_no_sparse_matrix_is_refused() {
    let refused = |text: &str| {
        assert_eq!(SparseMatrix::<i32>::from_text(text), Err(MatrixError::MatrixParseError));
    };
    refused("");
    refused("3");
    refused("3\n3");
    refused("3 x");
    refused("-3 3");
    refused("3 3\n0 1");
    refused("3 3\n0 1 2\n\n1 0 4");
    refused("3 3\n0 1 x");
    refused("3 3\n0 -1 2");
    refused("3 3\n0 1 99999999999");
    assert_eq!("3".parse::<SparseMatrix<i64>>(), Err(MatrixError::MatrixParseError));
}

#[test]
fn sparse_matrices_are_written_cell_by_cell() {
    let a = SparseMatrix::new(vec![((0, 1), 2i32), ((1, 0), -4)], (2, 2));
    assert_eq!(a.render(), "0 2 \n-4 0 \n\ndtype = i32\n");
    assert_eq!(SparseMatrix::<i64>::init(0, 0).render(), "\ndtype = i64\n");
    assert_eq!(SparseMatrix::<i8>::eye(1).render(), "1 \n\ndtype = i8\n");
}
