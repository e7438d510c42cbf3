use sukker::{Dimension, Matrix, MatrixElement, MatrixError, Operation};

fn m(rows: usize, cols: usize, data: Vec<i32>) -> Matrix<i32> {
    Matrix::new(data, (rows, cols)).unwrap()
}

#[test]
fn new_checks_the_length_of_the_buffer() {
    assert_eq!(Matrix::new(vec![1i32, 2, 3], (2, 2)), Err(MatrixError::MatrixCreationError));
    assert_eq!(Matrix::<i32>::new(vec![], (usize::MAX, 2)), Err(MatrixError::MatrixCreationError));
    let ok = Matrix::new(vec![1i32, 2, 3, 4], (2, 2)).unwrap();
    assert_eq!(ok.size(), 4);
    assert_eq!(ok.shape(), (2, 2));
    assert_eq!(ok.nrows(), 2);
    assert_eq!(ok.ncols(), 2);
    let empty = Matrix::<i32>::new(vec![], (0, 5)).unwrap();
    assert_eq!(empty.shape(), (0, 5));
}

#[test]
fn from_slice_copies_the_slice() {
    let s = vec![1i64, 2, 3, 4];
    let matrix = Matrix::from_slice(&s, (4, 1)).unwrap();
    assert_eq!(matrix.shape(), (4, 1));
    assert_eq!(matrix.get_vec(), s);
    assert_eq!(Matrix::from_slice(&s, (3, 1)), Err(MatrixError::MatrixCreationError));
}

#[test]
fn constant_matrices() {
    let four = Matrix::init(4i16, (1, 2));
    assert_eq!(four.get_vec(), vec![4i16, 4]);
    assert_eq!(four.shape(), (1, 2));
    let zeros: Matrix<i64> = Matrix::zeros((4, 1));
    assert_eq!(zeros.get(0, 0), Some(0));
    assert_eq!(zeros.size(), 4);
    let ones: Matrix<i64> = Matrix::ones((4, 1));
    assert_eq!(ones.get(3, 0), Some(1));
    let like = Matrix::zeros_like(&ones);
    assert_eq!(like, zeros);
    assert_eq!(Matrix::ones_like(&zeros), ones);
}

#[test]
fn identity_matrices() {
    let eye: Matrix<i32> = Matrix::eye(2);
    assert_eq!(eye.get_vec(), vec![1, 0, 0, 1]);
    let identity: Matrix<i64> = Matrix::identity(3);
    assert_eq!(identity.get_vec(), vec![1, 0, 0, 0, 1, 0, 0, 0, 1]);
    let default: Matrix<i8> = Matrix::default();
    assert_eq!(default.size(), 9);
    assert_eq!(default.shape(), (3, 3));
    assert_eq!(default.get_vec(), vec![1, 0, 0, 0, 1, 0, 0, 0, 1]);
    let wide = m(2, 3, vec![1, 2, 3, 4, 5, 6]);
    assert_eq!(Matrix::eye_like(&wide).shape(), (2, 2));
    assert_eq!(Matrix::<i32>::eye(0).size(), 0);
}

#[test]
fn cells_are_read_by_row_and_column() {
    let a = m(2, 3, vec![1, 2, 3, 4, 5, 6]);
    assert_eq!(a.at(0, 0), 1);
    assert_eq!(a.at(1, 2), 6);
    assert_eq!(a.at(1, 0), 4);
    assert_eq!(a.get(0, 2), Some(3));
    assert_eq!(a.get(2, 0), None);
    assert_eq!(a.get(0, 3), None);
    assert_eq!(a.one_to_2d_idx(4), (1, 1));
    assert_eq!(a.one_to_2d_idx(2), (0, 2));
}

#[test]
fn set_stores_inside_and_refuses_outside() {
    let mut a = m(2, 2, vec![1, 2, 3, 4]);
    assert_eq!(a.set(9, (1, 0)), Ok(()));
    assert_eq!(a.get_vec(), vec![1, 2, 9, 4]);
    assert_eq!(a.set(7, (2, 0)), Err(MatrixError::MatrixIndexOutOfBoundsError));
    assert_eq!(a.set(7, (0, 2)), Err(MatrixError::MatrixIndexOutOfBoundsError));
    assert_eq!(a.get_vec(), vec![1, 2, 9, 4]);
    assert_eq!(a.set_many(vec![(0, 0), (1, 1)], 5), Ok(()));
    assert_eq!(a.get_vec(), vec![5, 2, 9, 5]);
    assert_eq!(
        a.set_many(vec![(0, 1), (5, 5)], 8),
        Err(MatrixError::MatrixIndexOutOfBoundsError)
    );
    assert_eq!(a.get_vec(), vec![5, 8, 9, 5]);
    a.set_range(1, 2, 0);
    assert_eq!(a.get_vec(), vec![5, 0, 0, 5]);
    a.set_range(3, 1, 7);
    assert_eq!(a.get_vec(), vec![5, 0, 0, 5]);
}

#[test]
fn reshape_keeps_the_buffer() {
    let mut a = m(2, 3, vec![1, 2, 3, 4, 5, 6]);
    assert_eq!(a.reshape(3, 2), Ok(()));
    assert_eq!(a.shape(), (3, 2));
    assert_eq!(a.at(2, 1), 6);
    assert_eq!(a.at(1, 0), 3);
    assert_eq!(a.reshape(4, 2), Err(MatrixError::MatrixDimensionMismatchError));
    assert_eq!(a.shape(), (3, 2));
}

#[test]
fn transpose_exchanges_rows_and_columns() {
    let a = m(2, 3, vec![1, 2, 3, 4, 5, 6]);
    let t = a.transpose_copy();
    assert_eq!(t.shape(), (3, 2));
    assert_eq!(t.get_vec(), vec![1, 4, 2, 5, 3, 6]);
    let mut b = a.clone();
    b.transpose();
    assert_eq!(b, t);
    b.t();
    assert_eq!(b, a);
}

#[test]
fn transposing_twice_gives_the_matrix_back() {
    for &(rows, cols) in &[(1usize, 1usize), (1, 5), (4, 3), (3, 3), (0, 2)] {
        let data: Vec<i32> = (0..rows * cols).map(|k| k as i32 * 3 - 7).collect();
        let a = m(rows, cols, data);
        assert_eq!(a.transpose_copy().transpose_copy(), a);
    }
}

#[test]
fn elementwise_operations_on_two_matrices() {
    let a = m(2, 2, vec![7, -8, 9, 10]);
    let b = m(2, 2, vec![2, 3, -4, 5]);
    assert_eq!(a.add(&b).unwrap().get_vec(), vec![9, -5, 5, 15]);
    assert_eq!(a.sub(&b).unwrap().get_vec(), vec![5, -11, 13, 5]);
    assert_eq!(a.mul(&b).unwrap().get_vec(), vec![14, -24, -36, 50]);
    assert_eq!(a.dot(&b).unwrap().get_vec(), vec![14, -24, -36, 50]);
    assert_eq!(a.div(&b).unwrap().get_vec(), vec![3, -2, -2, 2]);
    assert_eq!(a.sub_abs(&b).unwrap().get_vec(), vec![5, 11, 13, 5]);
    let c = m(1, 4, vec![1, 2, 3, 4]);
    assert_eq!(a.add(&c), Err(MatrixError::MatrixDimensionMismatchError));
    assert_eq!(a.sub(&c), Err(MatrixError::MatrixDimensionMismatchError));
    assert_eq!(a.mul(&c), Err(MatrixError::MatrixDimensionMismatchError));
    assert_eq!(a.div(&c), Err(MatrixError::MatrixDimensionMismatchError));
    assert_eq!(a.sub_abs(&c), Err(MatrixError::MatrixDimensionMismatchError));
    let z = m(2, 2, vec![1, 0, 1, 1]);
    assert_eq!(a.div(&z), Err(MatrixError::MatrixDivideByZeroError));
}

#[test]
fn elementwise_operations_in_place() {
    let b = m(2, 2, vec![2, 3, -4, 5]);
    let c = m(1, 4, vec![1, 2, 3, 4]);
    let mut a = m(2, 2, vec![7, -8, 9, 10]);
    assert_eq!(a.add_self(&b), Ok(()));
    assert_eq!(a.get_vec(), vec![9, -5, 5, 15]);
    assert_eq!(a.sub_self(&b), Ok(()));
    assert_eq!(a.get_vec(), vec![7, -8, 9, 10]);
    assert_eq!(a.mul_self(&b), Ok(()));
    assert_eq!(a.get_vec(), vec![14, -24, -36, 50]);
    assert_eq!(a.div_self(&b), Ok(()));
    assert_eq!(a.get_vec(), vec![7, -8, 9, 10]);
    assert_eq!(a.add_self(&c), Err(MatrixError::MatrixDimensionMismatchError));
    assert_eq!(a.div_self(&c), Err(MatrixError::MatrixDimensionMismatchError));
    let z = m(2, 2, vec![1, 0, 1, 1]);
    assert_eq!(a.div_self(&z), Err(MatrixError::MatrixDivideByZeroError));
    assert_eq!(a.get_vec(), vec![7, -8, 9, 10]);
}

#[test]
fn operations_with_a_number() {
    let a = m(2, 2, vec![7, -8, 9, 10]);
    assert_eq!(a.add_val(2).get_vec(), vec![9, -6, 11, 12]);
    assert_eq!(a.sub_val(2).get_vec(), vec![5, -10, 7, 8]);
    assert_eq!(a.mul_val(-2).get_vec(), vec![-14, 16, -18, -20]);
    assert_eq!(a.div_val(2).get_vec(), vec![3, -4, 4, 5]);
    assert_eq!(a.neg().get_vec(), vec![-7, 8, -9, -10]);
    assert_eq!(a.abs().get_vec(), vec![7, 8, 9, 10]);
    assert_eq!(a.pow(2).get_vec(), vec![49, 64, 81, 100]);
    assert_eq!(a.pow(0).get_vec(), vec![1, 1, 1, 1]);
    assert_eq!(a.pow(3).get_vec(), vec![343, -512, 729, 1000]);
    let mut b = a.clone();
    b.add_val_self(1);
    assert_eq!(b.get_vec(), vec![8, -7, 10, 11]);
    b.sub_val_self(1);
    assert_eq!(b.get_vec(), vec![7, -8, 9, 10]);
    b.mul_val_self(3);
    assert_eq!(b.get_vec(), vec![21, -24, 27, 30]);
    b.div_val_self(-3);
    assert_eq!(b.get_vec(), vec![-7, 8, -9, -10]);
    b.abs_self();
    assert_eq!(b.get_vec(), vec![7, 8, 9, 10]);
}

#[test]
fn arithmetic_wraps_around() {
    let a = Matrix::new(vec![127i8, -128, 100, 64], (2, 2)).unwrap();
    assert_eq!(a.add_val(1).get_vec(), vec![-128i8, -127, 101, 65]);
    assert_eq!(a.mul_val(2).get_vec(), vec![-2i8, 0, -56, -128]);
    assert_eq!(a.neg().get_vec(), vec![-127i8, -128, -100, -64]);
    assert_eq!(a.abs().get_vec(), vec![127i8, -128, 100, 64]);
    assert_eq!(a.div_val(-1).get_vec(), vec![-127i8, -128, -100, -64]);
    assert_eq!(a.cumsum(), (127i32 - 128 + 100 + 64 - 256) as i8);
    assert_eq!(127i8.wrapping_add(1), MatrixElement::wrapping_add(127i8, 1));
    assert_eq!(MatrixElement::wrapping_div(-7i32, 2), -3);
    assert_eq!(MatrixElement::wrapping_div(7i32, -2), -3);
    assert_eq!(MatrixElement::wrapping_div(-7i32, -2), 3);
    assert_eq!(MatrixElement::wrapping_div(i32::MIN, -1), i32::MIN);
    assert_eq!(Operation::SUB.apply(3i64, 5i64), -2);
    assert_eq!(Operation::DIV.apply(9i64, 2i64), 4);
    assert_eq!(<i8 as MatrixElement>::from_usize(127), Some(127i8));
    assert_eq!(<i8 as MatrixElement>::from_usize(128), None);
    assert_eq!(<i128 as MatrixElement>::from_usize(usize::MAX), Some(usize::MAX as i128));
}

#[test]
fn reductions() {
    let a = m(2, 3, vec![1, 2, 3, 4, 5, 6]);
    assert_eq!(a.cumsum(), 21);
    assert_eq!(a.cumprod(), 720);
    assert_eq!(a.sum(0, Dimension::Row), 6);
    assert_eq!(a.sum(1, Dimension::Row), 15);
    assert_eq!(a.sum(2, Dimension::Row), 0);
    assert_eq!(a.sum(0, Dimension::Col), 5);
    assert_eq!(a.sum(2, Dimension::Col), 9);
    assert_eq!(a.sum(3, Dimension::Col), 0);
    assert_eq!(a.prod(1, Dimension::Row), 120);
    assert_eq!(a.prod(1, Dimension::Col), 10);
    assert_eq!(a.prod(7, Dimension::Col), 1);
    assert_eq!(a.avg(), 3);
    assert_eq!(a.mean(), 3);
    assert_eq!(a.max(), 6);
    assert_eq!(a.min(), 1);
    assert_eq!(a.median(), 3);
    let odd = m(1, 5, vec![9, -1, 4, 7, 0]);
    assert_eq!(odd.median(), 4);
    assert_eq!(m(1, 1, vec![8]).median(), 8);
    assert_eq!(m(1, 4, vec![5, 1, 8, 2]).median(), 3);
    let empty = Matrix::<i32>::new(vec![], (0, 0)).unwrap();
    assert_eq!(empty.cumsum(), 0);
    assert_eq!(empty.cumprod(), 0);
}

#[test]
fn extremes_of_rows_and_columns() {
    let a = m(2, 3, vec![1, 9, 9, 4, -5, 6]);
    assert_eq!(a.argmax(0, Dimension::Row), Some((0, 1)));
    assert_eq!(a.argmax(1, Dimension::Row), Some((1, 2)));
    assert_eq!(a.argmax(2, Dimension::Row), None);
    assert_eq!(a.argmax(1, Dimension::Col), Some((0, 1)));
    assert_eq!(a.argmin(1, Dimension::Col), Some((1, 1)));
    assert_eq!(a.argmin(0, Dimension::Row), Some((0, 0)));
    assert_eq!(a.argmin(3, Dimension::Col), None);
}

#[test]
fn windows() {
    let a = m(3, 4, (1..=12).collect());
    assert_eq!(a.get_vec_slice((1, 1), (2, 2)), vec![6, 7, 10, 11]);
    assert_eq!(a.get_vec_slice((0, 2), (3, 1)), vec![3, 4]);
    assert_eq!(a.get_vec_slice((2, 0), (2, 5)), vec![9, 10]);
    assert_eq!(a.get_vec_slice((3, 0), (2, 2)), Vec::<i32>::new());
    let sub = a.get_sub_matrix((1, 1), (2, 2)).unwrap();
    assert_eq!(sub.shape(), (2, 2));
    assert_eq!(sub.get_vec(), vec![6, 7, 10, 11]);
    assert_eq!(
        a.get_sub_matrix((2, 3), (2, 2)),
        Err(MatrixError::MatrixIndexOutOfBoundsError)
    );
}

#[test]
fn concat_and_extend() {
    let a = m(2, 2, vec![1, 2, 3, 4]);
    let b = m(1, 2, vec![5, 6]);
    let c = m(2, 1, vec![7, 8]);
    let rows = a.concat(&b, Dimension::Row).unwrap();
    assert_eq!(rows.shape(), (3, 2));
    assert_eq!(rows.get_vec(), vec![1, 2, 3, 4, 5, 6]);
    let cols = a.concat(&c, Dimension::Col).unwrap();
    assert_eq!(cols.shape(), (2, 3));
    assert_eq!(cols.get_vec(), vec![1, 2, 7, 3, 4, 8]);
    assert_eq!(a.concat(&c, Dimension::Row), Err(MatrixError::MatrixConcatinationError));
    assert_eq!(a.concat(&b, Dimension::Col), Err(MatrixError::MatrixConcatinationError));
    let mut d = a.clone();
    assert_eq!(d.extend(&c, Dimension::Col), Ok(()));
    assert_eq!(d, cols);
    assert_eq!(d.extend(&b, Dimension::Row), Err(MatrixError::MatrixConcatinationError));
    assert_eq!(d, cols);
    let mut e = a.clone();
    assert_eq!(e.extend(&b, Dimension::Row), Ok(()));
    assert_eq!(e, rows);
}

#[test]
fn predicates() {
    let a = m(2, 3, vec![1, -2, 3, -4, 5, -6]);
    assert!(a.any(|&e| e > 4));
    assert!(!a.any(|&e| e > 5));
    assert!(a.all(|&e| e != 0));
    assert!(!a.all(|&e| e > 0));
    assert_eq!(a.count_where(|&e| e < 0), 3);
    assert_eq!(a.sum_where(|&e| e < 0), -12);
    assert_eq!(a.find(|&e| e < 0), Some((0, 1)));
    assert_eq!(a.find(|&e| e > 3), Some((1, 1)));
    assert_eq!(a.find(|&e| e > 9), None);
    assert_eq!(a.find_all(|&e| e < 0), Some(vec![(0, 1), (1, 0), (1, 2)]));
    assert_eq!(a.find_all(|&e| e > 9), None);
    let mut b = a.clone();
    b.set_where(|e| if e < 0 { 0 } else { e * 2 });
    assert_eq!(b.get_vec(), vec![2, 0, 6, 0, 10, 0]);
    assert!(a.has_zero() == false);
    assert!(b.has_zero());
}

#[test]
fn random_matrices_stay_in_range() {
    let a = Matrix::randomize_range(-3i32, 4, (5, 7));
    assert_eq!(a.shape(), (5, 7));
    assert!(a.all(|&e| -3 <= e && e <= 4));
    let b = Matrix::randomize_range(6i8, 6, (2, 2));
    assert_eq!(b.get_vec(), vec![6i8, 6, 6, 6]);
    let c: Matrix<i64> = Matrix::randomize((4, 4));
    assert!(c.all(|&e| e == 0 || e == 1));
    let d = Matrix::random_like(&c);
    assert_eq!(d.shape(), c.shape());
    assert!(d.all(|&e| e == 0 || e == 1));
    let wide = Matrix::randomize_range(i128::MIN, i128::MAX, (3, 3));
    assert_eq!(wide.size(), 9);
}
