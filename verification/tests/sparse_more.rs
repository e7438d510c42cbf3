use sukker::{Matrix, MatrixError, Operation, SparseMatrix, SparseMatrixData};

fn s(cells: Vec<((usize, usize), i64)>, shape: (usize, usize)) -> SparseMatrix<i64> {
    SparseMatrix::new(cells, shape)
}

fn sorted(mut cells: SparseMatrixData<i64>) -> SparseMatrixData<i64> {
    cells.sort();
    cells
}

#[test]
fn new_leaves_out_zeros_and_cells_outside() {
    let a = s(vec![((0, 0), 5), ((1, 1), 0), ((2, 0), 7), ((0, 3), 9), ((0, 0), 6)], (2, 3));
    assert_eq!(a.shape(), (2, 3));
    assert_eq!(a.nrows(), 2);
    assert_eq!(a.ncols(), 3);
    assert_eq!(sorted(a.entries()), vec![((0, 0), 6)]);
    assert_eq!(a.stored(), 1);
    assert_eq!(a.size(), 6);
    assert_eq!(a.get_zero_count(), 5);
    let empty = SparseMatrix::<i64>::default();
    assert_eq!(empty.shape(), (0, 0));
    assert_eq!(empty.entries(), vec![]);
    let init = SparseMatrix::<i64>::init(4, 4);
    assert_eq!(init.at(2, 2), 0);
    assert_eq!(init.shape(), (4, 4));
}

#[test]
fn cells_of_a_sparse_matrix() {
    let mut a = s(vec![((0, 1), 2), ((1, 0), 4)], (2, 2));
    assert_eq!(a.at(0, 1), 2);
    assert_eq!(a.at(1, 1), 0);
    assert_eq!(a.at(5, 5), 0);
    assert_eq!(a.get(1, 0), Some(4));
    assert_eq!(a.get(0, 0), Some(0));
    assert_eq!(a.get(2, 0), None);
    assert_eq!(a.get(0, 2), None);
    assert_eq!(a.set(3, (1, 1)), Ok(()));
    assert_eq!(a.at(1, 1), 3);
    assert_eq!(a.set(0, (1, 1)), Ok(()));
    assert_eq!(a.at(1, 1), 3);
    assert_eq!(a.set(0, (9, 9)), Ok(()));
    assert_eq!(a.set(1, (2, 0)), Err(MatrixError::MatrixIndexOutOfBoundsError));
    assert_eq!(a.insert(0, 0, 8), Ok(()));
    assert_eq!(a.insert(0, 2, 8), Err(MatrixError::MatrixIndexOutOfBoundsError));
    assert_eq!(sorted(a.entries()), vec![((0, 0), 8), ((0, 1), 2), ((1, 0), 4), ((1, 1), 3)]);
}

#[test]
fn sparse_identities() {
    let eye = SparseMatrix::<i64>::eye(3);
    assert_eq!(sorted(eye.entries()), vec![((0, 0), 1), ((1, 1), 1), ((2, 2), 1)]);
    assert_eq!(SparseMatrix::<i64>::identity(3), eye);
    let wide = s(vec![((0, 4), 1)], (3, 5));
    assert_eq!(SparseMatrix::eye_like(&wide), eye);
}

#[test]
fn from_slices_zips_the_slices() {
    let a = SparseMatrix::from_slices(&[0, 1, 5], &[1, 0, 0], &[2i64, 4, 6], (2, 2)).unwrap();
    assert_eq!(sorted(a.entries()), vec![((0, 1), 2), ((1, 0), 4)]);
    assert_eq!(
        SparseMatrix::from_slices(&[0, 1], &[1, 0, 0], &[2i64, 4, 6], (2, 2)),
        Err(MatrixError::MatrixDimensionMismatchError)
    );
    assert_eq!(
        SparseMatrix::from_slices(&[0, 1, 1], &[1, 0, 0], &[2i64, 4], (2, 2)),
        Err(MatrixError::MatrixDimensionMismatchError)
    );
}

#[test]
fn sparse_round_trip() {
    let a = s(vec![((0, 1), 2), ((1, 0), -4), ((2, 3), 6), ((3, 3), 8)], (4, 5));
    let dense = Matrix::from_sparse(a.clone());
    assert_eq!(dense.shape(), (4, 5));
    assert_eq!(dense.at(1, 0), -4);
    assert_eq!(dense.at(2, 3), 6);
    assert_eq!(dense.at(0, 0), 0);
    assert_eq!(dense.cumsum(), 12);
    assert_eq!(SparseMatrix::from_dense(dense), a);
    let eye = SparseMatrix::<i32>::eye(3);
    let matrix = Matrix::from_sparse(eye.clone());
    assert_eq!(matrix.shape(), (3, 3));
    assert_eq!(matrix.at(0, 0), 1);
    assert_eq!(matrix, Matrix::<i32>::eye(3));
    assert_eq!(SparseMatrix::from_dense(matrix), eye);
    let d = Matrix::new(vec![0i64, 3, 0, 0, 0, 5], (2, 3)).unwrap();
    let sp = SparseMatrix::from_dense(d.clone());
    assert_eq!(sorted(sp.entries()), vec![((0, 1), 3), ((1, 2), 5)]);
    assert_eq!(Matrix::from_sparse(sp), d);
}

#[test]
fn sparse_transpose() {
    let a = s(vec![((0, 1), 2), ((1, 0), -4), ((2, 3), 6)], (3, 4));
    let t = a.transpose_new();
    assert_eq!(t.shape(), (4, 3));
    assert_eq!(sorted(t.entries()), vec![((0, 1), -4), ((1, 0), 2), ((3, 2), 6)]);
    assert_eq!(t.transpose_new(), a);
    let mut b = a.clone();
    b.transpose();
    assert_eq!(b, t);
    b.t();
    assert_eq!(b, a);
}

#[test]
fn sparse_reshape_keeps_the_cells() {
    let mut a = s(vec![((0, 1), 2), ((1, 0), -4)], (2, 2));
    assert_eq!(a.reshape(5, 7), Ok(()));
    assert_eq!(a.shape(), (5, 7));
    assert_eq!(a.at(1, 0), -4);
    assert_eq!(a.reshape(1, 7), Err(MatrixError::MatrixDimensionMismatchError));
    assert_eq!(a.shape(), (5, 7));
    assert_eq!(a.reshape(2, 2), Ok(()));
}

#[test]
fn sparse_operations_on_two_matrices() {
    let a = s(vec![((0, 0), 6), ((0, 1), 2), ((1, 1), 5)], (2, 2));
    let b = s(vec![((0, 0), 3), ((1, 0), 4), ((1, 1), 5)], (2, 2));
    assert_eq!(
        sorted(a.add(&b).unwrap().entries()),
        vec![((0, 0), 9), ((0, 1), 2), ((1, 0), 4), ((1, 1), 10)]
    );
    assert_eq!(
        sorted(a.sub(&b).unwrap().entries()),
        vec![((0, 0), 3), ((0, 1), 2), ((1, 0), 4)]
    );
    assert_eq!(
        sorted(a.mul(&b).unwrap().entries()),
        vec![((0, 0), 18), ((0, 1), 2), ((1, 0), 4), ((1, 1), 25)]
    );
    assert_eq!(a.dot(&b).unwrap(), a.mul(&b).unwrap());
    assert_eq!(
        sorted(a.div(&b).unwrap().entries()),
        vec![((0, 0), 2), ((0, 1), 2), ((1, 0), 4), ((1, 1), 1)]
    );
    assert_eq!(a.sparse_helper(&b, Operation::ADD).unwrap(), a.add(&b).unwrap());
    let c = s(vec![], (2, 3));
    assert_eq!(a.add(&c), Err(MatrixError::MatrixDimensionMismatchError));
    assert_eq!(a.sub(&c), Err(MatrixError::MatrixDimensionMismatchError));
    assert_eq!(a.mul(&c), Err(MatrixError::MatrixDimensionMismatchError));
    assert_eq!(a.div(&c), Err(MatrixError::MatrixDimensionMismatchError));
    let mut d = a.clone();
    assert_eq!(d.add_self(&b), Ok(()));
    assert_eq!(d, a.add(&b).unwrap());
    assert_eq!(d.sub_self(&b), Ok(()));
    assert_eq!(sorted(d.entries()), vec![((0, 0), 6), ((0, 1), 2), ((1, 1), 5)]);
    assert_eq!(d.mul_self(&b), Ok(()));
    assert_eq!(d, a.mul(&b).unwrap());
    assert_eq!(d.div_self(&b), Ok(()));
    assert_eq!(sorted(d.entries()), vec![((0, 0), 6), ((0, 1), 2), ((1, 0), 1), ((1, 1), 5)]);
    assert_eq!(d.add_self(&c), Err(MatrixError::MatrixDimensionMismatchError));
    assert_eq!(d.sparse_helper_self(&c, Operation::MUL), Err(MatrixError::MatrixDimensionMismatchError));
}

#[test]
fn sparse_operations_with_a_number() {
    let a = s(vec![((0, 0), 6), ((0, 1), -2), ((1, 1), 5)], (2, 2));
    assert_eq!(sorted(a.add_val(2).entries()), vec![((0, 0), 8), ((1, 1), 7)]);
    assert_eq!(sorted(a.sub_val(5).entries()), vec![((0, 0), 1), ((0, 1), -7)]);
    assert_eq!(sorted(a.mul_val(3).entries()), vec![((0, 0), 18), ((0, 1), -6), ((1, 1), 15)]);
    assert_eq!(a.mul_val(0).entries(), vec![]);
    assert_eq!(sorted(a.div_val(4).entries()), vec![((0, 0), 1), ((1, 1), 1)]);
    assert_eq!(sorted(a.neg().entries()), vec![((0, 0), -6), ((0, 1), 2), ((1, 1), -5)]);
    assert_eq!(a.sparse_helper_val(3, Operation::MUL), a.mul_val(3));
    let mut b = a.clone();
    b.add_val_self(1);
    assert_eq!(sorted(b.entries()), vec![((0, 0), 7), ((0, 1), -1), ((1, 1), 6)]);
    b.sub_val_self(1);
    assert_eq!(b, a);
    b.mul_val_self(2);
    assert_eq!(sorted(b.entries()), vec![((0, 0), 12), ((0, 1), -4), ((1, 1), 10)]);
    b.div_val_self(2);
    assert_eq!(b, a);
    b.sparse_helper_self_val(5, Operation::SUB);
    assert_eq!(sorted(b.entries()), vec![((0, 0), 1), ((0, 1), -7)]);
}

#[test]
fn sparse_products() {
    let a = s(vec![((0, 1), 2), ((1, 0), 3), ((1, 2), 5)], (2, 3));
    let b = s(vec![((0, 0), 1), ((0, 1), 1), ((1, 1), 7), ((2, 0), -4), ((2, 1), 4)], (3, 2));
    let c = a.matmul_sparse(&b).unwrap();
    assert_eq!(c.shape(), (2, 2));
    assert_eq!(sorted(c.entries()), vec![((0, 1), 14), ((1, 0), 6)]);
    assert_eq!(a.matmul_sparse_mnnp(&b), c);
    assert_eq!(a.matmul_sparse(&a), Err(MatrixError::MatrixMultiplicationDimensionMismatchError));
    let sq = s(vec![((0, 1), 2), ((1, 0), 4), ((1, 1), 6), ((2, 2), 8)], (3, 3));
    let other = s(vec![((0, 0), 2), ((1, 0), 4), ((1, 1), 8), ((2, 1), 6)], (3, 3));
    assert_eq!(sq.matmul_sparse_nn(&other), sq.matmul_sparse(&other).unwrap());
}

#[test]
fn sparse_measures() {
    let a = s(vec![((0, 0), 6), ((0, 1), -2), ((1, 1), 5)], (2, 2));
    assert_eq!(a.max(), 6);
    assert_eq!(a.min(), -2);
    assert_eq!(a.avg(), 2);
    assert_eq!(a.mean(), 2);
    assert_eq!(a.median(), 5);
    let empty = s(vec![], (3, 3));
    assert_eq!(empty.max(), 0);
    assert_eq!(empty.min(), 0);
    assert_eq!(empty.median(), 0);
    assert_eq!(empty.avg(), 0);
    let thin = s(vec![((0, 0), 9)], (2, 2));
    assert_eq!(thin.median(), 0);
    let full = s(vec![((0, 0), 9), ((0, 1), 1), ((1, 0), 3), ((1, 1), 5)], (2, 2));
    assert_eq!(full.median(), 4);
    assert_eq!(s(vec![((0, 0), 9)], (1, 1)).median(), 9);
    assert_eq!(s(vec![], (0, 4)).median(), 0);
    assert_eq!(s(vec![((1, 1), -3)], (3, 3)).median(), -3);
}

#[test]
fn sparse_predicates() {
    let a = s(vec![((0, 0), 6), ((0, 1), -2), ((1, 1), 5)], (2, 2));
    assert!(a.any(|(_, e)| e < 0));
    assert!(!a.any(|(at, _)| at == (1, 0)));
    assert!(a.all(|(_, e)| e != 0));
    assert!(!a.all(|(_, e)| e > 0));
    assert_eq!(a.count_where(|(_, &e)| e > 0), 2);
    assert_eq!(a.count_where(|(&(i, j), _)| i == j), 2);
    assert_eq!(a.sum_where(|(_, &e)| e > 0), 11);
    assert_eq!(a.find(|(_, &e)| e < 0), Some(-2));
    assert_eq!(a.find(|(_, &e)| e > 100), None);
    assert_eq!(a.position(|(_, &e)| e == 5), Some((1, 1)));
    assert_eq!(a.position(|(_, &e)| e == 7), None);
    let mut found = a.find_all(|(_, &e)| e > 0).unwrap();
    found.sort();
    assert_eq!(found, vec![5, 6]);
    assert_eq!(a.find_all(|(_, &e)| e > 100), None);
    let mut places = a.positions(|(_, &e)| e > 0).unwrap();
    places.sort();
    assert_eq!(places, vec![(0, 0), (1, 1)]);
    assert_eq!(a.positions(|(_, &e)| e > 100), None);
    let mut b = a.clone();
    b.set_where(|(i, _), e| if i == 0 { e + 2 } else { e });
    assert_eq!(sorted(b.entries()), vec![((0, 0), 8), ((1, 1), 5)]);
}

#[test]
fn random_sparse_matrices() {
    let a = SparseMatrix::<i64>::randomize_range(3, 9, 10, (5, 5));
    assert_eq!(a.shape(), (5, 5));
    assert_eq!(a.stored(), 10);
    assert!(a.all(|((i, j), e)| i < 5 && j < 5 && 3 <= e && e <= 9));
    let ones = SparseMatrix::<i32>::ones(4, (3, 3));
    assert_eq!(ones.stored(), 4);
    assert!(ones.all(|(_, e)| e == 1));
    let bits = SparseMatrix::<i32>::randomize(5, (4, 4));
    assert_eq!(bits.stored(), 5);
    assert!(bits.all(|(_, e)| e == 1));
    let like = SparseMatrix::random_like(&a);
    assert_eq!(like.shape(), (5, 5));
    assert_eq!(like.stored(), 10);
    let ranged = SparseMatrix::randomize_range_like(-2, -1, &ones);
    assert_eq!(ranged.stored(), 4);
    assert!(ranged.all(|(_, e)| e == -2 || e == -1));
    assert_eq!(SparseMatrix::<i64>::randomize_range(1, 2, 3, (0, 7)).stored(), 0);
}
