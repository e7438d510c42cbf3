use sukker::{SparseMatrix, SparseMatrixData};

#[test]
fn sparse_basic() {
    let sparse1 = SparseMatrix::<i32>::eye(3);
    let sparse2 = SparseMatrix::<i32>::eye(3);

    let res = sparse1.add(&sparse2).unwrap();

    assert_eq!(res.shape(), (3, 3));
    assert_eq!(res.get(0, 0).unwrap(), 2);
    assert_eq!(res.get(1, 1).unwrap(), 2);
    assert_eq!(res.get(2, 2).unwrap(), 2);
    assert_eq!(res.get(1, 2).unwrap(), 0);
}

#[test]
fn sparse_medium() {
    let mut indexes: SparseMatrixData<i64> = Vec::new();

    indexes.push(((0, 1), 2));
    indexes.push(((1, 0), 4));
    indexes.push(((2, 3), 6));
    indexes.push(((3, 3), 8));

    let sparse = SparseMatrix::<i64>::new(indexes, (4, 4));

    let indexes2 = vec![((0, 0), 2), ((1, 0), 4), ((1, 1), 8), ((2, 3), 6)];

    let sparse2 = SparseMatrix::<i64>::new(indexes2, (4, 4));

    let res = sparse.add(&sparse2).unwrap();

    assert_eq!(res.at(0, 0), 2);
    assert_eq!(res.at(0, 1), 2);
    assert_eq!(res.at(1, 0), 8);
    assert_eq!(res.at(1, 1), 8);
    assert_eq!(res.at(2, 3), 12);
    assert_eq!(res.at(3, 3), 8);
    assert_eq!(res.at(2, 2), 0);
}

#[test]
fn matmul_sparse() {
    let mut indexes: SparseMatrixData<i64> = Vec::new();

    indexes.push(((0, 1), 2));
    indexes.push(((1, 0), 4));
    indexes.push(((1, 1), 6));
    indexes.push(((2, 2), 8));

    let sparse = SparseMatrix::<i64>::new(indexes, (3, 3));

    let mut indexes2: SparseMatrixData<i64> = Vec::new();

    indexes2.push(((0, 0), 2));
    indexes2.push(((1, 0), 4));
    indexes2.push(((1, 1), 8));
    indexes2.push(((2, 1), 6));

    let sparse2 = SparseMatrix::<i64>::new(indexes2, (3, 3));

    let res = sparse.matmul_sparse(&sparse2).unwrap();

    assert_eq!(res.at(0, 0), 0);
    assert_eq!(res.at(0, 1), 24);
    assert_eq!(res.at(0, 2), 0);

    assert_eq!(res.at(1, 0), 8);
    assert_eq!(res.at(1, 1), 72);
    assert_eq!(res.at(1, 2), 0);

    assert_eq!(res.at(2, 0), 0);
    assert_eq!(res.at(2, 1), 0);
    assert_eq!(res.at(2, 2), 48);
}
