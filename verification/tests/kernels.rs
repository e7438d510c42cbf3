use sukker::{Matrix, MatrixError};

fn m(rows: usize, cols: usize, data: Vec<i64>) -> Matrix<i64> {
    Matrix::new(data, (rows, cols)).unwrap()
}

fn filled(rows: usize, cols: usize) -> Matrix<i64> {
    Matrix::init(1i64, (rows, cols))
}

#[test]
fn tiny_products_by_closed_formula() {
    let row = m(1, 2, vec![2, 3]);
    let col = m(2, 1, vec![5, 7]);
    let square = m(2, 2, vec![1, 2, 3, 4]);
    let other = m(2, 2, vec![5, 6, 7, 8]);
    assert_eq!(row.matmul(&col).unwrap(), m(1, 1, vec![31]));
    assert_eq!(square.matmul(&col).unwrap(), m(2, 1, vec![19, 43]));
    assert_eq!(row.matmul(&square).unwrap(), m(1, 2, vec![11, 16]));
    assert_eq!(square.matmul(&other).unwrap(), m(2, 2, vec![19, 22, 43, 50]));
    assert_eq!(square.matmul_helper(&other), square.naive(&other));
    assert_eq!(row.matmul_helper(&square), row.naive(&square));
}

#[test]
fn product_with_the_identity() {
    let a = m(3, 3, vec![1, 2, 3, 4, 5, 6, 7, 8, 9]);
    let eye = Matrix::<i64>::eye(3);
    assert_eq!(a.matmul(&eye).unwrap(), a);
    assert_eq!(eye.mm(&a).unwrap(), a);
    assert_eq!(a.blocked_matmul(&eye, 2), a);
    assert_eq!(a.optimized_blocked_matmul(&eye, 2), a);
}

#[test]
fn product_of_three_by_two_and_two_by_three() {
    let a = m(3, 2, vec![1, 2, 3, 4, 5, 6]);
    let b = m(2, 3, vec![7, 8, 9, 10, 11, 12]);
    let expected = m(3, 3, vec![27, 30, 33, 61, 68, 75, 95, 106, 117]);
    assert_eq!(a.matmul(&b).unwrap(), expected);
    assert_eq!(a.naive(&b), expected);
    assert_eq!(a.optimized_blocked_matmul(&b, 1), expected);
    assert_eq!(a.optimized_blocked_matmul(&b, 7), expected);
    assert_eq!(a.par_dot(&b, false, 1, 2, 0, 2), 75);
    assert_eq!(a.par_dot(&b, false, 1, 2, 1, 2), 48);
    assert_eq!(a.par_dot(&b, false, 1, 2, 1, 1), 0);
}

#[test]
fn products_wrap_around() {
    let a = Matrix::new(vec![100i8, 100, 100, 100], (2, 2)).unwrap();
    let c = a.matmul(&a).unwrap();
    assert_eq!(c.get_vec(), vec![(20000i32 % 256) as u8 as i8; 4]);
    let b = Matrix::new(vec![100i8; 9], (3, 3)).unwrap();
    assert_eq!(b.matmul(&b).unwrap().get_vec(), vec![(30000i32 % 256) as u8 as i8; 9]);
    assert_eq!(b.naive(&b), b.blocked_matmul(&b, 2));
}

#[test]
fn matmul_refuses_operands_that_do_not_fit() {
    let a = m(2, 3, vec![1, 2, 3, 4, 5, 6]);
    assert_eq!(a.matmul(&a), Err(MatrixError::MatrixMultiplicationDimensionMismatchError));
    assert_eq!(a.mm(&a), Err(MatrixError::MatrixMultiplicationDimensionMismatchError));
    let tall = Matrix::<i64>::new(vec![], (usize::MAX, 0)).unwrap();
    let wide = Matrix::<i64>::new(vec![], (0, 2)).unwrap();
    assert_eq!(tall.matmul(&wide), Err(MatrixError::MatrixCreationError));
    let none = Matrix::<i64>::new(vec![], (3, 0)).unwrap();
    assert_eq!(none.matmul(&wide).unwrap(), m(3, 2, vec![0; 6]));
}

#[test]
fn block_size_is_the_largest_even_tile() {
    assert_eq!(filled(7, 56).get_block_size(&filled(56, 8)), 28);
    assert_eq!(filled(3, 3).get_block_size(&filled(3, 3)), 3);
    assert_eq!(filled(12, 12).get_block_size(&filled(12, 12)), 6);
    assert_eq!(filled(100, 100).get_block_size(&filled(100, 100)), 50);
    assert_eq!(filled(101, 103).get_block_size(&filled(103, 107)), 30);
    assert_eq!(filled(40, 40).get_block_size(&filled(40, 40)), 20);
    assert_eq!(filled(31, 37).get_block_size(&filled(37, 41)), 10);
    assert_eq!(filled(1, 1).get_block_size(&filled(1, 1)), 2);
    assert_eq!(filled(7, 11).get_block_size(&filled(11, 13)), 7);
    assert_eq!(filled(29, 200).get_block_size(&filled(200, 5)), 50);
    assert_eq!(filled(29, 20).get_block_size(&filled(20, 500)), 10);
}

#[test]
fn block_size_stays_in_its_range() {
    for &(r, c, p) in &[(1usize, 1usize, 1usize), (13, 17, 19), (30, 30, 30), (99, 99, 99), (127, 131, 137)] {
        let a = filled(r, c);
        let b = filled(c, p);
        let range = a.get_range_for_block_size(&b);
        let size = a.get_block_size(&b);
        assert!(range.contains(&size));
        let divides = c % size == 0 || r % size == 0 || p % size == 0;
        assert!(divides || size == *range.start());
        for larger in size + 1..=*range.end() {
            assert!(c % larger != 0 && r % larger != 0 && p % larger != 0);
        }
    }
    assert_eq!(filled(5, 5).get_range_for_block_size(&filled(5, 5)), 2..=10);
    assert_eq!(filled(50, 50).get_range_for_block_size(&filled(50, 50)), 10..=30);
    assert_eq!(filled(100, 100).get_range_for_block_size(&filled(100, 100)), 30..=50);
    assert_eq!(filled(100, 100).get_range_for_block_size(&filled(100, 29)), 30..=50);
    assert_eq!(filled(100, 100).get_range_for_block_size(&filled(99, 29)), 10..=30);
    assert_eq!(filled(20, 100).get_range_for_block_size(&filled(100, 100)), 30..=50);
    assert_eq!(filled(200, 100).get_range_for_block_size(&filled(29, 29)), 2..=10);
}

#[test]
fn determinants() {
    assert_eq!(m(3, 3, vec![2, 0, 1, 1, 3, 2, 1, 1, 1]).determinant(), Some(0));
    assert_eq!(m(3, 3, vec![2, 0, 1, 1, 3, 2, 1, 1, 2]).determinant(), Some(6));
    assert_eq!(m(3, 3, vec![1, 2, 3, 4, 5, 6, 7, 8, 10]).det(), Some(-3));
    assert_eq!(m(2, 3, vec![1, 2, 3, 4, 5, 6]).determinant(), None);
    assert_eq!(Matrix::<i64>::eye(5).determinant(), Some(1));
    assert_eq!(Matrix::<i64>::eye(6).mul_val(2).determinant(), Some(64));
    assert_eq!(Matrix::<i64>::new(vec![], (0, 0)).unwrap().determinant(), Some(0));
    let five = m(
        5,
        5,
        vec![2, 0, 0, 0, 1, 0, 3, 0, 0, 0, 0, 0, 1, 0, 0, 0, 0, 0, 4, 0, 1, 0, 0, 0, 1],
    );
    assert_eq!(five.determinant(), Some(12));
    assert_eq!(five.determinant_helper(), 12);
    assert_eq!(Matrix::new(vec![100i8, 0, 0, 100], (2, 2)).unwrap().determinant(), Some(16));
}

#[test]
fn powers_and_inverses() {
    let a = m(2, 2, vec![1, 1, 0, 1]);
    assert_eq!(a.exp(1), Some(a.clone()));
    assert_eq!(a.exp(5), Some(m(2, 2, vec![1, 5, 0, 1])));
    assert_eq!(m(2, 3, vec![1; 6]).exp(2), None);
    let f = m(2, 2, vec![1, 1, 1, 0]);
    assert_eq!(f.exp(10), Some(m(2, 2, vec![89, 55, 55, 34])));
    let unit = m(2, 2, vec![2, 1, 1, 1]);
    assert_eq!(unit.inverse(), Some(m(2, 2, vec![1, -1, -1, 2])));
    let minus = m(2, 2, vec![1, 2, 1, 1]);
    assert_eq!(minus.inverse(), Some(m(2, 2, vec![-1, 2, 1, -1])));
    assert_eq!(m(2, 2, vec![1, 2, 2, 4]).inverse(), None);
    assert_eq!(m(2, 2, vec![2, 0, 0, 2]).inverse(), Some(m(2, 2, vec![0, 0, 0, 0])));
    assert_eq!(m(3, 3, vec![1; 9]).inverse(), None);
}
