use sukker::Matrix;

fn naive_reference(a: &[i32], b: &[i32], m: usize, n: usize, p: usize) -> Vec<i32> {
    let mut out = vec![0i32; m * p];
    for i in 0..m {
        for j in 0..p {
            let mut acc = 0i32;
            for k in 0..n {
                acc = acc.wrapping_add(a[i * n + k].wrapping_mul(b[k * p + j]));
            }
            out[i * p + j] = acc;
        }
    }
    out
}

fn ramp(len: usize, seed: i32) -> Vec<i32> {
    (0..len).map(|k| (k as i32 * 7 + seed) % 23 - 11).collect()
}

#[test]
fn determinant_of_four_by_four() {
    let m = Matrix::<i32>::new(vec![1, 3, 5, 9, 1, 3, 1, 7, 4, 3, 9, 7, 5, 2, 0, 9], (4, 4)).unwrap();
    assert_eq!(m.determinant(), Some(-376));
}

#[test]
fn determinant_of_small_matrices() {
    let one = Matrix::<i32>::new(vec![5], (1, 1)).unwrap();
    assert_eq!(one.determinant(), Some(5));
    let two = Matrix::<i32>::new(vec![1, 2, 3, 4], (2, 2)).unwrap();
    assert_eq!(two.determinant(), Some(-2));
}

#[test]
fn general_blocked_equals_naive() {
    for &(m, n, p) in &[(7usize, 56usize, 8usize), (3, 5, 4), (31, 17, 33), (1, 1, 1), (10, 3, 1)] {
        let a = Matrix::<i32>::new(ramp(m * n, 3), (m, n)).unwrap();
        let b = Matrix::<i32>::new(ramp(n * p, 5), (n, p)).unwrap();
        let expected = naive_reference(&a.get_vec(), &b.get_vec(), m, n, p);
        for bs in [1usize, 2, 3, 10, 50] {
            let c = a.optimized_blocked_matmul(&b, bs);
            assert_eq!(c.shape(), (m, p));
            assert_eq!(c.get_vec(), expected);
        }
        assert_eq!(a.naive(&b).get_vec(), expected);
        assert_eq!(a.matmul(&b).unwrap().get_vec(), expected);
    }
}

#[test]
fn transposed_blocked_equals_naive() {
    for n in [1usize, 2, 3, 9, 10, 31] {
        let a = Matrix::<i32>::new(ramp(n * n, 1), (n, n)).unwrap();
        let b = Matrix::<i32>::new(ramp(n * n, 9), (n, n)).unwrap();
        let expected = naive_reference(&a.get_vec(), &b.get_vec(), n, n, n);
        for bs in [1usize, 2, 4, 10, 50] {
            assert_eq!(a.blocked_matmul(&b, bs).get_vec(), expected);
        }
        assert_eq!(a.mm(&b).unwrap().get_vec(), expected);
    }
}
