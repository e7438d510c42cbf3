use sukker::Matrix;

#[test]
fn basic() {
    let a = Matrix::init(3i32, (2, 3));
    let b = Matrix::init(5i32, (2, 3));

    let mut c = a.sub(&b).unwrap();
    assert_eq!(c.size(), 6);

    c.add_val_self(2);

    let c = c;

    let a: Matrix<i32> = Matrix::randomize((3, 2));

    let x = c.mm(&a).unwrap();

    assert_eq!(x.shape(), (2, 2));

    assert!(x.any(|&e| e >= 0));
}

#[test]
fn new() {
    let a = Matrix::<i32>::randomize((7, 56));
    let b = Matrix::<i32>::randomize((56, 8));

    let c = a.mm(&b).unwrap();

    assert_eq!(c.shape(), (7, 8));
    assert_eq!(c.get_vec(), a.naive(&b).get_vec());
}
