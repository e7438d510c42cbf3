//! Determinants by cofactor expansion along the first row.
//!
//! The expansion of an N x N matrix visits N! products, so it is meant for
//! small matrices only.

use vstd::prelude::*;
use crate::common::{
    lemma_wrap_add, lemma_wrap_exact, lemma_wrap_mul, lemma_wrap_sub, lemma_wrap_value, trunc_div,
    wrap, MatrixElement,
};
use crate::matrix::{flat, lemma_flat, lemma_unflat, Matrix};

verus! {

/// The integers that the elements of a buffer stand for.
pub open spec fn values<T: MatrixElement>(s: Seq<T>) -> Seq<int> {
    Seq::new(s.len(), |k: int| s[k].value())
}

/// What is left of the row-major buffer of an `n` x `n` matrix when row
/// `row` and column `col` are taken out: the buffer of an `n - 1` x `n - 1`
/// matrix.
pub open spec fn minor<A>(m: Seq<A>, n: int, row: int, col: int) -> Seq<A> {
    Seq::new(
        ((n - 1) * (n - 1)) as nat,
        |k: int|
            {
                let r = k / (n - 1);
                let c = k % (n - 1);
                m[flat(
                    if r < row {
                        r
                    } else {
                        r + 1
                    },
                    if c < col {
                        c
                    } else {
                        c + 1
                    },
                    n,
                )]
            },
    )
}

/// The sign of the cofactor of column `col` of the first row: +1, -1, +1, ...
pub open spec fn cofactor_sign(col: int) -> int {
    if col % 2 == 0 {
        1
    } else {
        -1
    }
}

/// The exact determinant of the `n` x `n` matrix of integers with the
/// row-major buffer `m`: the only entry for `n == 1`, else the cofactor
/// expansion along the first row. For `n == 0` the expansion is empty and
/// the determinant is 0.
pub open spec fn det(m: Seq<int>, n: nat) -> int
    decreases n, n + 1,
{
    if n == 1 {
        m[0]
    } else {
        cofactor_sum(m, n, n)
    }
}

/// The part of the cofactor expansion along the first row that the columns
/// before `upto` contribute.
pub open spec fn cofactor_sum(m: Seq<int>, n: nat, upto: nat) -> int
    decreases n, upto,
{
    if upto == 0 || n == 0 || upto > n {
        0
    } else {
        cofactor_sum(m, n, (upto - 1) as nat) + cofactor_sign(upto - 1) * m[upto - 1] * det(
            minor(m, n as int, 0, upto - 1),
            (n - 1) as nat,
        )
    }
}

/// Taking out a row and a column and reading off the integers can be done
/// in either order.
pub proof fn lemma_values_minor<T: MatrixElement>(m: Seq<T>, n: int, row: int, col: int)
    requires
        n >= 1,
        m.len() == n * n,
        0 <= row < n,
        0 <= col < n,
    ensures
        values(minor(m, n, row, col)) =~= minor(values(m), n, row, col),
{
    assert forall|k: int| 0 <= k < (n - 1) * (n - 1) implies values(minor(m, n, row, col))[k]
        == minor(values(m), n, row, col)[k] by {
        lemma_unflat(k, n - 1, n - 1);
        let r = k / (n - 1);
        let c = k % (n - 1);
        lemma_flat(
            if r < row {
                r
            } else {
                r + 1
            },
            if c < col {
                c
            } else {
                c + 1
            },
            n,
            n,
        );
    }
}

/// The determinant of a 2 x 2 matrix.
pub proof fn lemma_det_2(m: Seq<int>)
    requires
        m.len() == 4,
    ensures
        det(m, 2) == m[0] * m[3] - m[1] * m[2],
{
    reveal_with_fuel(cofactor_sum, 3);
    reveal_with_fuel(det, 2);
    let m0 = minor(m, 2, 0, 0);
    let m1 = minor(m, 2, 0, 1);
    assert(m0[0] == m[3]);
    assert(m1[0] == m[2]);
    assert(det(m0, 1) == m[3]);
    assert(det(m1, 1) == m[2]);
    assert(cofactor_sum(m, 2, 1) == m[0] * m[3]);
    assert(cofactor_sum(m, 2, 2) == cofactor_sum(m, 2, 1) + (-1) * m[1] * det(m1, 1));
    assert((-1) * m[1] * m[2] == -(m[1] * m[2])) by (nonlinear_arith);
}

/// The determinant of a 3 x 3 matrix.
pub proof fn lemma_det_3(m: Seq<int>)
    requires
        m.len() == 9,
    ensures
        det(m, 3) == m[0] * (m[4] * m[8] - m[5] * m[7]) - m[1] * (m[3] * m[8] - m[5] * m[6])
            + m[2] * (m[3] * m[7] - m[4] * m[6]),
{
    reveal_with_fuel(cofactor_sum, 4);
    let m0 = minor(m, 3, 0, 0);
    let m1 = minor(m, 3, 0, 1);
    let m2 = minor(m, 3, 0, 2);
    assert(m0 =~= seq![m[4], m[5], m[7], m[8]]);
    assert(m1 =~= seq![m[3], m[5], m[6], m[8]]);
    assert(m2 =~= seq![m[3], m[4], m[6], m[7]]);
    lemma_det_2(m0);
    lemma_det_2(m1);
    lemma_det_2(m2);
    let d0 = m[4] * m[8] - m[5] * m[7];
    let d1 = m[3] * m[8] - m[5] * m[6];
    let d2 = m[3] * m[7] - m[4] * m[6];
    assert(det(m0, 2) == d0);
    assert(det(m1, 2) == d1);
    assert(det(m2, 2) == d2);
    assert(cofactor_sum(m, 3, 1) == 1 * m[0] * d0);
    assert(cofactor_sum(m, 3, 2) == cofactor_sum(m, 3, 1) + (-1) * m[1] * d1);
    assert(cofactor_sum(m, 3, 3) == cofactor_sum(m, 3, 2) + 1 * m[2] * d2);
    assert(1 * m[0] * d0 == m[0] * d0) by (nonlinear_arith);
    assert((-1) * m[1] * d1 == -(m[1] * d1)) by (nonlinear_arith);
    assert(1 * m[2] * d2 == m[2] * d2) by (nonlinear_arith);
}

/// The row-major buffer of an `n` x `n` matrix without row `row_to_remove`
/// and column `col_to_remove`.
pub fn submatrix<T: MatrixElement>(
    matrix: &Vec<T>,
    n: usize,
    row_to_remove: usize,
    col_to_remove: usize,
) -> (sub: Vec<T>)
    requires
        n >= 1,
        matrix@.len() == n * n,
        row_to_remove < n,
        col_to_remove < n,
    ensures
        sub@ == minor(matrix@, n as int, row_to_remove as int, col_to_remove as int),
{
    assert(matrix.len() == matrix@.len());
    let mut sub: Vec<T> = Vec::new();
    let mut row: usize = 0;
    while row < n
        invariant
            n >= 1,
            matrix@.len() == n * n,
            n * n <= usize::MAX,
            row_to_remove < n,
            col_to_remove < n,
            row <= n,
            sub@.len() == (if row <= row_to_remove {
                row as int
            } else {
                row - 1
            }) * (n - 1),
            forall|k: int|
                0 <= k < sub@.len() ==> #[trigger] sub@[k] == minor(
                    matrix@,
                    n as int,
                    row_to_remove as int,
                    col_to_remove as int,
                )[k],
        decreases n - row,
    {
        if row != row_to_remove {
            let ghost base = sub@.len() as int;
            let ghost r = if row < row_to_remove {
                row as int
            } else {
                row - 1
            };
            let mut col: usize = 0;
            while col < n
                invariant
                    n >= 1,
                    matrix@.len() == n * n,
                    n * n <= usize::MAX,
                    row_to_remove < n,
                    col_to_remove < n,
                    row < n,
                    row != row_to_remove,
                    col <= n,
                    r == (if row < row_to_remove {
                        row as int
                    } else {
                        row - 1
                    }),
                    base == r * (n - 1),
                    sub@.len() == base + (if col <= col_to_remove {
                        col as int
                    } else {
                        col - 1
                    }),
                    forall|k: int|
                        0 <= k < sub@.len() ==> #[trigger] sub@[k] == minor(
                            matrix@,
                            n as int,
                            row_to_remove as int,
                            col_to_remove as int,
                        )[k],
                decreases n - col,
            {
                if col != col_to_remove {
                    proof {
                        let c = if col < col_to_remove {
                            col as int
                        } else {
                            col - 1
                        };
                        lemma_flat(r, c, n - 1, n - 1);
                        lemma_flat(row as int, col as int, n as int, n as int);
                    }
                    sub.push(matrix[row * n + col]);
                }
                col += 1;
            }
            assert(r * (n - 1) + (n - 1) == (r + 1) * (n - 1)) by (nonlinear_arith);
        }
        row += 1;
    }
    assert(sub@ =~= minor(matrix@, n as int, row_to_remove as int, col_to_remove as int));
    sub
}

/// The exact determinant of a square matrix.
pub open spec fn determinant_of<T: MatrixElement>(m: &Matrix<T>) -> int {
    det(values(m@), m.rows())
}

/// `p * q - r * s`.
fn cross<T: MatrixElement>(p: T, q: T, r: T, s: T) -> (x: T)
    ensures
        x.value() == wrap::<T>(p.value() * q.value() - r.value() * s.value()),
{
    proof {
        T::lemma_modulus();
        lemma_wrap_sub(p.value() * q.value(), r.value() * s.value(), T::modulus());
    }
    p.wrapping_mul(q).wrapping_sub(r.wrapping_mul(s))
}

/// The determinant of the `n` x `n` matrix with the row-major buffer
/// `matrix`, by cofactor expansion along the first row.
pub fn det_nxn<T: MatrixElement>(matrix: &Vec<T>, n: usize) -> (d: T)
    requires
        matrix@.len() == n * n,
    ensures
        d.value() == wrap::<T>(det(values(matrix@), n as nat)),
    decreases n,
{
    if n == 1 {
        assert(matrix@.len() == 1) by (nonlinear_arith)
            requires
                matrix@.len() == n * n,
                n == 1,
        ;
        proof {
            lemma_wrap_value(matrix@[0]);
        }
        return matrix[0];
    }
    let zero = T::zero();
    let one = T::one();
    let minus_one = zero.wrapping_sub(one);
    let mut acc = zero;
    let mut sign = one;
    let ghost vals = values(matrix@);
    proof {
        T::lemma_modulus();
        lemma_wrap_exact(0, T::modulus());
        lemma_wrap_exact(-1, T::modulus());
    }
    let mut col: usize = 0;
    while col < n
        invariant
            matrix@.len() == n * n,
            n != 1,
            col <= n,
            vals == values(matrix@),
            minus_one.value() == -1,
            acc.value() == wrap::<T>(cofactor_sum(vals, n as nat, col as nat)),
            sign.value() == cofactor_sign(col as int),
        decreases n - col,
    {
        assert(n <= n * n) by (nonlinear_arith)
            requires
                n >= 1,
        ;
        assert((n - 1) * (n - 1) == n * n - 2 * n + 1) by (nonlinear_arith);
        let sub = submatrix(matrix, n, 0, col);
        let sub_det = det_nxn(&sub, n - 1);
        let term = sign.wrapping_mul(matrix[col]).wrapping_mul(sub_det);
        let next = acc.wrapping_add(term);
        let flipped = sign.wrapping_mul(minus_one);
        proof {
            T::lemma_modulus();
            let m = T::modulus();
            let s = cofactor_sign(col as int);
            let x = vals[col as int];
            let d = det(minor(vals, n as int, 0, col as int), (n - 1) as nat);
            lemma_values_minor(matrix@, n as int, 0, col as int);
            assert(sub_det.value() == wrap::<T>(d));
            lemma_wrap_mul(s * x, d, m);
            assert(term.value() == wrap::<T>(s * x * d));
            lemma_wrap_add(cofactor_sum(vals, n as nat, col as nat), s * x * d, m);
            assert(cofactor_sum(vals, n as nat, (col + 1) as nat) == cofactor_sum(
                vals,
                n as nat,
                col as nat,
            ) + s * x * d);
            lemma_wrap_exact(cofactor_sign(col + 1), m);
            assert(s * (-1) == cofactor_sign(col + 1));
        }
        acc = next;
        sign = flipped;
        col += 1;
    }
    acc
}

impl<T: MatrixElement> Matrix<T> {
    /// The determinant of a 2 x 2 matrix.
    fn det_2x2(&self) -> (d: T)
        requires
            self.rows() == 2,
            self.cols() == 2,
        ensures
            d.value() == wrap::<T>(determinant_of(self)),
    {
        proof {
            use_type_invariant(self);
            lemma_det_2(values(self@));
        }
        cross(self.at(0, 0), self.at(1, 1), self.at(0, 1), self.at(1, 0))
    }

    /// The determinant of a 3 x 3 matrix.
    fn det_3x3(&self) -> (d: T)
        requires
            self.rows() == 3,
            self.cols() == 3,
        ensures
            d.value() == wrap::<T>(determinant_of(self)),
    {
        proof {
            use_type_invariant(self);
            lemma_det_3(values(self@));
        }
        let a = self.at(0, 0);
        let b = self.at(0, 1);
        let c = self.at(0, 2);
        let d = self.at(1, 0);
        let e = self.at(1, 1);
        let f = self.at(1, 2);
        let g = self.at(2, 0);
        let h = self.at(2, 1);
        let i = self.at(2, 2);
        let x = cross(e, i, f, h);
        let y = cross(d, i, f, g);
        let z = cross(d, h, e, g);
        proof {
            T::lemma_modulus();
            let m = T::modulus();
            let xv = e.value() * i.value() - f.value() * h.value();
            let yv = d.value() * i.value() - f.value() * g.value();
            let zv = d.value() * h.value() - e.value() * g.value();
            lemma_wrap_mul(a.value(), xv, m);
            lemma_wrap_mul(b.value(), yv, m);
            lemma_wrap_mul(c.value(), zv, m);
            lemma_wrap_sub(a.value() * xv, b.value() * yv, m);
            lemma_wrap_add(a.value() * xv - b.value() * yv, c.value() * zv, m);
        }
        a.wrapping_mul(x).wrapping_sub(b.wrapping_mul(y)).wrapping_add(c.wrapping_mul(z))
    }

    /// The determinant of a square matrix: the entry for size 1, closed
    /// formulas for sizes 2 and 3, cofactor expansion along the first row
    /// for every other size.
    pub fn determinant_helper(&self) -> (d: T)
        requires
            self.rows() == self.cols(),
        ensures
            d.value() == wrap::<T>(determinant_of(self)),
    {
        proof {
            use_type_invariant(self);
        }
        if self.nrows == 1 {
            proof {
                lemma_wrap_value(self@[0]);
            }
            self.at(0, 0)
        } else if self.nrows == 2 {
            self.det_2x2()
        } else if self.nrows == 3 {
            self.det_3x3()
        } else {
            det_nxn(&self.data, self.nrows)
        }
    }

    /// The determinant, wrapped into the element type, or `None` for a
    /// matrix that is not square.
    ///
    /// The cofactor expansion takes time exponential in the size.
    pub fn determinant(&self) -> (r: Option<T>)
        ensures
            r is Some <==> self.rows() == self.cols(),
            r is Some ==> r.unwrap().value() == wrap::<T>(determinant_of(self)),
    {
        if self.nrows != self.ncols {
            return None;
        }
        Some(self.determinant_helper())
    }

    /// What `inverse` multiplies the adjugate of a 2 x 2 matrix with: 1
    /// divided by the determinant, rounded towards zero.
    pub open spec fn inverse_factor(&self) -> int {
        wrap::<T>(trunc_div(1, wrap::<T>(determinant_of(self))))
    }

    /// The adjugate of a 2 x 2 matrix, every element multiplied by 1
    /// divided by the determinant. With integers that is the inverse where
    /// the determinant is 1 or -1, and the zero matrix for every other
    /// determinant but 0.
    ///
    /// `None` for a matrix of another shape, and for one whose determinant
    /// is 0.
    pub fn inverse(&self) -> (r: Option<Self>)
        ensures
            r is Some <==> self.rows() == 2 && self.cols() == 2 && wrap::<T>(determinant_of(self))
                != 0,
            r is Some ==> {
                let m = r.unwrap();
                let q = self.inverse_factor();
                &&& m.rows() == 2
                &&& m.cols() == 2
                &&& m.entry(0, 0) == wrap::<T>(self.entry(1, 1) * q)
                &&& m.entry(0, 1) == wrap::<T>(-self.entry(0, 1) * q)
                &&& m.entry(1, 0) == wrap::<T>(-self.entry(1, 0) * q)
                &&& m.entry(1, 1) == wrap::<T>(self.entry(0, 0) * q)
            },
    {
        if self.nrows != 2 || self.ncols != 2 {
            return None;
        }
        let zero = T::zero();
        let det = self.det_2x2();
        if det.equals(zero) {
            return None;
        }
        proof {
            if det.value() == 0 {
                det.lemma_value_injective(zero);
            }
            T::lemma_modulus();
        }
        let a = self.at(0, 0);
        let b = self.at(0, 1);
        let c = self.at(1, 0);
        let d = self.at(1, 1);
        let factor = T::one().wrapping_div(det);
        let minus_b = zero.wrapping_sub(b);
        let minus_c = zero.wrapping_sub(c);
        proof {
            lemma_wrap_mul(-b.value(), factor.value(), T::modulus());
            lemma_wrap_mul(-c.value(), factor.value(), T::modulus());
        }
        let mut data: Vec<T> = Vec::new();
        data.push(d.wrapping_mul(factor));
        data.push(minus_b.wrapping_mul(factor));
        data.push(minus_c.wrapping_mul(factor));
        data.push(a.wrapping_mul(factor));
        Some(Matrix { data, nrows: 2, ncols: 2 })
    }

    /// The determinant, wrapped into the element type, or `None` for a
    /// matrix that is not square.
    pub fn det(&self) -> (r: Option<T>)
        ensures
            r is Some <==> self.rows() == self.cols(),
            r is Some ==> r.unwrap().value() == wrap::<T>(determinant_of(self)),
    {
        self.determinant()
    }
}

} // verus!
