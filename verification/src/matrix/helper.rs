//! The multiplication kernels of dense matrices.

use vstd::prelude::*;
use vstd::arithmetic::div_mod::lemma_fundamental_div_mod;
use crate::common::{
    lemma_wrap_add, lemma_wrap_exact, lemma_wrap_mul, lemma_wrap_value, wrap, wrap_signed,
    MatrixElement,
};
use crate::matrix::determinant::values;
use crate::error::MatrixError;
use crate::matrix::{filled, flat, lemma_flat, lemma_unflat, Matrix};
use crate::parallel::{
    are_outcomes, folded_sum, lemma_folded_sum, lemma_sum_over_agree, lemma_sum_over_split,
    lemma_sum_over_wrapped, par_find_last, par_sum_range, sum_over,
};
use core::ops::RangeInclusive;

verus! {

/// The integer of `y` that meets column `k` of the left operand in the cell
/// of column `j`: `y[k, j]`, or `y[j, k]` where `y` holds the right operand
/// transposed.
pub open spec fn operand<T: MatrixElement>(y: &Matrix<T>, transposed: bool, k: int, j: int) -> int {
    if transposed {
        y.entry(j, k)
    } else {
        y.entry(k, j)
    }
}

/// The products that add up to the cell `(i, j)` of a matrix product, as a
/// function of the inner index.
pub open spec fn dot_term<T: MatrixElement>(
    a: &Matrix<T>,
    y: &Matrix<T>,
    transposed: bool,
    i: int,
    j: int,
) -> spec_fn(int) -> int {
    |k: int| a.entry(i, k) * operand(y, transposed, k, j)
}

/// The exact part of the cell `(i, j)` of a matrix product that the inner
/// indices in `[lo, hi)` contribute.
pub open spec fn dot_range<T: MatrixElement>(
    a: &Matrix<T>,
    y: &Matrix<T>,
    transposed: bool,
    i: int,
    j: int,
    lo: int,
    hi: int,
) -> int {
    sum_over(dot_term(a, y, transposed, i, j), lo, hi)
}

/// The exact cell `(i, j)` of the matrix product of `a` and `b`: the sum of
/// `a[i, k] * b[k, j]` over all `k`.
pub open spec fn product_entry<T: MatrixElement>(a: &Matrix<T>, b: &Matrix<T>, i: int, j: int) -> int {
    dot_range(a, b, false, i, j, 0, a.cols() as int)
}

/// Whether `c` is the matrix product of `a` and `b`, every cell wrapped into
/// the element type.
pub open spec fn is_product<T: MatrixElement>(c: &Matrix<T>, a: &Matrix<T>, b: &Matrix<T>) -> bool {
    &&& c.wf()
    &&& c.rows() == a.rows()
    &&& c.cols() == b.cols()
    &&& forall|i: int, j: int|
        0 <= i < a.rows() && 0 <= j < b.cols() ==> #[trigger] c.entry(i, j) == wrap::<T>(
            product_entry(a, b, i, j),
        )
}

/// Whether the inner extents of `a` and of the right operand held in `y`
/// agree.
pub open spec fn conformable<T: MatrixElement>(a: &Matrix<T>, y: &Matrix<T>, transposed: bool) -> bool {
    if transposed {
        y.cols() == a.cols()
    } else {
        y.rows() == a.cols()
    }
}

/// Number of columns of the product whose right operand is held in `y`.
pub open spec fn out_cols<T: MatrixElement>(y: &Matrix<T>, transposed: bool) -> nat {
    if transposed {
        y.rows()
    } else {
        y.cols()
    }
}

/// A right operand and its transpose give the same partial dot products.
pub proof fn lemma_dot_range_transposed<T: MatrixElement>(
    a: &Matrix<T>,
    b: &Matrix<T>,
    bt: &Matrix<T>,
    i: int,
    j: int,
    lo: int,
    hi: int,
)
    requires
        bt.is_transpose_of(b),
        0 <= lo,
        hi <= b.rows(),
        0 <= j < b.cols(),
    ensures
        dot_range(a, bt, true, i, j, lo, hi) == dot_range(a, b, false, i, j, lo, hi),
{
    let f = dot_term(a, bt, true, i, j);
    let g = dot_term(a, b, false, i, j);
    assert forall|k: int| lo <= k < hi implies #[trigger] f(k) == g(k) by {
        assert(bt.cell(j, k) == b.cell(k, j));
    }
    lemma_sum_over_agree(f, g, lo, hi);
}

impl<T: MatrixElement> Matrix<T> {
    /// The part of the cell `(i, j)` of a product that the inner indices in
    /// `[lo, hi)` contribute, added up in parallel.
    pub fn par_dot(
        &self,
        y: &Self,
        transposed: bool,
        i: usize,
        j: usize,
        lo: usize,
        hi: usize,
    ) -> (r: T)
        requires
            conformable(self, y, transposed),
            i < self.rows(),
            j < out_cols(y, transposed),
            lo <= hi <= self.cols(),
        ensures
            r.value() == wrap::<T>(dot_range(self, y, transposed, i as int, j as int, lo as int, hi as int)),
    {
        let term = |k: usize| -> (t: T)
            requires
                lo <= k < hi,
            ensures
                t.value() == wrap::<T>(dot_term(self, y, transposed, i as int, j as int)(k as int)),
            {
                let rhs = if transposed {
                    y.at(j, k)
                } else {
                    y.at(k, j)
                };
                self.at(i, k).wrapping_mul(rhs)
            };
        let r = par_sum_range(lo, hi, term);
        proof {
            let terms = choose|terms: Seq<T>|
                are_outcomes(terms, lo, hi, term) && folded_sum(terms) == r.value();
            lemma_folded_sum(terms, dot_term(self, y, transposed, i as int, j as int), lo as int);
        }
        r
    }

    /// Adds to every cell of the block `[i_lo, i_hi) x [j_lo, j_hi)` of the
    /// row-major buffer `data` what the inner indices in `[k_lo, k_hi)`
    /// contribute to that cell of the product. Cells outside the block stay
    /// as they are.
    fn accumulate_block(
        &self,
        y: &Self,
        transposed: bool,
        data: &mut Vec<T>,
        i_lo: usize,
        i_hi: usize,
        j_lo: usize,
        j_hi: usize,
        k_lo: usize,
        k_hi: usize,
    )
        requires
            conformable(self, y, transposed),
            old(data)@.len() == self.rows() * out_cols(y, transposed),
            i_lo <= i_hi <= self.rows(),
            j_lo <= j_hi <= out_cols(y, transposed),
            k_lo <= k_hi <= self.cols(),
        ensures
            final(data)@.len() == old(data)@.len(),
            forall|k: int|
                0 <= k < final(data)@.len() ==> (#[trigger] final(data)@[k]).value() == block_sum(
                    self,
                    y,
                    transposed,
                    old(data)@,
                    k,
                    i_lo as int,
                    i_hi as int,
                    j_lo as int,
                    j_hi as int,
                    k_lo as int,
                    k_hi as int,
                ),
    {
        let p = if transposed {
            y.nrows
        } else {
            y.ncols
        };
        let ghost before = data@;
        let ghost rows = self.rows() as int;
        assert(data.len() == data@.len());
        let mut i: usize = i_lo;
        while i < i_hi
            invariant
                conformable(self, y, transposed),
                p == out_cols(y, transposed),
                rows == self.rows(),
                rows * p <= usize::MAX,
                before.len() == rows * p,
                data@.len() == before.len(),
                i_lo <= i <= i_hi <= rows,
                j_lo <= j_hi <= p,
                k_lo <= k_hi <= self.cols(),
                forall|k: int|
                    0 <= k < data@.len() ==> (#[trigger] data@[k]).value() == block_sum(
                        self,
                        y,
                        transposed,
                        before,
                        k,
                        i_lo as int,
                        i as int,
                        j_lo as int,
                        j_hi as int,
                        k_lo as int,
                        k_hi as int,
                    ),
            decreases i_hi - i,
        {
            let mut j: usize = j_lo;
            while j < j_hi
                invariant
                    conformable(self, y, transposed),
                    p == out_cols(y, transposed),
                    rows == self.rows(),
                    rows * p <= usize::MAX,
                    before.len() == rows * p,
                    data@.len() == before.len(),
                    i_lo <= i < i_hi <= rows,
                    j_lo <= j <= j_hi <= p,
                    k_lo <= k_hi <= self.cols(),
                    forall|k: int|
                        0 <= k < data@.len() ==> (#[trigger] data@[k]).value() == (if k / (p as int)
                            == i && j_lo <= k % (p as int) < j {
                            wrap::<T>(
                                before[k].value() + dot_range(
                                    self,
                                    y,
                                    transposed,
                                    k / (p as int),
                                    k % (p as int),
                                    k_lo as int,
                                    k_hi as int,
                                ),
                            )
                        } else {
                            block_sum(
                                self,
                                y,
                                transposed,
                                before,
                                k,
                                i_lo as int,
                                i as int,
                                j_lo as int,
                                j_hi as int,
                                k_lo as int,
                                k_hi as int,
                            )
                        }),
                decreases j_hi - j,
            {
                proof {
                    lemma_flat(i as int, j as int, rows, p as int);
                }
                let part = self.par_dot(y, transposed, i, j, k_lo, k_hi);
                let at = i * p + j;
                let ghost mid = data@;
                let sum = data[at].wrapping_add(part);
                data[at] = sum;
                proof {
                    assert(mid[at as int].value() == before[at as int].value());
                    T::lemma_modulus();
                    lemma_wrap_add(
                        before[at as int].value(),
                        dot_range(self, y, transposed, i as int, j as int, k_lo as int, k_hi as int),
                        T::modulus(),
                    );
                    T::lemma_modulus();
                    assert forall|k: int| 0 <= k < data@.len() implies (#[trigger] data@[k]).value()
                        == (if k / (p as int) == i && j_lo <= k % (p as int) < j + 1 {
                        wrap::<T>(
                            before[k].value() + dot_range(
                                self,
                                y,
                                transposed,
                                k / (p as int),
                                k % (p as int),
                                k_lo as int,
                                k_hi as int,
                            ),
                        )
                    } else {
                        block_sum(
                            self,
                            y,
                            transposed,
                            before,
                            k,
                            i_lo as int,
                            i as int,
                            j_lo as int,
                            j_hi as int,
                            k_lo as int,
                            k_hi as int,
                        )
                    }) by {
                        lemma_fundamental_div_mod(k, p as int);
                        assert((p as int) * (i as int) == (i as int) * (p as int))
                            by (nonlinear_arith);
                        if k != at {
                            assert(data@[k] == mid[k]);
                        }
                    }
                }
                j += 1;
            }
            i += 1;
        }
    }

    /// The matrix product, every cell in one parallel reduction over the
    /// whole inner extent, with no tiling.
    pub fn naive(&self, other: &Self) -> (c: Self)
        requires
            self.cols() == other.rows(),
            self.rows() * other.cols() <= usize::MAX,
        ensures
            is_product(&c, self, other),
    {
        let m = self.nrows;
        let n = self.ncols;
        let p = other.ncols;
        let mut data: Vec<T> = Vec::new();
        let mut i: usize = 0;
        while i < m
            invariant
                self.cols() == other.rows(),
                m == self.rows(),
                n == self.cols(),
                p == other.cols(),
                m * p <= usize::MAX,
                i <= m,
                data@.len() == i * p,
                forall|k: int|
                    0 <= k < data@.len() ==> (#[trigger] data@[k]).value() == wrap::<T>(
                        product_entry(self, other, k / (p as int), k % (p as int)),
                    ),
            decreases m - i,
        {
            let mut j: usize = 0;
            while j < p
                invariant
                    self.cols() == other.rows(),
                    m == self.rows(),
                    n == self.cols(),
                    p == other.cols(),
                    m * p <= usize::MAX,
                    i < m,
                    j <= p,
                    data@.len() == i * p + j,
                    forall|k: int|
                        0 <= k < data@.len() ==> (#[trigger] data@[k]).value() == wrap::<T>(
                            product_entry(self, other, k / (p as int), k % (p as int)),
                        ),
                decreases p - j,
            {
                proof {
                    lemma_flat(i as int, j as int, m as int, p as int);
                }
                let cell = self.par_dot(other, false, i, j, 0, n);
                data.push(cell);
                j += 1;
            }
            assert(i * p + p == (i + 1) * p) by (nonlinear_arith);
            i += 1;
        }
        let c = Matrix { data, nrows: m, ncols: p };
        proof {
            assert forall|i: int, j: int| 0 <= i < self.rows() && 0 <= j < other.cols() implies #[trigger] c.entry(
                i,
                j,
            ) == wrap::<T>(product_entry(self, other, i, j)) by {
                lemma_flat(i, j, m as int, p as int);
            }
        }
        c
    }

    /// The matrix product of an M x N and an N x P matrix, computed tile by
    /// tile: the three extents are cut into pieces of `block_size`, the last
    /// piece of each being as short as the extent leaves it, and every tile
    /// of the result takes up, one piece of the inner extent after the other,
    /// what that piece contributes.
    pub fn optimized_blocked_matmul(&self, other: &Self, block_size: usize) -> (c: Self)
        requires
            self.cols() == other.rows(),
            self.rows() * other.cols() <= usize::MAX,
            block_size > 0,
        ensures
            is_product(&c, self, other),
    {
        let m = self.nrows;
        let n = self.ncols;
        let p = other.ncols;
        let zero = T::zero();
        let mut data: Vec<T> = filled(zero, m * p);
        proof {
            T::lemma_modulus();
            lemma_wrap_exact(0, T::modulus());
        }
        let mut kk: usize = 0;
        while kk < n
            invariant
                self.cols() == other.rows(),
                m == self.rows(),
                n == self.cols(),
                p == other.cols(),
                block_size > 0,
                kk <= n,
                data@.len() == m * p,
                forall|k: int|
                    0 <= k < data@.len() ==> (#[trigger] data@[k]).value() == wrap::<T>(
                        dot_range(self, other, false, k / (p as int), k % (p as int), 0, kk as int),
                    ),
            decreases n - kk,
        {
            let k_end = block_end(kk, block_size, n);
            let mut jj: usize = 0;
            proof {
                assert forall|k: int| 0 <= k < data@.len() implies (#[trigger] data@[k]).value()
                    == wrap::<T>(
                    dot_range(
                        self,
                        other,
                        false,
                        k / (p as int),
                        k % (p as int),
                        0,
                        if k % (p as int) < 0 {
                            k_end as int
                        } else {
                            kk as int
                        },
                    ),
                ) by {
                    lemma_unflat(k, m as int, p as int);
                }
            }
            while jj < p
                invariant
                    self.cols() == other.rows(),
                    m == self.rows(),
                    n == self.cols(),
                    p == other.cols(),
                    block_size > 0,
                    kk < k_end <= n,
                    jj <= p,
                    data@.len() == m * p,
                    forall|k: int|
                        0 <= k < data@.len() ==> (#[trigger] data@[k]).value() == wrap::<T>(
                            dot_range(
                                self,
                                other,
                                false,
                                k / (p as int),
                                k % (p as int),
                                0,
                                if k % (p as int) < jj {
                                    k_end as int
                                } else {
                                    kk as int
                                },
                            ),
                        ),
                decreases p - jj,
            {
                let j_end = block_end(jj, block_size, p);
                let mut ii: usize = 0;
                proof {
                    assert forall|k: int| 0 <= k < data@.len() implies (#[trigger] data@[k]).value()
                        == wrap::<T>(
                        dot_range(
                            self,
                            other,
                            false,
                            k / (p as int),
                            k % (p as int),
                            0,
                            if k % (p as int) < jj || (k % (p as int) < j_end && k / (p as int)
                                < 0) {
                                k_end as int
                            } else {
                                kk as int
                            },
                        ),
                    ) by {
                        lemma_unflat(k, m as int, p as int);
                    }
                }
                while ii < m
                    invariant
                        self.cols() == other.rows(),
                        m == self.rows(),
                        n == self.cols(),
                        p == other.cols(),
                        block_size > 0,
                        kk < k_end <= n,
                        jj < j_end <= p,
                        ii <= m,
                        data@.len() == m * p,
                        forall|k: int|
                            0 <= k < data@.len() ==> (#[trigger] data@[k]).value() == wrap::<T>(
                                dot_range(
                                    self,
                                    other,
                                    false,
                                    k / (p as int),
                                    k % (p as int),
                                    0,
                                    if k % (p as int) < jj || (k % (p as int) < j_end && k / (
                                    p as int) < ii) {
                                        k_end as int
                                    } else {
                                        kk as int
                                    },
                                ),
                            ),
                    decreases m - ii,
                {
                    let i_end = block_end(ii, block_size, m);
                    let ghost before = data@;
                    self.accumulate_block(other, false, &mut data, ii, i_end, jj, j_end, kk, k_end);
                    proof {
                        assert forall|k: int| 0 <= k < data@.len() implies (#[trigger] data@[k]).value()
                            == wrap::<T>(
                            dot_range(
                                self,
                                other,
                                false,
                                k / (p as int),
                                k % (p as int),
                                0,
                                if k % (p as int) < jj || (k % (p as int) < j_end && k / (p as int)
                                    < i_end) {
                                    k_end as int
                                } else {
                                    kk as int
                                },
                            ),
                        ) by {
                            let r = k / (p as int);
                            let q = k % (p as int);
                            lemma_unflat(k, m as int, p as int);
                            T::lemma_modulus();
                            lemma_sum_over_split(
                                dot_term(self, other, false, r, q),
                                0,
                                kk as int,
                                k_end as int,
                            );
                            lemma_wrap_add(
                                dot_range(self, other, false, r, q, 0, kk as int),
                                dot_range(self, other, false, r, q, kk as int, k_end as int),
                                T::modulus(),
                            );
                            assert(before[k].value() == wrap::<T>(
                                dot_range(
                                    self,
                                    other,
                                    false,
                                    r,
                                    q,
                                    0,
                                    if q < jj || (q < j_end && r < ii) {
                                        k_end as int
                                    } else {
                                        kk as int
                                    },
                                ),
                            ));
                        }
                    }
                    ii = i_end;
                }
                proof {
                    assert forall|k: int| 0 <= k < data@.len() implies (#[trigger] data@[k]).value()
                        == wrap::<T>(
                        dot_range(
                            self,
                            other,
                            false,
                            k / (p as int),
                            k % (p as int),
                            0,
                            if k % (p as int) < j_end {
                                k_end as int
                            } else {
                                kk as int
                            },
                        ),
                    ) by {
                        lemma_unflat(k, m as int, p as int);
                    }
                }
                jj = j_end;
            }
            proof {
                assert forall|k: int| 0 <= k < data@.len() implies (#[trigger] data@[k]).value()
                    == wrap::<T>(
                    dot_range(self, other, false, k / (p as int), k % (p as int), 0, k_end as int),
                ) by {
                    lemma_unflat(k, m as int, p as int);
                }
            }
            kk = k_end;
        }
        let c = Matrix { data, nrows: m, ncols: p };
        proof {
            assert forall|i: int, j: int| 0 <= i < self.rows() && 0 <= j < other.cols() implies #[trigger] c.entry(
                i,
                j,
            ) == wrap::<T>(product_entry(self, other, i, j)) by {
                lemma_flat(i, j, m as int, p as int);
            }
        }
        c
    }

    /// The matrix product of two square matrices of one size, computed tile
    /// by tile on a transposed copy of the right operand, so that both
    /// operands are read along their rows. The inner extent and the columns
    /// of the result are cut into pieces of `block_size`, the last piece of
    /// each being as short as the extent leaves it.
    pub fn blocked_matmul(&self, other: &Self, block_size: usize) -> (c: Self)
        requires
            self.rows() == self.cols(),
            other.rows() == self.rows(),
            other.cols() == self.rows(),
            block_size > 0,
        ensures
            is_product(&c, self, other),
    {
        proof {
            use_type_invariant(self);
            self.lemma_shape_fits();
        }
        let n = self.nrows;
        let zero = T::zero();
        let mut data: Vec<T> = filled(zero, n * n);
        let t_other = other.transpose_copy();
        proof {
            T::lemma_modulus();
            lemma_wrap_exact(0, T::modulus());
        }
        let mut kk: usize = 0;
        while kk < n
            invariant
                n == self.rows(),
                n == self.cols(),
                n == t_other.rows(),
                n == t_other.cols(),
                block_size > 0,
                kk <= n,
                data@.len() == n * n,
                forall|k: int|
                    0 <= k < data@.len() ==> (#[trigger] data@[k]).value() == wrap::<T>(
                        dot_range(self, &t_other, true, k / (n as int), k % (n as int), 0, kk as int),
                    ),
            decreases n - kk,
        {
            let k_end = block_end(kk, block_size, n);
            let mut jj: usize = 0;
            proof {
                assert forall|k: int| 0 <= k < data@.len() implies (#[trigger] data@[k]).value()
                    == wrap::<T>(
                    dot_range(
                        self,
                        &t_other,
                        true,
                        k / (n as int),
                        k % (n as int),
                        0,
                        if k % (n as int) < 0 {
                            k_end as int
                        } else {
                            kk as int
                        },
                    ),
                ) by {
                    lemma_unflat(k, n as int, n as int);
                }
            }
            while jj < n
                invariant
                    n == self.rows(),
                    n == self.cols(),
                    n == t_other.rows(),
                    n == t_other.cols(),
                    block_size > 0,
                    kk < k_end <= n,
                    jj <= n,
                    data@.len() == n * n,
                    forall|k: int|
                        0 <= k < data@.len() ==> (#[trigger] data@[k]).value() == wrap::<T>(
                            dot_range(
                                self,
                                &t_other,
                                true,
                                k / (n as int),
                                k % (n as int),
                                0,
                                if k % (n as int) < jj {
                                    k_end as int
                                } else {
                                    kk as int
                                },
                            ),
                        ),
                decreases n - jj,
            {
                let j_end = block_end(jj, block_size, n);
                let ghost before = data@;
                self.accumulate_block(&t_other, true, &mut data, 0, n, jj, j_end, kk, k_end);
                proof {
                    assert forall|k: int| 0 <= k < data@.len() implies (#[trigger] data@[k]).value()
                        == wrap::<T>(
                        dot_range(
                            self,
                            &t_other,
                            true,
                            k / (n as int),
                            k % (n as int),
                            0,
                            if k % (n as int) < j_end {
                                k_end as int
                            } else {
                                kk as int
                            },
                        ),
                    ) by {
                        let r = k / (n as int);
                        let q = k % (n as int);
                        lemma_unflat(k, n as int, n as int);
                        T::lemma_modulus();
                        lemma_sum_over_split(
                            dot_term(self, &t_other, true, r, q),
                            0,
                            kk as int,
                            k_end as int,
                        );
                        lemma_wrap_add(
                            dot_range(self, &t_other, true, r, q, 0, kk as int),
                            dot_range(self, &t_other, true, r, q, kk as int, k_end as int),
                            T::modulus(),
                        );
                        assert(before[k].value() == wrap::<T>(
                            dot_range(
                                self,
                                &t_other,
                                true,
                                r,
                                q,
                                0,
                                if q < jj {
                                    k_end as int
                                } else {
                                    kk as int
                                },
                            ),
                        ));
                    }
                }
                jj = j_end;
            }
            proof {
                assert forall|k: int| 0 <= k < data@.len() implies (#[trigger] data@[k]).value()
                    == wrap::<T>(
                    dot_range(self, &t_other, true, k / (n as int), k % (n as int), 0, k_end as int),
                ) by {
                    lemma_unflat(k, n as int, n as int);
                }
            }
            kk = k_end;
        }
        let c = Matrix { data, nrows: n, ncols: n };
        proof {
            assert forall|i: int, j: int| 0 <= i < self.rows() && 0 <= j < other.cols() implies #[trigger] c.entry(
                i,
                j,
            ) == wrap::<T>(product_entry(self, other, i, j)) by {
                lemma_flat(i, j, n as int, n as int);
                lemma_dot_range_transposed(self, other, &t_other, i, j, 0, n as int);
            }
        }
        c
    }
}

impl<T: MatrixElement> Matrix<T> {
    /// Whether both extents of the matrix are below `limit`.
    pub open spec fn is_small(&self, limit: nat) -> bool {
        self.rows() < limit && self.cols() < limit
    }

    /// The tile widths that are tried for the product of `self` and `other`,
    /// smallest and largest: 2 to 10 where one operand has both extents
    /// below 30, 10 to 30 where one has both below 100, else 30 to 50.
    pub open spec fn block_size_bounds(&self, other: &Self) -> (nat, nat) {
        if self.is_small(30) || other.is_small(30) {
            (2, 10)
        } else if self.is_small(100) || other.is_small(100) {
            (10, 30)
        } else {
            (30, 50)
        }
    }

    /// Whether tiles of width `b` cover without remainder the columns or the
    /// rows of `self`, or the columns of `other`.
    pub open spec fn tiles_evenly(&self, other: &Self, b: int) -> bool {
        self.cols() as int % b == 0 || self.rows() as int % b == 0 || other.cols() as int % b == 0
    }

    /// The tile widths that are tried for the product of `self` and `other`.
    fn block_bounds(&self, other: &Self) -> (bounds: (usize, usize))
        ensures
            bounds.0 == self.block_size_bounds(other).0,
            bounds.1 == self.block_size_bounds(other).1,
            2 <= bounds.0 <= bounds.1 <= 50,
    {
        if self.nrows < 30 && self.ncols < 30 || other.nrows < 30 && other.ncols < 30 {
            (2, 10)
        } else if self.nrows < 100 && self.ncols < 100 || other.nrows < 100 && other.ncols < 100 {
            (10, 30)
        } else {
            (30, 50)
        }
    }

    /// The tile widths that are tried for the product of `self` and `other`,
    /// as a range.
    pub fn get_range_for_block_size(&self, other: &Self) -> (range: RangeInclusive<usize>)
        ensures
            range@.start == self.block_size_bounds(other).0,
            range@.end == self.block_size_bounds(other).1,
            !range@.exhausted,
    {
        let (lo, hi) = self.block_bounds(other);
        RangeInclusive::new(lo, hi)
    }

    /// The tile width for the product of `self` and `other`: the largest
    /// width tried that covers one of the three extents it is tested on
    /// without remainder, and the smallest width tried where none does.
    pub fn get_block_size(&self, other: &Self) -> (b: usize)
        ensures
            self.block_size_bounds(other).0 <= b <= self.block_size_bounds(other).1,
            self.tiles_evenly(other, b as int) || b == self.block_size_bounds(other).0,
            forall|c: int|
                b < c <= self.block_size_bounds(other).1 ==> !self.tiles_evenly(other, c),
            !self.tiles_evenly(other, b as int) ==> forall|c: int|
                self.block_size_bounds(other).0 <= c <= self.block_size_bounds(other).1
                    ==> !self.tiles_evenly(other, c),
    {
        let (lo, hi) = self.block_bounds(other);
        let fits = |b: &usize| -> (yes: bool)
            requires
                *b > 0,
            ensures
                yes == self.tiles_evenly(other, *b as int),
            { self.ncols % *b == 0 || self.nrows % *b == 0 || other.ncols % *b == 0 };
        let found = par_find_last(lo, hi, fits);
        match found {
            Some(b) => {
                proof {
                    assert forall|c: int| b < c <= hi implies !self.tiles_evenly(other, c) by {
                        let cc = c as usize;
                        assert(call_ensures(fits, (&cc,), false));
                    }
                }
                b
            },
            None => {
                proof {
                    assert forall|c: int| lo <= c <= hi implies !self.tiles_evenly(other, c) by {
                        let cc = c as usize;
                        assert(call_ensures(fits, (&cc,), false));
                    }
                }
                lo
            },
        }
    }

    /// The product of a 1 x 2 and a 2 x 1 matrix.
    fn onetwo_by_twoone(&self, other: &Self) -> (c: Self)
        requires
            self.rows() == 1 && self.cols() == 2,
            other.rows() == 2 && other.cols() == 1,
        ensures
            is_product(&c, self, other),
    {
        let a = dot2(self.at(0, 0), other.at(0, 0), self.at(0, 1), other.at(1, 0));
        let mut data: Vec<T> = Vec::new();
        data.push(a);
        assert(data@.len() == 1);
        let c = Matrix { data, nrows: 1, ncols: 1 };
        proof {
            lemma_tiny_product(self, other);
        }
        c
    }

    /// The product of a 2 x 2 and a 2 x 1 matrix.
    fn twotwo_by_twoone(&self, other: &Self) -> (c: Self)
        requires
            self.rows() == 2 && self.cols() == 2,
            other.rows() == 2 && other.cols() == 1,
        ensures
            is_product(&c, self, other),
    {
        let a = dot2(self.at(0, 0), other.at(0, 0), self.at(0, 1), other.at(1, 0));
        let b = dot2(self.at(1, 0), other.at(0, 0), self.at(1, 1), other.at(1, 0));
        let mut data: Vec<T> = Vec::new();
        data.push(a);
        data.push(b);
        let c = Matrix { data, nrows: 2, ncols: 1 };
        proof {
            lemma_tiny_product(self, other);
        }
        c
    }

    /// The product of a 1 x 2 and a 2 x 2 matrix.
    fn onetwo_by_twotwo(&self, other: &Self) -> (c: Self)
        requires
            self.rows() == 1 && self.cols() == 2,
            other.rows() == 2 && other.cols() == 2,
        ensures
            is_product(&c, self, other),
    {
        let a = dot2(self.at(0, 0), other.at(0, 0), self.at(0, 1), other.at(1, 0));
        let b = dot2(self.at(0, 0), other.at(0, 1), self.at(0, 1), other.at(1, 1));
        let mut data: Vec<T> = Vec::new();
        data.push(a);
        data.push(b);
        let c = Matrix { data, nrows: 1, ncols: 2 };
        proof {
            lemma_tiny_product(self, other);
        }
        c
    }

    /// The product of two 2 x 2 matrices.
    fn twotwo_by_twotwo(&self, other: &Self) -> (c: Self)
        requires
            self.rows() == 2 && self.cols() == 2,
            other.rows() == 2 && other.cols() == 2,
        ensures
            is_product(&c, self, other),
    {
        let a = dot2(self.at(0, 0), other.at(0, 0), self.at(0, 1), other.at(1, 0));
        let b = dot2(self.at(0, 0), other.at(0, 1), self.at(0, 1), other.at(1, 1));
        let c0 = dot2(self.at(1, 0), other.at(0, 0), self.at(1, 1), other.at(1, 0));
        let d = dot2(self.at(1, 0), other.at(0, 1), self.at(1, 1), other.at(1, 1));
        let mut data: Vec<T> = Vec::new();
        data.push(a);
        data.push(b);
        data.push(c0);
        data.push(d);
        let c = Matrix { data, nrows: 2, ncols: 2 };
        proof {
            lemma_tiny_product(self, other);
        }
        c
    }

    /// The matrix product of `self` and `other`, by the kernel that suits
    /// their shapes: a closed formula where both have at most two rows and
    /// two columns and the inner extent is 2, the kernel on a transposed
    /// copy where both are square and of one size, the general tiled kernel
    /// in every other case.
    pub fn matmul_helper(&self, other: &Self) -> (c: Self)
        requires
            self.cols() == other.rows(),
            self.rows() * other.cols() <= usize::MAX,
        ensures
            is_product(&c, self, other),
    {
        if self.ncols == 2 && self.nrows <= 2 && other.ncols <= 2 && self.nrows >= 1 && other.ncols
            >= 1 {
            if self.nrows == 1 && other.ncols == 1 {
                return self.onetwo_by_twoone(other);
            } else if self.nrows == 2 && other.ncols == 1 {
                return self.twotwo_by_twoone(other);
            } else if self.nrows == 1 {
                return self.onetwo_by_twotwo(other);
            } else {
                return self.twotwo_by_twotwo(other);
            }
        }
        let block_size = self.get_block_size(other);
        if self.nrows == other.nrows && self.ncols == other.ncols {
            return self.blocked_matmul(other, block_size);
        }
        self.optimized_blocked_matmul(other, block_size)
    }

    /// The matrix product of `self` and `other`.
    ///
    /// Fails with `MatrixMultiplicationDimensionMismatchError` where `self`
    /// has not as many columns as `other` has rows, and with
    /// `MatrixCreationError` where the product would have more cells than
    /// can be addressed.
    pub fn matmul(&self, other: &Self) -> (r: Result<Self, MatrixError>)
        ensures
            r is Ok <==> self.cols() == other.rows() && self.rows() * other.cols() <= usize::MAX,
            match r {
                Ok(c) => is_product(&c, self, other),
                Err(e) => e == (if self.cols() != other.rows() {
                    MatrixError::MatrixMultiplicationDimensionMismatchError
                } else {
                    MatrixError::MatrixCreationError
                }),
            },
    {
        if self.ncols != other.nrows {
            return Err(MatrixError::MatrixMultiplicationDimensionMismatchError);
        }
        match self.nrows.checked_mul(other.ncols) {
            Some(_) => Ok(self.matmul_helper(other)),
            None => Err(MatrixError::MatrixCreationError),
        }
    }

    /// The matrix multiplied `n` times with itself, or `None` for a matrix
    /// that is not square.
    pub fn exp(&self, n: usize) -> (r: Option<Self>)
        requires
            n >= 1,
        ensures
            r is Some <==> self.rows() == self.cols(),
            r is Some ==> is_power(&r.unwrap(), self, n as nat),
    {
        if self.nrows != self.ncols {
            return None;
        }
        proof {
            use_type_invariant(self);
            self.lemma_shape_fits();
        }
        let mut res = self.clone();
        let mut done: usize = 1;
        proof {
            assert forall|k: int| 0 <= k < res@.len() implies (#[trigger] res@[k]).value()
                == wrap::<T>(exact_power(values(self@), self.rows() as int, 1)[k]) by {
                lemma_wrap_value(res@[k]);
            }
        }
        while done < n
            invariant
                self.wf(),
                self.rows() == self.cols(),
                self.rows() * self.cols() <= usize::MAX,
                res.rows() == self.rows(),
                res.cols() == self.cols(),
                1 <= done <= n,
                is_power(&res, self, done as nat),
            decreases n - done,
        {
            let next = res.matmul_helper(self);
            proof {
                lemma_next_power(&next, &res, self, done as nat);
            }
            res = next;
            done += 1;
        }
        Some(res)
    }

    /// The matrix product of `self` and `other`; another name of `matmul`.
    pub fn mm(&self, other: &Self) -> (r: Result<Self, MatrixError>)
        ensures
            r is Ok <==> self.cols() == other.rows() && self.rows() * other.cols() <= usize::MAX,
            match r {
                Ok(c) => is_product(&c, self, other),
                Err(e) => e == (if self.cols() != other.rows() {
                    MatrixError::MatrixMultiplicationDimensionMismatchError
                } else {
                    MatrixError::MatrixCreationError
                }),
            },
    {
        self.matmul(other)
    }
}

/// The sum of two products, as the tiny kernels need it.
fn dot2<T: MatrixElement>(a0: T, b0: T, a1: T, b1: T) -> (r: T)
    ensures
        r.value() == wrap::<T>(a0.value() * b0.value() + a1.value() * b1.value()),
{
    proof {
        T::lemma_modulus();
        lemma_wrap_add(a0.value() * b0.value(), a1.value() * b1.value(), T::modulus());
    }
    a0.wrapping_mul(b0).wrapping_add(a1.wrapping_mul(b1))
}

/// With an inner extent of 2 a cell of the product is the sum of two
/// products.
proof fn lemma_tiny_product<T: MatrixElement>(a: &Matrix<T>, b: &Matrix<T>)
    requires
        a.cols() == 2,
    ensures
        forall|i: int, j: int| #[trigger]
            product_entry(a, b, i, j) == a.entry(i, 0) * b.entry(0, j) + a.entry(i, 1) * b.entry(
                1,
                j,
            ),
{
    reveal_with_fuel(sum_over, 3);
}

/// The exact product of two `n` x `n` matrices of integers, all three as
/// row-major buffers.
pub open spec fn exact_product(x: Seq<int>, y: Seq<int>, n: int) -> Seq<int> {
    Seq::new(
        (n * n) as nat,
        |k: int| sum_over(|t: int| x[flat(k / n, t, n)] * y[flat(t, k % n, n)], 0, n),
    )
}

/// The exact `e`-th power of an `n` x `n` matrix of integers, for `e >= 1`.
pub open spec fn exact_power(a: Seq<int>, n: int, e: nat) -> Seq<int>
    decreases e,
{
    if e <= 1 {
        a
    } else {
        exact_product(exact_power(a, n, (e - 1) as nat), a, n)
    }
}

/// Whether `r` is the `e`-th power of the square matrix `a`, every cell
/// wrapped into the element type.
pub open spec fn is_power<T: MatrixElement>(r: &Matrix<T>, a: &Matrix<T>, e: nat) -> bool {
    &&& r.wf()
    &&& r.rows() == a.rows()
    &&& r.cols() == a.cols()
    &&& forall|k: int|
        0 <= k < r@.len() ==> (#[trigger] r@[k]).value() == wrap::<T>(
            exact_power(values(a@), a.rows() as int, e)[k],
        )
}

/// Multiplying the `e`-th power of `a` by `a` gives the next power.
pub proof fn lemma_next_power<T: MatrixElement>(
    next: &Matrix<T>,
    power: &Matrix<T>,
    a: &Matrix<T>,
    e: nat,
)
    requires
        a.wf(),
        a.rows() == a.cols(),
        e >= 1,
        is_power(power, a, e),
        is_product(next, power, a),
    ensures
        is_power(next, a, e + 1),
{
    let n = a.rows() as int;
    let exact = exact_power(values(a@), n, e);
    T::lemma_modulus();
    lemma_power_len(values(a@), n, e);
    assert forall|k: int| 0 <= k < next@.len() implies (#[trigger] next@[k]).value() == wrap::<T>(
        exact_power(values(a@), n, e + 1)[k],
    ) by {
        lemma_unflat(k, n, n);
        let i = k / n;
        let j = k % n;
        let f = dot_term(power, a, false, i, j);
        let g = |t: int| exact[flat(k / n, t, n)] * values(a@)[flat(t, k % n, n)];
        assert forall|t: int| 0 <= t < n implies wrap_signed(#[trigger] f(t), T::modulus())
            == wrap_signed(g(t), T::modulus()) by {
            lemma_flat(i, t, n, n);
            lemma_flat(t, j, n, n);
            lemma_wrap_mul(exact[flat(i, t, n)], a.entry(t, j), T::modulus());
        }
        lemma_sum_over_wrapped(f, g, 0, n, T::modulus());
        assert(next.entry(i, j) == wrap::<T>(product_entry(power, a, i, j)));
    }
}

/// A power of an `n` x `n` matrix has `n * n` cells.
pub proof fn lemma_power_len(a: Seq<int>, n: int, e: nat)
    requires
        n >= 0,
        a.len() == n * n,
    ensures
        exact_power(a, n, e).len() == n * n,
    decreases e,
{
    if e > 1 {
        lemma_power_len(a, n, (e - 1) as nat);
    }
}

/// There is one matrix product: two matrices that both are the product of
/// `a` and `b` hold the same elements. So the general tiled kernel, the
/// tiled kernel on the transposed copy, the closed formulas and the untiled
/// reduction, which all return the product, return the same matrix for the
/// same operands, whatever the tile width.
pub proof fn lemma_product_unique<T: MatrixElement>(
    c1: &Matrix<T>,
    c2: &Matrix<T>,
    a: &Matrix<T>,
    b: &Matrix<T>,
)
    requires
        is_product(c1, a, b),
        is_product(c2, a, b),
    ensures
        c1.same(c2),
{
    let rows = a.rows() as int;
    let cols = b.cols() as int;
    assert forall|k: int| 0 <= k < c1@.len() implies c1@[k] == c2@[k] by {
        lemma_unflat(k, rows, cols);
        let i = k / cols;
        let j = k % cols;
        assert(c1.entry(i, j) == c2.entry(i, j));
        c1@[k].lemma_value_injective(c2@[k]);
    }
}

/// What `accumulate_block` leaves at place `k` of a buffer that held `before`:
/// the old value plus the contribution of `[k_lo, k_hi)` for a cell of the
/// block, the old value for any other.
pub open spec fn block_sum<T: MatrixElement>(
    a: &Matrix<T>,
    y: &Matrix<T>,
    transposed: bool,
    before: Seq<T>,
    k: int,
    i_lo: int,
    i_hi: int,
    j_lo: int,
    j_hi: int,
    k_lo: int,
    k_hi: int,
) -> int {
    let p = out_cols(y, transposed) as int;
    if i_lo <= k / p < i_hi && j_lo <= k % p < j_hi {
        wrap::<T>(before[k].value() + dot_range(a, y, transposed, k / p, k % p, k_lo, k_hi))
    } else {
        before[k].value()
    }
}

/// Where the tile that starts at `start` ends: `block` further on, or at
/// `limit` if that comes first.
pub fn block_end(start: usize, block: usize, limit: usize) -> (end: usize)
    requires
        start < limit,
        block > 0,
    ensures
        start < end <= limit,
        end == if start + block <= limit {
            start + block
        } else {
            limit as int
        },
{
    if limit - start < block {
        limit
    } else {
        start + block
    }
}

} // verus!
