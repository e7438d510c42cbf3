//! Reductions of dense matrices: sums, products, extremes, averages.

use vstd::prelude::*;
use crate::common::{lemma_wrap_exact, trunc_div, wrap, MatrixElement};
use crate::sorting::{is_sorted_copy, sorted};
use crate::matrix::{Dimension, Matrix, Shape};
use crate::parallel::{
    are_outcomes, folded_product, folded_sum, lemma_folded_product, lemma_folded_sum,
    par_product_range, par_sum_range, product_over, sum_over,
};

verus! {

/// The median of the elements of a sequence in rising order: the element in
/// the middle where their number is odd, else the sum of the two in the
/// middle divided by 2 and rounded towards zero.
pub open spec fn median_of<T: MatrixElement>(s: Seq<T>) -> int {
    let half = s.len() as int / 2;
    if s.len() % 2 == 1 {
        s[half].value()
    } else {
        wrap::<T>(trunc_div(wrap::<T>(s[half - 1].value() + s[half].value()), wrap::<T>(2)))
    }
}

/// The median of the elements of a vector in rising order.
pub fn middle<T: MatrixElement>(sorted: &Vec<T>) -> (r: T)
    requires
        sorted@.len() > 0,
    ensures
        r.value() == median_of(sorted@),
{
    let half = sorted.len() / 2;
    if sorted.len() % 2 == 1 {
        sorted[half]
    } else {
        let two = T::one().wrapping_add(T::one());
        proof {
            T::lemma_modulus();
            vstd::arithmetic::div_mod::lemma_mod_bound(2, T::modulus());
            if T::modulus() > 4 {
                lemma_wrap_exact(2, T::modulus());
            }
        }
        sorted[half - 1].wrapping_add(sorted[half]).wrapping_div(two)
    }
}

impl<T: MatrixElement> Matrix<T> {
    /// The median of all elements.
    pub fn median(&self) -> (r: T)
        requires
            self@.len() > 0,
        ensures
            exists|s: Seq<T>| #[trigger] is_sorted_copy(s, self@) && r.value() == median_of(s),
    {
        let ordered = sorted(&self.data);
        let r = middle(&ordered);
        assert(is_sorted_copy(ordered@, self@) && r.value() == median_of(ordered@));
        r
    }

    /// The exact sum of all elements.
    pub open spec fn total(&self) -> int {
        sum_over(|k: int| self@[k].value(), 0, self@.len() as int)
    }

    /// The exact product of all elements.
    pub open spec fn total_product(&self) -> int {
        product_over(|k: int| self@[k].value(), 0, self@.len() as int)
    }

    /// The exact sum of the elements of row `i`.
    pub open spec fn row_total(&self, i: int) -> int {
        sum_over(|j: int| self.entry(i, j), 0, self.cols() as int)
    }

    /// The exact sum of the elements of column `j`.
    pub open spec fn col_total(&self, j: int) -> int {
        sum_over(|i: int| self.entry(i, j), 0, self.rows() as int)
    }

    /// The exact product of the elements of row `i`.
    pub open spec fn row_product(&self, i: int) -> int {
        product_over(|j: int| self.entry(i, j), 0, self.cols() as int)
    }

    /// The exact product of the elements of column `j`.
    pub open spec fn col_product(&self, j: int) -> int {
        product_over(|i: int| self.entry(i, j), 0, self.rows() as int)
    }

    /// The sum of all elements.
    pub fn cumsum(&self) -> (r: T)
        ensures
            r.value() == wrap::<T>(self.total()),
    {
        let n = self.data.len();
        let term = |k: usize| -> (t: T)
            requires
                k < n,
            ensures
                t == self@[k as int],
            { self.data[k] };
        let r = par_sum_range(0, n, term);
        proof {
            let terms = choose|terms: Seq<T>|
                are_outcomes(terms, 0, n, term) && folded_sum(terms) == r.value();
            assert forall|k: int| 0 <= k < terms.len() implies (#[trigger] terms[k]).value()
                == wrap::<T>(self@[0 + k].value()) by {
                crate::common::lemma_wrap_value(self@[k]);
            }
            lemma_folded_sum(terms, |k: int| self@[k].value(), 0);
        }
        r
    }

    /// The product of all elements; zero for a matrix without elements.
    pub fn cumprod(&self) -> (r: T)
        ensures
            r.value() == (if self@.len() == 0 {
                0
            } else {
                wrap::<T>(self.total_product())
            }),
    {
        let n = self.data.len();
        if n == 0 {
            return T::zero();
        }
        let term = |k: usize| -> (t: T)
            requires
                k < n,
            ensures
                t == self@[k as int],
            { self.data[k] };
        let r = par_product_range(0, n, term);
        proof {
            let terms = choose|terms: Seq<T>|
                are_outcomes(terms, 0, n, term) && folded_product(terms) == r.value();
            assert forall|k: int| 0 <= k < terms.len() implies (#[trigger] terms[k]).value()
                == wrap::<T>(self@[0 + k].value()) by {
                crate::common::lemma_wrap_value(self@[k]);
            }
            lemma_folded_product(terms, |k: int| self@[k].value(), 0);
        }
        r
    }

    /// The sum of the elements of row `rowcol`, or of column `rowcol`; zero
    /// where the matrix has no such row or column.
    pub fn sum(&self, rowcol: usize, dimension: Dimension) -> (r: T)
        ensures
            r.value() == (match dimension {
                Dimension::Row => if rowcol < self.rows() {
                    wrap::<T>(self.row_total(rowcol as int))
                } else {
                    0
                },
                Dimension::Col => if rowcol < self.cols() {
                    wrap::<T>(self.col_total(rowcol as int))
                } else {
                    0
                },
            }),
    {
        match dimension {
            Dimension::Row => {
                if rowcol >= self.nrows {
                    return T::zero();
                }
                let n = self.ncols;
                let term = |j: usize| -> (t: T)
                    requires
                        j < n,
                    ensures
                        t.value() == self.entry(rowcol as int, j as int),
                    { self.at(rowcol, j) };
                let r = par_sum_range(0, n, term);
                proof {
                    let terms = choose|terms: Seq<T>|
                        are_outcomes(terms, 0, n, term) && folded_sum(terms) == r.value();
                    assert forall|k: int| 0 <= k < terms.len() implies (#[trigger] terms[k]).value()
                        == wrap::<T>(self.entry(rowcol as int, 0 + k)) by {
                        crate::common::lemma_wrap_value(terms[k]);
                    }
                    lemma_folded_sum(terms, |j: int| self.entry(rowcol as int, j), 0);
                }
                r
            },
            Dimension::Col => {
                if rowcol >= self.ncols {
                    return T::zero();
                }
                let n = self.nrows;
                let term = |i: usize| -> (t: T)
                    requires
                        i < n,
                    ensures
                        t.value() == self.entry(i as int, rowcol as int),
                    { self.at(i, rowcol) };
                let r = par_sum_range(0, n, term);
                proof {
                    let terms = choose|terms: Seq<T>|
                        are_outcomes(terms, 0, n, term) && folded_sum(terms) == r.value();
                    assert forall|k: int| 0 <= k < terms.len() implies (#[trigger] terms[k]).value()
                        == wrap::<T>(self.entry(0 + k, rowcol as int)) by {
                        crate::common::lemma_wrap_value(terms[k]);
                    }
                    lemma_folded_sum(terms, |i: int| self.entry(i, rowcol as int), 0);
                }
                r
            },
        }
    }

    /// The product of the elements of row `rowcol`, or of column `rowcol`;
    /// one where the matrix has no such row or column.
    pub fn prod(&self, rowcol: usize, dimension: Dimension) -> (r: T)
        ensures
            r.value() == (match dimension {
                Dimension::Row => if rowcol < self.rows() {
                    wrap::<T>(self.row_product(rowcol as int))
                } else {
                    1
                },
                Dimension::Col => if rowcol < self.cols() {
                    wrap::<T>(self.col_product(rowcol as int))
                } else {
                    1
                },
            }),
    {
        match dimension {
            Dimension::Row => {
                if rowcol >= self.nrows {
                    return T::one();
                }
                let n = self.ncols;
                let term = |j: usize| -> (t: T)
                    requires
                        j < n,
                    ensures
                        t.value() == self.entry(rowcol as int, j as int),
                    { self.at(rowcol, j) };
                let r = par_product_range(0, n, term);
                proof {
                    let terms = choose|terms: Seq<T>|
                        are_outcomes(terms, 0, n, term) && folded_product(terms) == r.value();
                    assert forall|k: int| 0 <= k < terms.len() implies (#[trigger] terms[k]).value()
                        == wrap::<T>(self.entry(rowcol as int, 0 + k)) by {
                        crate::common::lemma_wrap_value(terms[k]);
                    }
                    lemma_folded_product(terms, |j: int| self.entry(rowcol as int, j), 0);
                }
                r
            },
            Dimension::Col => {
                if rowcol >= self.ncols {
                    return T::one();
                }
                let n = self.nrows;
                let term = |i: usize| -> (t: T)
                    requires
                        i < n,
                    ensures
                        t.value() == self.entry(i as int, rowcol as int),
                    { self.at(i, rowcol) };
                let r = par_product_range(0, n, term);
                proof {
                    let terms = choose|terms: Seq<T>|
                        are_outcomes(terms, 0, n, term) && folded_product(terms) == r.value();
                    assert forall|k: int| 0 <= k < terms.len() implies (#[trigger] terms[k]).value()
                        == wrap::<T>(self.entry(0 + k, rowcol as int)) by {
                        crate::common::lemma_wrap_value(terms[k]);
                    }
                    lemma_folded_product(terms, |i: int| self.entry(i, rowcol as int), 0);
                }
                r
            },
        }
    }

    /// The sum of all elements divided by their number, rounded towards
    /// zero.
    pub fn avg(&self) -> (r: T)
        requires
            self@.len() > 0,
            2 * self@.len() < T::modulus(),
        ensures
            r.value() == wrap::<T>(trunc_div(wrap::<T>(self.total()), self@.len() as int)),
    {
        let count = T::from_usize(self.data.len());
        self.cumsum().wrapping_div(count.unwrap())
    }

    /// The sum of all elements divided by their number; another name of
    /// `avg`.
    pub fn mean(&self) -> (r: T)
        requires
            self@.len() > 0,
            2 * self@.len() < T::modulus(),
        ensures
            r.value() == wrap::<T>(trunc_div(wrap::<T>(self.total()), self@.len() as int)),
    {
        self.avg()
    }

    /// The largest element.
    pub fn max(&self) -> (r: T)
        requires
            self@.len() > 0,
        ensures
            self@.contains(r),
            forall|k: int| 0 <= k < self@.len() ==> (#[trigger] self@[k]).value() <= r.value(),
    {
        let mut best = self.data[0];
        let mut k: usize = 1;
        while k < self.data.len()
            invariant
                1 <= k <= self@.len(),
                self@.contains(best),
                forall|t: int| 0 <= t < k ==> (#[trigger] self@[t]).value() <= best.value(),
            decreases self@.len() - k,
        {
            if best.less_than(self.data[k]) {
                best = self.data[k];
            }
            k += 1;
        }
        best
    }

    /// The smallest element.
    pub fn min(&self) -> (r: T)
        requires
            self@.len() > 0,
        ensures
            self@.contains(r),
            forall|k: int| 0 <= k < self@.len() ==> r.value() <= (#[trigger] self@[k]).value(),
    {
        let mut best = self.data[0];
        let mut k: usize = 1;
        while k < self.data.len()
            invariant
                1 <= k <= self@.len(),
                self@.contains(best),
                forall|t: int| 0 <= t < k ==> best.value() <= (#[trigger] self@[t]).value(),
            decreases self@.len() - k,
        {
            if self.data[k].less_than(best) {
                best = self.data[k];
            }
            k += 1;
        }
        best
    }

    /// The cell of row `rowcol`, or of column `rowcol`, that holds the
    /// largest element of that row or column: of several such cells the
    /// first. `None` where the matrix has no such row or column, and where
    /// the row or column has no cell.
    pub fn argmax(&self, rowcol: usize, dimension: Dimension) -> (r: Option<Shape>)
        ensures
            r is Some <==> self.has_line(rowcol, dimension),
            r is Some ==> {
                let at = r.unwrap();
                &&& self.on_line(at, rowcol, dimension)
                &&& forall|other: Shape|
                    self.on_line(other, rowcol, dimension) ==> #[trigger] self.entry(
                        other.0 as int,
                        other.1 as int,
                    ) <= self.entry(at.0 as int, at.1 as int)
                &&& forall|other: Shape|
                    self.on_line(other, rowcol, dimension) && #[trigger] self.entry(
                        other.0 as int,
                        other.1 as int,
                    ) == self.entry(at.0 as int, at.1 as int) ==> at.0 + at.1 <= other.0 + other.1
            },
    {
        let len = match dimension {
            Dimension::Row => self.ncols,
            Dimension::Col => self.nrows,
        };
        let lines = match dimension {
            Dimension::Row => self.nrows,
            Dimension::Col => self.ncols,
        };
        if rowcol >= lines || len == 0 {
            return None;
        }
        let mut best: usize = 0;
        let mut k: usize = 1;
        while k < len
            invariant
                self.has_line(rowcol, dimension),
                len == self.line_len(dimension),
                best < k <= len,
                forall|t: int|
                    0 <= t < k ==> #[trigger] self.line_entry(rowcol, dimension, t)
                        <= self.line_entry(rowcol, dimension, best as int),
                forall|t: int|
                    0 <= t < k && #[trigger] self.line_entry(rowcol, dimension, t)
                        == self.line_entry(rowcol, dimension, best as int) ==> best <= t,
            decreases len - k,
        {
            let here = self.line_at(rowcol, dimension, k);
            let top = self.line_at(rowcol, dimension, best);
            if top.less_than(here) {
                best = k;
            }
            k += 1;
        }
        let at = match dimension {
            Dimension::Row => (rowcol, best),
            Dimension::Col => (best, rowcol),
        };
        proof {
            assert forall|other: Shape| self.on_line(other, rowcol, dimension) implies #[trigger] self.entry(
                other.0 as int,
                other.1 as int,
            ) <= self.entry(at.0 as int, at.1 as int) by {
                let t = match dimension {
                    Dimension::Row => other.1 as int,
                    Dimension::Col => other.0 as int,
                };
                assert(self.line_entry(rowcol, dimension, t) <= self.line_entry(
                    rowcol,
                    dimension,
                    best as int,
                ));
            }
            assert forall|other: Shape|
                self.on_line(other, rowcol, dimension) && #[trigger] self.entry(
                    other.0 as int,
                    other.1 as int,
                ) == self.entry(at.0 as int, at.1 as int) implies at.0 + at.1 <= other.0
                + other.1 by {
                let t = match dimension {
                    Dimension::Row => other.1 as int,
                    Dimension::Col => other.0 as int,
                };
                assert(self.line_entry(rowcol, dimension, t) == self.line_entry(
                    rowcol,
                    dimension,
                    best as int,
                ));
            }
        }
        Some(at)
    }

    /// The cell of row `rowcol`, or of column `rowcol`, that holds the
    /// smallest element of that row or column: of several such cells the
    /// first. `None` where the matrix has no such row or column, and where
    /// the row or column has no cell.
    pub fn argmin(&self, rowcol: usize, dimension: Dimension) -> (r: Option<Shape>)
        ensures
            r is Some <==> self.has_line(rowcol, dimension),
            r is Some ==> {
                let at = r.unwrap();
                &&& self.on_line(at, rowcol, dimension)
                &&& forall|other: Shape|
                    self.on_line(other, rowcol, dimension) ==> self.entry(at.0 as int, at.1 as int)
                        <= #[trigger] self.entry(other.0 as int, other.1 as int)
                &&& forall|other: Shape|
                    self.on_line(other, rowcol, dimension) && #[trigger] self.entry(
                        other.0 as int,
                        other.1 as int,
                    ) == self.entry(at.0 as int, at.1 as int) ==> at.0 + at.1 <= other.0 + other.1
            },
    {
        let len = match dimension {
            Dimension::Row => self.ncols,
            Dimension::Col => self.nrows,
        };
        let lines = match dimension {
            Dimension::Row => self.nrows,
            Dimension::Col => self.ncols,
        };
        if rowcol >= lines || len == 0 {
            return None;
        }
        let mut best: usize = 0;
        let mut k: usize = 1;
        while k < len
            invariant
                self.has_line(rowcol, dimension),
                len == self.line_len(dimension),
                best < k <= len,
                forall|t: int|
                    0 <= t < k ==> self.line_entry(rowcol, dimension, best as int)
                        <= #[trigger] self.line_entry(rowcol, dimension, t),
                forall|t: int|
                    0 <= t < k && #[trigger] self.line_entry(rowcol, dimension, t)
                        == self.line_entry(rowcol, dimension, best as int) ==> best <= t,
            decreases len - k,
        {
            let here = self.line_at(rowcol, dimension, k);
            let low = self.line_at(rowcol, dimension, best);
            if here.less_than(low) {
                best = k;
            }
            k += 1;
        }
        let at = match dimension {
            Dimension::Row => (rowcol, best),
            Dimension::Col => (best, rowcol),
        };
        proof {
            assert forall|other: Shape| self.on_line(other, rowcol, dimension) implies self.entry(
                at.0 as int,
                at.1 as int,
            ) <= #[trigger] self.entry(other.0 as int, other.1 as int) by {
                let t = match dimension {
                    Dimension::Row => other.1 as int,
                    Dimension::Col => other.0 as int,
                };
                assert(self.line_entry(rowcol, dimension, best as int) <= self.line_entry(
                    rowcol,
                    dimension,
                    t,
                ));
            }
            assert forall|other: Shape|
                self.on_line(other, rowcol, dimension) && #[trigger] self.entry(
                    other.0 as int,
                    other.1 as int,
                ) == self.entry(at.0 as int, at.1 as int) implies at.0 + at.1 <= other.0
                + other.1 by {
                let t = match dimension {
                    Dimension::Row => other.1 as int,
                    Dimension::Col => other.0 as int,
                };
                assert(self.line_entry(rowcol, dimension, t) == self.line_entry(
                    rowcol,
                    dimension,
                    best as int,
                ));
            }
        }
        Some(at)
    }

    /// Number of cells of a row, or of a column.
    pub open spec fn line_len(&self, dimension: Dimension) -> nat {
        match dimension {
            Dimension::Row => self.cols(),
            Dimension::Col => self.rows(),
        }
    }

    /// Whether the matrix has the row `rowcol`, or the column `rowcol`, and
    /// that row or column has a cell.
    pub open spec fn has_line(&self, rowcol: usize, dimension: Dimension) -> bool {
        match dimension {
            Dimension::Row => rowcol < self.rows() && self.cols() > 0,
            Dimension::Col => rowcol < self.cols() && self.rows() > 0,
        }
    }

    /// Whether `at` is a cell of the row `rowcol`, or of the column
    /// `rowcol`.
    pub open spec fn on_line(&self, at: Shape, rowcol: usize, dimension: Dimension) -> bool {
        match dimension {
            Dimension::Row => at.0 == rowcol && at.1 < self.cols(),
            Dimension::Col => at.1 == rowcol && at.0 < self.rows(),
        }
    }

    /// The integer in the cell number `t` of the row `rowcol`, or of the
    /// column `rowcol`.
    pub open spec fn line_entry(&self, rowcol: usize, dimension: Dimension, t: int) -> int {
        match dimension {
            Dimension::Row => self.entry(rowcol as int, t),
            Dimension::Col => self.entry(t, rowcol as int),
        }
    }

    /// The element in the cell number `t` of the row `rowcol`, or of the
    /// column `rowcol`.
    fn line_at(&self, rowcol: usize, dimension: Dimension, t: usize) -> (r: T)
        requires
            self.has_line(rowcol, dimension),
            t < self.line_len(dimension),
        ensures
            r.value() == self.line_entry(rowcol, dimension, t as int),
    {
        match dimension {
            Dimension::Row => self.at(rowcol, t),
            Dimension::Col => self.at(t, rowcol),
        }
    }
}

} // verus!
