//! Sizes, extremes and averages of sparse matrices.

use vstd::prelude::*;

use crate::common::{lemma_wrap_value, trunc_div, wrap, MatrixElement};
use crate::error::MatrixError;
use crate::matrix::Shape;
use crate::parallel::{
    are_outcomes, folded_sum, lemma_folded_sum, lemma_sum_over_agree, lemma_sum_over_bump,
    par_sum_range, sum_over,
};
use crate::sparse::helper::{entries_of, key_of, lemma_key_of, lemma_unkey, lists, SHIFT};
use crate::matrix::reduce::{median_of, middle};
use crate::sorting::{is_sorted_copy, sorted};
use crate::sparse::{SparseMatrix, SparseMatrixData};

verus! {

impl<T: MatrixElement> SparseMatrix<T> {
    /// A sparse matrix stores finitely many cells, and no more than the
    /// matrix has cells.
    pub proof fn lemma_stored(&self)
        requires
            self.wf(),
        ensures
            self@.dom().finite(),
            self@.len() <= self.rows() * self.cols(),
    {
        self.lemma_keys();
    }

    /// Number of cells of the matrix, stored or not.
    pub fn size(&self) -> (n: usize)
        requires
            self.rows() * self.cols() <= usize::MAX,
        ensures
            n == self.rows() * self.cols(),
    {
        self.nrows * self.ncols
    }

    /// Number of stored cells.
    pub fn stored(&self) -> (n: usize)
        requires
            self.wf(),
        ensures
            n == self@.len(),
    {
        proof {
            self.lemma_keys();
        }
        self.data.len()
    }

    /// Number of cells that are zero.
    pub fn get_zero_count(&self) -> (n: usize)
        requires
            self.wf(),
            self.rows() * self.cols() <= usize::MAX,
        ensures
            n == self.rows() * self.cols() - self@.len(),
    {
        proof {
            self.lemma_keys();
        }
        self.size() - self.data.len()
    }

    /// Gives the matrix a new shape; the stored cells keep their
    /// coordinates. Fails, with `MatrixDimensionMismatchError`, exactly
    /// when a stored cell lies outside the new shape, and then leaves the
    /// matrix as it was.
    pub fn reshape(&mut self, nrows: usize, ncols: usize) -> (r: Result<(), MatrixError>)
        requires
            old(self).wf(),
        ensures
            final(self).wf(),
            final(self)@ == old(self)@,
            r is Ok <==> forall|p: (int, int)| #[trigger]
                old(self)@.contains_key(p) ==> p.0 < nrows && p.1 < ncols,
            match r {
                Ok(_) => final(self).rows() == nrows && final(self).cols() == ncols,
                Err(e) => final(self).rows() == old(self).rows() && final(self).cols() == old(
                    self,
                ).cols() && e == MatrixError::MatrixDimensionMismatchError,
            },
    {
        let list = entries_of(&self.data);
        let mut n: usize = 0;
        while n < list.len()
            invariant
                self.wf(),
                *self == *old(self),
                lists(list@, self.data@),
                n <= list@.len(),
                forall|t: int|
                    0 <= t < n ==> (#[trigger] list@[t]).0 / SHIFT < nrows && list@[t].0 % SHIFT
                        < ncols,
            decreases list@.len() - n,
        {
            let k = list[n].0;
            if k / SHIFT >= nrows as u128 || k % SHIFT >= ncols as u128 {
                proof {
                    assert(self.data@.contains_key(list@[n as int].0));
                    lemma_unkey(k);
                    let p = ((k / SHIFT) as int, (k % SHIFT) as int);
                    assert(self@.contains_key(p));
                }
                return Err(MatrixError::MatrixDimensionMismatchError);
            }
            n += 1;
        }
        proof {
            assert forall|p: (int, int)| #[trigger] self@.contains_key(p) implies p.0 < nrows
                && p.1 < ncols by {
                lemma_key_of(p.0, p.1);
                let k = key_of(p.0, p.1);
                let t = choose|t: int| 0 <= t < list@.len() && #[trigger] list@[t].0 == k;
                assert(list@[t].0 / SHIFT < nrows);
            }
            assert forall|k: u128| #[trigger] self.data@.contains_key(k) implies k / SHIFT < nrows
                && k % SHIFT < ncols by {
                let t = choose|t: int| 0 <= t < list@.len() && #[trigger] list@[t].0 == k;
                assert(list@[t].0 / SHIFT < nrows);
            }
        }
        self.nrows = nrows;
        self.ncols = ncols;
        Ok(())
    }

    /// The cells that three slices of one length name: rows, columns and
    /// elements, place by place.
    pub open spec fn zipped(rows: Seq<usize>, cols: Seq<usize>, vals: Seq<T>) -> Seq<(Shape, T)> {
        Seq::new(rows.len(), |t: int| ((rows[t], cols[t]), vals[t]))
    }

    /// The sparse matrix of the given shape whose cells three slices name,
    /// place by place; see `new`. Fails, with
    /// `MatrixDimensionMismatchError`, exactly when the slices are not of
    /// one length.
    pub fn from_slices(rows: &[usize], cols: &[usize], vals: &[T], shape: Shape) -> (r: Result<
        Self,
        MatrixError,
    >)
        ensures
            r is Ok <==> rows@.len() == cols@.len() && cols@.len() == vals@.len(),
            match r {
                Ok(m) => m.wf() && m.rows() == shape.0 && m.cols() == shape.1 && m@ =~= Self::build(
                    Self::zipped(rows@, cols@, vals@),
                    shape.0 as nat,
                    shape.1 as nat,
                ),
                Err(e) => e == MatrixError::MatrixDimensionMismatchError,
            },
    {
        if rows.len() != cols.len() || cols.len() != vals.len() {
            return Err(MatrixError::MatrixDimensionMismatchError);
        }
        let mut data: SparseMatrixData<T> = Vec::new();
        let mut t: usize = 0;
        while t < rows.len()
            invariant
                rows@.len() == cols@.len(),
                cols@.len() == vals@.len(),
                t <= rows@.len(),
                data@.len() == t,
                forall|s: int|
                    0 <= s < t ==> #[trigger] data@[s] == ((rows@[s], cols@[s]), vals@[s]),
            decreases rows@.len() - t,
        {
            data.push(((rows[t], cols[t]), vals[t]));
            t += 1;
        }
        assert(data@ =~= Self::zipped(rows@, cols@, vals@));
        Ok(Self::new(data, shape))
    }

    /// The largest stored element; zero for a matrix that stores none.
    pub fn max(&self) -> (r: T)
        requires
            self.wf(),
        ensures
            self@.dom().len() == 0 ==> r.value() == 0,
            self@.dom().len() > 0 ==> self@.values().contains(r),
            forall|p: (int, int)| #[trigger] self@.contains_key(p) ==> self@[p].value() <= r.value(),
    {
        proof {
            self.lemma_stored();
        }
        let list = self.entries();
        if list.len() == 0 {
            proof {
                assert forall|p: (int, int)| !#[trigger] self@.contains_key(p) by {
                    if self@.contains_key(p) {
                        let t = choose|t: int|
                            0 <= t < list@.len() && (#[trigger] list@[t]).0.0 == p.0
                                && list@[t].0.1 == p.1;
                    }
                }
                assert(self@.dom() =~= Set::<(int, int)>::empty());
            }
            return T::zero();
        }
        let mut best = list[0].1;
        let mut n: usize = 1;
        while n < list.len()
            invariant
                self.lists_cells(list@),
                1 <= n <= list@.len(),
                exists|t: int| 0 <= t < n && (#[trigger] list@[t]).1 == best,
                forall|t: int| 0 <= t < n ==> (#[trigger] list@[t]).1.value() <= best.value(),
            decreases list@.len() - n,
        {
            if best.less_than(list[n].1) {
                best = list[n].1;
                assert(list@[n as int].1 == best);
            }
            n += 1;
        }
        proof {
            let t = choose|t: int| 0 <= t < list@.len() && (#[trigger] list@[t]).1 == best;
            let p = (list@[t].0.0 as int, list@[t].0.1 as int);
            assert(self@.contains_key(p) && self@[p] == best);
            assert(self@.dom().contains(p));
            if self@.dom().len() == 0 {
                assert(self@.dom() =~= Set::<(int, int)>::empty()) by {
                    self@.dom().lemma_len0_is_empty();
                }
            }
            assert forall|p: (int, int)| #[trigger] self@.contains_key(p) implies self@[p].value()
                <= best.value() by {
                let t = choose|t: int|
                    0 <= t < list@.len() && (#[trigger] list@[t]).0.0 == p.0 && list@[t].0.1
                        == p.1;
                assert(list@[t].1.value() <= best.value());
            }
        }
        best
    }

    /// The smallest stored element; zero for a matrix that stores none.
    pub fn min(&self) -> (r: T)
        requires
            self.wf(),
        ensures
            self@.dom().len() == 0 ==> r.value() == 0,
            self@.dom().len() > 0 ==> self@.values().contains(r),
            forall|p: (int, int)| #[trigger] self@.contains_key(p) ==> r.value() <= self@[p].value(),
    {
        proof {
            self.lemma_stored();
        }
        let list = self.entries();
        if list.len() == 0 {
            proof {
                assert forall|p: (int, int)| !#[trigger] self@.contains_key(p) by {
                    if self@.contains_key(p) {
                        let t = choose|t: int|
                            0 <= t < list@.len() && (#[trigger] list@[t]).0.0 == p.0
                                && list@[t].0.1 == p.1;
                    }
                }
                assert(self@.dom() =~= Set::<(int, int)>::empty());
            }
            return T::zero();
        }
        let mut best = list[0].1;
        let mut n: usize = 1;
        while n < list.len()
            invariant
                self.lists_cells(list@),
                1 <= n <= list@.len(),
                exists|t: int| 0 <= t < n && (#[trigger] list@[t]).1 == best,
                forall|t: int| 0 <= t < n ==> best.value() <= (#[trigger] list@[t]).1.value(),
            decreases list@.len() - n,
        {
            if list[n].1.less_than(best) {
                best = list[n].1;
                assert(list@[n as int].1 == best);
            }
            n += 1;
        }
        proof {
            let t = choose|t: int| 0 <= t < list@.len() && (#[trigger] list@[t]).1 == best;
            let p = (list@[t].0.0 as int, list@[t].0.1 as int);
            assert(self@.contains_key(p) && self@[p] == best);
            assert(self@.dom().contains(p));
            if self@.dom().len() == 0 {
                assert(self@.dom() =~= Set::<(int, int)>::empty()) by {
                    self@.dom().lemma_len0_is_empty();
                }
            }
            assert forall|p: (int, int)| #[trigger] self@.contains_key(p) implies best.value()
                <= self@[p].value() by {
                let t = choose|t: int|
                    0 <= t < list@.len() && (#[trigger] list@[t]).0.0 == p.0 && list@[t].0.1
                        == p.1;
                assert(best.value() <= list@[t].1.value());
            }
        }
        best
    }

    /// The exact sum of all cells of the matrix, stored or not.
    pub open spec fn grid_total(&self) -> int {
        sum_over(|i: int| self.row_sum(i, self.cols() as int), 0, self.rows() as int)
    }

    /// The integer that the first `n` entries of `list` leave in the cell
    /// `(i, j)`: that of the entry that names the cell, or 0 where none
    /// does.
    pub open spec fn listed_entry(list: Seq<(Shape, T)>, n: int, i: int, j: int) -> int
        decreases n,
    {
        if n <= 0 {
            0
        } else if list[n - 1].0.0 == i && list[n - 1].0.1 == j {
            list[n - 1].1.value()
        } else {
            Self::listed_entry(list, n - 1, i, j)
        }
    }

    /// A cell that none of the first `n` entries names is left at 0.
    proof fn lemma_listed_none(list: Seq<(Shape, T)>, n: int, i: int, j: int)
        requires
            0 <= n <= list.len(),
            forall|t: int| 0 <= t < n ==> !((#[trigger] list[t]).0.0 == i && list[t].0.1 == j),
        ensures
            Self::listed_entry(list, n, i, j) == 0,
        decreases n,
    {
        if n > 0 {
            assert(!(list[n - 1].0.0 == i && list[n - 1].0.1 == j));
            Self::lemma_listed_none(list, n - 1, i, j);
        }
    }

    /// A cell that one of the first `n` entries names, and no other, is
    /// left at the integer of that entry.
    proof fn lemma_listed_some(list: Seq<(Shape, T)>, n: int, t: int, i: int, j: int)
        requires
            0 <= t < n <= list.len(),
            list[t].0.0 == i && list[t].0.1 == j,
            forall|a: int, b: int| 0 <= a < b < list.len() ==> list[a].0 != list[b].0,
        ensures
            Self::listed_entry(list, n, i, j) == list[t].1.value(),
        decreases n,
    {
        if t < n - 1 {
            assert(list[t].0 != list[n - 1].0);
            Self::lemma_listed_some(list, n - 1, t, i, j);
        }
    }

    /// The exact sum, over all cells of the matrix, of what the first `n`
    /// entries of `list` leave in them.
    pub open spec fn listed_grid(&self, list: Seq<(Shape, T)>, n: int) -> int {
        sum_over(
            |i: int| sum_over(|j: int| Self::listed_entry(list, n, i, j), 0, self.cols() as int),
            0,
            self.rows() as int,
        )
    }

    /// The entries of a listing of the stored cells add up to the sum of
    /// all cells, whatever the order of the listing.
    pub proof fn lemma_listing_total(&self, list: Seq<(Shape, T)>)
        requires
            self.wf(),
            self.lists_cells(list),
        ensures
            Self::listed_total(list) == self.grid_total(),
    {
        self.lemma_valid();
        self.lemma_listing_grid(list, list.len() as int);
        let rows = self.rows() as int;
        let cols = self.cols() as int;
        let n = list.len() as int;
        let listed = |i: int| sum_over(|j: int| Self::listed_entry(list, n, i, j), 0, cols);
        let stored = |i: int| self.row_sum(i, cols);
        assert forall|i: int| 0 <= i < rows implies #[trigger] listed(i) == stored(i) by {
            let a = |j: int| Self::listed_entry(list, n, i, j);
            let b = |j: int| self.entry(i, j);
            assert forall|j: int| 0 <= j < cols implies #[trigger] a(j) == b(j) by {
                if self@.contains_key((i, j)) {
                    let t = choose|t: int|
                        0 <= t < list.len() && (#[trigger] list[t]).0.0 == i && list[t].0.1 == j;
                    Self::lemma_listed_some(list, n, t, i, j);
                } else {
                    assert forall|t: int| 0 <= t < n implies !((#[trigger] list[t]).0.0 == i
                        && list[t].0.1 == j) by {
                        assert(self@.contains_key((list[t].0.0 as int, list[t].0.1 as int)));
                    }
                    Self::lemma_listed_none(list, n, i, j);
                }
            }
            lemma_sum_over_agree(a, b, 0, cols);
        }
        lemma_sum_over_agree(listed, stored, 0, rows);
    }

    /// The first `n` entries of a listing add up to the sum, over all
    /// cells, of what they leave in them.
    proof fn lemma_listing_grid(&self, list: Seq<(Shape, T)>, n: int)
        requires
            self.valid(),
            self.lists_cells(list),
            0 <= n <= list.len(),
        ensures
            sum_over(|t: int| list[t].1.value(), 0, n) == self.listed_grid(list, n),
        decreases n,
    {
        let rows = self.rows() as int;
        let cols = self.cols() as int;
        if n == 0 {
            let zero_rows = |i: int| sum_over(|j: int| Self::listed_entry(list, 0, i, j), 0, cols);
            assert forall|i: int| 0 <= i < rows implies #[trigger] zero_rows(i) == 0 by {
                Self::lemma_sum_of_zeros(|j: int| Self::listed_entry(list, 0, i, j), 0, cols);
            }
            Self::lemma_sum_of_zeros(zero_rows, 0, rows);
        } else {
            self.lemma_listing_grid(list, n - 1);
            let at = list[n - 1].0;
            let value = list[n - 1].1.value();
            let i0 = at.0 as int;
            let j0 = at.1 as int;
            assert(self@.contains_key((i0, j0)));
            let before = |i: int| sum_over(|j: int| Self::listed_entry(list, n - 1, i, j), 0, cols);
            let after = |i: int| sum_over(|j: int| Self::listed_entry(list, n, i, j), 0, cols);
            assert forall|i: int| 0 <= i < rows && i != i0 implies #[trigger] after(i) == before(
                i,
            ) by {
                lemma_sum_over_agree(
                    |j: int| Self::listed_entry(list, n, i, j),
                    |j: int| Self::listed_entry(list, n - 1, i, j),
                    0,
                    cols,
                );
            }
            assert(after(i0) == before(i0) + value) by {
                assert forall|t: int| 0 <= t < n - 1 implies !((#[trigger] list[t]).0.0 == i0
                    && list[t].0.1 == j0) by {
                    assert(list[t].0 != list[n - 1].0);
                }
                Self::lemma_listed_none(list, n - 1, i0, j0);
                lemma_sum_over_bump(
                    |j: int| Self::listed_entry(list, n - 1, i0, j),
                    |j: int| Self::listed_entry(list, n, i0, j),
                    0,
                    cols,
                    j0,
                    value,
                );
            }
            lemma_sum_over_bump(before, after, 0, rows, i0, value);
        }
    }

    /// A sum of zeros is zero.
    proof fn lemma_sum_of_zeros(f: spec_fn(int) -> int, lo: int, hi: int)
        requires
            forall|k: int| lo <= k < hi ==> #[trigger] f(k) == 0,
        ensures
            sum_over(f, lo, hi) == 0,
        decreases hi - lo,
    {
        if lo < hi {
            Self::lemma_sum_of_zeros(f, lo, hi - 1);
        }
    }

    /// The exact sum of the elements that `list` names.
    pub open spec fn listed_total(list: Seq<(Shape, T)>) -> int {
        sum_over(|t: int| list[t].1.value(), 0, list.len() as int)
    }

    /// The elements that `list` names.
    pub open spec fn listed_values(list: Seq<(Shape, T)>) -> Seq<T> {
        Seq::new(list.len(), |t: int| list[t].1)
    }

    /// The sum of all cells divided by their number, rounded towards zero.
    pub fn avg(&self) -> (r: T)
        requires
            self.wf(),
            0 < self.rows() * self.cols() <= usize::MAX,
            2 * (self.rows() * self.cols()) < T::modulus(),
        ensures
            r.value() == wrap::<T>(
                trunc_div(wrap::<T>(self.grid_total()), self.rows() as int * self.cols() as int),
            ),
    {
        let list = self.entries();
        let n = list.len();
        let term = |t: usize| -> (x: T)
            requires
                t < n,
            ensures
                x == list@[t as int].1,
            { list[t].1 };
        let total = par_sum_range(0, n, term);
        proof {
            let terms = choose|terms: Seq<T>|
                are_outcomes(terms, 0, n, term) && folded_sum(terms) == total.value();
            assert forall|t: int| 0 <= t < terms.len() implies (#[trigger] terms[t]).value()
                == wrap::<T>(list@[0 + t].1.value()) by {
                lemma_wrap_value(terms[t]);
            }
            lemma_folded_sum(terms, |t: int| list@[t].1.value(), 0);
            self.lemma_listing_total(list@);
        }
        let count = T::from_usize(self.size());
        total.wrapping_div(count.unwrap())
    }

    /// Another name of `avg`.
    pub fn mean(&self) -> (r: T)
        requires
            self.wf(),
            0 < self.rows() * self.cols() <= usize::MAX,
            2 * (self.rows() * self.cols()) < T::modulus(),
        ensures
            r.value() == wrap::<T>(
                trunc_div(wrap::<T>(self.grid_total()), self.rows() as int * self.cols() as int),
            ),
    {
        self.avg()
    }

    /// Whether at least half of the cells are zero and no stored element is
    /// negative.
    pub open spec fn mostly_zero(&self) -> bool {
        &&& 2 * self@.len() <= self.rows() * self.cols()
        &&& forall|p: (int, int)| #[trigger] self@.contains_key(p) ==> self@[p].value() >= 0
    }

    /// The median of the matrix: zero for a matrix without cells and for
    /// one in which at least half of the cells are zero and no stored
    /// element is negative, the only cell of a matrix with one cell, and
    /// in every other case the median of the stored elements.
    pub fn median(&self) -> (r: T)
        requires
            self.wf(),
            self.rows() * self.cols() <= usize::MAX,
        ensures
            self.rows() * self.cols() == 0 ==> r.value() == 0,
            self.rows() * self.cols() == 1 ==> r.value() == self.entry(0, 0),
            self.rows() * self.cols() > 1 && self.mostly_zero() ==> r.value() == 0,
            self.rows() * self.cols() > 1 && !self.mostly_zero() ==> exists|
                list: Seq<(Shape, T)>,
                s: Seq<T>,
            | #[trigger]
                self.lists_cells(list) && #[trigger] is_sorted_copy(s, Self::listed_values(list))
                    && r.value() == median_of(s),
    {
        proof {
            self.lemma_keys();
        }
        let size = self.size();
        if size == 0 {
            return T::zero();
        }
        if size == 1 {
            return self.at(0, 0);
        }
        let zero = T::zero();
        let lowest = self.min();
        let stored = self.data.len();
        let sparse_enough = stored <= size / 2;
        proof {
            if self@.dom().len() > 0 {
                let p = choose|p: (int, int)| self@.contains_key(p) && self@[p] == lowest;
            }
        }
        if !lowest.less_than(zero) && sparse_enough {
            return zero;
        }
        let list = self.entries();
        let mut values: Vec<T> = Vec::new();
        let mut t: usize = 0;
        while t < list.len()
            invariant
                t <= list@.len(),
                values@.len() == t,
                forall|u: int| 0 <= u < t ==> #[trigger] values@[u] == list@[u].1,
            decreases list@.len() - t,
        {
            values.push(list[t].1);
            t += 1;
        }
        assert(values@ =~= Self::listed_values(list@));
        proof {
            if lowest.value() < 0 {
                assert(self@.dom().len() > 0);
            }
        }
        let ordered = sorted(&values);
        let r = middle(&ordered);
        proof {
            assert(!self.mostly_zero()) by {
                if lowest.value() < 0 {
                    let p = choose|p: (int, int)| self@.contains_key(p) && self@[p] == lowest;
                    assert(self@.contains_key(p));
                }
            }
            assert(self.lists_cells(list@) && is_sorted_copy(
                ordered@,
                Self::listed_values(list@),
            ) && r.value() == median_of(ordered@));
        }
        r
    }
}

} // verus!
