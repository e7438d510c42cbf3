//! Windows into dense matrices, and matrices put together from two.

use vstd::prelude::*;
use crate::common::MatrixElement;
use crate::error::MatrixError;
use crate::matrix::{copy_of, flat, lemma_flat, Dimension, Matrix, Shape};

verus! {

/// How many of the `want` indices from `start` on lie below `limit`.
pub open spec fn window_extent(start: int, want: int, limit: int) -> int {
    if start >= limit {
        0
    } else if want <= limit - start {
        want
    } else {
        limit - start
    }
}

/// How many of the `want` indices from `start` on lie below `limit`.
fn extent_of(start: usize, want: usize, limit: usize) -> (n: usize)
    ensures
        n == window_extent(start as int, want as int, limit as int),
        start + n <= limit || n == 0,
{
    if start >= limit {
        0
    } else if want <= limit - start {
        want
    } else {
        limit - start
    }
}

impl<T: MatrixElement> Matrix<T> {
    /// Number of rows of the window of `size.1` rows that starts at row
    /// `start_idx.0`, as far as it lies inside the matrix.
    pub open spec fn window_rows(&self, start_idx: Shape, size: Shape) -> int {
        window_extent(start_idx.0 as int, size.1 as int, self.rows() as int)
    }

    /// Number of columns of the window of `size.0` columns that starts at
    /// column `start_idx.1`, as far as it lies inside the matrix.
    pub open spec fn window_cols(&self, start_idx: Shape, size: Shape) -> int {
        window_extent(start_idx.1 as int, size.0 as int, self.cols() as int)
    }

    /// Whether `out` holds, row by row, the cells of the window of `size.0`
    /// columns and `size.1` rows whose first cell is `start_idx`, as far as
    /// the window lies inside the matrix.
    pub open spec fn is_window(&self, out: Seq<T>, start_idx: Shape, size: Shape) -> bool {
        let rows = self.window_rows(start_idx, size);
        let cols = self.window_cols(start_idx, size);
        &&& out.len() == rows * cols
        &&& forall|k: int|
            0 <= k < out.len() ==> #[trigger] out[k] == self.cell(
                start_idx.0 + k / cols,
                start_idx.1 + k % cols,
            )
    }

    /// The cells of a window, row by row. `size` gives the width and then
    /// the height of the window; what of it lies outside the matrix is left
    /// out.
    pub fn get_vec_slice(&self, start_idx: Shape, size: Shape) -> (out: Vec<T>)
        ensures
            self.is_window(out@, start_idx, size),
    {
        let rows = extent_of(start_idx.0, size.1, self.nrows());
        let cols = extent_of(start_idx.1, size.0, self.ncols());
        let mut out: Vec<T> = Vec::new();
        let mut a: usize = 0;
        while a < rows
            invariant
                rows == self.window_rows(start_idx, size),
                cols == self.window_cols(start_idx, size),
                a <= rows,
                out@.len() == a * cols,
                forall|k: int|
                    0 <= k < out@.len() ==> #[trigger] out@[k] == self.cell(
                        start_idx.0 + k / (cols as int),
                        start_idx.1 + k % (cols as int),
                    ),
            decreases rows - a,
        {
            let mut b: usize = 0;
            while b < cols
                invariant
                    rows == self.window_rows(start_idx, size),
                    cols == self.window_cols(start_idx, size),
                    a < rows,
                    b <= cols,
                    out@.len() == a * cols + b,
                    forall|k: int|
                        0 <= k < out@.len() ==> #[trigger] out@[k] == self.cell(
                            start_idx.0 + k / (cols as int),
                            start_idx.1 + k % (cols as int),
                        ),
                decreases cols - b,
            {
                proof {
                    lemma_flat(a as int, b as int, rows as int, cols as int);
                }
                out.push(self.at(start_idx.0 + a, start_idx.1 + b));
                b += 1;
            }
            assert(a * cols + cols == (a + 1) * cols) by (nonlinear_arith);
            a += 1;
        }
        out
    }

    /// The window of `get_vec_slice` as a matrix of the shape `size`, over
    /// the cells in the order in which `get_vec_slice` hands them out.
    /// Fails, with `MatrixIndexOutOfBoundsError`, exactly when the part of
    /// the window that lies inside the matrix has not as many cells as the
    /// shape `size`.
    pub fn get_sub_matrix(&self, start_idx: Shape, size: Shape) -> (r: Result<Self, MatrixError>)
        ensures
            r is Ok <==> self.window_rows(start_idx, size) * self.window_cols(start_idx, size)
                == size.0 * size.1,
            match r {
                Ok(m) => m.rows() == size.0 && m.cols() == size.1 && self.is_window(
                    m@,
                    start_idx,
                    size,
                ),
                Err(e) => e == MatrixError::MatrixIndexOutOfBoundsError,
            },
    {
        let data = self.get_vec_slice(start_idx, size);
        match Self::new(data, size) {
            Ok(m) => Ok(m),
            Err(_) => Err(MatrixError::MatrixIndexOutOfBoundsError),
        }
    }

    /// Whether `self` is `top` with the rows of `bottom` put below.
    pub open spec fn is_stack_of(&self, top: &Self, bottom: &Self) -> bool {
        &&& self.rows() == top.rows() + bottom.rows()
        &&& self.cols() == top.cols()
        &&& self@ =~= top@ + bottom@
    }

    /// Whether `self` is `left` with the columns of `right` put beside it.
    pub open spec fn is_row_join_of(&self, left: &Self, right: &Self) -> bool {
        &&& self.rows() == left.rows()
        &&& self.cols() == left.cols() + right.cols()
        &&& forall|i: int, j: int|
            0 <= i < self.rows() && 0 <= j < self.cols() ==> #[trigger] self.cell(i, j) == (if j
                < left.cols() {
                left.cell(i, j)
            } else {
                right.cell(i, j - left.cols())
            })
    }

    /// Whether the two matrices can be put together along `dim`: for rows
    /// they need the same number of columns, for columns the same number of
    /// rows.
    pub open spec fn joins(&self, other: &Self, dim: Dimension) -> bool {
        match dim {
            Dimension::Row => self.cols() == other.cols(),
            Dimension::Col => self.rows() == other.rows(),
        }
    }

    /// Whether the extent that grows when the two matrices are put
    /// together along `dim` can still be addressed.
    pub open spec fn join_fits(&self, other: &Self, dim: Dimension) -> bool {
        match dim {
            Dimension::Row => self.rows() + other.rows() <= usize::MAX,
            Dimension::Col => self.cols() + other.cols() <= usize::MAX,
        }
    }

    /// Whether `self` is `first` and `second` put together along `dim`.
    pub open spec fn is_join_of(&self, first: &Self, second: &Self, dim: Dimension) -> bool {
        match dim {
            Dimension::Row => self.is_stack_of(first, second),
            Dimension::Col => self.is_row_join_of(first, second),
        }
    }

    /// The two matrices put together: along `Row` the rows of `other` below
    /// those of `self`, along `Col` the columns of `other` beside those of
    /// `self`.
    ///
    /// Fails with `MatrixConcatinationError` where the extents that have to
    /// agree do not, and with `MatrixCreationError` where they do and the
    /// extent that grows can no longer be addressed.
    pub fn concat(&self, other: &Self, dim: Dimension) -> (r: Result<Self, MatrixError>)
        ensures
            r is Ok <==> self.joins(other, dim) && self.join_fits(other, dim),
            match r {
                Ok(m) => m.wf() && m.is_join_of(self, other, dim),
                Err(e) => e == (if !self.joins(other, dim) {
                    MatrixError::MatrixConcatinationError
                } else {
                    MatrixError::MatrixCreationError
                }),
            },
    {
        proof {
            use_type_invariant(self);
            use_type_invariant(other);
        }
        match dim {
            Dimension::Row => {
                if self.ncols != other.ncols {
                    return Err(MatrixError::MatrixConcatinationError);
                }
                let nrows = match self.nrows.checked_add(other.nrows) {
                    Some(n) => n,
                    None => { return Err(MatrixError::MatrixCreationError); },
                };
                let mut data = copy_of(&self.data);
                let mut k: usize = 0;
                while k < other.data.len()
                    invariant
                        k <= other@.len(),
                        data@ =~= self@ + other@.subrange(0, k as int),
                    decreases other@.len() - k,
                {
                    data.push(other.data[k]);
                    k += 1;
                }
                assert(other@.subrange(0, other@.len() as int) =~= other@);
                assert((self.nrows + other.nrows) * self.ncols == self.nrows * self.ncols
                    + other.nrows * self.ncols) by (nonlinear_arith);
                Ok(Matrix { data, nrows, ncols: self.ncols })
            },
            Dimension::Col => {
                if self.nrows != other.nrows {
                    return Err(MatrixError::MatrixConcatinationError);
                }
                let ncols = match self.ncols.checked_add(other.ncols) {
                    Some(n) => n,
                    None => { return Err(MatrixError::MatrixCreationError); },
                };
                let rows = self.nrows;
                let c1 = self.ncols;
                let c2 = other.ncols;
                let mut data: Vec<T> = Vec::new();
                let mut i: usize = 0;
                while i < rows
                    invariant
                        self.wf(),
                        other.wf(),
                        rows == self.rows(),
                        rows == other.rows(),
                        c1 == self.cols(),
                        c2 == other.cols(),
                        ncols == c1 + c2,
                        i <= rows,
                        data@.len() == i * ncols,
                        forall|k: int|
                            0 <= k < data@.len() ==> #[trigger] data@[k] == (if k % (ncols as int)
                                < c1 {
                                self.cell(k / (ncols as int), k % (ncols as int))
                            } else {
                                other.cell(k / (ncols as int), k % (ncols as int) - c1)
                            }),
                    decreases rows - i,
                {
                    let mut j: usize = 0;
                    while j < c1
                        invariant
                            self.wf(),
                            other.wf(),
                            rows == self.rows(),
                            rows == other.rows(),
                            c1 == self.cols(),
                            c2 == other.cols(),
                            ncols == c1 + c2,
                            i < rows,
                            j <= c1,
                            data@.len() == i * ncols + j,
                            forall|k: int|
                                0 <= k < data@.len() ==> #[trigger] data@[k] == (if k % (
                                ncols as int) < c1 {
                                    self.cell(k / (ncols as int), k % (ncols as int))
                                } else {
                                    other.cell(k / (ncols as int), k % (ncols as int) - c1)
                                }),
                        decreases c1 - j,
                    {
                        proof {
                            lemma_flat(i as int, j as int, rows as int, ncols as int);
                        }
                        data.push(self.at(i, j));
                        j += 1;
                    }
                    let mut j2: usize = 0;
                    while j2 < c2
                        invariant
                            self.wf(),
                            other.wf(),
                            rows == self.rows(),
                            rows == other.rows(),
                            c1 == self.cols(),
                            c2 == other.cols(),
                            ncols == c1 + c2,
                            i < rows,
                            j2 <= c2,
                            data@.len() == i * ncols + c1 + j2,
                            forall|k: int|
                                0 <= k < data@.len() ==> #[trigger] data@[k] == (if k % (
                                ncols as int) < c1 {
                                    self.cell(k / (ncols as int), k % (ncols as int))
                                } else {
                                    other.cell(k / (ncols as int), k % (ncols as int) - c1)
                                }),
                        decreases c2 - j2,
                    {
                        proof {
                            lemma_flat(i as int, c1 + j2, rows as int, ncols as int);
                        }
                        data.push(other.at(i, j2));
                        j2 += 1;
                    }
                    assert(i * ncols + ncols == (i + 1) * ncols) by (nonlinear_arith);
                    i += 1;
                }
                let m = Matrix { data, nrows: rows, ncols };
                proof {
                    assert forall|i: int, j: int|
                        0 <= i < m.rows() && 0 <= j < m.cols() implies #[trigger] m.cell(i, j)
                        == (if j < self.cols() {
                        self.cell(i, j)
                    } else {
                        other.cell(i, j - self.cols())
                    }) by {
                        lemma_flat(i, j, rows as int, ncols as int);
                    }
                }
                Ok(m)
            },
        }
    }

    /// Puts `other` to `self`, as `concat` does. Where that fails `self`
    /// stays as it was.
    pub fn extend(&mut self, other: &Self, dim: Dimension) -> (r: Result<(), MatrixError>)
        ensures
            final(self).wf(),
            r is Ok <==> old(self).joins(other, dim) && old(self).join_fits(other, dim),
            match r {
                Ok(_) => final(self).is_join_of(old(self), other, dim),
                Err(e) => final(self).same(old(self)) && e == (if !old(self).joins(other, dim) {
                    MatrixError::MatrixConcatinationError
                } else {
                    MatrixError::MatrixCreationError
                }),
            },
    {
        proof {
            use_type_invariant(&*self);
        }
        match self.concat(other, dim) {
            Ok(m) => {
                *self = m;
                Ok(())
            },
            Err(e) => Err(e),
        }
    }

    /// Whether one of the cells that `idx_list` names lies at place `k` of
    /// the buffer.
    pub open spec fn names_place(&self, idx_list: Seq<Shape>, k: int) -> bool {
        exists|t: int|
            0 <= t < idx_list.len() && self.in_bounds(
                (#[trigger] idx_list[t]).0 as int,
                idx_list[t].1 as int,
            ) && flat(idx_list[t].0 as int, idx_list[t].1 as int, self.cols() as int) == k
    }

    /// Stores `value` in every cell that `idx_list` names and the matrix
    /// has. Fails, with `MatrixIndexOutOfBoundsError`, exactly when the
    /// list names a cell that the matrix does not have; the other cells of
    /// the list are stored all the same.
    pub fn set_many(&mut self, idx_list: Vec<Shape>, value: T) -> (r: Result<(), MatrixError>)
        ensures
            final(self).rows() == old(self).rows(),
            final(self).cols() == old(self).cols(),
            final(self)@.len() == old(self)@.len(),
            forall|k: int|
                0 <= k < final(self)@.len() ==> #[trigger] final(self)@[k] == (if old(
                    self,
                ).names_place(idx_list@, k) {
                    value
                } else {
                    old(self)@[k]
                }),
            r is Err <==> exists|t: int|
                0 <= t < idx_list@.len() && !old(self).in_bounds(
                    (#[trigger] idx_list@[t]).0 as int,
                    idx_list@[t].1 as int,
                ),
            r is Err ==> r == Err::<(), MatrixError>(MatrixError::MatrixIndexOutOfBoundsError),
    {
        let ghost before = *self;
        let mut all_inside = true;
        let mut n: usize = 0;
        while n < idx_list.len()
            invariant
                n <= idx_list@.len(),
                self.rows() == before.rows(),
                self.cols() == before.cols(),
                self@.len() == before@.len(),
                forall|k: int|
                    0 <= k < self@.len() ==> #[trigger] self@[k] == (if before.names_place(
                        idx_list@.subrange(0, n as int),
                        k,
                    ) {
                        value
                    } else {
                        before@[k]
                    }),
                !all_inside <==> exists|t: int|
                    0 <= t < n && !before.in_bounds(
                        (#[trigger] idx_list@[t]).0 as int,
                        idx_list@[t].1 as int,
                    ),
            decreases idx_list@.len() - n,
        {
            let idx = idx_list[n];
            let ghost mid = self@;
            let outcome = self.set(value, idx);
            if outcome.is_err() {
                all_inside = false;
            }
            proof {
                use_type_invariant(&*self);
                let short = idx_list@.subrange(0, n as int);
                let long = idx_list@.subrange(0, n + 1);
                assert forall|k: int| 0 <= k < self@.len() implies #[trigger] self@[k] == (
                if before.names_place(long, k) {
                    value
                } else {
                    before@[k]
                }) by {
                    let cols = before.cols() as int;
                    let hit = before.in_bounds(idx.0 as int, idx.1 as int) && flat(
                        idx.0 as int,
                        idx.1 as int,
                        cols,
                    ) == k;
                    assert(long[n as int] == idx);
                    assert(mid[k] == (if before.names_place(short, k) {
                        value
                    } else {
                        before@[k]
                    }));
                    if hit {
                        assert(before.names_place(long, k));
                    } else {
                        if before.in_bounds(idx.0 as int, idx.1 as int) {
                            lemma_flat(
                                idx.0 as int,
                                idx.1 as int,
                                before.rows() as int,
                                cols,
                            );
                        }
                        assert(self@[k] == mid[k]);
                        if before.names_place(short, k) {
                            let t = choose|t: int|
                                0 <= t < short.len() && before.in_bounds(
                                    (#[trigger] short[t]).0 as int,
                                    short[t].1 as int,
                                ) && flat(short[t].0 as int, short[t].1 as int, cols) == k;
                            assert(long[t] == short[t]);
                            assert(before.names_place(long, k));
                        }
                        if before.names_place(long, k) {
                            let t = choose|t: int|
                                0 <= t < long.len() && before.in_bounds(
                                    (#[trigger] long[t]).0 as int,
                                    long[t].1 as int,
                                ) && flat(long[t].0 as int, long[t].1 as int, cols) == k;
                            assert(t < n);
                            assert(short[t] == long[t]);
                            assert(before.names_place(short, k));
                        }
                    }
                }
            }
            n += 1;
        }
        proof {
            assert(idx_list@.subrange(0, n as int) =~= idx_list@);
        }
        if all_inside {
            Ok(())
        } else {
            Err(MatrixError::MatrixIndexOutOfBoundsError)
        }
    }

    /// Stores `value` at the places `start` to `stop`, both included, of
    /// the row-major buffer.
    pub fn set_range(&mut self, start: usize, stop: usize, value: T)
        requires
            start <= stop ==> stop < old(self)@.len(),
        ensures
            final(self).rows() == old(self).rows(),
            final(self).cols() == old(self).cols(),
            final(self)@.len() == old(self)@.len(),
            forall|k: int|
                0 <= k < final(self)@.len() ==> #[trigger] final(self)@[k] == (if start <= k
                    <= stop {
                    value
                } else {
                    old(self)@[k]
                }),
    {
        if start > stop {
            return ;
        }
        proof {
            use_type_invariant(&*self);
            self.lemma_shape_fits();
        }
        let ghost before = self@;
        let mut k: usize = start;
        while k <= stop
            invariant
                start <= k <= stop + 1,
                stop < before.len(),
                stop < usize::MAX,
                self.rows() == old(self).rows(),
                self.cols() == old(self).cols(),
                self@.len() == before.len(),
                forall|t: int|
                    0 <= t < self@.len() ==> #[trigger] self@[t] == (if start <= t < k {
                        value
                    } else {
                        before[t]
                    }),
            decreases stop + 1 - k,
        {
            proof {
                use_type_invariant(&*self);
            }
            self.data[k] = value;
            k += 1;
        }
    }
}

} // verus!
