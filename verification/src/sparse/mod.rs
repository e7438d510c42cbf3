//! Sparse matrices: a map from the coordinates of the non-zero cells to
//! their elements. A cell that the map does not hold is zero.

pub mod fill;
pub mod helper;
pub mod measure;
pub mod ops;
pub mod parse;
pub mod predicates;
pub mod render;

use vstd::prelude::*;
use std::collections::HashMap;
use vstd::relations::injective_on;
use vstd::set_lib::{lemma_int_range, lemma_len_subset, lemma_map_size, set_int_range};
use crate::common::MatrixElement;
use crate::error::MatrixError;
use crate::matrix::{lemma_flat, Matrix, Shape};
use crate::sparse::helper::{
    entries_of, key, key_of, lemma_key_of, lemma_unkey, lists, unkey, SHIFT,
};

verus! {

/// The non-zero cells that a sparse matrix is built from.
pub type SparseMatrixData<T> = Vec<(Shape, T)>;

/// A sparse matrix of `rows()` x `cols()` elements.
#[derive(Debug, PartialEq)]
pub struct SparseMatrix<T: MatrixElement> {
    data: HashMap<u128, T>,
    nrows: usize,
    ncols: usize,
}

impl<T: MatrixElement> View for SparseMatrix<T> {
    type V = Map<(int, int), T>;

    /// The stored cells: coordinates and elements.
    closed spec fn view(&self) -> Map<(int, int), T> {
        Map::new(
            |p: (int, int)|
                0 <= p.0 < SHIFT && 0 <= p.1 < SHIFT && self.data@.contains_key(key_of(p.0, p.1)),
            |p: (int, int)| self.data@[key_of(p.0, p.1)],
        )
    }
}

impl<T: MatrixElement> SparseMatrix<T> {
    /// Number of rows.
    pub closed spec fn rows(&self) -> nat {
        self.nrows as nat
    }

    /// Number of columns.
    pub closed spec fn cols(&self) -> nat {
        self.ncols as nat
    }

    /// What holds of every sparse matrix that the library hands out: every
    /// stored cell lies inside the matrix and holds a non-zero element.
    pub closed spec fn wf(&self) -> bool {
        forall|k: u128| #[trigger]
            self.data@.contains_key(k) ==> k / SHIFT < self.nrows && k % SHIFT < self.ncols
                && self.data@[k].value() != 0
    }

    /// Whether `(i, j)` is a cell of the matrix.
    pub open spec fn in_bounds(&self, i: int, j: int) -> bool {
        0 <= i < self.rows() && 0 <= j < self.cols()
    }

    /// Every stored cell lies inside the matrix and holds a non-zero
    /// element.
    pub open spec fn valid(&self) -> bool {
        forall|p: (int, int)| #[trigger]
            self@.contains_key(p) ==> self.in_bounds(p.0, p.1) && self@[p].value() != 0
    }

    /// The integer in row `i`, column `j`: that of the stored element, or 0
    /// for a cell that is not stored.
    pub open spec fn entry(&self, i: int, j: int) -> int {
        if self@.contains_key((i, j)) {
            self@[(i, j)].value()
        } else {
            0
        }
    }

    /// Two sparse matrices of the same shape that store the same cells.
    pub open spec fn same(&self, other: &Self) -> bool {
        &&& self.rows() == other.rows()
        &&& self.cols() == other.cols()
        &&& self@ =~= other@
    }

    /// A well-formed sparse matrix is valid.
    pub proof fn lemma_valid(&self)
        requires
            self.wf(),
        ensures
            self.valid(),
    {
        assert forall|p: (int, int)| #[trigger] self@.contains_key(p) implies self.in_bounds(
            p.0,
            p.1,
        ) && self@[p].value() != 0 by {
            lemma_key_of(p.0, p.1);
        }
    }

    /// Two valid sparse matrices of one shape with the same integer in
    /// every cell store the same cells.
    pub proof fn lemma_same_entries(&self, other: &Self)
        requires
            self.valid(),
            other.valid(),
            self.rows() == other.rows(),
            self.cols() == other.cols(),
            forall|i: int, j: int| self.in_bounds(i, j) ==> self.entry(i, j) == other.entry(i, j),
        ensures
            self.same(other),
    {
        assert forall|p: (int, int)| self@.contains_key(p) == other@.contains_key(p) by {
            if self@.contains_key(p) || other@.contains_key(p) {
                assert(self.entry(p.0, p.1) == other.entry(p.0, p.1));
            }
        }
        assert forall|p: (int, int)| self@.contains_key(p) implies self@[p] == other@[p] by {
            assert(self.entry(p.0, p.1) == other.entry(p.0, p.1));
            self@[p].lemma_value_injective(other@[p]);
        }
    }

    /// A sparse matrix stores as many cells as its map has keys.
    proof fn lemma_keys(&self)
        requires
            self.wf(),
        ensures
            self@.dom().finite(),
            self@.len() == self.data@.len(),
            self@.len() <= self.rows() * self.cols(),
    {
        let keys = self.data@.dom();
        let rows = self.rows() as int;
        let cols = self.cols() as int;
        let place = |k: u128| ((k / SHIFT) as int, (k % SHIFT) as int);
        assert(injective_on(place, keys)) by {
            assert forall|k1: u128, k2: u128|
                keys.contains(k1) && keys.contains(k2) && #[trigger] place(k1) == #[trigger] place(
                    k2,
                ) implies k1 == k2 by {
                lemma_unkey(k1);
                lemma_unkey(k2);
            }
        }
        assert(keys.map(place) =~= self@.dom()) by {
            assert forall|p: (int, int)| keys.map(place).contains(p) == self@.dom().contains(
                p,
            ) by {
                if keys.map(place).contains(p) {
                    let k = choose|k: u128| keys.contains(k) && place(k) == p;
                    lemma_unkey(k);
                    assert(self.data@.contains_key(k));
                }
                if self@.dom().contains(p) {
                    lemma_key_of(p.0, p.1);
                    let k = key_of(p.0, p.1);
                    assert(keys.contains(k) && place(k) == p);
                }
            }
        }
        lemma_map_size(keys, self@.dom(), place);
        let number = |k: u128| (k / SHIFT) as int * cols + (k % SHIFT) as int;
        assert(injective_on(number, keys)) by {
            assert forall|k1: u128, k2: u128|
                keys.contains(k1) && keys.contains(k2) && #[trigger] number(k1) == #[trigger] number(
                    k2,
                ) implies k1 == k2 by {
                assert(self.data@.contains_key(k1));
                assert(self.data@.contains_key(k2));
                lemma_flat((k1 / SHIFT) as int, (k1 % SHIFT) as int, rows, cols);
                lemma_flat((k2 / SHIFT) as int, (k2 % SHIFT) as int, rows, cols);
                lemma_unkey(k1);
                lemma_unkey(k2);
            }
        }
        let numbers = keys.map(number);
        lemma_map_size(keys, numbers, number);
        assert(numbers.subset_of(set_int_range(0, rows * cols))) by {
            assert forall|x: int| numbers.contains(x) implies set_int_range(
                0,
                rows * cols,
            ).contains(x) by {
                let k = choose|k: u128| keys.contains(k) && number(k) == x;
                assert(self.data@.contains_key(k));
                lemma_flat((k / SHIFT) as int, (k % SHIFT) as int, rows, cols);
            }
        }
        assert(0 <= rows * cols) by (nonlinear_arith)
            requires
                0 <= rows,
                0 <= cols,
        ;
        lemma_int_range(0, rows * cols);
        lemma_len_subset(numbers, set_int_range(0, rows * cols));
    }

    /// A sparse matrix of the given shape with no stored cell: all zero.
    pub fn init(nrows: usize, ncols: usize) -> (m: Self)
        ensures
            m.wf(),
            m.rows() == nrows,
            m.cols() == ncols,
            m@ =~= Map::<(int, int), T>::empty(),
    {
        let m = SparseMatrix { data: HashMap::new(), nrows, ncols };
        m
    }

    /// Number of rows.
    pub fn nrows(&self) -> (n: usize)
        ensures
            n == self.rows(),
    {
        self.nrows
    }

    /// Number of columns.
    pub fn ncols(&self) -> (n: usize)
        ensures
            n == self.cols(),
    {
        self.ncols
    }

    /// The shape of the matrix: rows, then columns.
    pub fn shape(&self) -> (s: Shape)
        ensures
            s.0 == self.rows(),
            s.1 == self.cols(),
    {
        (self.nrows, self.ncols)
    }

    /// The element in row `i`, column `j`; zero for a cell that is not
    /// stored.
    pub fn at(&self, i: usize, j: usize) -> (r: T)
        requires
            self.wf(),
        ensures
            r.value() == self.entry(i as int, j as int),
            self@.contains_key((i as int, j as int)) ==> r == self@[(i as int, j as int)],
    {
        let k = key(i, j);
        match self.data.get(&k) {
            None => T::zero(),
            Some(val) => *val,
        }
    }

    /// The element in row `i`, column `j`, or `None` where the matrix has
    /// no such cell.
    pub fn get(&self, i: usize, j: usize) -> (r: Option<T>)
        requires
            self.wf(),
        ensures
            r is Some <==> self.in_bounds(i as int, j as int),
            r is Some ==> r.unwrap().value() == self.entry(i as int, j as int),
    {
        if i < self.nrows && j < self.ncols {
            Some(self.at(i, j))
        } else {
            None
        }
    }

    /// Stores `value` in the cell `idx`.
    ///
    /// A zero is not stored: the call then changes nothing and succeeds.
    /// For any other value the call fails, with
    /// `MatrixIndexOutOfBoundsError`, exactly when the matrix has no such
    /// cell, and then changes nothing either.
    pub fn set(&mut self, value: T, idx: Shape) -> (r: Result<(), MatrixError>)
        requires
            old(self).wf(),
        ensures
            final(self).wf(),
            final(self).rows() == old(self).rows(),
            final(self).cols() == old(self).cols(),
            r is Err <==> value.value() != 0 && !old(self).in_bounds(idx.0 as int, idx.1 as int),
            r is Err ==> r == Err::<(), MatrixError>(MatrixError::MatrixIndexOutOfBoundsError),
            final(self)@ =~= (if value.value() != 0 && old(self).in_bounds(
                idx.0 as int,
                idx.1 as int,
            ) {
                old(self)@.insert((idx.0 as int, idx.1 as int), value)
            } else {
                old(self)@
            }),
    {
        let zero = T::zero();
        if value.equals(zero) {
            return Ok(());
        }
        proof {
            if value.value() == 0 {
                value.lemma_value_injective(zero);
            }
        }
        if idx.0 >= self.nrows || idx.1 >= self.ncols {
            return Err(MatrixError::MatrixIndexOutOfBoundsError);
        }
        let k = key(idx.0, idx.1);
        let ghost before = *self;
        self.data.insert(k, value);
        proof {
            assert forall|p: (int, int)|
                self@.contains_key(p) == before@.insert(
                    (idx.0 as int, idx.1 as int),
                    value,
                ).contains_key(p) by {
                if 0 <= p.0 < SHIFT && 0 <= p.1 < SHIFT {
                    lemma_key_of(p.0, p.1);
                }
                lemma_key_of(idx.0 as int, idx.1 as int);
            }
            assert forall|p: (int, int)| self@.contains_key(p) implies self@[p] == before@.insert(
                (idx.0 as int, idx.1 as int),
                value,
            )[p] by {
                lemma_key_of(p.0, p.1);
                lemma_key_of(idx.0 as int, idx.1 as int);
            }
        }
        Ok(())
    }

    /// Stores `value` in the cell `(i, j)`; see `set`.
    pub fn insert(&mut self, i: usize, j: usize, value: T) -> (r: Result<(), MatrixError>)
        requires
            old(self).wf(),
        ensures
            final(self).wf(),
            final(self).rows() == old(self).rows(),
            final(self).cols() == old(self).cols(),
            r is Err <==> value.value() != 0 && !old(self).in_bounds(i as int, j as int),
            r is Err ==> r == Err::<(), MatrixError>(MatrixError::MatrixIndexOutOfBoundsError),
            final(self)@ =~= (if value.value() != 0 && old(self).in_bounds(i as int, j as int) {
                old(self)@.insert((i as int, j as int), value)
            } else {
                old(self)@
            }),
    {
        self.set(value, (i, j))
    }
}

impl<T: MatrixElement> SparseMatrix<T> {
    /// Whether `list` names every stored cell of the matrix once, with its
    /// element.
    pub open spec fn lists_cells(&self, list: Seq<(Shape, T)>) -> bool {
        &&& forall|t: int|
            0 <= t < list.len() ==> self@.contains_key(
                ((#[trigger] list[t]).0.0 as int, list[t].0.1 as int),
            ) && self@[(list[t].0.0 as int, list[t].0.1 as int)] == list[t].1
        &&& forall|p: (int, int)|
            self@.contains_key(p) ==> exists|t: int|
                0 <= t < list.len() && (#[trigger] list[t]).0.0 == p.0 && list[t].0.1 == p.1
        &&& forall|s: int, t: int| 0 <= s < t < list.len() ==> list[s].0 != list[t].0
    }

    /// The stored cells, each once, in no particular order.
    pub fn entries(&self) -> (list: SparseMatrixData<T>)
        requires
            self.wf(),
        ensures
            self.lists_cells(list@),
            list@.len() == self@.len(),
    {
        proof {
            self.lemma_keys();
        }
        let raw = entries_of(&self.data);
        let mut list: Vec<(Shape, T)> = Vec::new();
        let mut n: usize = 0;
        while n < raw.len()
            invariant
                self.wf(),
                lists(raw@, self.data@),
                n <= raw@.len(),
                list@.len() == n,
                forall|t: int|
                    0 <= t < n ==> key_of((#[trigger] list@[t]).0.0 as int, list@[t].0.1 as int)
                        == raw@[t].0 && list@[t].1 == raw@[t].1,
            decreases raw@.len() - n,
        {
            let (k, v) = raw[n];
            assert(self.data@.contains_key(raw@[n as int].0));
            let p = unkey(k);
            list.push((p, v));
            n += 1;
        }
        proof {
            assert forall|t: int| 0 <= t < list@.len() implies self@.contains_key(
                ((#[trigger] list@[t]).0.0 as int, list@[t].0.1 as int),
            ) && self@[(list@[t].0.0 as int, list@[t].0.1 as int)] == list@[t].1 by {
                assert(self.data@.contains_key(raw@[t].0));
            }
            assert forall|p: (int, int)| self@.contains_key(p) implies exists|t: int|
                0 <= t < list@.len() && (#[trigger] list@[t]).0.0 == p.0 && list@[t].0.1
                    == p.1 by {
                let k = key_of(p.0, p.1);
                let t = choose|t: int| 0 <= t < raw@.len() && #[trigger] raw@[t].0 == k;
                lemma_key_of(p.0, p.1);
                lemma_key_of(list@[t].0.0 as int, list@[t].0.1 as int);
            }
            assert forall|s: int, t: int| 0 <= s < t < list@.len() implies list@[s].0
                != list@[t].0 by {
                assert(raw@[s].0 != raw@[t].0);
            }
        }
        list
    }

    /// What storing the cells of `entries` one after the other in an empty
    /// matrix of `rows` x `cols` leaves: of two entries for one cell the
    /// later one, and nothing of an entry that is zero or lies outside.
    pub open spec fn build(entries: Seq<(Shape, T)>, rows: nat, cols: nat) -> Map<(int, int), T>
        decreases entries.len(),
    {
        if entries.len() == 0 {
            Map::empty()
        } else {
            let before = Self::build(entries.drop_last(), rows, cols);
            let (at, value) = entries.last();
            if value.value() != 0 && at.0 < rows && at.1 < cols {
                before.insert((at.0 as int, at.1 as int), value)
            } else {
                before
            }
        }
    }

    /// The sparse matrix of the given shape that stores the cells of
    /// `data`. Entries that are zero or lie outside the shape are left out;
    /// of two entries for one cell the later one is kept.
    pub fn new(data: SparseMatrixData<T>, shape: Shape) -> (m: Self)
        ensures
            m.wf(),
            m.rows() == shape.0,
            m.cols() == shape.1,
            m@ =~= Self::build(data@, shape.0 as nat, shape.1 as nat),
    {
        let mut m = Self::init(shape.0, shape.1);
        let mut n: usize = 0;
        while n < data.len()
            invariant
                m.wf(),
                m.rows() == shape.0,
                m.cols() == shape.1,
                n <= data@.len(),
                m@ =~= Self::build(data@.subrange(0, n as int), shape.0 as nat, shape.1 as nat),
            decreases data@.len() - n,
        {
            let (at, value) = data[n];
            let _ = m.set(value, at);
            proof {
                assert(data@.subrange(0, n + 1).drop_last() =~= data@.subrange(0, n as int));
            }
            n += 1;
        }
        proof {
            assert(data@.subrange(0, n as int) =~= data@);
        }
        m
    }

    /// The sparse identity matrix of the given size.
    pub fn eye(size: usize) -> (m: Self)
        ensures
            m.wf(),
            m.rows() == size,
            m.cols() == size,
            forall|i: int, j: int| #[trigger]
                m.entry(i, j) == (if i == j && 0 <= i < size {
                    1int
                } else {
                    0int
                }),
    {
        let one = T::one();
        let mut m = Self::init(size, size);
        let mut d: usize = 0;
        while d < size
            invariant
                m.wf(),
                m.rows() == size,
                m.cols() == size,
                d <= size,
                one.value() == 1,
                forall|i: int, j: int| #[trigger]
                    m.entry(i, j) == (if i == j && 0 <= i < d {
                        1int
                    } else {
                        0int
                    }),
            decreases size - d,
        {
            let ghost before = m;
            let _ = m.set(one, (d, d));
            proof {
                assert forall|i: int, j: int| #[trigger]
                    m.entry(i, j) == (if i == j && 0 <= i < d + 1 {
                        1int
                    } else {
                        0int
                    }) by {
                    assert(before.entry(i, j) == (if i == j && 0 <= i < d {
                        1int
                    } else {
                        0int
                    }));
                }
            }
            d += 1;
        }
        m
    }

    /// The sparse identity matrix of the given size.
    pub fn identity(size: usize) -> (m: Self)
        ensures
            m.wf(),
            m.rows() == size,
            m.cols() == size,
            forall|i: int, j: int| #[trigger]
                m.entry(i, j) == (if i == j && 0 <= i < size {
                    1int
                } else {
                    0int
                }),
    {
        Self::eye(size)
    }

    /// The sparse identity matrix with as many rows as `matrix` has.
    pub fn eye_like(matrix: &Self) -> (m: Self)
        ensures
            m.wf(),
            m.rows() == matrix.rows(),
            m.cols() == matrix.rows(),
            forall|i: int, j: int| #[trigger]
                m.entry(i, j) == (if i == j && 0 <= i < matrix.rows() {
                    1int
                } else {
                    0int
                }),
    {
        Self::eye(matrix.nrows)
    }

    /// Whether `self` is `other` with rows and columns exchanged.
    pub open spec fn is_transpose_of(&self, other: &Self) -> bool {
        &&& self.rows() == other.cols()
        &&& self.cols() == other.rows()
        &&& forall|i: int, j: int| #[trigger] self.entry(j, i) == other.entry(i, j)
    }

    /// Transposing twice gives the matrix back.
    pub proof fn lemma_transpose_involution(&self, once: &Self, twice: &Self)
        requires
            self.wf(),
            once.wf(),
            twice.wf(),
            once.is_transpose_of(self),
            twice.is_transpose_of(once),
        ensures
            twice.same(self),
    {
        self.lemma_valid();
        twice.lemma_valid();
        assert forall|i: int, j: int| twice.in_bounds(i, j) implies twice.entry(i, j)
            == self.entry(i, j) by {
            assert(once.entry(j, i) == self.entry(i, j));
            assert(twice.entry(i, j) == once.entry(j, i));
        }
        twice.lemma_same_entries(self);
    }

    /// The transposed matrix.
    pub fn transpose_new(&self) -> (t: Self)
        requires
            self.wf(),
        ensures
            t.wf(),
            t.is_transpose_of(self),
    {
        let list = entries_of(&self.data);
        let mut data: HashMap<u128, T> = HashMap::new();
        let mut n: usize = 0;
        while n < list.len()
            invariant
                self.wf(),
                lists(list@, self.data@),
                n <= list@.len(),
                forall|t: int|
                    0 <= t < n ==> data@.contains_key(swapped((#[trigger] list@[t]).0)) && data@[swapped(
                        list@[t].0,
                    )] == list@[t].1,
                forall|k: u128| #[trigger]
                    data@.contains_key(k) ==> self.data@.contains_key(swapped(k))
                        && self.data@[swapped(k)] == data@[k],
            decreases list@.len() - n,
        {
            let (k, v) = list[n];
            assert(self.data@.contains_key(list@[n as int].0));
            let (i, j) = unkey(k);
            let flipped = key(j, i);
            let ghost before = data@;
            data.insert(flipped, v);
            proof {
                lemma_swapped(k);
                assert(flipped == swapped(k));
                assert forall|t: int| 0 <= t < n + 1 implies data@.contains_key(
                    swapped((#[trigger] list@[t]).0),
                ) && data@[swapped(list@[t].0)] == list@[t].1 by {
                    if t < n && swapped(list@[t].0) == flipped {
                        lemma_swapped(list@[t].0);
                    }
                }
                assert forall|q: u128| #[trigger] data@.contains_key(q) implies self.data@.contains_key(
                    swapped(q),
                ) && self.data@[swapped(q)] == data@[q] by {
                    if q == flipped {
                        lemma_swapped(flipped);
                    } else {
                        assert(before.contains_key(q));
                    }
                }
            }
            n += 1;
        }
        let t = SparseMatrix { data, nrows: self.ncols, ncols: self.nrows };
        proof {
            assert forall|k: u128| #[trigger] t.data@.contains_key(k) implies k / SHIFT < t.nrows
                && k % SHIFT < t.ncols && t.data@[k].value() != 0 by {
                lemma_swapped(k);
                assert(self.data@.contains_key(swapped(k)));
            }
            assert forall|i: int, j: int| #[trigger] t.entry(j, i) == self.entry(i, j) by {
                if 0 <= i < SHIFT && 0 <= j < SHIFT {
                    lemma_key_of(i, j);
                    lemma_key_of(j, i);
                    let k = key_of(i, j);
                    let q = key_of(j, i);
                    lemma_swapped(k);
                    lemma_swapped(q);
                    if self.data@.contains_key(k) {
                        let n0 = choose|n0: int| 0 <= n0 < list@.len() && #[trigger] list@[n0].0 == k;
                        assert(data@.contains_key(swapped(list@[n0].0)));
                    }
                    if data@.contains_key(q) {
                        assert(self.data@.contains_key(swapped(q)));
                    }
                }
            }
        }
        t
    }

    /// Exchanges rows and columns.
    pub fn transpose(&mut self)
        requires
            old(self).wf(),
        ensures
            final(self).wf(),
            final(self).is_transpose_of(old(self)),
    {
        let t = self.transpose_new();
        *self = t;
    }

    /// Exchanges rows and columns.
    pub fn t(&mut self)
        requires
            old(self).wf(),
        ensures
            final(self).wf(),
            final(self).is_transpose_of(old(self)),
    {
        self.transpose();
    }

    /// Whether `self` holds the same integer as the dense matrix `dense` in
    /// every cell.
    pub open spec fn agrees_with(&self, dense: &Matrix<T>) -> bool {
        &&& self.rows() == dense.rows()
        &&& self.cols() == dense.cols()
        &&& forall|i: int, j: int|
            dense.in_bounds(i, j) ==> #[trigger] self.entry(i, j) == dense.entry(i, j)
    }

    /// A dense matrix and then a sparse one again, made of a sparse matrix,
    /// is that sparse matrix.
    pub proof fn lemma_round_trip(&self, dense: &Matrix<T>, back: &Self)
        requires
            self.wf(),
            back.wf(),
            self.agrees_with(dense),
            back.agrees_with(dense),
        ensures
            back.same(self),
    {
        self.lemma_valid();
        back.lemma_valid();
        assert forall|i: int, j: int| back.in_bounds(i, j) implies back.entry(i, j) == self.entry(
            i,
            j,
        ) by {
            assert(back.entry(i, j) == dense.entry(i, j));
            assert(self.entry(i, j) == dense.entry(i, j));
        }
        back.lemma_same_entries(self);
    }

    /// The sparse matrix that stores the non-zero cells of `matrix`.
    pub fn from_dense(matrix: Matrix<T>) -> (m: Self)
        ensures
            m.wf(),
            m.agrees_with(&matrix),
    {
        let rows = matrix.nrows();
        let cols = matrix.ncols();
        let mut m = Self::init(rows, cols);
        let mut i: usize = 0;
        while i < rows
            invariant
                m.wf(),
                rows == matrix.rows(),
                cols == matrix.cols(),
                m.rows() == rows,
                m.cols() == cols,
                i <= rows,
                forall|r: int, c: int| #[trigger]
                    m.entry(r, c) == (if 0 <= r < i && 0 <= c < cols {
                        matrix.entry(r, c)
                    } else {
                        0int
                    }),
            decreases rows - i,
        {
            let mut j: usize = 0;
            while j < cols
                invariant
                    m.wf(),
                    rows == matrix.rows(),
                    cols == matrix.cols(),
                    m.rows() == rows,
                    m.cols() == cols,
                    i < rows,
                    j <= cols,
                    forall|r: int, c: int| #[trigger]
                        m.entry(r, c) == (if (0 <= r < i && 0 <= c < cols) || (r == i && 0 <= c < j) {
                            matrix.entry(r, c)
                        } else {
                            0int
                        }),
                decreases cols - j,
            {
                let val = matrix.at(i, j);
                let ghost before = m;
                let _ = m.set(val, (i, j));
                proof {
                    assert forall|r: int, c: int| #[trigger]
                        m.entry(r, c) == (if (0 <= r < i && 0 <= c < cols) || (r == i && 0 <= c < j
                            + 1) {
                            matrix.entry(r, c)
                        } else {
                            0int
                        }) by {
                        assert(before.entry(r, c) == (if (0 <= r < i && 0 <= c < cols) || (r == i
                            && 0 <= c < j) {
                            matrix.entry(r, c)
                        } else {
                            0int
                        }));
                    }
                }
                j += 1;
            }
            i += 1;
        }
        m
    }
}

impl<T: MatrixElement> Clone for SparseMatrix<T> {
    /// A sparse matrix of the same shape that stores the same cells.
    fn clone(&self) -> (m: Self)
        ensures
            m.same(self),
            self.wf() ==> m.wf(),
    {
        SparseMatrix { data: self.data.clone(), nrows: self.nrows, ncols: self.ncols }
    }
}

impl<T: MatrixElement> Default for SparseMatrix<T> {
    /// The sparse matrix without rows and columns.
    fn default() -> (m: Self)
        ensures
            m.wf(),
            m.rows() == 0,
            m.cols() == 0,
            m@ =~= Map::<(int, int), T>::empty(),
    {
        Self::init(0, 0)
    }
}

impl<T: MatrixElement> Matrix<T> {
    /// The dense matrix with the cells of `sparse`: its stored elements,
    /// and zero in every other cell.
    pub fn from_sparse(sparse: SparseMatrix<T>) -> (m: Self)
        requires
            sparse.wf(),
            sparse.rows() * sparse.cols() <= usize::MAX,
        ensures
            m.wf(),
            sparse.agrees_with(&m),
    {
        let rows = sparse.nrows();
        let cols = sparse.ncols();
        let mut m = Self::zeros((rows, cols));
        let list = sparse.entries();
        proof {
            sparse.lemma_valid();
            assert forall|i: int, j: int| m.in_bounds(i, j) implies #[trigger] m.entry(i, j)
                == 0 by {
                lemma_flat(i, j, rows as int, cols as int);
            }
        }
        let mut n: usize = 0;
        while n < list.len()
            invariant
                sparse.wf(),
                sparse.valid(),
                sparse.lists_cells(list@),
                m.wf(),
                m.rows() == sparse.rows(),
                m.cols() == sparse.cols(),
                rows == sparse.rows(),
                cols == sparse.cols(),
                n <= list@.len(),
                forall|t: int|
                    0 <= t < n ==> m.cell((#[trigger] list@[t]).0.0 as int, list@[t].0.1 as int)
                        == list@[t].1,
                forall|i: int, j: int|
                    m.in_bounds(i, j) ==> #[trigger] m.entry(i, j) == 0 || m.entry(i, j)
                        == sparse.entry(i, j),
            decreases list@.len() - n,
        {
            let (at, value) = list[n];
            let ghost before = m;
            assert(sparse@.contains_key((list@[n as int].0.0 as int, list@[n as int].0.1 as int)));
            let _ = m.set(value, at);
            proof {
                use_type_invariant(&m);
                lemma_flat(at.0 as int, at.1 as int, rows as int, cols as int);
                assert forall|t: int| 0 <= t < n + 1 implies m.cell(
                    (#[trigger] list@[t]).0.0 as int,
                    list@[t].0.1 as int,
                ) == list@[t].1 by {
                    let p = list@[t].0;
                    assert(sparse@.contains_key((p.0 as int, p.1 as int)));
                    lemma_flat(p.0 as int, p.1 as int, rows as int, cols as int);
                    if t < n {
                        assert(before.cell(p.0 as int, p.1 as int) == list@[t].1);
                    }
                }
                assert forall|i: int, j: int| m.in_bounds(i, j) implies #[trigger] m.entry(i, j)
                    == 0 || m.entry(i, j) == sparse.entry(i, j) by {
                    lemma_flat(i, j, rows as int, cols as int);
                    assert(before.entry(i, j) == 0 || before.entry(i, j) == sparse.entry(i, j));
                }
            }
            n += 1;
        }
        proof {
            assert forall|i: int, j: int| m.in_bounds(i, j) implies #[trigger] sparse.entry(i, j)
                == m.entry(i, j) by {
                if sparse@.contains_key((i, j)) {
                    let t = choose|t: int|
                        0 <= t < list@.len() && (#[trigger] list@[t]).0.0 == i && list@[t].0.1 == j;
                    assert(m.cell(list@[t].0.0 as int, list@[t].0.1 as int) == list@[t].1);
                } else {
                    assert(m.entry(i, j) == 0 || m.entry(i, j) == sparse.entry(i, j));
                }
            }
        }
        m
    }
}

/// The key of the cell that mirrors the cell of key `k` across the
/// diagonal.
#[verifier::opaque]
pub open spec fn swapped(k: u128) -> u128 {
    key_of((k % SHIFT) as int, (k / SHIFT) as int)
}

/// Mirroring exchanges the two halves of a key, and mirroring twice gives
/// the key back.
pub proof fn lemma_swapped(k: u128)
    ensures
        swapped(k) / SHIFT == k % SHIFT,
        swapped(k) % SHIFT == k / SHIFT,
        swapped(swapped(k)) == k,
        swapped(k) == key_of((k % SHIFT) as int, (k / SHIFT) as int),
{
    reveal(swapped);
    let hi = (k / SHIFT) as int;
    let lo = (k % SHIFT) as int;
    lemma_key_of(lo, hi);
    lemma_key_of(hi, lo);
}

} // verus!
