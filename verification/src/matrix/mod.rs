//! Dense matrices: one row-major buffer that covers every cell.

pub mod determinant;
pub mod helper;
pub mod ops;
pub mod parse;
pub mod predicates;
pub mod reduce;
pub mod render;
pub mod slices;

use vstd::prelude::*;
use vstd::arithmetic::div_mod::{lemma_fundamental_div_mod_converse, lemma_fundamental_div_mod};
use vstd::arithmetic::mul::lemma_mul_is_commutative;
use crate::common::MatrixElement;
use crate::error::MatrixError;

verus! {

/// The extent of a matrix: rows, then columns.
pub type Shape = (usize, usize);

/// Position of the cell `(i, j)` in the row-major buffer of a matrix with
/// `cols` columns.
pub open spec fn flat(i: int, j: int, cols: int) -> int {
    i * cols + j
}

/// A cell inside a `rows` x `cols` matrix has its own place in the buffer,
/// from which row and column can be read back.
pub proof fn lemma_flat(i: int, j: int, rows: int, cols: int)
    requires
        0 <= i < rows,
        0 <= j < cols,
    ensures
        0 <= flat(i, j, cols) < rows * cols,
        flat(i, j, cols) / cols == i,
        flat(i, j, cols) % cols == j,
{
    lemma_fundamental_div_mod_converse(flat(i, j, cols), cols, i, j);
    assert(i * cols + j < rows * cols) by (nonlinear_arith)
        requires
            0 <= i < rows,
            0 <= j < cols,
    ;
    assert(0 <= i * cols) by (nonlinear_arith)
        requires
            0 <= i,
            0 <= cols,
    ;
}

/// Every place in the buffer of a `rows` x `cols` matrix is the place of one
/// cell.
pub proof fn lemma_unflat(k: int, rows: int, cols: int)
    requires
        0 <= k < rows * cols,
        0 <= rows,
        0 <= cols,
    ensures
        0 <= k / cols < rows,
        0 <= k % cols < cols,
        flat(k / cols, k % cols, cols) == k,
{
    assert(cols > 0) by (nonlinear_arith)
        requires
            0 <= k < rows * cols,
            0 <= rows,
            0 <= cols,
    ;
    lemma_fundamental_div_mod(k, cols);
    let q = k / cols;
    assert(q >= 0 && q < rows) by (nonlinear_arith)
        requires
            0 <= k < rows * cols,
            k == cols * q + k % cols,
            0 <= k % cols < cols,
            cols > 0,
    ;
    assert(cols * q == q * cols) by (nonlinear_arith);
}

/// The dimension along which an operation works.
#[derive(Clone, Copy, Debug, PartialEq, Eq)]
pub enum Dimension {
    /// Along a row.
    Row,
    /// Along a column.
    Col,
}

/// A dense matrix of `rows()` x `cols()` elements.
#[derive(Debug, PartialEq)]
pub struct Matrix<T: MatrixElement> {
    data: Vec<T>,
    nrows: usize,
    ncols: usize,
}

impl<T: MatrixElement> View for Matrix<T> {
    type V = Seq<T>;

    /// The elements in row-major order.
    closed spec fn view(&self) -> Seq<T> {
        self.data@
    }
}

impl<T: MatrixElement> Matrix<T> {
    /// Number of rows.
    pub closed spec fn rows(&self) -> nat {
        self.nrows as nat
    }

    /// Number of columns.
    pub closed spec fn cols(&self) -> nat {
        self.ncols as nat
    }

    /// The buffer covers every cell exactly once.
    #[verifier::type_invariant]
    pub open spec fn wf(&self) -> bool {
        self@.len() == self.rows() * self.cols()
    }

    /// Whether `(i, j)` is a cell of the matrix.
    pub open spec fn in_bounds(&self, i: int, j: int) -> bool {
        0 <= i < self.rows() && 0 <= j < self.cols()
    }

    /// The element in row `i`, column `j`.
    pub open spec fn cell(&self, i: int, j: int) -> T {
        self@[flat(i, j, self.cols() as int)]
    }

    /// The integer in row `i`, column `j`.
    pub open spec fn entry(&self, i: int, j: int) -> int {
        self.cell(i, j).value()
    }

    /// Two matrices of the same shape that hold the same elements.
    pub open spec fn same(&self, other: &Self) -> bool {
        &&& self.rows() == other.rows()
        &&& self.cols() == other.cols()
        &&& self@ =~= other@
    }

    /// The shape fits the machine: both extents, and so the size, are
    /// addressable.
    pub proof fn lemma_shape_fits(&self)
        requires
            self.wf(),
        ensures
            self.rows() <= usize::MAX,
            self.cols() <= usize::MAX,
            self.rows() * self.cols() <= usize::MAX,
            self@.len() <= usize::MAX,
    {
        assert(self.data.len() == self.data@.len());
    }

    /// Number of rows.
    pub fn nrows(&self) -> (n: usize)
        ensures
            n == self.rows(),
    {
        self.nrows
    }

    /// Number of columns.
    pub fn ncols(&self) -> (n: usize)
        ensures
            n == self.cols(),
    {
        self.ncols
    }

    /// The shape of the matrix: rows, then columns.
    pub fn shape(&self) -> (s: Shape)
        ensures
            s.0 == self.rows(),
            s.1 == self.cols(),
    {
        (self.nrows, self.ncols)
    }

    /// Number of cells.
    pub fn size(&self) -> (n: usize)
        ensures
            n == self.rows() * self.cols(),
            n == self@.len(),
    {
        proof {
            use_type_invariant(self);
        }
        self.data.len()
    }

    /// Builds a matrix from a row-major buffer. Fails, with
    /// `MatrixCreationError`, exactly when the buffer does not have
    /// `shape.0 * shape.1` elements.
    pub fn new(data: Vec<T>, shape: Shape) -> (r: Result<Self, MatrixError>)
        ensures
            match r {
                Ok(m) => {
                    &&& shape.0 * shape.1 == data@.len()
                    &&& m.rows() == shape.0
                    &&& m.cols() == shape.1
                    &&& m@ == data@
                },
                Err(e) => shape.0 * shape.1 != data@.len() && e
                    == MatrixError::MatrixCreationError,
            },
    {
        let len = data.len();
        match shape.0.checked_mul(shape.1) {
            Some(n) => {
                if n == len {
                    Ok(Matrix { data, nrows: shape.0, ncols: shape.1 })
                } else {
                    Err(MatrixError::MatrixCreationError)
                }
            },
            None => Err(MatrixError::MatrixCreationError),
        }
    }

    /// A matrix of the given shape with `value` in every cell.
    fn from_shape(value: T, shape: Shape) -> (m: Self)
        requires
            shape.0 * shape.1 <= usize::MAX,
        ensures
            m.rows() == shape.0,
            m.cols() == shape.1,
            m@ == Seq::new((shape.0 * shape.1) as nat, |k: int| value),
    {
        let len: usize = shape.0 * shape.1;
        let data = filled(value, len);
        Matrix { data, nrows: shape.0, ncols: shape.1 }
    }

    /// A matrix of the given shape with `value` in every cell.
    pub fn init(value: T, shape: Shape) -> (m: Self)
        requires
            shape.0 * shape.1 <= usize::MAX,
        ensures
            m.rows() == shape.0,
            m.cols() == shape.1,
            m@ == Seq::new((shape.0 * shape.1) as nat, |k: int| value),
    {
        Self::from_shape(value, shape)
    }

    /// A matrix of the given shape with 0 in every cell.
    pub fn zeros(shape: Shape) -> (m: Self)
        requires
            shape.0 * shape.1 <= usize::MAX,
        ensures
            m.rows() == shape.0,
            m.cols() == shape.1,
            m@.len() == shape.0 * shape.1,
            forall|k: int| 0 <= k < m@.len() ==> (#[trigger] m@[k]).value() == 0,
    {
        Self::from_shape(T::zero(), shape)
    }

    /// A matrix of the given shape with 1 in every cell.
    pub fn ones(shape: Shape) -> (m: Self)
        requires
            shape.0 * shape.1 <= usize::MAX,
        ensures
            m.rows() == shape.0,
            m.cols() == shape.1,
            m@.len() == shape.0 * shape.1,
            forall|k: int| 0 <= k < m@.len() ==> (#[trigger] m@[k]).value() == 1,
    {
        Self::from_shape(T::one(), shape)
    }

    /// A matrix of the shape of `other` with 0 in every cell.
    pub fn zeros_like(other: &Self) -> (m: Self)
        ensures
            m.rows() == other.rows(),
            m.cols() == other.cols(),
            m@.len() == other@.len(),
            forall|k: int| 0 <= k < m@.len() ==> (#[trigger] m@[k]).value() == 0,
    {
        proof {
            use_type_invariant(other);
            other.lemma_shape_fits();
        }
        Self::from_shape(T::zero(), other.shape())
    }

    /// A matrix of the shape of `other` with 1 in every cell.
    pub fn ones_like(other: &Self) -> (m: Self)
        ensures
            m.rows() == other.rows(),
            m.cols() == other.cols(),
            m@.len() == other@.len(),
            forall|k: int| 0 <= k < m@.len() ==> (#[trigger] m@[k]).value() == 1,
    {
        proof {
            use_type_invariant(other);
            other.lemma_shape_fits();
        }
        Self::from_shape(T::one(), other.shape())
    }

    /// The identity matrix of the given size: 1 on the diagonal, 0 elsewhere.
    pub fn eye(size: usize) -> (m: Self)
        requires
            size * size <= usize::MAX,
        ensures
            m.rows() == size,
            m.cols() == size,
            m.wf(),
            forall|i: int, j: int|
                0 <= i < size && 0 <= j < size ==> #[trigger] m.entry(i, j) == (if i == j {
                    1int
                } else {
                    0int
                }),
    {
        let zero = T::zero();
        let one = T::one();
        let mut data: Vec<T> = filled(zero, size * size);
        let mut d: usize = 0;
        while d < size
            invariant
                d <= size,
                size * size <= usize::MAX,
                data@.len() == size * size,
                zero.value() == 0,
                one.value() == 1,
                forall|k: int|
                    0 <= k < data@.len() ==> (#[trigger] data@[k]).value() == (if k / (size as int)
                        == k % (size as int) && k / (size as int) < d {
                        1int
                    } else {
                        0int
                    }),
            decreases size - d,
        {
            proof {
                lemma_flat(d as int, d as int, size as int, size as int);
            }
            let ghost before = data@;
            data[d * size + d] = one;
            proof {
                assert forall|k: int| 0 <= k < data@.len() implies (#[trigger] data@[k]).value()
                    == (if k / (size as int) == k % (size as int) && k / (size as int) < d + 1 {
                    1int
                } else {
                    0int
                }) by {
                    lemma_fundamental_div_mod(k, size as int);
                    assert((size as int) * (d as int) == (d as int) * (size as int))
                        by (nonlinear_arith);
                    if k / (size as int) == d && k % (size as int) == d {
                        assert(k == d * size + d);
                    }
                    assert(before[k].value() == (if k / (size as int) == k % (size as int) && k / (
                    size as int) < d {
                        1int
                    } else {
                        0int
                    }));
                }
            }
            d += 1;
        }
        let m = Matrix { data, nrows: size, ncols: size };
        proof {
            assert forall|i: int, j: int| 0 <= i < size && 0 <= j < size implies #[trigger] m.entry(
                i,
                j,
            ) == (if i == j {
                1int
            } else {
                0int
            }) by {
                lemma_flat(i, j, size as int, size as int);
            }
        }
        m
    }

    /// The identity matrix of the given size.
    pub fn identity(size: usize) -> (m: Self)
        requires
            size * size <= usize::MAX,
        ensures
            m.rows() == size,
            m.cols() == size,
            m.wf(),
            forall|i: int, j: int|
                0 <= i < size && 0 <= j < size ==> #[trigger] m.entry(i, j) == (if i == j {
                    1int
                } else {
                    0int
                }),
    {
        Self::eye(size)
    }

    /// The identity matrix with as many rows as `matrix` has.
    pub fn eye_like(matrix: &Self) -> (m: Self)
        requires
            matrix.rows() * matrix.rows() <= usize::MAX,
        ensures
            m.rows() == matrix.rows(),
            m.cols() == matrix.rows(),
            m.wf(),
            forall|i: int, j: int|
                0 <= i < m.rows() && 0 <= j < m.rows() ==> #[trigger] m.entry(i, j) == (if i == j {
                    1int
                } else {
                    0int
                }),
    {
        Self::eye(matrix.nrows)
    }

    /// Builds a matrix from a slice in row-major order. Fails, with
    /// `MatrixCreationError`, exactly when the slice does not have
    /// `shape.0 * shape.1` elements.
    pub fn from_slice(arr: &[T], shape: Shape) -> (r: Result<Self, MatrixError>)
        ensures
            match r {
                Ok(m) => {
                    &&& shape.0 * shape.1 == arr@.len()
                    &&& m.rows() == shape.0
                    &&& m.cols() == shape.1
                    &&& m@ == arr@
                },
                Err(e) => shape.0 * shape.1 != arr@.len() && e
                    == MatrixError::MatrixCreationError,
            },
    {
        let mut data: Vec<T> = Vec::new();
        let mut k: usize = 0;
        while k < arr.len()
            invariant
                k <= arr@.len(),
                data@ == arr@.subrange(0, k as int),
            decreases arr@.len() - k,
        {
            data.push(arr[k]);
            k += 1;
            assert(data@ =~= arr@.subrange(0, k as int));
        }
        assert(arr@.subrange(0, arr@.len() as int) =~= arr@);
        Self::new(data, shape)
    }

    /// A matrix of the given shape whose elements are drawn at random from
    /// `start` to `end`, both included.
    pub fn randomize_range(start: T, end: T, shape: Shape) -> (m: Self)
        requires
            start.value() <= end.value(),
            shape.0 * shape.1 <= usize::MAX,
        ensures
            m.rows() == shape.0,
            m.cols() == shape.1,
            m@.len() == shape.0 * shape.1,
            forall|k: int|
                0 <= k < m@.len() ==> start.value() <= (#[trigger] m@[k]).value() <= end.value(),
    {
        let len: usize = shape.0 * shape.1;
        let mut data: Vec<T> = Vec::new();
        let mut k: usize = 0;
        while k < len
            invariant
                start.value() <= end.value(),
                k <= len,
                data@.len() == k,
                forall|t: int|
                    0 <= t < data@.len() ==> start.value() <= (#[trigger] data@[t]).value()
                        <= end.value(),
            decreases len - k,
        {
            data.push(T::random_between(start, end));
            k += 1;
        }
        Matrix { data, nrows: shape.0, ncols: shape.1 }
    }

    /// A matrix of the given shape whose elements are drawn at random from
    /// 0 and 1.
    pub fn randomize(shape: Shape) -> (m: Self)
        requires
            shape.0 * shape.1 <= usize::MAX,
        ensures
            m.rows() == shape.0,
            m.cols() == shape.1,
            m@.len() == shape.0 * shape.1,
            forall|k: int| 0 <= k < m@.len() ==> 0 <= (#[trigger] m@[k]).value() <= 1,
    {
        Self::randomize_range(T::zero(), T::one(), shape)
    }

    /// A matrix of the shape of `matrix` whose elements are drawn at random
    /// from 0 and 1.
    pub fn random_like(matrix: &Self) -> (m: Self)
        ensures
            m.rows() == matrix.rows(),
            m.cols() == matrix.cols(),
            m@.len() == matrix@.len(),
            forall|k: int| 0 <= k < m@.len() ==> 0 <= (#[trigger] m@[k]).value() <= 1,
    {
        proof {
            use_type_invariant(matrix);
            matrix.lemma_shape_fits();
        }
        Self::randomize_range(T::zero(), T::one(), matrix.shape())
    }

    /// The element in row `i`, column `j`, or `None` where the matrix has no
    /// such cell.
    pub fn get(&self, i: usize, j: usize) -> (r: Option<T>)
        ensures
            r == (if self.in_bounds(i as int, j as int) {
                Some(self.cell(i as int, j as int))
            } else {
                None
            }),
    {
        if i < self.nrows && j < self.ncols {
            Some(self.at(i, j))
        } else {
            None
        }
    }

    /// The element in row `i`, column `j` of the matrix.
    pub fn at(&self, i: usize, j: usize) -> (r: T)
        requires
            self.in_bounds(i as int, j as int),
        ensures
            r == self.cell(i as int, j as int),
            r.value() == self.entry(i as int, j as int),
    {
        proof {
            use_type_invariant(self);
            self.lemma_shape_fits();
            lemma_flat(i as int, j as int, self.nrows as int, self.ncols as int);
        }
        self.data[i * self.ncols + j]
    }

    /// Stores `value` in the cell `idx`. Fails, with
    /// `MatrixIndexOutOfBoundsError`, exactly when the matrix has no such
    /// cell, and then stays as it was.
    pub fn set(&mut self, value: T, idx: Shape) -> (r: Result<(), MatrixError>)
        ensures
            final(self).rows() == old(self).rows(),
            final(self).cols() == old(self).cols(),
            final(self)@.len() == old(self)@.len(),
            match r {
                Ok(_) => old(self).in_bounds(idx.0 as int, idx.1 as int) && final(self)@ == old(
                    self,
                )@.update(flat(idx.0 as int, idx.1 as int, old(self).cols() as int), value),
                Err(e) => !old(self).in_bounds(idx.0 as int, idx.1 as int) && final(self)@ == old(
                    self,
                )@ && e == MatrixError::MatrixIndexOutOfBoundsError,
            },
    {
        proof {
            use_type_invariant(&*self);
        }
        if idx.0 < self.nrows && idx.1 < self.ncols {
            proof {
                self.lemma_shape_fits();
                lemma_flat(idx.0 as int, idx.1 as int, self.nrows as int, self.ncols as int);
            }
            let k = idx.0 * self.ncols + idx.1;
            self.data[k] = value;
            Ok(())
        } else {
            Err(MatrixError::MatrixIndexOutOfBoundsError)
        }
    }

    /// A copy of the elements in row-major order.
    pub fn get_vec(&self) -> (v: Vec<T>)
        ensures
            v@ == self@,
    {
        copy_of(&self.data)
    }

    /// Row and column of the cell that lies at place `idx` of the buffer.
    pub fn one_to_2d_idx(&self, idx: usize) -> (s: Shape)
        requires
            self.cols() > 0,
        ensures
            s.0 == idx as int / self.cols() as int,
            s.1 == idx as int % self.cols() as int,
            idx < self@.len() ==> self.in_bounds(s.0 as int, s.1 as int) && flat(
                s.0 as int,
                s.1 as int,
                self.cols() as int,
            ) == idx,
    {
        proof {
            use_type_invariant(self);
            if idx < self@.len() {
                lemma_unflat(idx as int, self.nrows as int, self.ncols as int);
            }
        }
        (idx / self.ncols, idx % self.ncols)
    }

    /// Gives the matrix a new shape over the same buffer. Fails, with
    /// `MatrixDimensionMismatchError`, exactly when the new shape does not
    /// have as many cells as the matrix, which then stays as it was.
    pub fn reshape(&mut self, nrows: usize, ncols: usize) -> (r: Result<(), MatrixError>)
        ensures
            final(self)@ == old(self)@,
            match r {
                Ok(_) => nrows * ncols == old(self)@.len() && final(self).rows() == nrows
                    && final(self).cols() == ncols,
                Err(e) => nrows * ncols != old(self)@.len() && final(self).rows() == old(
                    self,
                ).rows() && final(self).cols() == old(self).cols() && e
                    == MatrixError::MatrixDimensionMismatchError,
            },
    {
        proof {
            use_type_invariant(&*self);
        }
        let len = self.data.len();
        match nrows.checked_mul(ncols) {
            Some(n) => {
                if n == len {
                    let data = copy_of(&self.data);
                    *self = Matrix { data, nrows, ncols };
                    Ok(())
                } else {
                    Err(MatrixError::MatrixDimensionMismatchError)
                }
            },
            None => Err(MatrixError::MatrixDimensionMismatchError),
        }
    }
}

impl<T: MatrixElement> Matrix<T> {
    /// Whether `self` is `other` with rows and columns exchanged.
    pub open spec fn is_transpose_of(&self, other: &Self) -> bool {
        &&& self.rows() == other.cols()
        &&& self.cols() == other.rows()
        &&& forall|i: int, j: int|
            0 <= i < other.rows() && 0 <= j < other.cols() ==> #[trigger] self.cell(j, i)
                == other.cell(i, j)
    }

    /// Transposing twice gives the matrix back.
    pub proof fn lemma_transpose_involution(&self, once: &Self, twice: &Self)
        requires
            self.wf(),
            once.wf(),
            twice.wf(),
            once.is_transpose_of(self),
            twice.is_transpose_of(once),
        ensures
            twice.same(self),
    {
        let rows = self.rows() as int;
        let cols = self.cols() as int;
        assert forall|k: int| 0 <= k < self@.len() implies twice@[k] == self@[k] by {
            lemma_unflat(k, rows, cols);
            let i = k / cols;
            let j = k % cols;
            assert(once.cell(j, i) == self.cell(i, j));
            assert(twice.cell(i, j) == once.cell(j, i));
        }
    }

    /// The transposed matrix.
    pub fn transpose_copy(&self) -> (t: Self)
        ensures
            t.wf(),
            t.is_transpose_of(self),
    {
        proof {
            use_type_invariant(self);
            self.lemma_shape_fits();
        }
        let m = self.nrows;
        let n = self.ncols;
        let mut out: Vec<T> = Vec::new();
        let mut j: usize = 0;
        while j < n
            invariant
                self.wf(),
                m == self.rows(),
                n == self.cols(),
                m * n <= usize::MAX,
                j <= n,
                out@.len() == j * m,
                forall|k: int|
                    0 <= k < out@.len() ==> #[trigger] out@[k] == self.cell(
                        k % (m as int),
                        k / (m as int),
                    ),
            decreases n - j,
        {
            let mut i: usize = 0;
            while i < m
                invariant
                    self.wf(),
                    m == self.rows(),
                    n == self.cols(),
                    m * n <= usize::MAX,
                    j < n,
                    i <= m,
                    out@.len() == j * m + i,
                    forall|k: int|
                        0 <= k < out@.len() ==> #[trigger] out@[k] == self.cell(
                            k % (m as int),
                            k / (m as int),
                        ),
                decreases m - i,
            {
                proof {
                    lemma_flat(j as int, i as int, n as int, m as int);
                }
                out.push(self.at(i, j));
                i += 1;
            }
            assert(j * m + m == (j + 1) * m) by (nonlinear_arith);
            j += 1;
        }
        proof {
            lemma_mul_is_commutative(n as int, m as int);
        }
        let t = Matrix { data: out, nrows: n, ncols: m };
        proof {
            assert forall|i: int, j: int| 0 <= i < self.rows() && 0 <= j < self.cols() implies #[trigger] t.cell(
                j,
                i,
            ) == self.cell(i, j) by {
                lemma_flat(j, i, n as int, m as int);
            }
        }
        t
    }

    /// Exchanges rows and columns.
    pub fn transpose(&mut self)
        ensures
            final(self).wf(),
            final(self).is_transpose_of(old(self)),
    {
        let t = self.transpose_copy();
        *self = t;
    }

    /// Exchanges rows and columns.
    pub fn t(&mut self)
        ensures
            final(self).wf(),
            final(self).is_transpose_of(old(self)),
    {
        self.transpose()
    }
}

impl<T: MatrixElement> Clone for Matrix<T> {
    /// A matrix of the same shape with the same elements.
    fn clone(&self) -> (m: Self)
        ensures
            m.same(self),
    {
        proof {
            use_type_invariant(self);
        }
        Matrix { data: copy_of(&self.data), nrows: self.nrows, ncols: self.ncols }
    }
}

impl<T: MatrixElement> Default for Matrix<T> {
    /// The identity matrix of size 3.
    fn default() -> (m: Self)
        ensures
            m.rows() == 3,
            m.cols() == 3,
            m.wf(),
            forall|i: int, j: int|
                0 <= i < 3 && 0 <= j < 3 ==> #[trigger] m.entry(i, j) == (if i == j {
                    1int
                } else {
                    0int
                }),
    {
        Self::eye(3)
    }
}

/// A vector of `len` copies of `value`.
pub fn filled<T: Copy>(value: T, len: usize) -> (v: Vec<T>)
    ensures
        v@ == Seq::new(len as nat, |k: int| value),
{
    let mut v: Vec<T> = Vec::new();
    let mut k: usize = 0;
    while k < len
        invariant
            k <= len,
            v@ == Seq::new(k as nat, |k: int| value),
        decreases len - k,
    {
        v.push(value);
        k += 1;
        assert(v@ =~= Seq::new(k as nat, |k: int| value));
    }
    v
}

/// A vector with the elements of `src`.
pub fn copy_of<T: Copy>(src: &Vec<T>) -> (v: Vec<T>)
    ensures
        v@ == src@,
{
    let mut v: Vec<T> = Vec::new();
    let mut k: usize = 0;
    while k < src.len()
        invariant
            k <= src@.len(),
            v@ == src@.subrange(0, k as int),
        decreases src@.len() - k,
    {
        v.push(src[k]);
        k += 1;
        assert(v@ =~= src@.subrange(0, k as int));
    }
    assert(src@.subrange(0, src@.len() as int) =~= src@);
    v
}

} // verus!
