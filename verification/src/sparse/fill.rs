//! Sparse matrices with cells chosen at random.

use vstd::prelude::*;
use crate::common::MatrixElement;
use crate::matrix::Shape;
use crate::random::random_in;
use crate::sparse::SparseMatrix;

verus! {

impl<T: MatrixElement> SparseMatrix<T> {
    /// Whether every stored element lies between `start` and `end`, both
    /// included.
    pub open spec fn within(&self, start: T, end: T) -> bool {
        forall|p: (int, int)| #[trigger]
            self@.contains_key(p) ==> start.value() <= self@[p].value() <= end.value()
    }

    /// A sparse matrix of the given shape with cells chosen at random and
    /// elements drawn at random from `start` to `end`, both included.
    ///
    /// Cells are drawn until `filled` of them are stored. A draw that hits
    /// a stored cell, or that draws a zero, stores nothing, so the number
    /// of draws is not known beforehand; it is limited to the largest
    /// number that 64 bits hold.
    pub fn randomize_range(start: T, end: T, filled: usize, shape: Shape) -> (m: Self)
        requires
            start.value() <= end.value(),
        ensures
            m.wf(),
            m.rows() == shape.0,
            m.cols() == shape.1,
            m@.len() <= filled,
            m.within(start, end),
    {
        let mut m = Self::init(shape.0, shape.1);
        if shape.0 == 0 || shape.1 == 0 {
            return m;
        }
        let mut stored: usize = 0;
        let mut draws: u64 = 0;
        while stored < filled && draws < u64::MAX
            invariant
                start.value() <= end.value(),
                shape.0 > 0,
                shape.1 > 0,
                m.wf(),
                m.rows() == shape.0,
                m.cols() == shape.1,
                m@.dom().finite(),
                stored == m@.len(),
                stored <= filled,
                m.within(start, end),
            decreases u64::MAX - draws,
        {
            draws += 1;
            let value = T::random_between(start, end);
            let row = random_in(0, (shape.0 - 1) as i128) as usize;
            let col = random_in(0, (shape.1 - 1) as i128) as usize;
            let ghost before = m;
            let zero = T::zero();
            let present = m.at(row, col);
            if present.equals(zero) && !value.equals(zero) {
                proof {
                    before.lemma_valid();
                    if value.value() == 0 {
                        value.lemma_value_injective(zero);
                    }
                }
                let _ = m.set(value, (row, col));
                proof {
                    assert(!before@.contains_key((row as int, col as int)));
                    assert(m@ =~= before@.insert((row as int, col as int), value));
                    assert(m@.dom() =~= before@.dom().insert((row as int, col as int)));
                }
                stored += 1;
            }
        }
        m
    }

    /// A sparse matrix of the given shape with cells chosen at random and
    /// elements drawn at random from 0 and 1; see `randomize_range`.
    pub fn randomize(filled: usize, shape: Shape) -> (m: Self)
        ensures
            m.wf(),
            m.rows() == shape.0,
            m.cols() == shape.1,
            m@.len() <= filled,
            forall|p: (int, int)| #[trigger] m@.contains_key(p) ==> m@[p].value() == 1,
    {
        let zero = T::zero();
        let one = T::one();
        let m = Self::randomize_range(zero, one, filled, shape);
        proof {
            m.lemma_valid();
            assert forall|p: (int, int)| #[trigger] m@.contains_key(p) implies m@[p].value()
                == 1 by {
                assert(zero.value() <= m@[p].value() <= one.value());
            }
        }
        m
    }

    /// A sparse matrix of the given shape with cells chosen at random that
    /// all hold 1; see `randomize_range`.
    pub fn ones(filled: usize, shape: Shape) -> (m: Self)
        ensures
            m.wf(),
            m.rows() == shape.0,
            m.cols() == shape.1,
            m@.len() <= filled,
            forall|p: (int, int)| #[trigger] m@.contains_key(p) ==> m@[p].value() == 1,
    {
        let one = T::one();
        let m = Self::randomize_range(one, one, filled, shape);
        proof {
            assert forall|p: (int, int)| #[trigger] m@.contains_key(p) implies m@[p].value()
                == 1 by {
                assert(one.value() <= m@[p].value() <= one.value());
            }
        }
        m
    }

    /// A sparse matrix of the shape of `matrix`, with as many stored cells
    /// at most, chosen at random, and elements drawn at random from `start`
    /// to `end`; see `randomize_range`.
    pub fn randomize_range_like(start: T, end: T, matrix: &Self) -> (m: Self)
        requires
            matrix.wf(),
            start.value() <= end.value(),
        ensures
            m.wf(),
            m.same_shape(matrix),
            m@.len() <= matrix@.len(),
            m.within(start, end),
    {
        let filled = matrix.stored();
        Self::randomize_range(start, end, filled, matrix.shape())
    }

    /// A sparse matrix of the shape of `matrix`, with as many stored cells
    /// at most, chosen at random, that all hold 1; see `randomize_range`.
    pub fn random_like(matrix: &Self) -> (m: Self)
        requires
            matrix.wf(),
        ensures
            m.wf(),
            m.same_shape(matrix),
            m@.len() <= matrix@.len(),
            forall|p: (int, int)| #[trigger] m@.contains_key(p) ==> m@[p].value() == 1,
    {
        let filled = matrix.stored();
        Self::randomize(filled, matrix.shape())
    }
}

} // verus!
