//! Arithmetic on sparse matrices.

use vstd::prelude::*;
use crate::common::{lemma_wrap_exact, wrap, MatrixElement, Operation};
use crate::error::MatrixError;
use crate::sparse::SparseMatrix;

verus! {

impl<T: MatrixElement> SparseMatrix<T> {
    /// What the element-wise operations on two sparse matrices return: the
    /// combination where the shapes agree, `MatrixDimensionMismatchError`
    /// where they do not.
    pub open spec fn zip_result(
        &self,
        other: &Self,
        op: Operation,
        r: Result<Self, MatrixError>,
    ) -> bool {
        match r {
            Ok(m) => self.same_shape(other) && m.wf() && m.is_combination_of(op, self, other),
            Err(e) => !self.same_shape(other) && e == MatrixError::MatrixDimensionMismatchError,
        }
    }

    /// What the element-wise operations that change `self` return and
    /// leave: the combination where the shapes agree, and
    /// `MatrixDimensionMismatchError` with `self` as it was where they do
    /// not.
    pub open spec fn zip_self_result(
        before: &Self,
        after: &Self,
        other: &Self,
        op: Operation,
        r: Result<(), MatrixError>,
    ) -> bool {
        &&& after.wf()
        &&& match r {
            Ok(_) => before.same_shape(other) && after.is_combination_of(op, before, other),
            Err(e) => !before.same_shape(other) && after.same(before) && e
                == MatrixError::MatrixDimensionMismatchError,
        }
    }

    /// The element-wise sum.
    pub fn add(&self, other: &Self) -> (r: Result<Self, MatrixError>)
        requires
            self.wf(),
            other.wf(),
        ensures
            self.zip_result(other, Operation::ADD, r),
    {
        self.sparse_helper(other, Operation::ADD)
    }

    /// The element-wise difference of the cells that both matrices store;
    /// a cell that only one stores is taken over as it is.
    pub fn sub(&self, other: &Self) -> (r: Result<Self, MatrixError>)
        requires
            self.wf(),
            other.wf(),
        ensures
            self.zip_result(other, Operation::SUB, r),
    {
        self.sparse_helper(other, Operation::SUB)
    }

    /// The element-wise product of the cells that both matrices store; a
    /// cell that only one stores is taken over as it is.
    pub fn mul(&self, other: &Self) -> (r: Result<Self, MatrixError>)
        requires
            self.wf(),
            other.wf(),
        ensures
            self.zip_result(other, Operation::MUL, r),
    {
        self.sparse_helper(other, Operation::MUL)
    }

    /// Another name of `mul`.
    pub fn dot(&self, other: &Self) -> (r: Result<Self, MatrixError>)
        requires
            self.wf(),
            other.wf(),
        ensures
            self.zip_result(other, Operation::MUL, r),
    {
        self.mul(other)
    }

    /// The element-wise quotient, rounded towards zero, of the cells that
    /// both matrices store; a cell that only one stores is taken over as it
    /// is.
    pub fn div(&self, other: &Self) -> (r: Result<Self, MatrixError>)
        requires
            self.wf(),
            other.wf(),
        ensures
            self.zip_result(other, Operation::DIV, r),
    {
        self.sparse_helper(other, Operation::DIV)
    }

    /// Adds `other` to `self`.
    pub fn add_self(&mut self, other: &Self) -> (r: Result<(), MatrixError>)
        requires
            old(self).wf(),
            other.wf(),
        ensures
            Self::zip_self_result(old(self), final(self), other, Operation::ADD, r),
    {
        self.sparse_helper_self(other, Operation::ADD)
    }

    /// Subtracts `other` from `self`, as `sub` does.
    pub fn sub_self(&mut self, other: &Self) -> (r: Result<(), MatrixError>)
        requires
            old(self).wf(),
            other.wf(),
        ensures
            Self::zip_self_result(old(self), final(self), other, Operation::SUB, r),
    {
        self.sparse_helper_self(other, Operation::SUB)
    }

    /// Multiplies `self` by `other`, as `mul` does.
    pub fn mul_self(&mut self, other: &Self) -> (r: Result<(), MatrixError>)
        requires
            old(self).wf(),
            other.wf(),
        ensures
            Self::zip_self_result(old(self), final(self), other, Operation::MUL, r),
    {
        self.sparse_helper_self(other, Operation::MUL)
    }

    /// Divides `self` by `other`, as `div` does.
    pub fn div_self(&mut self, other: &Self) -> (r: Result<(), MatrixError>)
        requires
            old(self).wf(),
            other.wf(),
        ensures
            Self::zip_self_result(old(self), final(self), other, Operation::DIV, r),
    {
        self.sparse_helper_self(other, Operation::DIV)
    }

    /// `value` added to every stored cell.
    pub fn add_val(&self, value: T) -> (m: Self)
        requires
            self.wf(),
        ensures
            m.wf(),
            m.is_broadcast_of(Operation::ADD, self, value),
    {
        self.sparse_helper_val(value, Operation::ADD)
    }

    /// `value` subtracted from every stored cell.
    pub fn sub_val(&self, value: T) -> (m: Self)
        requires
            self.wf(),
        ensures
            m.wf(),
            m.is_broadcast_of(Operation::SUB, self, value),
    {
        self.sparse_helper_val(value, Operation::SUB)
    }

    /// Every stored cell multiplied by `value`.
    pub fn mul_val(&self, value: T) -> (m: Self)
        requires
            self.wf(),
        ensures
            m.wf(),
            m.is_broadcast_of(Operation::MUL, self, value),
    {
        self.sparse_helper_val(value, Operation::MUL)
    }

    /// Every stored cell divided by `value`, rounded towards zero.
    pub fn div_val(&self, value: T) -> (m: Self)
        requires
            self.wf(),
            value.value() != 0,
        ensures
            m.wf(),
            m.is_broadcast_of(Operation::DIV, self, value),
    {
        self.sparse_helper_val(value, Operation::DIV)
    }

    /// Adds `value` to every stored cell.
    pub fn add_val_self(&mut self, value: T)
        requires
            old(self).wf(),
        ensures
            final(self).wf(),
            final(self).is_broadcast_of(Operation::ADD, old(self), value),
    {
        self.sparse_helper_self_val(value, Operation::ADD)
    }

    /// Subtracts `value` from every stored cell.
    pub fn sub_val_self(&mut self, value: T)
        requires
            old(self).wf(),
        ensures
            final(self).wf(),
            final(self).is_broadcast_of(Operation::SUB, old(self), value),
    {
        self.sparse_helper_self_val(value, Operation::SUB)
    }

    /// Multiplies every stored cell by `value`.
    pub fn mul_val_self(&mut self, value: T)
        requires
            old(self).wf(),
        ensures
            final(self).wf(),
            final(self).is_broadcast_of(Operation::MUL, old(self), value),
    {
        self.sparse_helper_self_val(value, Operation::MUL)
    }

    /// Divides every stored cell by `value`, rounding towards zero.
    pub fn div_val_self(&mut self, value: T)
        requires
            old(self).wf(),
            value.value() != 0,
        ensures
            final(self).wf(),
            final(self).is_broadcast_of(Operation::DIV, old(self), value),
    {
        self.sparse_helper_self_val(value, Operation::DIV)
    }

    /// Every cell with its sign changed.
    pub fn neg(&self) -> (m: Self)
        requires
            self.wf(),
        ensures
            m.wf(),
            m.same_shape(self),
            forall|i: int, j: int| #[trigger] m.entry(i, j) == wrap::<T>(-self.entry(i, j)),
    {
        let zero = T::zero();
        let minus_one = zero.wrapping_sub(T::one());
        proof {
            T::lemma_modulus();
            lemma_wrap_exact(-1, T::modulus());
            lemma_wrap_exact(0, T::modulus());
        }
        let m = self.sparse_helper_val(minus_one, Operation::MUL);
        proof {
            assert forall|i: int, j: int| #[trigger] m.entry(i, j) == wrap::<T>(
                -self.entry(i, j),
            ) by {
                assert(self.entry(i, j) * (-1) == -self.entry(i, j));
            }
        }
        m
    }
}

} // verus!
