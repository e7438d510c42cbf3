//! Element-wise arithmetic on dense matrices.

use vstd::prelude::*;
use crate::common::{lemma_wrap_value, power, power_of, wrap, MatrixElement, Operation};
use crate::error::MatrixError;
use crate::matrix::Matrix;
use crate::parallel::par_map_range;

verus! {

impl<T: MatrixElement> Matrix<T> {
    /// Whether the two matrices have the same shape.
    pub open spec fn same_shape(&self, other: &Self) -> bool {
        self.rows() == other.rows() && self.cols() == other.cols()
    }

    /// Whether `self` holds, place by place, what `op` makes of the
    /// elements of `lhs` and `rhs`.
    pub open spec fn is_zip_of(&self, op: Operation, lhs: &Self, rhs: &Self) -> bool {
        &&& self.same_shape(lhs)
        &&& self@.len() == lhs@.len()
        &&& forall|k: int|
            0 <= k < self@.len() ==> (#[trigger] self@[k]).value() == wrap::<T>(
                op.exact(lhs@[k].value(), rhs@[k].value()),
            )
    }

    /// Whether `self` holds, place by place, what `op` makes of the
    /// elements of `lhs` and the number `val`.
    pub open spec fn is_map_of(&self, op: Operation, lhs: &Self, val: T) -> bool {
        &&& self.same_shape(lhs)
        &&& self@.len() == lhs@.len()
        &&& forall|k: int|
            0 <= k < self@.len() ==> (#[trigger] self@[k]).value() == wrap::<T>(
                op.exact(lhs@[k].value(), val.value()),
            )
    }

    /// Whether some element is zero.
    pub open spec fn holds_zero(&self) -> bool {
        exists|k: int| 0 <= k < self@.len() && (#[trigger] self@[k]).value() == 0
    }

    /// Whether some element is zero.
    pub fn has_zero(&self) -> (r: bool)
        ensures
            r == self.holds_zero(),
    {
        let zero = T::zero();
        let mut k: usize = 0;
        while k < self.data.len()
            invariant
                k <= self@.len(),
                zero.value() == 0,
                forall|t: int| 0 <= t < k ==> (#[trigger] self@[t]).value() != 0,
            decreases self@.len() - k,
        {
            if self.data[k].equals(zero) {
                return true;
            }
            proof {
                if self@[k as int].value() == 0 {
                    self@[k as int].lemma_value_injective(zero);
                }
            }
            k += 1;
        }
        false
    }

    /// Combines the two matrices place by place.
    fn zip_with(&self, other: &Self, op: Operation) -> (r: Self)
        requires
            self.same_shape(other),
            op is DIV ==> !other.holds_zero(),
        ensures
            r.is_zip_of(op, self, other),
    {
        proof {
            use_type_invariant(self);
            use_type_invariant(other);
        }
        let n = self.data.len();
        let combine = |k: usize| -> (t: T)
            requires
                k < n,
            ensures
                t.value() == wrap::<T>(op.exact(self@[k as int].value(), other@[k as int].value())),
            { op.apply(self.data[k], other.data[k]) };
        let data = par_map_range(0, n, combine);
        Matrix { data, nrows: self.nrows, ncols: self.ncols }
    }

    /// Combines every element with `val`.
    fn map_with(&self, op: Operation, val: T) -> (r: Self)
        requires
            op.defined_on(val.value()),
        ensures
            r.is_map_of(op, self, val),
    {
        proof {
            use_type_invariant(self);
        }
        let n = self.data.len();
        let combine = |k: usize| -> (t: T)
            requires
                k < n,
            ensures
                t.value() == wrap::<T>(op.exact(self@[k as int].value(), val.value())),
            { op.apply(self.data[k], val) };
        let data = par_map_range(0, n, combine);
        Matrix { data, nrows: self.nrows, ncols: self.ncols }
    }

    /// What the element-wise operations on two matrices return: the
    /// combination where the shapes agree, `MatrixDimensionMismatchError`
    /// where they do not.
    pub open spec fn zip_result(
        &self,
        other: &Self,
        op: Operation,
        r: Result<Self, MatrixError>,
    ) -> bool {
        match r {
            Ok(m) => self.same_shape(other) && m.is_zip_of(op, self, other),
            Err(e) => !self.same_shape(other) && e == MatrixError::MatrixDimensionMismatchError,
        }
    }

    /// The element-wise sum.
    pub fn add(&self, other: &Self) -> (r: Result<Self, MatrixError>)
        ensures
            self.zip_result(other, Operation::ADD, r),
    {
        if self.nrows != other.nrows || self.ncols != other.ncols {
            return Err(MatrixError::MatrixDimensionMismatchError);
        }
        Ok(self.zip_with(other, Operation::ADD))
    }

    /// The element-wise difference.
    pub fn sub(&self, other: &Self) -> (r: Result<Self, MatrixError>)
        ensures
            self.zip_result(other, Operation::SUB, r),
    {
        if self.nrows != other.nrows || self.ncols != other.ncols {
            return Err(MatrixError::MatrixDimensionMismatchError);
        }
        Ok(self.zip_with(other, Operation::SUB))
    }

    /// The element-wise product.
    pub fn mul(&self, other: &Self) -> (r: Result<Self, MatrixError>)
        ensures
            self.zip_result(other, Operation::MUL, r),
    {
        if self.nrows != other.nrows || self.ncols != other.ncols {
            return Err(MatrixError::MatrixDimensionMismatchError);
        }
        Ok(self.zip_with(other, Operation::MUL))
    }

    /// The element-wise product; another name of `mul`.
    pub fn dot(&self, other: &Self) -> (r: Result<Self, MatrixError>)
        ensures
            self.zip_result(other, Operation::MUL, r),
    {
        self.mul(other)
    }

    /// The element-wise quotient, rounded towards zero. Fails with
    /// `MatrixDimensionMismatchError` where the shapes differ, and with
    /// `MatrixDivideByZeroError` where they agree and `other` holds a zero.
    pub fn div(&self, other: &Self) -> (r: Result<Self, MatrixError>)
        ensures
            match r {
                Ok(m) => self.same_shape(other) && !other.holds_zero() && m.is_zip_of(
                    Operation::DIV,
                    self,
                    other,
                ),
                Err(e) => e == (if !self.same_shape(other) {
                    MatrixError::MatrixDimensionMismatchError
                } else {
                    MatrixError::MatrixDivideByZeroError
                }) && (self.same_shape(other) ==> other.holds_zero()),
            },
    {
        if self.nrows != other.nrows || self.ncols != other.ncols {
            return Err(MatrixError::MatrixDimensionMismatchError);
        }
        if other.has_zero() {
            return Err(MatrixError::MatrixDivideByZeroError);
        }
        Ok(self.zip_with(other, Operation::DIV))
    }

    /// The element-wise distance: the larger element minus the smaller.
    pub fn sub_abs(&self, other: &Self) -> (r: Result<Self, MatrixError>)
        ensures
            match r {
                Ok(m) => {
                    &&& self.same_shape(other)
                    &&& m.same_shape(self)
                    &&& m@.len() == self@.len()
                    &&& forall|k: int|
                        0 <= k < m@.len() ==> (#[trigger] m@[k]).value() == wrap::<T>(
                            if self@[k].value() > other@[k].value() {
                                self@[k].value() - other@[k].value()
                            } else {
                                other@[k].value() - self@[k].value()
                            },
                        )
                },
                Err(e) => !self.same_shape(other) && e == MatrixError::MatrixDimensionMismatchError,
            },
    {
        if self.nrows != other.nrows || self.ncols != other.ncols {
            return Err(MatrixError::MatrixDimensionMismatchError);
        }
        proof {
            use_type_invariant(self);
            use_type_invariant(other);
        }
        let n = self.data.len();
        let distance = |k: usize| -> (t: T)
            requires
                k < n,
            ensures
                t.value() == wrap::<T>(
                    if self@[k as int].value() > other@[k as int].value() {
                        self@[k as int].value() - other@[k as int].value()
                    } else {
                        other@[k as int].value() - self@[k as int].value()
                    },
                ),
            {
                let x = self.data[k];
                let y = other.data[k];
                if y.less_than(x) {
                    x.wrapping_sub(y)
                } else {
                    y.wrapping_sub(x)
                }
            };
        let data = par_map_range(0, n, distance);
        Ok(Matrix { data, nrows: self.nrows, ncols: self.ncols })
    }

    /// Every element with its sign changed.
    pub fn neg(&self) -> (r: Self)
        ensures
            r.same_shape(self),
            r@.len() == self@.len(),
            forall|k: int|
                0 <= k < r@.len() ==> (#[trigger] r@[k]).value() == wrap::<T>(-self@[k].value()),
    {
        proof {
            use_type_invariant(self);
        }
        let n = self.data.len();
        let zero = T::zero();
        let negate = |k: usize| -> (t: T)
            requires
                k < n,
            ensures
                t.value() == wrap::<T>(-self@[k as int].value()),
            { zero.wrapping_sub(self.data[k]) };
        let data = par_map_range(0, n, negate);
        Matrix { data, nrows: self.nrows, ncols: self.ncols }
    }

    /// The absolute value of every element.
    pub fn abs(&self) -> (r: Self)
        ensures
            r.same_shape(self),
            r@.len() == self@.len(),
            forall|k: int|
                0 <= k < r@.len() ==> (#[trigger] r@[k]).value() == wrap::<T>(
                    if self@[k].value() < 0 {
                        -self@[k].value()
                    } else {
                        self@[k].value()
                    },
                ),
    {
        proof {
            use_type_invariant(self);
        }
        let n = self.data.len();
        let zero = T::zero();
        let magnitude = |k: usize| -> (t: T)
            requires
                k < n,
            ensures
                t.value() == wrap::<T>(
                    if self@[k as int].value() < 0 {
                        -self@[k as int].value()
                    } else {
                        self@[k as int].value()
                    },
                ),
            {
                let x = self.data[k];
                proof {
                    lemma_wrap_value(x);
                }
                if x.less_than(zero) {
                    zero.wrapping_sub(x)
                } else {
                    x
                }
            };
        let data = par_map_range(0, n, magnitude);
        Matrix { data, nrows: self.nrows, ncols: self.ncols }
    }

    /// Every element raised to the power `val`.
    pub fn pow(&self, val: usize) -> (r: Self)
        ensures
            r.same_shape(self),
            r@.len() == self@.len(),
            forall|k: int|
                0 <= k < r@.len() ==> (#[trigger] r@[k]).value() == wrap::<T>(
                    power_of(self@[k].value(), val as nat),
                ),
    {
        proof {
            use_type_invariant(self);
        }
        let n = self.data.len();
        let raise = |k: usize| -> (t: T)
            requires
                k < n,
            ensures
                t.value() == wrap::<T>(power_of(self@[k as int].value(), val as nat)),
            { power(self.data[k], val) };
        let data = par_map_range(0, n, raise);
        Matrix { data, nrows: self.nrows, ncols: self.ncols }
    }

    /// Replaces every element by its absolute value.
    pub fn abs_self(&mut self)
        ensures
            final(self).same_shape(old(self)),
            final(self)@.len() == old(self)@.len(),
            forall|k: int|
                0 <= k < final(self)@.len() ==> (#[trigger] final(self)@[k]).value() == wrap::<T>(
                    if old(self)@[k].value() < 0 {
                        -old(self)@[k].value()
                    } else {
                        old(self)@[k].value()
                    },
                ),
    {
        let r = self.abs();
        *self = r;
    }

    /// `val` added to every element.
    pub fn add_val(&self, val: T) -> (r: Self)
        ensures
            r.is_map_of(Operation::ADD, self, val),
    {
        self.map_with(Operation::ADD, val)
    }

    /// `val` subtracted from every element.
    pub fn sub_val(&self, val: T) -> (r: Self)
        ensures
            r.is_map_of(Operation::SUB, self, val),
    {
        self.map_with(Operation::SUB, val)
    }

    /// Every element multiplied by `val`.
    pub fn mul_val(&self, val: T) -> (r: Self)
        ensures
            r.is_map_of(Operation::MUL, self, val),
    {
        self.map_with(Operation::MUL, val)
    }

    /// Every element divided by `val`, rounded towards zero.
    pub fn div_val(&self, val: T) -> (r: Self)
        requires
            val.value() != 0,
        ensures
            r.is_map_of(Operation::DIV, self, val),
    {
        self.map_with(Operation::DIV, val)
    }

    /// Adds `val` to every element.
    pub fn add_val_self(&mut self, val: T)
        ensures
            final(self).is_map_of(Operation::ADD, old(self), val),
    {
        let r = self.map_with(Operation::ADD, val);
        *self = r;
    }

    /// Subtracts `val` from every element.
    pub fn sub_val_self(&mut self, val: T)
        ensures
            final(self).is_map_of(Operation::SUB, old(self), val),
    {
        let r = self.map_with(Operation::SUB, val);
        *self = r;
    }

    /// Multiplies every element by `val`.
    pub fn mul_val_self(&mut self, val: T)
        ensures
            final(self).is_map_of(Operation::MUL, old(self), val),
    {
        let r = self.map_with(Operation::MUL, val);
        *self = r;
    }

    /// Divides every element by `val`, rounding towards zero.
    pub fn div_val_self(&mut self, val: T)
        requires
            val.value() != 0,
        ensures
            final(self).is_map_of(Operation::DIV, old(self), val),
    {
        let r = self.map_with(Operation::DIV, val);
        *self = r;
    }

    /// What the element-wise operations that change `self` return and
    /// leave: the combination where the shapes agree, and
    /// `MatrixDimensionMismatchError` with `self` as it was where they do
    /// not.
    pub open spec fn zip_self_result(
        before: &Self,
        after: &Self,
        other: &Self,
        op: Operation,
        r: Result<(), MatrixError>,
    ) -> bool {
        match r {
            Ok(_) => before.same_shape(other) && after.is_zip_of(op, before, other),
            Err(e) => !before.same_shape(other) && after.same(before) && e
                == MatrixError::MatrixDimensionMismatchError,
        }
    }

    /// Adds `other` to `self`, place by place.
    pub fn add_self(&mut self, other: &Self) -> (r: Result<(), MatrixError>)
        ensures
            Self::zip_self_result(old(self), final(self), other, Operation::ADD, r),
    {
        if self.nrows != other.nrows || self.ncols != other.ncols {
            return Err(MatrixError::MatrixDimensionMismatchError);
        }
        let sum = self.zip_with(other, Operation::ADD);
        *self = sum;
        Ok(())
    }

    /// Subtracts `other` from `self`, place by place.
    pub fn sub_self(&mut self, other: &Self) -> (r: Result<(), MatrixError>)
        ensures
            Self::zip_self_result(old(self), final(self), other, Operation::SUB, r),
    {
        if self.nrows != other.nrows || self.ncols != other.ncols {
            return Err(MatrixError::MatrixDimensionMismatchError);
        }
        let difference = self.zip_with(other, Operation::SUB);
        *self = difference;
        Ok(())
    }

    /// Multiplies `self` by `other`, place by place.
    pub fn mul_self(&mut self, other: &Self) -> (r: Result<(), MatrixError>)
        ensures
            Self::zip_self_result(old(self), final(self), other, Operation::MUL, r),
    {
        if self.nrows != other.nrows || self.ncols != other.ncols {
            return Err(MatrixError::MatrixDimensionMismatchError);
        }
        let product = self.zip_with(other, Operation::MUL);
        *self = product;
        Ok(())
    }

    /// Divides `self` by `other`, place by place, rounding towards zero.
    /// Fails, and leaves `self` as it was, with
    /// `MatrixDimensionMismatchError` where the shapes differ, and with
    /// `MatrixDivideByZeroError` where they agree and `other` holds a zero.
    pub fn div_self(&mut self, other: &Self) -> (r: Result<(), MatrixError>)
        ensures
            match r {
                Ok(_) => old(self).same_shape(other) && !other.holds_zero()
                    && final(self).is_zip_of(Operation::DIV, old(self), other),
                Err(e) => final(self).same(old(self)) && e == (if !old(self).same_shape(other) {
                    MatrixError::MatrixDimensionMismatchError
                } else {
                    MatrixError::MatrixDivideByZeroError
                }) && (old(self).same_shape(other) ==> other.holds_zero()),
            },
    {
        if self.nrows != other.nrows || self.ncols != other.ncols {
            return Err(MatrixError::MatrixDimensionMismatchError);
        }
        if other.has_zero() {
            return Err(MatrixError::MatrixDivideByZeroError);
        }
        let quotient = self.zip_with(other, Operation::DIV);
        *self = quotient;
        Ok(())
    }
}

} // verus!
