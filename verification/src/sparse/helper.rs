//! How a sparse matrix keeps its cells, and the routines that its
//! arithmetic shares.

use vstd::prelude::*;
use std::collections::HashMap;
use vstd::std_specs::hash::spec_hash_map_iter;
use vstd::std_specs::iter::IteratorSpec;
use crate::common::{wrap, MatrixElement, Operation};
use crate::error::MatrixError;
use crate::parallel::{
    are_outcomes, folded_sum, lemma_folded_sum, lemma_sum_over_scale, par_map_range,
    par_sum_range, sum_over,
};
use crate::sparse::SparseMatrix;

verus! {

/// The factor that moves a row index above every column index in a key.
pub const SHIFT: u128 = 0x1_0000_0000_0000_0000;

/// The key under which the cell `(i, j)` is kept: the row index in the
/// upper half, the column index in the lower half.
pub open spec fn key_of(i: int, j: int) -> u128 {
    (i * SHIFT + j) as u128
}

/// A key gives back the row and the column it was made from.
pub proof fn lemma_key_of(i: int, j: int)
    requires
        0 <= i < SHIFT,
        0 <= j < SHIFT,
    ensures
        key_of(i, j) == i * SHIFT + j,
        key_of(i, j) / SHIFT == i,
        key_of(i, j) % SHIFT == j,
{
}

/// A number is the key of its upper and its lower half.
pub proof fn lemma_unkey(k: u128)
    ensures
        0 <= k / SHIFT < SHIFT,
        0 <= k % SHIFT < SHIFT,
        key_of((k / SHIFT) as int, (k % SHIFT) as int) == k,
{
}

/// The key of the cell `(i, j)`.
pub fn key(i: usize, j: usize) -> (k: u128)
    ensures
        k == key_of(i as int, j as int),
        k / SHIFT == i,
        k % SHIFT == j,
{
    (i as u128) * SHIFT + (j as u128)
}

/// Row and column of the cell that is kept under the key `k`.
pub fn unkey(k: u128) -> (p: (usize, usize))
    requires
        k / SHIFT <= usize::MAX,
        k % SHIFT <= usize::MAX,
    ensures
        p.0 == k / SHIFT,
        p.1 == k % SHIFT,
        key_of(p.0 as int, p.1 as int) == k,
{
    ((k / SHIFT) as usize, (k % SHIFT) as usize)
}

/// Whether `list` names every key of `map` once, each with its element.
pub open spec fn lists<T>(list: Seq<(u128, T)>, map: Map<u128, T>) -> bool {
    &&& forall|t: int|
        0 <= t < list.len() ==> map.contains_key(#[trigger] list[t].0) && map[list[t].0]
            == list[t].1
    &&& forall|k: u128|
        map.contains_key(k) ==> exists|t: int| 0 <= t < list.len() && #[trigger] list[t].0 == k
    &&& forall|s: int, t: int| 0 <= s < t < list.len() ==> list[s].0 != list[t].0
}

/// The keys of `map` with their elements, in the order in which the map
/// hands them out.
pub fn entries_of<T: Copy>(map: &HashMap<u128, T>) -> (out: Vec<(u128, T)>)
    ensures
        lists(out@, map@),
        out@.len() == map@.len(),
{
    let mut out: Vec<(u128, T)> = Vec::new();
    let ghost items = spec_hash_map_iter(map).remaining();
    for pair in it: map.iter()
        invariant
            it.seq() == items,
            out@.len() == it.index(),
            forall|t: int|
                0 <= t < out@.len() ==> #[trigger] out@[t] == (*items[t].0, *items[t].1),
    {
        let (k, v) = pair;
        out.push((*k, *v));
    }
    proof {
        assert(items.no_duplicates());
        assert forall|k: u128| map@.contains_key(k) implies exists|t: int|
            0 <= t < out@.len() && #[trigger] out@[t].0 == k by {
            assert(items.contains((&k, &map@[k])));
            let t = choose|t: int| 0 <= t < items.len() && items[t] == (&k, &map@[k]);
            assert(out@[t].0 == k);
        }
        assert forall|s: int, t: int| 0 <= s < t < out@.len() implies out@[s].0 != out@[t].0 by {
            if out@[s].0 == out@[t].0 {
                assert(map@[out@[s].0] == out@[s].1);
                assert(map@[out@[t].0] == out@[t].1);
                assert(items[s] == items[t]);
            }
        }
    }
    out
}

/// The integer that `map` keeps under the key `k`; 0 where it keeps none.
pub open spec fn value_at<T: MatrixElement>(map: Map<u128, T>, k: u128) -> int {
    if map.contains_key(k) {
        map[k].value()
    } else {
        0
    }
}

/// Whether no element of `map` is zero.
pub open spec fn all_nonzero<T: MatrixElement>(map: Map<u128, T>) -> bool {
    forall|k: u128| #[trigger] map.contains_key(k) ==> map[k].value() != 0
}

/// The integer that an element-wise operation on two sparse matrices
/// leaves under the key `k`: the result of the operation where both keep
/// an element there, and what the one keeps where only one does.
pub open spec fn combined_value<T: MatrixElement>(
    op: Operation,
    left: Map<u128, T>,
    right: Map<u128, T>,
    k: u128,
) -> int {
    if left.contains_key(k) && right.contains_key(k) {
        wrap::<T>(op.exact(left[k].value(), right[k].value()))
    } else if left.contains_key(k) {
        left[k].value()
    } else {
        value_at(right, k)
    }
}

/// Combines two maps of cells key by key; a zero that comes out is not
/// kept.
pub fn combine_data<T: MatrixElement>(
    left: &HashMap<u128, T>,
    right: &HashMap<u128, T>,
    op: Operation,
) -> (out: HashMap<u128, T>)
    requires
        all_nonzero(left@),
        all_nonzero(right@),
    ensures
        all_nonzero(out@),
        forall|k: u128| #[trigger] value_at(out@, k) == combined_value(op, left@, right@, k),
        forall|k: u128| #[trigger]
            out@.contains_key(k) ==> left@.contains_key(k) || right@.contains_key(k),
{
    let zero = T::zero();
    let list = entries_of(right);
    let mut out: HashMap<u128, T> = left.clone();
    let ghost mut done: Set<u128> = Set::empty();
    let mut n: usize = 0;
    while n < list.len()
        invariant
            zero.value() == 0,
            all_nonzero(left@),
            all_nonzero(right@),
            all_nonzero(out@),
            lists(list@, right@),
            n <= list@.len(),
            forall|t: int| 0 <= t < n ==> done.contains((#[trigger] list@[t]).0),
            forall|t: int| n <= t < list@.len() ==> !done.contains((#[trigger] list@[t]).0),
            forall|k: u128| #[trigger] done.contains(k) ==> right@.contains_key(k),
            forall|k: u128| #[trigger]
                value_at(out@, k) == (if done.contains(k) {
                    combined_value(op, left@, right@, k)
                } else {
                    value_at(left@, k)
                }),
            forall|k: u128| #[trigger]
                out@.contains_key(k) ==> left@.contains_key(k) || right@.contains_key(k),
        decreases list@.len() - n,
    {
        let (k0, rv) = list[n];
        let ghost before = out@;
        let ghost seen = done;
        assert(right@.contains_key(list@[n as int].0));
        assert(!seen.contains(k0));
        assert(value_at(before, k0) == value_at(left@, k0));
        match out.get(&k0) {
            Some(lv) => {
                let lv = *lv;
                assert(left@.contains_key(k0));
                proof {
                    lv.lemma_value_injective(left@[k0]);
                }
                let x = op.apply(lv, rv);
                if x.equals(zero) {
                    out.remove(&k0);
                } else {
                    proof {
                        if x.value() == 0 {
                            x.lemma_value_injective(zero);
                        }
                    }
                    out.insert(k0, x);
                }
            },
            None => {
                assert(!left@.contains_key(k0));
                out.insert(k0, rv);
            },
        }
        proof {
            done = seen.insert(k0);
            assert forall|k: u128| #[trigger]
                value_at(out@, k) == (if done.contains(k) {
                    combined_value(op, left@, right@, k)
                } else {
                    value_at(left@, k)
                }) by {
                if k != k0 {
                    assert(value_at(before, k) == (if seen.contains(k) {
                        combined_value(op, left@, right@, k)
                    } else {
                        value_at(left@, k)
                    }));
                }
            }
            assert forall|t: int| n + 1 <= t < list@.len() implies !done.contains(
                (#[trigger] list@[t]).0,
            ) by {
                assert(list@[n as int].0 != list@[t].0);
            }
        }
        n += 1;
    }
    proof {
        assert forall|k: u128| #[trigger]
            value_at(out@, k) == combined_value(op, left@, right@, k) by {
            if right@.contains_key(k) {
                let t = choose|t: int| 0 <= t < list@.len() && #[trigger] list@[t].0 == k;
                assert(done.contains(list@[t].0));
            }
            assert(value_at(out@, k) == (if done.contains(k) {
                combined_value(op, left@, right@, k)
            } else {
                value_at(left@, k)
            }));
        }
    }
    out
}

/// The integer of an element that may be missing; 0 where it is.
pub open spec fn value_or_zero<T: MatrixElement>(x: Option<T>) -> int {
    match x {
        Some(v) => v.value(),
        None => 0,
    }
}

/// The map that keeps under the key of `list[t]` the element `results[t]`,
/// for every `t` at which there is one.
pub fn gather<T: MatrixElement>(list: &Vec<(u128, T)>, results: &Vec<Option<T>>) -> (out: HashMap<
    u128,
    T,
>)
    requires
        list@.len() == results@.len(),
        forall|s: int, t: int| 0 <= s < t < list@.len() ==> list@[s].0 != list@[t].0,
        forall|t: int|
            0 <= t < results@.len() ==> value_or_zero(#[trigger] results@[t]) != 0 || results@[t]
                is None,
    ensures
        all_nonzero(out@),
        forall|t: int|
            0 <= t < list@.len() ==> value_at(out@, (#[trigger] list@[t]).0) == value_or_zero(
                results@[t],
            ),
        forall|k: u128| #[trigger]
            out@.contains_key(k) ==> exists|t: int|
                0 <= t < list@.len() && (#[trigger] list@[t]).0 == k,
{
    let mut out: HashMap<u128, T> = HashMap::new();
    let mut n: usize = 0;
    while n < list.len()
        invariant
            list@.len() == results@.len(),
            forall|s: int, t: int| 0 <= s < t < list@.len() ==> list@[s].0 != list@[t].0,
            forall|t: int|
                0 <= t < results@.len() ==> value_or_zero(#[trigger] results@[t]) != 0
                    || results@[t] is None,
            all_nonzero(out@),
            n <= list@.len(),
            forall|t: int|
                0 <= t < n ==> value_at(out@, (#[trigger] list@[t]).0) == value_or_zero(
                    results@[t],
                ),
            forall|k: u128| #[trigger]
                out@.contains_key(k) ==> exists|t: int| 0 <= t < n && (#[trigger] list@[t]).0 == k,
        decreases list@.len() - n,
    {
        let k0 = list[n].0;
        let ghost before = out@;
        proof {
            if before.contains_key(k0) {
                let t = choose|t: int| 0 <= t < n && (#[trigger] list@[t]).0 == k0;
                assert(list@[t].0 != list@[n as int].0);
            }
            assert(value_or_zero(results@[n as int]) != 0 || results@[n as int] is None);
        }
        match results[n] {
            Some(x) => {
                out.insert(k0, x);
            },
            None => {},
        }
        proof {
            assert forall|t: int| 0 <= t < n + 1 implies value_at(out@, (#[trigger] list@[t]).0)
                == value_or_zero(results@[t]) by {
                if t < n {
                    assert(list@[t].0 != list@[n as int].0);
                    assert(value_at(before, list@[t].0) == value_or_zero(results@[t]));
                }
            }
            assert forall|k: u128| #[trigger] out@.contains_key(k) implies exists|t: int|
                0 <= t < n + 1 && (#[trigger] list@[t]).0 == k by {
                if k == k0 {
                    assert(list@[n as int].0 == k);
                } else {
                    assert(before.contains_key(k));
                    let t = choose|t: int| 0 <= t < n && (#[trigger] list@[t]).0 == k;
                    assert(0 <= t < n + 1 && list@[t].0 == k);
                }
            }
        }
        n += 1;
    }
    out
}

/// What an operation makes of `a` and `b`, or `None` where that is zero.
pub fn apply_nonzero<T: MatrixElement>(op: Operation, a: T, b: T) -> (r: Option<T>)
    requires
        op.defined_on(b.value()),
    ensures
        value_or_zero(r) == wrap::<T>(op.exact(a.value(), b.value())),
        r is None <==> wrap::<T>(op.exact(a.value(), b.value())) == 0,
{
    let zero = T::zero();
    let x = op.apply(a, b);
    if x.equals(zero) {
        None
    } else {
        proof {
            if x.value() == 0 {
                x.lemma_value_injective(zero);
            }
        }
        Some(x)
    }
}

/// Combines every element of a map of cells with `value`; a zero that
/// comes out is not kept.
pub fn map_data<T: MatrixElement>(cells: &HashMap<u128, T>, value: T, op: Operation) -> (out:
    HashMap<u128, T>)
    requires
        op.defined_on(value.value()),
    ensures
        all_nonzero(out@),
        forall|k: u128| #[trigger]
            value_at(out@, k) == (if cells@.contains_key(k) {
                wrap::<T>(op.exact(cells@[k].value(), value.value()))
            } else {
                0
            }),
        forall|k: u128| #[trigger] out@.contains_key(k) ==> cells@.contains_key(k),
{
    let list = entries_of(cells);
    let len = list.len();
    let combine = |t: usize| -> (r: Option<T>)
        requires
            t < len,
        ensures
            value_or_zero(r) == wrap::<T>(op.exact(list@[t as int].1.value(), value.value())),
            r is None <==> value_or_zero(r) == 0,
        { apply_nonzero(op, list[t].1, value) };
    let results = par_map_range(0, len, combine);
    let out = gather(&list, &results);
    proof {
        assert forall|k: u128| #[trigger]
            value_at(out@, k) == (if cells@.contains_key(k) {
                wrap::<T>(op.exact(cells@[k].value(), value.value()))
            } else {
                0
            }) by {
            if cells@.contains_key(k) {
                let t = choose|t: int| 0 <= t < list@.len() && #[trigger] list@[t].0 == k;
                assert(value_at(out@, list@[t].0) == value_or_zero(results@[t]));
            } else if out@.contains_key(k) {
                let t = choose|t: int| 0 <= t < list@.len() && (#[trigger] list@[t]).0 == k;
                assert(cells@.contains_key(list@[t].0));
            }
        }
        assert forall|k: u128| #[trigger] out@.contains_key(k) implies cells@.contains_key(k) by {
            let t = choose|t: int| 0 <= t < list@.len() && (#[trigger] list@[t]).0 == k;
            assert(cells@.contains_key(list@[t].0));
        }
    }
    out
}

impl<T: MatrixElement> SparseMatrix<T> {
    /// Whether the two matrices have the same shape.
    pub open spec fn same_shape(&self, other: &Self) -> bool {
        self.rows() == other.rows() && self.cols() == other.cols()
    }

    /// The integer that an element-wise operation on `l` and `r` leaves in
    /// the cell `(i, j)`: the result of the operation where both store the
    /// cell, and what the one stores where only one does.
    pub open spec fn combined(op: Operation, l: &Self, r: &Self, i: int, j: int) -> int {
        if l@.contains_key((i, j)) && r@.contains_key((i, j)) {
            wrap::<T>(op.exact(l.entry(i, j), r.entry(i, j)))
        } else if l@.contains_key((i, j)) {
            l.entry(i, j)
        } else {
            r.entry(i, j)
        }
    }

    /// Whether `self` is what the element-wise operation `op` makes of `l`
    /// and `r`.
    pub open spec fn is_combination_of(&self, op: Operation, l: &Self, r: &Self) -> bool {
        &&& self.same_shape(l)
        &&& forall|i: int, j: int| #[trigger] self.entry(i, j) == Self::combined(op, l, r, i, j)
    }

    /// Whether `self` is what `op` with the number `value` makes of the
    /// stored cells of `l`. Cells that `l` does not store stay zero.
    pub open spec fn is_broadcast_of(&self, op: Operation, l: &Self, value: T) -> bool {
        &&& self.same_shape(l)
        &&& forall|i: int, j: int| #[trigger]
            self.entry(i, j) == (if l@.contains_key((i, j)) {
                wrap::<T>(op.exact(l.entry(i, j), value.value()))
            } else {
                0
            })
    }

    /// The element-wise operation `op` on two sparse matrices of one shape.
    ///
    /// The result starts as `self`; a cell that `other` stores is combined
    /// by `op` with the cell of `self` where `self` stores it too, and is
    /// taken over as it is where `self` does not. A result of zero is not
    /// stored. Fails with `MatrixDimensionMismatchError` exactly when the
    /// shapes differ.
    pub fn sparse_helper(&self, other: &Self, op: Operation) -> (r: Result<Self, MatrixError>)
        requires
            self.wf(),
            other.wf(),
        ensures
            match r {
                Ok(m) => self.same_shape(other) && m.wf() && m.is_combination_of(op, self, other),
                Err(e) => !self.same_shape(other) && e == MatrixError::MatrixDimensionMismatchError,
            },
    {
        if self.nrows != other.nrows || self.ncols != other.ncols {
            return Err(MatrixError::MatrixDimensionMismatchError);
        }
        let data = combine_data(&self.data, &other.data, op);
        let m = SparseMatrix { data, nrows: self.nrows, ncols: self.ncols };
        proof {
            assert forall|k: u128| #[trigger] m.data@.contains_key(k) implies k / SHIFT < m.nrows
                && k % SHIFT < m.ncols && m.data@[k].value() != 0 by {
                assert(self.data@.contains_key(k) || other.data@.contains_key(k));
            }
            assert forall|i: int, j: int| #[trigger]
                m.entry(i, j) == Self::combined(op, self, other, i, j) by {
                if 0 <= i < SHIFT && 0 <= j < SHIFT {
                    let k = key_of(i, j);
                    assert(value_at(m.data@, k) == combined_value(op, self.data@, other.data@, k));
                }
            }
        }
        Ok(m)
    }

    /// The element-wise operation `op` with `other`, carried out on `self`.
    /// Fails with `MatrixDimensionMismatchError`, and leaves `self` as it
    /// was, exactly when the shapes differ.
    pub fn sparse_helper_self(&mut self, other: &Self, op: Operation) -> (r: Result<
        (),
        MatrixError,
    >)
        requires
            old(self).wf(),
            other.wf(),
        ensures
            final(self).wf(),
            match r {
                Ok(_) => old(self).same_shape(other) && final(self).is_combination_of(
                    op,
                    old(self),
                    other,
                ),
                Err(e) => !old(self).same_shape(other) && final(self).same(old(self)) && e
                    == MatrixError::MatrixDimensionMismatchError,
            },
    {
        match self.sparse_helper(other, op) {
            Ok(m) => {
                *self = m;
                Ok(())
            },
            Err(e) => Err(e),
        }
    }

    /// The operation `op` with the number `value` on every stored cell. A
    /// result of zero is not stored.
    pub fn sparse_helper_val(&self, value: T, op: Operation) -> (m: Self)
        requires
            self.wf(),
            op.defined_on(value.value()),
        ensures
            m.wf(),
            m.is_broadcast_of(op, self, value),
    {
        let data = map_data(&self.data, value, op);
        let m = SparseMatrix { data, nrows: self.nrows, ncols: self.ncols };
        proof {
            assert forall|k: u128| #[trigger] m.data@.contains_key(k) implies k / SHIFT < m.nrows
                && k % SHIFT < m.ncols && m.data@[k].value() != 0 by {
                assert(self.data@.contains_key(k));
            }
            assert forall|i: int, j: int| #[trigger]
                m.entry(i, j) == (if self@.contains_key((i, j)) {
                    wrap::<T>(op.exact(self.entry(i, j), value.value()))
                } else {
                    0
                }) by {
                if 0 <= i < SHIFT && 0 <= j < SHIFT {
                    let k = key_of(i, j);
                    assert(value_at(m.data@, k) == (if self.data@.contains_key(k) {
                        wrap::<T>(op.exact(self.data@[k].value(), value.value()))
                    } else {
                        0
                    }));
                }
            }
        }
        m
    }

    /// The operation `op` with the number `val`, carried out on every
    /// stored cell of `self`. A result of zero is not stored.
    pub fn sparse_helper_self_val(&mut self, val: T, op: Operation)
        requires
            old(self).wf(),
            op.defined_on(val.value()),
        ensures
            final(self).wf(),
            final(self).is_broadcast_of(op, old(self), val),
    {
        let m = self.sparse_helper_val(val, op);
        *self = m;
    }
}

impl<T: MatrixElement> SparseMatrix<T> {
    /// The exact sum of the cells of row `j` in the columns before `z`.
    pub open spec fn row_sum(&self, j: int, z: int) -> int {
        sum_over(|c: int| self.entry(j, c), 0, z)
    }

    /// Whether `self` is what the sparse multiplication kernels make of `a`
    /// and `b`: a matrix with the rows of `a` and the columns of `b` in
    /// which every cell `(i, j)` that `a` stores, and that lies inside,
    /// holds the cell of `a` times the sum of row `j` of `b`, and every
    /// other cell holds zero.
    pub open spec fn is_row_scaled_product_of(&self, a: &Self, b: &Self) -> bool {
        &&& self.rows() == a.rows()
        &&& self.cols() == b.cols()
        &&& forall|i: int, j: int| #[trigger]
            self.entry(i, j) == (if a@.contains_key((i, j)) && j < b.cols() {
                wrap::<T>(a.entry(i, j) * b.row_sum(j, b.cols() as int))
            } else {
                0
            })
    }

    /// `a` times the sum of row `j`, every product `a * self[j, c]` taken
    /// and the products added up in parallel; `None` where that is zero.
    fn scaled_row_sum(&self, a: T, j: usize) -> (r: Option<T>)
        requires
            self.wf(),
        ensures
            value_or_zero(r) == wrap::<T>(a.value() * self.row_sum(j as int, self.cols() as int)),
            r is None <==> value_or_zero(r) == 0,
    {
        let zero = T::zero();
        let z = self.ncols;
        let term = |c: usize| -> (t: T)
            ensures
                t.value() == wrap::<T>(a.value() * self.entry(j as int, c as int)),
            { a.wrapping_mul(self.at(j, c)) };
        let s = par_sum_range(0, z, term);
        proof {
            let terms = choose|terms: Seq<T>|
                are_outcomes(terms, 0, z, term) && folded_sum(terms) == s.value();
            let row = |c: int| self.entry(j as int, c);
            let scaled = |c: int| a.value() * row(c);
            lemma_folded_sum(terms, scaled, 0);
            lemma_sum_over_scale(a.value(), row, 0, z as int);
        }
        if s.equals(zero) {
            None
        } else {
            proof {
                if s.value() == 0 {
                    s.lemma_value_injective(zero);
                }
            }
            Some(s)
        }
    }

    /// The kernel that both sparse multiplications share.
    fn row_scaled_product(&self, other: &Self) -> (m: Self)
        requires
            self.wf(),
            other.wf(),
        ensures
            m.wf(),
            m.is_row_scaled_product_of(self, other),
    {
        let list = entries_of(&self.data);
        let len = list.len();
        let cols = other.ncols;
        let cell = |t: usize| -> (r: Option<T>)
            requires
                t < len,
            ensures
                value_or_zero(r) == (if list@[t as int].0 % SHIFT < cols {
                    wrap::<T>(
                        list@[t as int].1.value() * other.row_sum(
                            (list@[t as int].0 % SHIFT) as int,
                            cols as int,
                        ),
                    )
                } else {
                    0
                }),
                r is None <==> value_or_zero(r) == 0,
            {
                let (k, a) = list[t];
                assert(self.data@.contains_key(list@[t as int].0));
                let (_, j) = unkey(k);
                if j < cols {
                    other.scaled_row_sum(a, j)
                } else {
                    None
                }
            };
        let results = par_map_range(0, len, cell);
        let data = gather(&list, &results);
        let m = SparseMatrix { data, nrows: self.nrows, ncols: other.ncols };
        proof {
            assert forall|k: u128| #[trigger] m.data@.contains_key(k) implies k / SHIFT < m.nrows
                && k % SHIFT < m.ncols && m.data@[k].value() != 0 by {
                let t = choose|t: int| 0 <= t < list@.len() && (#[trigger] list@[t]).0 == k;
                assert(self.data@.contains_key(list@[t].0));
                assert(value_at(data@, list@[t].0) == value_or_zero(results@[t]));
            }
            assert forall|i: int, j: int| #[trigger]
                m.entry(i, j) == (if self@.contains_key((i, j)) && j < other.cols() {
                    wrap::<T>(self.entry(i, j) * other.row_sum(j, other.cols() as int))
                } else {
                    0
                }) by {
                if 0 <= i < SHIFT && 0 <= j < SHIFT {
                    let k = key_of(i, j);
                    lemma_key_of(i, j);
                    if self.data@.contains_key(k) {
                        let t = choose|t: int| 0 <= t < list@.len() && #[trigger] list@[t].0 == k;
                        assert(value_at(data@, list@[t].0) == value_or_zero(results@[t]));
                    } else if data@.contains_key(k) {
                        let t = choose|t: int|
                            0 <= t < list@.len() && (#[trigger] list@[t]).0 == k;
                        assert(self.data@.contains_key(list@[t].0));
                    }
                }
            }
        }
        m
    }

    /// The sparse multiplication kernel for two square matrices of one
    /// size.
    pub fn matmul_sparse_nn(&self, other: &Self) -> (m: Self)
        requires
            self.wf(),
            other.wf(),
            self.rows() == self.cols(),
            self.same_shape(other),
        ensures
            m.wf(),
            m.is_row_scaled_product_of(self, other),
    {
        self.row_scaled_product(other)
    }

    /// The sparse multiplication kernel for an M x N and an N x P matrix.
    pub fn matmul_sparse_mnnp(&self, other: &Self) -> (m: Self)
        requires
            self.wf(),
            other.wf(),
            self.cols() == other.rows(),
        ensures
            m.wf(),
            m.is_row_scaled_product_of(self, other),
    {
        self.row_scaled_product(other)
    }

    /// What the library calls the product of two sparse matrices: see
    /// `is_row_scaled_product_of`. Fails with
    /// `MatrixMultiplicationDimensionMismatchError` exactly when `self` has
    /// not as many columns as `other` has rows.
    pub fn matmul_sparse(&self, other: &Self) -> (r: Result<Self, MatrixError>)
        requires
            self.wf(),
            other.wf(),
        ensures
            match r {
                Ok(m) => self.cols() == other.rows() && m.wf() && m.is_row_scaled_product_of(
                    self,
                    other,
                ),
                Err(e) => self.cols() != other.rows() && e
                    == MatrixError::MatrixMultiplicationDimensionMismatchError,
            },
    {
        if self.ncols != other.nrows {
            return Err(MatrixError::MatrixMultiplicationDimensionMismatchError);
        }
        if self.nrows == other.nrows && self.ncols == other.ncols {
            return Ok(self.matmul_sparse_nn(other));
        }
        Ok(self.matmul_sparse_mnnp(other))
    }
}

} // verus!
