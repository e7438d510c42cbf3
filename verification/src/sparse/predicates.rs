//! Searching and counting in sparse matrices with a predicate of the
//! caller.
//!
//! A predicate is asked once for every stored cell, on as many threads as
//! rayon sees fit. A sparse matrix hands out its cells in no particular
//! order, so the contracts speak of one listing of the stored cells and of
//! the answers that the predicate gave along it.

use vstd::prelude::*;
use crate::common::{lemma_wrap_value, wrap, MatrixElement};
use crate::matrix::predicates::{count_flags, count_set, first_flag, flag_places, set_places};
use crate::matrix::Shape;
use crate::parallel::{
    are_outcomes, folded_sum, lemma_folded_sum, par_map_range, par_sum_range, sum_over,
};
use crate::sparse::helper::{
    entries_of, gather, key_of, lemma_key_of, lemma_unkey, unkey, value_at, value_or_zero, SHIFT,
};
use crate::sparse::{SparseMatrix, SparseMatrixData};

verus! {

/// Whether `pred` can be asked about the cell `at` with the element `x`.
pub open spec fn may_ask_cell<T, F: Fn((&Shape, &T)) -> bool>(pred: &F, at: Shape, x: T) -> bool {
    call_requires(*pred, ((&at, &x),))
}

/// Whether `b` is an answer of `pred` to the cell `at` with the element
/// `x`.
pub open spec fn says_of_cell<T, F: Fn((&Shape, &T)) -> bool>(
    pred: &F,
    at: Shape,
    x: T,
    b: bool,
) -> bool {
    call_ensures(*pred, ((&at, &x),), b)
}

/// Whether `pred`, which takes a cell by value, can be asked about the
/// cell `at` with the element `x`.
pub open spec fn may_ask_owned<T, F: Fn((Shape, T)) -> bool>(pred: &F, at: Shape, x: T) -> bool {
    call_requires(*pred, ((at, x),))
}

/// Whether `b` is an answer of `pred`, which takes a cell by value, to the
/// cell `at` with the element `x`.
pub open spec fn says_of_owned<T, F: Fn((Shape, T)) -> bool>(
    pred: &F,
    at: Shape,
    x: T,
    b: bool,
) -> bool {
    call_ensures(*pred, ((at, x),), b)
}

/// Whether `change` can be applied to the cell `at` with the element `x`.
pub open spec fn may_turn_cell<T, F: Fn(Shape, T) -> T>(change: &F, at: Shape, x: T) -> bool {
    call_requires(*change, (at, x))
}

/// Whether `y` is an outcome of `change` on the cell `at` with the element
/// `x`.
pub open spec fn turns_cell<T, F: Fn(Shape, T) -> T>(change: &F, at: Shape, x: T, y: T) -> bool {
    call_ensures(*change, (at, x), y)
}

impl<T: MatrixElement> SparseMatrix<T> {
    /// Whether `pred` can be asked about every stored cell.
    pub open spec fn accepts<F: Fn((&Shape, &T)) -> bool>(&self, pred: F) -> bool {
        forall|at: Shape| #[trigger]
            self@.contains_key((at.0 as int, at.1 as int)) ==> call_requires(
                pred,
                ((&at, &self@[(at.0 as int, at.1 as int)]),),
            )
    }

    /// Whether `pred`, which takes a cell by value, can be asked about
    /// every stored cell.
    pub open spec fn accepts_owned<F: Fn((Shape, T)) -> bool>(&self, pred: F) -> bool {
        forall|at: Shape| #[trigger]
            self@.contains_key((at.0 as int, at.1 as int)) ==> call_requires(
                pred,
                ((at, self@[(at.0 as int, at.1 as int)]),),
            )
    }

    /// Whether `list` is a listing of the stored cells and `flags` holds,
    /// place by place, an answer of `pred` to its cells.
    pub open spec fn answered<F: Fn((&Shape, &T)) -> bool>(
        &self,
        list: Seq<(Shape, T)>,
        flags: Seq<bool>,
        pred: F,
    ) -> bool {
        &&& self.lists_cells(list)
        &&& flags.len() == list.len()
        &&& forall|t: int|
            0 <= t < flags.len() ==> call_ensures(
                pred,
                ((&list[t].0, &list[t].1),),
                #[trigger] flags[t],
            )
    }

    /// Whether `list` is a listing of the stored cells and `flags` holds,
    /// place by place, an answer of `pred`, which takes a cell by value,
    /// to its cells.
    pub open spec fn answered_owned<F: Fn((Shape, T)) -> bool>(
        &self,
        list: Seq<(Shape, T)>,
        flags: Seq<bool>,
        pred: F,
    ) -> bool {
        &&& self.lists_cells(list)
        &&& flags.len() == list.len()
        &&& forall|t: int|
            0 <= t < flags.len() ==> call_ensures(pred, ((list[t].0, list[t].1),), #[trigger] flags[t])
    }

    /// A listing of the stored cells with one answer of `pred` for each.
    fn ask<F: Fn((&Shape, &T)) -> bool + Sync>(&self, pred: &F) -> (r: (
        SparseMatrixData<T>,
        Vec<bool>,
    ))
        requires
            self.wf(),
            self.accepts(*pred),
        ensures
            self.answered(r.0@, r.1@, *pred),
    {
        let list = self.entries();
        let n = list.len();
        let one = |t: usize| -> (b: bool)
            requires
                t < n,
            ensures
                says_of_cell(pred, list@[t as int].0, list@[t as int].1, b),
            {
                proof {
                    let at = list@[t as int].0;
                    assert(self@.contains_key((at.0 as int, at.1 as int)));
                    assert(may_ask_cell(pred, at, list@[t as int].1));
                }
                pred((&list[t].0, &list[t].1))
            };
        let flags = par_map_range(0, n, one);
        (list, flags)
    }

    /// A listing of the stored cells with one answer of `pred`, which
    /// takes a cell by value, for each.
    fn ask_owned<F: Fn((Shape, T)) -> bool + Sync>(&self, pred: &F) -> (r: (
        SparseMatrixData<T>,
        Vec<bool>,
    ))
        requires
            self.wf(),
            self.accepts_owned(*pred),
        ensures
            self.answered_owned(r.0@, r.1@, *pred),
    {
        let list = self.entries();
        let n = list.len();
        let one = |t: usize| -> (b: bool)
            requires
                t < n,
            ensures
                says_of_owned(pred, list@[t as int].0, list@[t as int].1, b),
            {
                proof {
                    let at = list@[t as int].0;
                    assert(self@.contains_key((at.0 as int, at.1 as int)));
                    assert(may_ask_owned(pred, at, list@[t as int].1));
                }
                pred((list[t].0, list[t].1))
            };
        let flags = par_map_range(0, n, one);
        (list, flags)
    }

    /// Whether `pred` accepts every stored cell.
    pub fn all<F: Fn((Shape, T)) -> bool + Sync + Send>(&self, pred: F) -> (r: bool)
        requires
            self.wf(),
            self.accepts_owned(pred),
        ensures
            exists|list: Seq<(Shape, T)>, flags: Seq<bool>| #[trigger]
                self.answered_owned(list, flags, pred) && r == (count_set(
                    flags,
                    flags.len() as int,
                ) == flags.len()),
    {
        let (list, flags) = self.ask_owned(&pred);
        let count = count_flags(&flags);
        let r = count == flags.len();
        assert(self.answered_owned(list@, flags@, pred) && r == (count_set(
            flags@,
            flags@.len() as int,
        ) == flags@.len()));
        r
    }

    /// Whether `pred` accepts some stored cell.
    pub fn any<F: Fn((Shape, T)) -> bool + Sync + Send>(&self, pred: F) -> (r: bool)
        requires
            self.wf(),
            self.accepts_owned(pred),
        ensures
            exists|list: Seq<(Shape, T)>, flags: Seq<bool>| #[trigger]
                self.answered_owned(list, flags, pred) && r == (count_set(
                    flags,
                    flags.len() as int,
                ) > 0),
    {
        let (list, flags) = self.ask_owned(&pred);
        let count = count_flags(&flags);
        let r = count > 0;
        assert(self.answered_owned(list@, flags@, pred) && r == (count_set(
            flags@,
            flags@.len() as int,
        ) > 0));
        r
    }

    /// How many stored cells `pred` accepts.
    pub fn count_where<F: Fn((&Shape, &T)) -> bool + Sync>(&self, pred: F) -> (r: usize)
        requires
            self.wf(),
            self.accepts(pred),
        ensures
            exists|list: Seq<(Shape, T)>, flags: Seq<bool>| #[trigger]
                self.answered(list, flags, pred) && r == count_set(flags, flags.len() as int),
    {
        let (list, flags) = self.ask(&pred);
        let r = count_flags(&flags);
        assert(self.answered(list@, flags@, pred) && r == count_set(flags@, flags@.len() as int));
        r
    }

    /// The exact sum of the elements of `list` at which a flag is set.
    pub open spec fn flagged_total(list: Seq<(Shape, T)>, flags: Seq<bool>) -> int {
        sum_over(
            |t: int|
                if flags[t] {
                    list[t].1.value()
                } else {
                    0
                },
            0,
            list.len() as int,
        )
    }

    /// The sum of the stored elements whose cells `pred` accepts.
    pub fn sum_where<F: Fn((&Shape, &T)) -> bool + Sync>(&self, pred: F) -> (r: T)
        requires
            self.wf(),
            self.accepts(pred),
        ensures
            exists|list: Seq<(Shape, T)>, flags: Seq<bool>| #[trigger]
                self.answered(list, flags, pred) && r.value() == wrap::<T>(
                    Self::flagged_total(list, flags),
                ),
    {
        let (list, flags) = self.ask(&pred);
        let n = list.len();
        let zero = T::zero();
        let term = |t: usize| -> (x: T)
            requires
                t < n,
            ensures
                x.value() == (if flags@[t as int] {
                    list@[t as int].1.value()
                } else {
                    0
                }),
            {
                if flags[t] {
                    list[t].1
                } else {
                    zero
                }
            };
        let r = par_sum_range(0, n, term);
        proof {
            let terms = choose|terms: Seq<T>|
                are_outcomes(terms, 0, n, term) && folded_sum(terms) == r.value();
            let g = |t: int|
                if flags@[t] {
                    list@[t].1.value()
                } else {
                    0
                };
            assert forall|t: int| 0 <= t < terms.len() implies (#[trigger] terms[t]).value()
                == wrap::<T>(g(0 + t)) by {
                lemma_wrap_value(terms[t]);
            }
            lemma_folded_sum(terms, g, 0);
            assert(self.answered(list@, flags@, pred) && r.value() == wrap::<T>(
                Self::flagged_total(list@, flags@),
            ));
        }
        r
    }

    /// The element of a stored cell that `pred` accepts, or `None` where
    /// it accepts none: the first such cell of the listing.
    pub fn find<F: Fn((&Shape, &T)) -> bool + Sync>(&self, pred: F) -> (r: Option<T>)
        requires
            self.wf(),
            self.accepts(pred),
        ensures
            exists|list: Seq<(Shape, T)>, flags: Seq<bool>| #[trigger]
                self.answered(list, flags, pred) && (match r {
                    Some(x) => count_set(flags, flags.len() as int) > 0 && x == list[set_places(
                        flags,
                        flags.len() as int,
                    )[0]].1,
                    None => count_set(flags, flags.len() as int) == 0,
                }),
    {
        let (list, flags) = self.ask(&pred);
        let r = match first_flag(&flags) {
            Some(k) => Some(list[k].1),
            None => None,
        };
        assert(self.answered(list@, flags@, pred) && (match r {
            Some(x) => count_set(flags@, flags@.len() as int) > 0 && x == list@[set_places(
                flags@,
                flags@.len() as int,
            )[0]].1,
            None => count_set(flags@, flags@.len() as int) == 0,
        }));
        r
    }

    /// The coordinates of a stored cell that `pred` accepts, or `None`
    /// where it accepts none: the first such cell of the listing.
    pub fn position<F: Fn((&Shape, &T)) -> bool + Sync>(&self, pred: F) -> (r: Option<Shape>)
        requires
            self.wf(),
            self.accepts(pred),
        ensures
            exists|list: Seq<(Shape, T)>, flags: Seq<bool>| #[trigger]
                self.answered(list, flags, pred) && (match r {
                    Some(at) => count_set(flags, flags.len() as int) > 0 && at == list[set_places(
                        flags,
                        flags.len() as int,
                    )[0]].0,
                    None => count_set(flags, flags.len() as int) == 0,
                }),
    {
        let (list, flags) = self.ask(&pred);
        let r = match first_flag(&flags) {
            Some(k) => Some(list[k].0),
            None => None,
        };
        assert(self.answered(list@, flags@, pred) && (match r {
            Some(at) => count_set(flags@, flags@.len() as int) > 0 && at == list@[set_places(
                flags@,
                flags@.len() as int,
            )[0]].0,
            None => count_set(flags@, flags@.len() as int) == 0,
        }));
        r
    }

    /// The elements of the stored cells that `pred` accepts, in the order
    /// of the listing, or `None` where it accepts none.
    pub fn find_all<F: Fn((&Shape, &T)) -> bool + Sync>(&self, pred: F) -> (r: Option<Vec<T>>)
        requires
            self.wf(),
            self.accepts(pred),
        ensures
            exists|list: Seq<(Shape, T)>, flags: Seq<bool>| #[trigger]
                self.answered(list, flags, pred) && (match r {
                    Some(found) => {
                        let places = set_places(flags, flags.len() as int);
                        &&& found@.len() > 0
                        &&& found@.len() == places.len()
                        &&& forall|t: int|
                            0 <= t < found@.len() ==> #[trigger] found@[t] == list[places[t]].1
                    },
                    None => count_set(flags, flags.len() as int) == 0,
                }),
    {
        let (list, flags) = self.ask(&pred);
        let places = flag_places(&flags);
        let mut found: Vec<T> = Vec::new();
        let mut t: usize = 0;
        while t < places.len()
            invariant
                flags@.len() == list@.len(),
                t <= places@.len(),
                found@.len() == t,
                forall|u: int| 0 <= u < places@.len() ==> (#[trigger] places@[u]) < flags@.len(),
                forall|u: int| 0 <= u < t ==> #[trigger] found@[u] == list@[places@[u] as int].1,
            decreases places@.len() - t,
        {
            found.push(list[places[t]].1);
            t += 1;
        }
        let r = if found.len() == 0 {
            None
        } else {
            Some(found)
        };
        assert(self.answered(list@, flags@, pred) && (match r {
            Some(found) => {
                let places = set_places(flags@, flags@.len() as int);
                &&& found@.len() > 0
                &&& found@.len() == places.len()
                &&& forall|t: int|
                    0 <= t < found@.len() ==> #[trigger] found@[t] == list@[places[t]].1
            },
            None => count_set(flags@, flags@.len() as int) == 0,
        }));
        r
    }

    /// The coordinates of the stored cells that `pred` accepts, in the
    /// order of the listing, or `None` where it accepts none.
    pub fn positions<F: Fn((&Shape, &T)) -> bool + Sync>(&self, pred: F) -> (r: Option<
        Vec<Shape>,
    >)
        requires
            self.wf(),
            self.accepts(pred),
        ensures
            exists|list: Seq<(Shape, T)>, flags: Seq<bool>| #[trigger]
                self.answered(list, flags, pred) && (match r {
                    Some(found) => {
                        let places = set_places(flags, flags.len() as int);
                        &&& found@.len() > 0
                        &&& found@.len() == places.len()
                        &&& forall|t: int|
                            0 <= t < found@.len() ==> #[trigger] found@[t] == list[places[t]].0
                    },
                    None => count_set(flags, flags.len() as int) == 0,
                }),
    {
        let (list, flags) = self.ask(&pred);
        let places = flag_places(&flags);
        let mut found: Vec<Shape> = Vec::new();
        let mut t: usize = 0;
        while t < places.len()
            invariant
                flags@.len() == list@.len(),
                t <= places@.len(),
                found@.len() == t,
                forall|u: int| 0 <= u < places@.len() ==> (#[trigger] places@[u]) < flags@.len(),
                forall|u: int| 0 <= u < t ==> #[trigger] found@[u] == list@[places@[u] as int].0,
            decreases places@.len() - t,
        {
            found.push(list[places[t]].0);
            t += 1;
        }
        let r = if found.len() == 0 {
            None
        } else {
            Some(found)
        };
        assert(self.answered(list@, flags@, pred) && (match r {
            Some(found) => {
                let places = set_places(flags@, flags@.len() as int);
                &&& found@.len() > 0
                &&& found@.len() == places.len()
                &&& forall|t: int|
                    0 <= t < found@.len() ==> #[trigger] found@[t] == list@[places[t]].0
            },
            None => count_set(flags@, flags@.len() as int) == 0,
        }));
        r
    }

    /// Whether `change` can be applied to every stored cell.
    pub open spec fn accepts_change<F: Fn(Shape, T) -> T>(&self, change: F) -> bool {
        forall|at: Shape| #[trigger]
            self@.contains_key((at.0 as int, at.1 as int)) ==> call_requires(
                change,
                (at, self@[(at.0 as int, at.1 as int)]),
            )
    }

    /// Replaces the element of every stored cell by what `change` makes of
    /// the cell. A cell whose new element is zero is no longer stored.
    pub fn set_where<F: Fn(Shape, T) -> T + Sync + Send>(&mut self, change: F)
        requires
            old(self).wf(),
            old(self).accepts_change(change),
        ensures
            final(self).wf(),
            final(self).same_shape(old(self)),
            forall|at: Shape| #[trigger]
                old(self)@.contains_key((at.0 as int, at.1 as int)) ==> exists|y: T|
                    call_ensures(change, (at, old(self)@[(at.0 as int, at.1 as int)]), y)
                        && final(self).entry(at.0 as int, at.1 as int) == y.value(),
            forall|p: (int, int)| #[trigger]
                final(self)@.contains_key(p) ==> old(self)@.contains_key(p),
    {
        let zero = T::zero();
        let list = entries_of(&self.data);
        let n = list.len();
        let change = &change;
        let one = |t: usize| -> (r: Option<T>)
            requires
                t < n,
            ensures
                r is None <==> value_or_zero(r) == 0,
                exists|y: T|
                    turns_cell(
                        change,
                        ((list@[t as int].0 / SHIFT) as usize, (list@[t as int].0 % SHIFT) as usize),
                        list@[t as int].1,
                        y,
                    ) && value_or_zero(r) == y.value(),
            {
                let (k, x) = list[t];
                assert(self.data@.contains_key(list@[t as int].0));
                let at = unkey(k);
                proof {
                    lemma_unkey(k);
                    assert(self@.contains_key((at.0 as int, at.1 as int)));
                    assert(may_turn_cell(change, at, x));
                }
                let y = change(at, x);
                assert(turns_cell(change, at, x, y));
                if y.equals(zero) {
                    None
                } else {
                    proof {
                        if y.value() == 0 {
                            y.lemma_value_injective(zero);
                        }
                    }
                    Some(y)
                }
            };
        let results = par_map_range(0, n, one);
        let data = gather(&list, &results);
        let ghost before = *self;
        proof {
            assert forall|k: u128| #[trigger] data@.contains_key(k) implies k / SHIFT < self.nrows
                && k % SHIFT < self.ncols && data@[k].value() != 0 by {
                let t = choose|t: int| 0 <= t < list@.len() && (#[trigger] list@[t]).0 == k;
                assert(self.data@.contains_key(list@[t].0));
            }
        }
        *self = SparseMatrix { data, nrows: self.nrows, ncols: self.ncols };
        proof {
            assert forall|at: Shape| #[trigger]
                before@.contains_key((at.0 as int, at.1 as int)) implies exists|y: T|
                call_ensures(*change, (at, before@[(at.0 as int, at.1 as int)]), y) && self.entry(
                    at.0 as int,
                    at.1 as int,
                ) == y.value() by {
                lemma_key_of(at.0 as int, at.1 as int);
                let k = key_of(at.0 as int, at.1 as int);
                let t = choose|t: int| 0 <= t < list@.len() && #[trigger] list@[t].0 == k;
                assert(value_at(data@, list@[t].0) == value_or_zero(results@[t]));
                let y = choose|y: T|
                    turns_cell(
                        change,
                        ((list@[t].0 / SHIFT) as usize, (list@[t].0 % SHIFT) as usize),
                        list@[t].1,
                        y,
                    ) && value_or_zero(results@[t]) == y.value();
                assert(call_ensures(*change, (at, before@[(at.0 as int, at.1 as int)]), y));
            }
            assert forall|p: (int, int)| #[trigger] self@.contains_key(p) implies before@.contains_key(
                p,
            ) by {
                let k = key_of(p.0, p.1);
                let t = choose|t: int| 0 <= t < list@.len() && (#[trigger] list@[t]).0 == k;
                assert(before.data@.contains_key(list@[t].0));
            }
        }
    }
}

} // verus!
