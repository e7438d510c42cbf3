//! Searching and counting in dense matrices with a predicate of the
//! caller.
//!
//! A predicate is asked once for every element, on as many threads as
//! rayon sees fit. The contracts speak of the answers it gave: they do not
//! suppose that it would give the same answer when asked again.

use vstd::prelude::*;
use crate::common::{lemma_wrap_value, wrap, MatrixElement};
use crate::matrix::{lemma_unflat, Matrix, Shape};
use crate::parallel::{
    are_outcomes, folded_sum, lemma_folded_sum, par_map_range, par_sum_range, sum_over,
};

verus! {

/// Whether `flags` holds, place by place, an answer of `pred` to the
/// elements of `cells`.
pub open spec fn answers<T, F: Fn(&T) -> bool>(flags: Seq<bool>, cells: Seq<T>, pred: F) -> bool {
    &&& flags.len() == cells.len()
    &&& forall|k: int|
        0 <= k < flags.len() ==> call_ensures(pred, (&cells[k],), #[trigger] flags[k])
}

/// Whether `pred` can be asked about `x`.
pub open spec fn may_ask<T, F: Fn(&T) -> bool>(pred: &F, x: T) -> bool {
    call_requires(*pred, (&x,))
}

/// Whether `change` can be applied to `x`.
pub open spec fn may_turn<T, F: Fn(T) -> T>(change: &F, x: T) -> bool {
    call_requires(*change, (x,))
}

/// Whether `b` is an answer of `pred` to `x`.
pub open spec fn says<T, F: Fn(&T) -> bool>(pred: &F, x: T, b: bool) -> bool {
    call_ensures(*pred, (&x,), b)
}

/// Whether `y` is an outcome of `change` on `x`.
pub open spec fn turns<T, F: Fn(T) -> T>(change: &F, x: T, y: T) -> bool {
    call_ensures(*change, (x,), y)
}

/// How many of the first `n` flags are set.
pub open spec fn count_set(flags: Seq<bool>, n: int) -> int
    decreases n,
{
    if n <= 0 {
        0
    } else {
        count_set(flags, n - 1) + if flags[n - 1] {
            1int
        } else {
            0int
        }
    }
}

/// The places among the first `n` at which a flag is set, in rising order.
pub open spec fn set_places(flags: Seq<bool>, n: int) -> Seq<int>
    decreases n,
{
    if n <= 0 {
        Seq::empty()
    } else if flags[n - 1] {
        set_places(flags, n - 1).push(n - 1)
    } else {
        set_places(flags, n - 1)
    }
}

/// No more flags are set than there are flags.
pub proof fn lemma_count_set_bound(flags: Seq<bool>, n: int)
    requires
        0 <= n,
    ensures
        0 <= count_set(flags, n) <= n,
        set_places(flags, n).len() == count_set(flags, n),
    decreases n,
{
    if n > 0 {
        lemma_count_set_bound(flags, n - 1);
    }
}

impl<T: MatrixElement> Matrix<T> {
    /// Whether `pred` can be asked about every element.
    pub open spec fn accepts<F: Fn(&T) -> bool>(&self, pred: F) -> bool {
        forall|k: int| 0 <= k < self@.len() ==> call_requires(pred, (&#[trigger] self@[k],))
    }

    /// One answer of `pred` for every element, in the order of the buffer.
    fn ask<F: Fn(&T) -> bool + Sync>(&self, pred: &F) -> (flags: Vec<bool>)
        requires
            self.accepts(*pred),
        ensures
            answers(flags@, self@, *pred),
    {
        let n = self.data.len();
        let one = |k: usize| -> (b: bool)
            requires
                k < n,
            ensures
                says(pred, self@[k as int], b),
            {
                assert(may_ask(pred, self@[k as int]));
                pred(&self.data[k])
            };
        par_map_range(0, n, one)
    }

    /// Whether `pred` accepts some element.
    pub fn any<F: Fn(&T) -> bool + Sync + Send>(&self, pred: F) -> (r: bool)
        requires
            self.accepts(pred),
        ensures
            r ==> exists|k: int|
                0 <= k < self@.len() && call_ensures(pred, (&#[trigger] self@[k],), true),
            !r ==> forall|k: int|
                0 <= k < self@.len() ==> call_ensures(pred, (&#[trigger] self@[k],), false),
    {
        let flags = self.ask(&pred);
        let mut k: usize = 0;
        while k < flags.len()
            invariant
                answers(flags@, self@, pred),
                k <= flags@.len(),
                forall|t: int| 0 <= t < k ==> !(#[trigger] flags@[t]),
            decreases flags@.len() - k,
        {
            if flags[k] {
                assert(call_ensures(pred, (&self@[k as int],), flags@[k as int]));
                return true;
            }
            k += 1;
        }
        proof {
            assert forall|t: int| 0 <= t < self@.len() implies call_ensures(
                pred,
                (&#[trigger] self@[t],),
                false,
            ) by {
                assert(!flags@[t]);
            }
        }
        false
    }

    /// Whether `pred` accepts every element.
    pub fn all<F: Fn(&T) -> bool + Sync + Send>(&self, pred: F) -> (r: bool)
        requires
            self.accepts(pred),
        ensures
            r ==> forall|k: int|
                0 <= k < self@.len() ==> call_ensures(pred, (&#[trigger] self@[k],), true),
            !r ==> exists|k: int|
                0 <= k < self@.len() && call_ensures(pred, (&#[trigger] self@[k],), false),
    {
        let flags = self.ask(&pred);
        let mut k: usize = 0;
        while k < flags.len()
            invariant
                answers(flags@, self@, pred),
                k <= flags@.len(),
                forall|t: int| 0 <= t < k ==> #[trigger] flags@[t],
            decreases flags@.len() - k,
        {
            if !flags[k] {
                assert(call_ensures(pred, (&self@[k as int],), flags@[k as int]));
                return false;
            }
            k += 1;
        }
        proof {
            assert forall|t: int| 0 <= t < self@.len() implies call_ensures(
                pred,
                (&#[trigger] self@[t],),
                true,
            ) by {
                assert(flags@[t]);
            }
        }
        true
    }

    /// How many elements `pred` accepts.
    pub fn count_where<F: Fn(&T) -> bool + Sync>(&self, pred: F) -> (r: usize)
        requires
            self.accepts(pred),
        ensures
            exists|flags: Seq<bool>| #[trigger]
                answers(flags, self@, pred) && r == count_set(flags, flags.len() as int),
    {
        let flags = self.ask(&pred);
        let mut count: usize = 0;
        let mut k: usize = 0;
        while k < flags.len()
            invariant
                k <= flags@.len(),
                count == count_set(flags@, k as int),
                count <= k,
            decreases flags@.len() - k,
        {
            if flags[k] {
                count += 1;
            }
            k += 1;
        }
        assert(answers(flags@, self@, pred) && count == count_set(flags@, flags@.len() as int));
        count
    }

    /// The exact sum of the elements at which a flag is set.
    pub open spec fn flagged_total(&self, flags: Seq<bool>) -> int {
        sum_over(
            |k: int|
                if flags[k] {
                    self@[k].value()
                } else {
                    0
                },
            0,
            self@.len() as int,
        )
    }

    /// The sum of the elements that `pred` accepts.
    pub fn sum_where<F: Fn(&T) -> bool + Sync>(&self, pred: F) -> (r: T)
        requires
            self.accepts(pred),
        ensures
            exists|flags: Seq<bool>| #[trigger]
                answers(flags, self@, pred) && r.value() == wrap::<T>(self.flagged_total(flags)),
    {
        let flags = self.ask(&pred);
        let n = self.data.len();
        let zero = T::zero();
        let term = |k: usize| -> (t: T)
            requires
                k < n,
            ensures
                t.value() == (if flags@[k as int] {
                    self@[k as int].value()
                } else {
                    0
                }),
            {
                if flags[k] {
                    self.data[k]
                } else {
                    zero
                }
            };
        let r = par_sum_range(0, n, term);
        proof {
            let terms = choose|terms: Seq<T>|
                are_outcomes(terms, 0, n, term) && folded_sum(terms) == r.value();
            let g = |k: int|
                if flags@[k] {
                    self@[k].value()
                } else {
                    0
                };
            assert forall|k: int| 0 <= k < terms.len() implies (#[trigger] terms[k]).value()
                == wrap::<T>(g(0 + k)) by {
                lemma_wrap_value(terms[k]);
            }
            lemma_folded_sum(terms, g, 0);
            assert(answers(flags@, self@, pred) && r.value() == wrap::<T>(
                self.flagged_total(flags@),
            ));
        }
        r
    }

    /// Whether `after` holds, place by place, an outcome of `change` on the
    /// elements of `before`.
    pub open spec fn is_changed_by<F: Fn(T) -> T>(after: Seq<T>, before: Seq<T>, change: F) -> bool {
        &&& after.len() == before.len()
        &&& forall|k: int|
            0 <= k < after.len() ==> call_ensures(change, (before[k],), #[trigger] after[k])
    }

    /// Replaces every element by what `change` makes of it.
    pub fn set_where<F: Fn(T) -> T + Sync + Send>(&mut self, change: F)
        requires
            forall|k: int|
                0 <= k < old(self)@.len() ==> call_requires(change, (#[trigger] old(self)@[k],)),
        ensures
            final(self).rows() == old(self).rows(),
            final(self).cols() == old(self).cols(),
            Self::is_changed_by(final(self)@, old(self)@, change),
    {
        proof {
            use_type_invariant(&*self);
        }
        let n = self.data.len();
        let change = &change;
        let one = |k: usize| -> (t: T)
            requires
                k < n,
            ensures
                turns(change, self@[k as int], t),
            {
                assert(may_turn(change, self@[k as int]));
                change(self.data[k])
            };
        let data = par_map_range(0, n, one);
        *self = Matrix { data, nrows: self.nrows, ncols: self.ncols };
    }

    /// The first cell, in the order of the buffer, whose element `pred`
    /// accepts, or `None` where it accepts none.
    pub fn find<F: Fn(&T) -> bool + Sync>(&self, pred: F) -> (r: Option<Shape>)
        requires
            self.accepts(pred),
        ensures
            exists|flags: Seq<bool>| #[trigger]
                answers(flags, self@, pred) && (match r {
                    Some(at) => {
                        let first = set_places(flags, flags.len() as int)[0];
                        &&& count_set(flags, flags.len() as int) > 0
                        &&& at.0 == first / (self.cols() as int)
                        &&& at.1 == first % (self.cols() as int)
                    },
                    None => count_set(flags, flags.len() as int) == 0,
                }),
    {
        let flags = self.ask(&pred);
        proof {
            use_type_invariant(self);
        }
        let mut k: usize = 0;
        while k < flags.len()
            invariant
                self.wf(),
                answers(flags@, self@, pred),
                k <= flags@.len(),
                count_set(flags@, k as int) == 0,
                set_places(flags@, k as int) =~= Seq::<int>::empty(),
            decreases flags@.len() - k,
        {
            if flags[k] {
                proof {
                    lemma_unflat(k as int, self.rows() as int, self.cols() as int);
                    lemma_first_place(flags@, k as int, flags@.len() as int);
                }
                let at = self.one_to_2d_idx(k);
                return Some(at);
            }
            k += 1;
        }
        None
    }

    /// The cells whose elements `pred` accepts, in the order of the buffer,
    /// or `None` where it accepts none.
    pub fn find_all<F: Fn(&T) -> bool + Sync>(&self, pred: F) -> (r: Option<Vec<Shape>>)
        requires
            self.accepts(pred),
        ensures
            exists|flags: Seq<bool>| #[trigger]
                answers(flags, self@, pred) && (match r {
                    Some(list) => {
                        let places = set_places(flags, flags.len() as int);
                        &&& list@.len() > 0
                        &&& list@.len() == places.len()
                        &&& forall|t: int|
                            0 <= t < list@.len() ==> (#[trigger] list@[t]).0 == places[t] / (
                            self.cols() as int) && list@[t].1 == places[t] % (self.cols() as int)
                    },
                    None => count_set(flags, flags.len() as int) == 0,
                }),
    {
        let flags = self.ask(&pred);
        proof {
            use_type_invariant(self);
        }
        let mut list: Vec<Shape> = Vec::new();
        let mut k: usize = 0;
        while k < flags.len()
            invariant
                self.wf(),
                answers(flags@, self@, pred),
                k <= flags@.len(),
                list@.len() == set_places(flags@, k as int).len(),
                list@.len() == count_set(flags@, k as int),
                forall|t: int|
                    0 <= t < list@.len() ==> (#[trigger] list@[t]).0 == set_places(
                        flags@,
                        k as int,
                    )[t] / (self.cols() as int) && list@[t].1 == set_places(flags@, k as int)[t] % (
                    self.cols() as int),
            decreases flags@.len() - k,
        {
            if flags[k] {
                proof {
                    lemma_unflat(k as int, self.rows() as int, self.cols() as int);
                }
                let at = self.one_to_2d_idx(k);
                list.push(at);
            }
            k += 1;
        }
        if list.len() == 0 {
            None
        } else {
            Some(list)
        }
    }
}

/// Where the flag at `k` is set and none before it is, `k` is the first
/// place at which a flag is set.
pub proof fn lemma_first_place(flags: Seq<bool>, k: int, n: int)
    requires
        0 <= k < n,
        flags[k],
        count_set(flags, k) == 0,
        set_places(flags, k) =~= Seq::<int>::empty(),
    ensures
        set_places(flags, n)[0] == k,
        set_places(flags, n).len() > 0,
        count_set(flags, n) > 0,
    decreases n - k,
{
    if n == k + 1 {
        assert(set_places(flags, n) == set_places(flags, k).push(k));
    } else {
        lemma_first_place(flags, k, n - 1);
        lemma_count_set_bound(flags, n - 1);
    }
}

/// How many flags are set.
pub fn count_flags(flags: &Vec<bool>) -> (count: usize)
    ensures
        count == count_set(flags@, flags@.len() as int),
{
    let mut count: usize = 0;
    let mut k: usize = 0;
    while k < flags.len()
        invariant
            k <= flags@.len(),
            count == count_set(flags@, k as int),
            count <= k,
        decreases flags@.len() - k,
    {
        if flags[k] {
            count += 1;
        }
        k += 1;
    }
    count
}

/// The places at which a flag is set, in rising order.
pub fn flag_places(flags: &Vec<bool>) -> (places: Vec<usize>)
    ensures
        places@.len() == set_places(flags@, flags@.len() as int).len(),
        places@.len() == count_set(flags@, flags@.len() as int),
        forall|t: int|
            0 <= t < places@.len() ==> #[trigger] places@[t] == set_places(
                flags@,
                flags@.len() as int,
            )[t] && places@[t] < flags@.len(),
{
    let mut places: Vec<usize> = Vec::new();
    let mut k: usize = 0;
    while k < flags.len()
        invariant
            k <= flags@.len(),
            places@.len() == set_places(flags@, k as int).len(),
            places@.len() == count_set(flags@, k as int),
            forall|t: int|
                0 <= t < places@.len() ==> #[trigger] places@[t] == set_places(flags@, k as int)[t]
                    && places@[t] < flags@.len(),
        decreases flags@.len() - k,
    {
        if flags[k] {
            places.push(k);
        }
        k += 1;
    }
    places
}

/// The first place at which a flag is set, or `None` where none is.
pub fn first_flag(flags: &Vec<bool>) -> (first: Option<usize>)
    ensures
        match first {
            Some(k) => count_set(flags@, flags@.len() as int) > 0 && k < flags@.len() && k
                == set_places(flags@, flags@.len() as int)[0],
            None => count_set(flags@, flags@.len() as int) == 0,
        },
{
    let mut k: usize = 0;
    while k < flags.len()
        invariant
            k <= flags@.len(),
            count_set(flags@, k as int) == 0,
            set_places(flags@, k as int) =~= Seq::<int>::empty(),
        decreases flags@.len() - k,
    {
        if flags[k] {
            proof {
                lemma_first_place(flags@, k as int, flags@.len() as int);
            }
            return Some(k);
        }
        k += 1;
    }
    None
}

} // verus!
