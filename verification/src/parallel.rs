//! Data-parallel building blocks: what the library takes from rayon.

use vstd::prelude::*;
use rayon::iter::{IntoParallelIterator, ParallelIterator};
use crate::common::{
    lemma_wrap_add, lemma_wrap_exact, lemma_wrap_mul, wrap, wrap_signed, MatrixElement,
};

verus! {

/// What adding up `terms` from left to right gives, starting from zero and
/// wrapping after every addition.
pub open spec fn folded_sum<T: MatrixElement>(terms: Seq<T>) -> int
    decreases terms.len(),
{
    if terms.len() == 0 {
        0
    } else {
        wrap::<T>(folded_sum(terms.drop_last()) + terms.last().value())
    }
}

/// The exact sum of `g(k)` for `k` in `[lo, hi)`.
pub open spec fn sum_over(g: spec_fn(int) -> int, lo: int, hi: int) -> int
    decreases hi - lo,
{
    if hi <= lo {
        0
    } else {
        sum_over(g, lo, hi - 1) + g(hi - 1)
    }
}

/// A sum over `[lo, hi)` is the sum over `[lo, mid)` plus the sum over
/// `[mid, hi)`.
pub proof fn lemma_sum_over_split(g: spec_fn(int) -> int, lo: int, mid: int, hi: int)
    requires
        lo <= mid <= hi,
    ensures
        sum_over(g, lo, hi) == sum_over(g, lo, mid) + sum_over(g, mid, hi),
    decreases hi - mid,
{
    if mid < hi {
        lemma_sum_over_split(g, lo, mid, hi - 1);
    }
}

/// Two functions that agree on `[lo, hi)` have the same sum there.
pub proof fn lemma_sum_over_agree(f: spec_fn(int) -> int, g: spec_fn(int) -> int, lo: int, hi: int)
    requires
        forall|k: int| lo <= k < hi ==> #[trigger] f(k) == g(k),
    ensures
        sum_over(f, lo, hi) == sum_over(g, lo, hi),
    decreases hi - lo,
{
    if lo < hi {
        lemma_sum_over_agree(f, g, lo, hi - 1);
    }
}

/// A sum changes by as much as its one term that changes.
pub proof fn lemma_sum_over_bump(
    f: spec_fn(int) -> int,
    g: spec_fn(int) -> int,
    lo: int,
    hi: int,
    at: int,
    by: int,
)
    requires
        lo <= at < hi,
        g(at) == f(at) + by,
        forall|k: int| lo <= k < hi && k != at ==> #[trigger] g(k) == f(k),
    ensures
        sum_over(g, lo, hi) == sum_over(f, lo, hi) + by,
    decreases hi - lo,
{
    if at == hi - 1 {
        lemma_sum_over_agree(g, f, lo, hi - 1);
    } else {
        lemma_sum_over_bump(f, g, lo, hi - 1, at, by);
        assert(g(hi - 1) == f(hi - 1));
    }
}

/// Two sums whose terms agree after wrapping agree after wrapping.
pub proof fn lemma_sum_over_wrapped(
    f: spec_fn(int) -> int,
    g: spec_fn(int) -> int,
    lo: int,
    hi: int,
    m: int,
)
    requires
        m > 0,
        forall|k: int| lo <= k < hi ==> wrap_signed(#[trigger] f(k), m) == wrap_signed(g(k), m),
    ensures
        wrap_signed(sum_over(f, lo, hi), m) == wrap_signed(sum_over(g, lo, hi), m),
    decreases hi - lo,
{
    if lo < hi {
        lemma_sum_over_wrapped(f, g, lo, hi - 1, m);
        lemma_wrap_add(sum_over(f, lo, hi - 1), f(hi - 1), m);
        lemma_wrap_add(sum_over(g, lo, hi - 1), g(hi - 1), m);
    }
}

/// A common factor can be taken out of a sum.
pub proof fn lemma_sum_over_scale(x: int, g: spec_fn(int) -> int, lo: int, hi: int)
    ensures
        sum_over(|k: int| x * g(k), lo, hi) == x * sum_over(g, lo, hi),
    decreases hi - lo,
{
    if lo < hi {
        lemma_sum_over_scale(x, g, lo, hi - 1);
        assert(x * sum_over(g, lo, hi - 1) + x * g(hi - 1) == x * (sum_over(g, lo, hi - 1) + g(
            hi - 1,
        ))) by (nonlinear_arith);
    } else {
        assert(x * 0 == 0);
    }
}

/// Adding up terms that each hold a wrapped `g(k)` gives the wrapped exact
/// sum of `g`: wrapping along the way loses nothing that wrapping at the end
/// would keep.
pub proof fn lemma_folded_sum<T: MatrixElement>(terms: Seq<T>, g: spec_fn(int) -> int, lo: int)
    requires
        forall|k: int| 0 <= k < terms.len() ==> (#[trigger] terms[k]).value() == wrap::<T>(g(lo + k)),
    ensures
        folded_sum(terms) == wrap::<T>(sum_over(g, lo, lo + terms.len())),
    decreases terms.len(),
{
    T::lemma_modulus();
    if terms.len() == 0 {
        vstd::arithmetic::div_mod::lemma_small_mod(0, T::modulus() as nat);
    } else {
        let n = terms.len() as int;
        let head = terms.drop_last();
        assert forall|k: int| 0 <= k < head.len() implies (#[trigger] head[k]).value() == wrap::<T>(
            g(lo + k),
        ) by {
            assert(head[k] == terms[k]);
        }
        lemma_folded_sum(head, g, lo);
        lemma_wrap_add(sum_over(g, lo, lo + n - 1), g(lo + n - 1), T::modulus());
    }
}

/// Whether `terms` holds, in order, one outcome of `f(k)` for each `k` in
/// `[lo, hi)`.
pub open spec fn are_outcomes<T, F: Fn(usize) -> T>(terms: Seq<T>, lo: usize, hi: usize, f: F) -> bool {
    &&& terms.len() == hi - lo
    &&& forall|k: int|
        0 <= k < terms.len() ==> call_ensures(f, ((lo + k) as usize,), #[trigger] terms[k])
}

/// Whether `r` is what adding up one outcome of `f(k)` for each `k` in
/// `[lo, hi)`, in that order, gives.
pub open spec fn adds_up<T: MatrixElement, F: Fn(usize) -> T>(r: T, lo: usize, hi: usize, f: F) -> bool {
    exists|terms: Seq<T>| #[trigger] are_outcomes(terms, lo, hi, f) && folded_sum(terms) == r.value()
}

/// Maps every `k` in `[lo, hi)` to an element and adds the elements up, on
/// as many threads as rayon sees fit.
///
/// Stands for rayon's `into_par_iter().map(f).reduce(..)` on a range. The
/// contract says that the result is what adding up the outcomes of `f`, in
/// the order of the range, gives: rayon promises that for an associative
/// operation with a neutral element, which wrapping addition with zero is.
#[verifier::external_body]
pub(crate) fn par_sum_range<T: MatrixElement, F: Fn(usize) -> T + Sync + Send>(
    lo: usize,
    hi: usize,
    f: F,
) -> (r: T)
    requires
        lo <= hi,
        forall|k: usize| lo <= k < hi ==> call_requires(f, (k,)),
    ensures
        adds_up(r, lo, hi, f),
{
    (lo..hi).into_par_iter().map(f).reduce(T::zero, T::wrapping_add)
}

/// What multiplying `terms` from left to right gives, starting from one and
/// wrapping after every multiplication.
pub open spec fn folded_product<T: MatrixElement>(terms: Seq<T>) -> int
    decreases terms.len(),
{
    if terms.len() == 0 {
        1
    } else {
        wrap::<T>(folded_product(terms.drop_last()) * terms.last().value())
    }
}

/// The exact product of `g(k)` for `k` in `[lo, hi)`.
pub open spec fn product_over(g: spec_fn(int) -> int, lo: int, hi: int) -> int
    decreases hi - lo,
{
    if hi <= lo {
        1
    } else {
        product_over(g, lo, hi - 1) * g(hi - 1)
    }
}

/// Multiplying terms that each hold `g(k)` gives the wrapped exact product
/// of `g`.
pub proof fn lemma_folded_product<T: MatrixElement>(terms: Seq<T>, g: spec_fn(int) -> int, lo: int)
    requires
        forall|k: int| 0 <= k < terms.len() ==> (#[trigger] terms[k]).value() == wrap::<T>(g(lo + k)),
    ensures
        folded_product(terms) == wrap::<T>(product_over(g, lo, lo + terms.len())),
    decreases terms.len(),
{
    T::lemma_modulus();
    if terms.len() == 0 {
        lemma_wrap_exact(1, T::modulus());
    } else {
        let n = terms.len() as int;
        let head = terms.drop_last();
        assert forall|k: int| 0 <= k < head.len() implies (#[trigger] head[k]).value() == wrap::<T>(
            g(lo + k),
        ) by {
            assert(head[k] == terms[k]);
        }
        lemma_folded_product(head, g, lo);
        lemma_wrap_mul(product_over(g, lo, lo + n - 1), g(lo + n - 1), T::modulus());
    }
}

/// Whether `r` is what multiplying one outcome of `f(k)` for each `k` in
/// `[lo, hi)`, in that order, gives.
pub open spec fn multiplies_up<T: MatrixElement, F: Fn(usize) -> T>(
    r: T,
    lo: usize,
    hi: usize,
    f: F,
) -> bool {
    exists|terms: Seq<T>| #[trigger]
        are_outcomes(terms, lo, hi, f) && folded_product(terms) == r.value()
}

/// Maps every `k` in `[lo, hi)` to an element and multiplies the elements,
/// on as many threads as rayon sees fit.
///
/// Stands for rayon's `into_par_iter().map(f).reduce(..)` on a range, with
/// wrapping multiplication, which is associative, and its neutral element
/// one: the result is what multiplying the outcomes of `f` in the order of
/// the range gives.
#[verifier::external_body]
pub(crate) fn par_product_range<T: MatrixElement, F: Fn(usize) -> T + Sync + Send>(
    lo: usize,
    hi: usize,
    f: F,
) -> (r: T)
    requires
        lo <= hi,
        forall|k: usize| lo <= k < hi ==> call_requires(f, (k,)),
    ensures
        multiplies_up(r, lo, hi, f),
{
    (lo..hi).into_par_iter().map(f).reduce(T::one, T::wrapping_mul)
}

/// Maps every `k` in `[lo, hi)` to a value, on as many threads as rayon sees
/// fit, and collects the values in the order of the range.
///
/// Stands for rayon's `into_par_iter().map(f).collect()` on a range, which
/// keeps the order of its items.
#[verifier::external_body]
pub(crate) fn par_map_range<T: Send, F: Fn(usize) -> T + Sync + Send>(lo: usize, hi: usize, f: F) -> (out:
    Vec<T>)
    requires
        lo <= hi,
        forall|k: usize| lo <= k < hi ==> call_requires(f, (k,)),
    ensures
        are_outcomes(out@, lo, hi, f),
{
    (lo..hi).into_par_iter().map(f).collect()
}

/// Whether `r` is the last number of `[lo, hi]` on which `f` answers yes, or
/// `None` where it answers no on every one.
pub open spec fn is_last_match<F: Fn(&usize) -> bool>(r: Option<usize>, lo: usize, hi: usize, f: F) -> bool {
    match r {
        Some(found) => {
            &&& lo <= found <= hi
            &&& call_ensures(f, (&found,), true)
            &&& forall|c: usize| found < c <= hi ==> #[trigger] call_ensures(f, (&c,), false)
        },
        None => forall|c: usize| lo <= c <= hi ==> #[trigger] call_ensures(f, (&c,), false),
    }
}

/// Looks on as many threads as rayon sees fit for the last number of
/// `[lo, hi]` that `f` accepts.
///
/// Stands for rayon's `into_par_iter().find_last(f)` on an inclusive range,
/// which returns the match that comes last in the order of the range, and
/// `None` if there is no match.
#[verifier::external_body]
pub(crate) fn par_find_last<F: Fn(&usize) -> bool + Sync + Send>(lo: usize, hi: usize, f: F) -> (r:
    Option<usize>)
    requires
        forall|c: usize| lo <= c <= hi ==> call_requires(f, (&c,)),
    ensures
        is_last_match(r, lo, hi, f),
{
    (lo..=hi).into_par_iter().find_last(f)
}

} // verus!
