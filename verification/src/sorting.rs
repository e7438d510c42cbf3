//! Sorting: what the library takes from itertools.

use vstd::prelude::*;
use core::cmp::Ordering;
use itertools::Itertools;
use crate::common::MatrixElement;

verus! {

/// Whether the integers of `s` rise from place to place, equal neighbours
/// allowed.
pub open spec fn rises<T: MatrixElement>(s: Seq<T>) -> bool {
    forall|i: int, j: int| 0 <= i < j < s.len() ==> s[i].value() <= s[j].value()
}

/// Whether `out` holds the elements of `items`, each as often as `items`
/// holds it, in rising order.
pub open spec fn is_sorted_copy<T: MatrixElement>(out: Seq<T>, items: Seq<T>) -> bool {
    &&& out.len() == items.len()
    &&& out.to_multiset() == items.to_multiset()
    &&& rises(out)
}

/// How `a` stands to `b` in the order of their integers.
pub fn order<T: MatrixElement>(a: &T, b: &T) -> (o: Ordering)
    ensures
        o is Less <==> a.value() < b.value(),
        o is Greater <==> a.value() > b.value(),
{
    if a.less_than(*b) {
        Ordering::Less
    } else if b.less_than(*a) {
        Ordering::Greater
    } else {
        Ordering::Equal
    }
}

/// A copy of `items` in rising order.
///
/// Stands for `sorted_by` of itertools, which collects the items into a
/// vector and sorts that vector with the comparison it is given: the
/// result holds the same items as often, in the order of the comparison.
/// The comparison handed over is `order`, a total order.
#[verifier::external_body]
pub(crate) fn sorted<T: MatrixElement>(items: &Vec<T>) -> (out: Vec<T>)
    ensures
        is_sorted_copy(out@, items@),
{
    items.iter().copied().sorted_by(|a, b| order(a, b)).collect()
}

} // verus!
