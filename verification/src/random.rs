//! Random numbers: what the library takes from rand.

use vstd::prelude::*;
use rand::Rng;

verus! {

/// A number drawn at random from `lo` to `hi`, both included.
///
/// Stands for `gen_range` of rand on the generator of the current thread,
/// with an inclusive range. The call fails on an empty range, which the
/// precondition leaves out; of the result the contract says what holds of
/// every draw, that it lies in the range.
#[verifier::external_body]
pub(crate) fn random_in(lo: i128, hi: i128) -> (r: i128)
    requires
        lo <= hi,
    ensures
        lo <= r <= hi,
{
    rand::thread_rng().gen_range(lo..=hi)
}

} // verus!
