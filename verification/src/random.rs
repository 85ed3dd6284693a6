//! Random choices, drawn from the thread's generator.

use rand::seq::SliceRandom;
use rand::Rng;
use vstd::prelude::*;

verus! {

/// Draws an integer between `low` and `high`, both included.
///
/// Calls `rand::Rng::gen_range` on `rand::thread_rng()` with the inclusive
/// range `low..=high`. The crate documents that the value lies in the range
/// and that the call panics on an empty range; which value comes is left
/// open, so this says no more than the bounds.
#[verifier::external_body]
pub(crate) fn random_between(low: i32, high: i32) -> (r: i32)
    requires
        low <= high,
    ensures
        low <= r <= high,
{
    rand::thread_rng().gen_range(low..=high)
}

/// Puts the items of `items` into a random order.
///
/// Calls `rand::seq::SliceRandom::shuffle` with `rand::thread_rng()`. The
/// crate documents an in-place shuffle: the same items stay, each as often
/// as before, and nothing is promised of their order.
#[verifier::external_body]
pub(crate) fn shuffle<T>(items: &mut Vec<T>)
    ensures
        final(items)@.to_multiset() == old(items)@.to_multiset(),
{
    items.shuffle(&mut rand::thread_rng());
}

} // verus!
