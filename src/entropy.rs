//! The outside sources this library draws on: randomness and the wall clock.
use vstd::prelude::*;
use rand::seq::IteratorRandom;
use rand::seq::SliceRandom;

verus! {

/// Relies on rand's `SliceRandom::shuffle` (0.8): it permutes the elements in
/// place, so the same elements remain, each as often as before.
#[verifier::external_body]
pub(crate) fn shuffle<T>(v: &mut Vec<T>)
    ensures
        final(v)@.to_multiset() == old(v)@.to_multiset(),
{
    v.shuffle(&mut rand::thread_rng());
}

/// Relies on rand's `IteratorRandom::choose` (0.8) on a range: a range that is
/// not empty yields one of its values.
#[verifier::external_body]
pub(crate) fn choose_in(lo: usize, hi: usize) -> (r: usize)
    requires
        lo < hi,
    ensures
        lo <= r < hi,
{
    (lo..hi).choose(&mut rand::thread_rng()).unwrap()
}

/// Relies on `std::time::SystemTime::elapsed` from the Unix epoch: the wall
/// clock in milliseconds, or zero for a clock set before the epoch. Nothing
/// is promised of the value.
#[verifier::external_body]
pub(crate) fn clock_millis() -> (r: u64)
{
    std::time::UNIX_EPOCH.elapsed().map(|d| d.as_millis() as u64).unwrap_or(0)
}

} // verus!
