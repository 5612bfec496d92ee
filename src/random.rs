//! Draws from the thread's random number generator.
use vstd::prelude::*;

verus! {

/// Relies on rand::Rng::gen_range (rand 0.7) on the thread's generator: a value in
/// `[low, high)`; it panics when `low >= high`.
#[verifier::external_body]
pub(crate) fn gen_range(low: usize, high: usize) -> (r: usize)
    requires
        low < high,
    ensures
        low <= r < high,
{
    rand::Rng::gen_range(&mut rand::thread_rng(), low, high)
}

/// Relies on rand::seq::SliceRandom::shuffle on the thread's generator: it only
/// swaps items of the slice, so the same items stay, in some order.
#[verifier::external_body]
pub(crate) fn shuffle<T>(v: &mut Vec<T>)
    ensures
        final(v)@.len() == old(v)@.len(),
        final(v)@.to_multiset() == old(v)@.to_multiset(),
{
    rand::seq::SliceRandom::shuffle(v.as_mut_slice(), &mut rand::thread_rng())
}

} // verus!
