//! Trusted access to the `rand` crate: the thread-local generator, slice
//! shuffling and uniform sampling of an index.

use rand::rngs::ThreadRng;
use rand::seq::SliceRandom;
use rand::Rng;
use vstd::prelude::*;

verus! {

#[verifier::external_type_specification]
#[verifier::external_body]
pub struct ExThreadRng(ThreadRng);

/// Relies on `rand::thread_rng`: a handle to the generator of the current
/// thread; nothing is known of the values it will produce.
pub assume_specification[ rand::thread_rng ]() -> ThreadRng;

/// Relies on rand's `SliceRandom::shuffle`, which only swaps elements: the
/// result holds the same values, in some order.
#[verifier::external_body]
pub(crate) fn shuffle(values: &mut Vec<u8>, rng: &mut ThreadRng)
    ensures
        final(values)@.to_multiset() == old(values)@.to_multiset(),
{
    values.shuffle(rng);
}

/// Relies on rand's `Rng::gen_range`: a value in `[low, high)`; it panics
/// when `low >= high`.
#[verifier::external_body]
pub(crate) fn random_index(rng: &mut ThreadRng, low: usize, high: usize) -> (r: usize)
    requires
        low < high,
    ensures
        low <= r < high,
{
    rng.gen_range(low, high)
}

} // verus!
