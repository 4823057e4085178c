//! The two draws of chance that the simulation makes, both taken from the
//! random number generator of the calling thread.

use rand::seq::SliceRandom;
use rand::Rng;
use vstd::prelude::*;

verus! {

/// Calls `SliceRandom::shuffle` of `rand` on `items` with the generator
/// that `rand::thread_rng` hands out. The shuffle only swaps items, so the
/// contract says that the same items are there afterwards, each as often as
/// before, and nothing of their order. The generator is seeded by the
/// system on its first use in a thread and panics where that fails.
#[verifier::external_body]
pub(crate) fn shuffle(items: &mut Vec<i32>)
    ensures
        final(items)@.to_multiset() == old(items)@.to_multiset(),
{
    items.shuffle(&mut rand::thread_rng());
}

/// Calls `Rng::gen_ratio` of `rand` on the generator that
/// `rand::thread_rng` hands out: `true` with a chance of `numerator` in
/// `denominator`. The contract keeps out the arguments on which `gen_ratio`
/// panics and states the two cases that its documentation fixes: never
/// `true` for a chance of zero, always `true` for a chance of one.
#[verifier::external_body]
pub(crate) fn chance(numerator: u32, denominator: u32) -> (hit: bool)
    requires
        0 < denominator,
        numerator <= denominator,
    ensures
        numerator == 0 ==> !hit,
        numerator == denominator ==> hit,
{
    rand::thread_rng().gen_ratio(numerator, denominator)
}

} // verus!
