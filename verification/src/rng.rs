//! The random source every component draws from.

use rand::rngs::ThreadRng;
use rand::seq::SliceRandom;
use rand::Rng;
use vstd::prelude::*;

verus! {

/// `rand::rngs::ThreadRng`, the handle to the thread-local generator. Its state is opaque.
#[verifier::external_type_specification]
#[verifier::external_body]
pub struct ExThreadRng(rand::rngs::ThreadRng);

/// `rand::thread_rng` hands out the thread-local generator, seeded by the system on first
/// use. Nothing is claimed of the handle.
pub assume_specification[ rand::thread_rng ]() -> (rng: ThreadRng)
;

/// Draws one integer with `rand::Rng::gen_range` on the inclusive range `low..=high`.
/// The generator samples inside the range it is given, so the result lies between the two
/// bounds; which value comes back is left open. `gen_range` panics on an empty range, which
/// the precondition rules out.
#[verifier::external_body]
pub(crate) fn random_between(rng: &mut ThreadRng, low: i128, high: i128) -> (r: i128)
    requires
        low <= high,
    ensures
        low <= r <= high,
{
    rng.gen_range(low..=high)
}

/// Reorders the positions with `rand::seq::SliceRandom::shuffle`, which only swaps elements
/// of the slice: the same positions are present afterwards, each as often as before.
#[verifier::external_body]
pub(crate) fn shuffle_positions(rng: &mut ThreadRng, positions: &mut Vec<(usize, usize)>)
    ensures
        final(positions)@.to_multiset() == old(positions)@.to_multiset(),
{
    positions.shuffle(rng);
}

/// A uniformly drawn index into a collection of `len` items.
pub fn random_index(rng: &mut ThreadRng, len: usize) -> (i: usize)
    requires
        len > 0,
    ensures
        i < len,
{
    random_between(rng, 0, (len - 1) as i128) as usize
}

/// A uniformly drawn value in `low..=high`.
pub fn random_usize(rng: &mut ThreadRng, low: usize, high: usize) -> (r: usize)
    requires
        low <= high,
    ensures
        low <= r <= high,
{
    random_between(rng, low as i128, high as i128) as usize
}

/// A uniformly drawn roll in `0..100`, to be compared with a percentage.
pub fn percent_roll(rng: &mut ThreadRng) -> (r: u32)
    ensures
        r < 100,
{
    random_between(rng, 0, 99) as u32
}

} // verus!
