//! The random draws that the scatter effect consumes.
//!
//! The generator is the thread-local one of the `rand` crate. Nothing that
//! it returns is predictable, so each function here promises only what
//! holds of every value that can come back.

use rand::rngs::ThreadRng;
use rand::seq::SliceRandom;
use rand::Rng;
use vstd::prelude::*;

verus! {

/// `rand::rngs::ThreadRng`, a handle to the generator of the current thread.
/// Its state is not visible to the proofs.
#[verifier::external_type_specification]
#[verifier::external_body]
pub struct ExThreadRng(ThreadRng);

/// `Rng::gen_range` on `usize`: some value that is at least `low` and below
/// `high`. The call panics on an empty range, which `requires` rules out.
#[verifier::external_body]
pub(crate) fn draw_index(rng: &mut ThreadRng, low: usize, high: usize) -> (r: usize)
    requires
        low < high,
    ensures
        low <= r < high,
{
    rng.gen_range(low, high)
}

/// `Rng::gen_range` on `u8`: some value that is at least `low` and below
/// `high`. The call panics on an empty range, which `requires` rules out.
#[verifier::external_body]
pub(crate) fn draw_between(rng: &mut ThreadRng, low: u8, high: u8) -> (r: u8)
    requires
        low < high,
    ensures
        low <= r < high,
{
    rng.gen_range(low, high)
}

/// `Rng::gen` for `u8`: any byte.
#[verifier::external_body]
pub(crate) fn draw_byte(rng: &mut ThreadRng) -> (r: u8) {
    rng.gen::<u8>()
}

/// `SliceRandom::shuffle` on the elements of a vector. The crate shuffles by
/// swapping elements in place, so the vector holds the same elements as
/// before, each as often as before, in some order.
#[verifier::external_body]
pub(crate) fn shuffle(rng: &mut ThreadRng, v: &mut Vec<usize>)
    ensures
        final(v)@.to_multiset() == old(v)@.to_multiset(),
{
    v.shuffle(rng)
}

} // verus!
