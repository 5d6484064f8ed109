//! Random sources used by the simulation.
use vstd::prelude::*;
use rand::seq::SliceRandom;
use rand::Rng;
use rand::RngCore;

verus! {

#[verifier::external_type_specification]
#[verifier::external_body]
pub struct ExStdRng(rand::rngs::StdRng);

/// Relies on `RngCore::next_u64` of `StdRng`: one raw 64-bit draw; any value may come.
#[verifier::external_body]
pub(crate) fn next_u64(rng: &mut rand::rngs::StdRng) -> (r: u64) {
    rng.next_u64()
}

/// Relies on `Rng::gen_range` over `0..n`: a draw that lies in the range
/// (the call panics on an empty range, hence `n > 0`).
#[verifier::external_body]
pub(crate) fn uniform_index(rng: &mut rand::rngs::StdRng, n: usize) -> (r: usize)
    requires
        n > 0,
    ensures
        r < n,
{
    rng.gen_range(0..n)
}

/// Relies on `SliceRandom::shuffle`: it only swaps elements, so the result is a
/// permutation of the input.
#[verifier::external_body]
pub(crate) fn shuffle_flags(flags: &mut Vec<bool>, rng: &mut rand::rngs::StdRng)
    ensures
        final(flags)@.len() == old(flags)@.len(),
        final(flags)@.to_multiset() == old(flags)@.to_multiset(),
{
    flags.shuffle(rng);
}

} // verus!
