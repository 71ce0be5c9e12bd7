//! The random source of a model: the standard generator of the `rand` crate.
use vstd::prelude::*;
use rand::rngs::StdRng;
use rand::Rng;
use rand::RngCore;
use rand::SeedableRng;

verus! {

#[verifier::external_type_specification]
#[verifier::external_body]
pub struct ExStdRng(StdRng);

/// `StdRng::seed_from_u64`: a generator whose stream is fixed by `seed`.
/// Nothing is claimed of the generator's state.
#[verifier::external_body]
pub(crate) fn seeded(seed: u64) -> (rng: StdRng) {
    StdRng::seed_from_u64(seed)
}

/// `StdRng::from_entropy`: a generator seeded by the operating system.
/// Nothing is claimed of the generator's state. The call aborts where the
/// system can provide no entropy.
#[verifier::external_body]
pub(crate) fn unseeded() -> (rng: StdRng) {
    StdRng::from_entropy()
}

/// `Rng::gen_range` on `0..bound`: some integer below `bound`. The call
/// panics on an empty range, which `requires` leaves out.
#[verifier::external_body]
pub(crate) fn draw_below(rng: &mut StdRng, bound: u32) -> (roll: u32)
    requires
        bound > 0,
    ensures
        roll < bound,
{
    rng.gen_range(0..bound)
}

/// `Rng::gen_range` on `0..bound` for a bound of any size: some integer below
/// `bound`. The call panics on an empty range, which `requires` leaves out.
#[verifier::external_body]
pub(crate) fn draw_below_wide(rng: &mut StdRng, bound: u128) -> (roll: u128)
    requires
        bound > 0,
    ensures
        roll < bound,
{
    rng.gen_range(0..bound)
}

/// `Clone::clone` of `StdRng`, which the crate derives down to the generator's
/// state: a generator in the same state, that is, with the same stream ahead.
#[verifier::external_body]
pub(crate) fn copy_of(rng: &StdRng) -> (copy: StdRng)
    ensures
        copy == *rng,
{
    rng.clone()
}

/// `RngCore::next_u64`: the next 64 bits of the stream. Nothing is claimed of
/// their value.
#[verifier::external_body]
pub(crate) fn draw_word(rng: &mut StdRng) -> (word: u64) {
    rng.next_u64()
}

} // verus!
