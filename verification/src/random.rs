//! Trusted boundary to the `rand` crate: the engine draws all of its
//! randomness from a seeded ChaCha generator.

use vstd::prelude::*;

verus! {

#[verifier::external_type_specification]
#[verifier::external_body]
pub struct ExChaChaRng(rand::ChaChaRng);

/// Relies on rand's `ChaChaRng::from_seed` (`SeedableRng<&[u32]>`): builds a
/// deterministic generator from the given seed words.
#[verifier::external_body]
pub(crate) fn chacha_from_seed(seed: &[u32]) -> rand::ChaChaRng {
    <rand::ChaChaRng as rand::SeedableRng<&[u32]>>::from_seed(seed)
}

/// Relies on rand's `Rng::next_u64`: returns the generator's next word.
/// Nothing is promised of the value.
#[verifier::external_body]
pub(crate) fn next_word(r: &mut rand::ChaChaRng) -> u64 {
    rand::Rng::next_u64(r)
}

/// Relies on rand's `Rng::gen` together with `Rand for ChaChaRng`: derives a
/// fresh child generator from the given one. Nothing is promised of it.
#[verifier::external_body]
pub(crate) fn gen_rng(r: &mut rand::ChaChaRng) -> rand::ChaChaRng {
    rand::Rng::gen(r)
}

} // verus!
