//! Trusted boundary to the deterministic pseudo-random stream used to lay
//! out a reward grid. The stream's values are unspecified here: everything
//! proved about the library holds for every value the stream can yield.

use vstd::prelude::*;

verus! {

#[verifier::external_type_specification]
#[verifier::external_body]
pub struct ExChaCha12Rng(rand_chacha::ChaCha12Rng);

/// Relies on `rand::SeedableRng::seed_from_u64` for `ChaCha12Rng`: builds a
/// generator from a 64-bit seed.
#[verifier::external_body]
pub(crate) fn rng_from_seed(seed: u64) -> rand_chacha::ChaCha12Rng {
    <rand_chacha::ChaCha12Rng as rand::SeedableRng>::seed_from_u64(seed)
}

/// Relies on `rand::RngCore::next_u64` for `ChaCha12Rng`: draws the next
/// word of the stream. Nothing is assumed of the value drawn.
#[verifier::external_body]
pub(crate) fn rng_next_u64(rng: &mut rand_chacha::ChaCha12Rng) -> u64 {
    rand::RngCore::next_u64(rng)
}

} // verus!
