//! Deterministic random streams: a ChaCha8 generator seeded from one `u64`.

use vstd::prelude::*;

use rand::{RngCore, SeedableRng};
use rand_chacha::ChaCha8Rng;

verus! {

#[verifier::external_type_specification]
#[verifier::external_body]
pub struct ExChaCha8Rng(ChaCha8Rng);

/// The word at position `index` of the stream of `ChaCha8Rng::seed_from_u64(seed)`
/// read through `next_u64`.
pub uninterp spec fn chacha8_word(seed: u64, index: nat) -> u64;

/// A ChaCha8 stream seeded from a `u64`, with the number of words drawn so far.
pub struct StreamRng {
    rng: ChaCha8Rng,
    seed: Ghost<u64>,
    drawn: Ghost<nat>,
}

/// Relies on rand_core's `SeedableRng::seed_from_u64` for `ChaCha8Rng`: a
/// fresh generator whose stream depends on `seed` alone.
#[verifier::external_body]
fn chacha8_seed_from_u64(seed: u64) -> (r: StreamRng)
    ensures
        r.seed() == seed,
        r.drawn() == 0,
{
    StreamRng { rng: ChaCha8Rng::seed_from_u64(seed), seed: Ghost(seed), drawn: Ghost(0) }
}

/// Relies on `RngCore::next_u64` of `ChaCha8Rng`: the next word of the stream.
#[verifier::external_body]
fn chacha8_next_u64(rng: &mut StreamRng) -> (w: u64)
    ensures
        w == chacha8_word(old(rng).seed(), old(rng).drawn()),
        final(rng).seed() == old(rng).seed(),
        final(rng).drawn() == old(rng).drawn() + 1,
{
    let w = rng.rng.next_u64();
    rng.drawn = Ghost(rng.drawn@ + 1);
    w
}

impl StreamRng {
    /// The seed of the stream.
    pub closed spec fn seed(&self) -> u64 {
        self.seed@
    }

    /// The number of words drawn so far.
    pub closed spec fn drawn(&self) -> nat {
        self.drawn@
    }

    /// Creates the stream of `seed`, positioned at its first word.
    pub fn from_seed(seed: u64) -> (r: Self)
        ensures
            r.seed() == seed,
            r.drawn() == 0,
    {
        chacha8_seed_from_u64(seed)
    }

    /// Draws the next word of the stream.
    pub fn next_word(&mut self) -> (w: u64)
        ensures
            w == chacha8_word(old(self).seed(), old(self).drawn()),
            final(self).seed() == old(self).seed(),
            final(self).drawn() == old(self).drawn() + 1,
    {
        chacha8_next_u64(self)
    }
}

} // verus!
