//! Random words.

use rand::rngs::StdRng;
use rand::RngCore;
use rand::SeedableRng;
use vstd::prelude::*;

verus! {

/// `rand::rngs::StdRng`, the generator of random words.
#[verifier::external_type_specification]
#[verifier::external_body]
pub struct ExStdRng(StdRng);

/// A generator of random words, with the seed that it was made from and the number of words that
/// were drawn from it, which are for proofs only.
pub struct Words {
    rng: StdRng,
    seed: Ghost<u64>,
    drawn: Ghost<nat>,
}

impl Words {
    /// The seed that the generator was made from.
    pub closed spec fn seed(&self) -> u64 {
        self.seed@
    }

    /// How many words were drawn.
    pub closed spec fn drawn(&self) -> nat {
        self.drawn@
    }
}

/// `SeedableRng::seed_from_u64` of `rand` for `StdRng`: a generator that is made from the seed, and
/// from which nothing has been drawn. Nothing is claimed of the words that it will give.
#[verifier::external_body]
pub(crate) fn seeded(seed: u64) -> (r: Words)
    ensures
        r.seed() == seed,
        r.drawn() == 0,
{
    Words { rng: StdRng::seed_from_u64(seed), seed: Ghost(seed), drawn: Ghost(0) }
}

/// `RngCore::next_u32` of `rand` for `StdRng`: draws one word. Nothing is claimed of which it is.
#[verifier::external_body]
pub(crate) fn random_word(words: &mut Words) -> (r: u32)
    ensures
        final(words).seed() == old(words).seed(),
        final(words).drawn() == old(words).drawn() + 1,
{
    words.rng.next_u32()
}

} // verus!
