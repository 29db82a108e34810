//! A deterministic pseudo-random stream of 64-bit keys, drawn from a PCG
//! generator seeded once.  The generator is a pure function of its seed,
//! so the whole stream is named by `pcg_draw` and two generators built
//! from the same seed hand out the same keys.

use vstd::prelude::*;
use rand::RngExt;
use rand::SeedableRng;
use rand_pcg::Pcg64;

verus! {

#[verifier::external_type_specification]
#[verifier::external_body]
pub struct ExLcg128Xsl64(rand_pcg::Lcg128Xsl64);

/// The `index`-th 64-bit value that a PCG generator seeded with `seed`
/// hands out.  The generator is deterministic, so the value is a function
/// of the seed and the position in the stream alone.
pub uninterp spec fn pcg_draw(seed: u64, index: u64) -> u64;

/// A PCG generator together with the seed it was built from and, as ghost
/// bookkeeping, how many values it has handed out so far.
pub struct SeededRng {
    rng: Pcg64,
    seed: u64,
    drawn: Ghost<u64>,
}

impl SeededRng {
    /// The seed this generator was built from.
    pub closed spec fn seed(self) -> u64 {
        self.seed
    }

    /// How many values this generator has handed out.
    pub closed spec fn drawn(self) -> u64 {
        self.drawn@
    }

    /// Relies on `rand::SeedableRng::seed_from_u64` for
    /// `rand_pcg::Pcg64`: seeding is a pure function of the seed.
    #[verifier::external_body]
    pub(crate) fn new(seed: u64) -> (r: SeededRng)
        ensures
            r.seed() == seed,
            r.drawn() == 0,
    {
        SeededRng { rng: Pcg64::seed_from_u64(seed), seed, drawn: Ghost(0) }
    }

    /// Relies on `rand::RngExt::random::<u64>` over `rand_pcg::Pcg64`: the
    /// generator is deterministic, so the n-th value drawn after seeding
    /// depends on the seed and on n alone; `pcg_draw` names that value.
    /// The ghost draw counter advances with every call, so the position in
    /// the stream always matches the draws actually made, and only this
    /// function and `new` ever touch the generator.
    #[verifier::external_body]
    pub(crate) fn next_key(&mut self) -> (r: u64)
        requires
            old(self).drawn() < u64::MAX,
        ensures
            final(self).seed() == old(self).seed(),
            final(self).drawn() == old(self).drawn() + 1,
            r == pcg_draw(old(self).seed(), old(self).drawn()),
    {
        self.rng.random()
    }
}

} // verus!
