//! The pseudo-random generator that each trial owns: rand_pcg's `Pcg64`.
use vstd::prelude::*;

verus! {

#[verifier::external_type_specification]
#[verifier::external_body]
pub struct ExPcg64(rand_pcg::Lcg128Xsl64);

/// The `k`-th value (from zero) that `next_u64` returns on a `Pcg64` made by
/// `seed_from_u64(seed)`. The stream depends on the seed alone: rand_core
/// documents the output of a seeded generator as reproducible on every run,
/// version and platform.
pub uninterp spec fn pcg64_draw(seed: u64, k: nat) -> u64;

/// A `Pcg64` together with the seed it was made from and the number of
/// values taken from it so far. Only the two functions below make or change
/// one.
pub struct Generator {
    rng: rand_pcg::Pcg64,
    seed: Ghost<u64>,
    drawn: Ghost<nat>,
}

impl Generator {
    /// The seed the generator was made from.
    pub closed spec fn seed(&self) -> u64 {
        self.seed@
    }

    /// How many values have been taken from it.
    pub closed spec fn drawn(&self) -> nat {
        self.drawn@
    }
}

/// Relies on rand's `SeedableRng::seed_from_u64` for `Pcg64`: a generator at
/// the start of the stream of `seed`.
#[verifier::external_body]
pub fn seeded(seed: u64) -> (r: Generator)
    ensures
        r.seed() == seed,
        r.drawn() == 0,
{
    Generator {
        rng: <rand_pcg::Pcg64 as rand::SeedableRng>::seed_from_u64(seed),
        seed: Ghost(seed),
        drawn: Ghost(0),
    }
}

/// Relies on rand's `RngCore::next_u64` for `Pcg64`: the next value of the
/// stream.
#[verifier::external_body]
pub fn next_draw(g: &mut Generator) -> (r: u64)
    ensures
        r == pcg64_draw(old(g).seed(), old(g).drawn()),
        final(g).seed() == old(g).seed(),
        final(g).drawn() == old(g).drawn() + 1,
{
    let r = rand::RngCore::next_u64(&mut g.rng);
    g.drawn = Ghost(g.drawn@ + 1);
    r
}

} // verus!
