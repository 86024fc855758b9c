use vstd::prelude::*;

verus! {

#[verifier::external_type_specification]
#[verifier::external_body]
pub struct ExStdRng(rand::rngs::StdRng);

/// The value of the `index`-th `u32` drawn from a generator seeded with
/// `seed`. Left uninterpreted: the draws of a seeded generator are a fixed
/// function of the seed, but which function is the generator's business.
pub uninterp spec fn rng_stream(seed: u64, index: nat) -> u32;

/// Relies on `rand::SeedableRng::seed_from_u64` for `rand::rngs::StdRng`:
/// seeding derives the generator state from the `u64` seed alone.
#[verifier::external_body]
fn seeded_std_rng(seed: u64) -> (r: rand::rngs::StdRng)
{
    <rand::rngs::StdRng as rand::SeedableRng>::seed_from_u64(seed)
}

/// An injectable, seedable source of uniform draws, consumed by map
/// generation. Every draw is pinned to `rng_stream`, so a sequence of
/// draws is determined by the seed alone.
pub struct RandomSource {
    rng: rand::rngs::StdRng,
    seed: Ghost<u64>,
    drawn: Ghost<nat>,
}

impl RandomSource {
    /// The seed this source was created with.
    pub closed spec fn spec_seed(self) -> u64 {
        self.seed@
    }

    /// How many raw words have been drawn so far.
    pub closed spec fn spec_drawn(self) -> nat {
        self.drawn@
    }

    pub fn new(seed: u64) -> (r: RandomSource)
        ensures
            r.spec_seed() == seed,
            r.spec_drawn() == 0,
    {
        RandomSource { rng: seeded_std_rng(seed), seed: Ghost(seed), drawn: Ghost(0) }
    }

    /// Relies on `rand::Rng::next_u32` for `rand::rngs::StdRng` (ChaCha12):
    /// in the version built against, the sequence of words drawn is a
    /// deterministic function of the seed, which `rng_stream` names.
    #[verifier::external_body]
    fn next_u32(&mut self) -> (r: u32)
        ensures
            r == rng_stream(old(self).spec_seed(), old(self).spec_drawn()),
            final(self).spec_seed() == old(self).spec_seed(),
            final(self).spec_drawn() == old(self).spec_drawn() + 1,
    {
        <rand::rngs::StdRng as rand::Rng>::next_u32(&mut self.rng)
    }

    /// A draw from `[lo, hi)`, reduced from the next raw word of the
    /// stream.
    pub fn range(&mut self, lo: i32, hi: i32) -> (r: i32)
        requires
            lo < hi,
        ensures
            lo <= r < hi,
            r == lo + rng_stream(old(self).spec_seed(), old(self).spec_drawn()) as int % (hi
                - lo),
            final(self).spec_seed() == old(self).spec_seed(),
            final(self).spec_drawn() == old(self).spec_drawn() + 1,
    {
        let raw: u32 = self.next_u32();
        let span: u64 = (hi as i64 - lo as i64) as u64;
        let off: u64 = (raw as u64) % span;
        (lo as i64 + off as i64) as i32
    }

    /// A fair coin flip, taken from the parity of the next raw word.
    pub fn flip(&mut self) -> (r: bool)
        ensures
            r == (rng_stream(old(self).spec_seed(), old(self).spec_drawn()) % 2 == 0),
            final(self).spec_seed() == old(self).spec_seed(),
            final(self).spec_drawn() == old(self).spec_drawn() + 1,
    {
        let raw: u32 = self.next_u32();
        raw % 2 == 0
    }
}

} // verus!
