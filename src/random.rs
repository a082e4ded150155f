//! The seeded pseudo-random stream that places new birds and feeds the noise.
use rand::Rng;
use rand::SeedableRng;
use rand_pcg::Pcg64;
use vstd::prelude::*;

verus! {

#[verifier::external_type_specification]
#[verifier::external_body]
pub struct ExLcg128Xsl64(rand_pcg::Lcg128Xsl64);

/// The `k`-th 64-bit word (counting from 0) of the PCG-64 stream that
/// `Pcg64::seed_from_u64(seed)` starts: a function of the seed and `k` alone.
pub uninterp spec fn pcg_word(seed: u64, k: nat) -> u64;

/// A PCG-64 generator, with the seed it was started from and the number of
/// words drawn from it so far.
pub struct Stream {
    rng: Pcg64,
    seed: Ghost<u64>,
    count: Ghost<nat>,
}

impl Stream {
    pub closed spec fn seed(&self) -> u64 {
        self.seed@
    }

    /// Number of words drawn so far.
    pub closed spec fn count(&self) -> nat {
        self.count@
    }
}

/// Relies on `rand_core::SeedableRng::seed_from_u64` for `rand_pcg::Pcg64`:
/// a generator at the start of the stream of `seed`.
#[verifier::external_body]
pub(crate) fn seeded(seed: u64) -> (s: Stream)
    ensures
        s.seed() == seed,
        s.count() == 0,
{
    Stream { rng: Pcg64::seed_from_u64(seed), seed: Ghost(seed), count: Ghost(0nat) }
}

/// Relies on `rand::Rng::gen::<u32>`, which for `Pcg64` is `next_u32`, the
/// low half of the next word of the stream.
#[verifier::external_body]
pub(crate) fn draw_u32(s: &mut Stream) -> (r: u32)
    ensures
        r == pcg_word(old(s).seed(), old(s).count()) as u32,
        final(s).seed() == old(s).seed(),
        final(s).count() == old(s).count() + 1,
{
    let r = s.rng.gen::<u32>();
    s.count = Ghost(s.count@ + 1);
    r
}

/// Relies on `rand::Rng::gen::<u64>`, which for `Pcg64` is `next_u64`, the
/// next word of the stream.
#[verifier::external_body]
pub(crate) fn draw_u64(s: &mut Stream) -> (r: u64)
    ensures
        r == pcg_word(old(s).seed(), old(s).count()),
        final(s).seed() == old(s).seed(),
        final(s).count() == old(s).count() + 1,
{
    let r = s.rng.gen::<u64>();
    s.count = Ghost(s.count@ + 1);
    r
}

} // verus!
