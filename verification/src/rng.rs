//! Seeded random numbers: a bracket-random generator together with the seed
//! it was made from and the draws made on it, so that what it yields can be
//! stated as a function of the seed.

use vstd::prelude::*;

use bracket_random::prelude::RandomNumberGenerator;

verus! {

#[verifier::external_type_specification]
#[verifier::external_body]
pub struct ExRandomNumberGenerator(RandomNumberGenerator);

/// What `RandomNumberGenerator::range(min, max)` yields on a generator made
/// by `RandomNumberGenerator::seeded(seed)` after the range draws `earlier`
/// (each a `(min, max)` pair, in order). The generator is a seeded XorShift,
/// so this depends on these values alone.
pub uninterp spec fn seeded_draw(seed: u64, earlier: Seq<(i32, i32)>, min: i32, max: i32) -> i32;

/// A generator, the seed it was made from and the draws made on it so far.
/// Only `seeded_rng` makes one and only `rng_range` draws from it.
pub struct SeededRng {
    rng: RandomNumberGenerator,
    seed: Ghost<u64>,
    draws: Ghost<Seq<(i32, i32)>>,
}

impl SeededRng {
    /// The seed the generator was made from.
    pub closed spec fn seed(&self) -> u64 {
        self.seed@
    }

    /// The `(min, max)` ranges drawn so far, in order.
    pub closed spec fn draws(&self) -> Seq<(i32, i32)> {
        self.draws@
    }
}

/// A generator seeded with `seed`, with nothing drawn yet.
///
/// Trusted: calls bracket-random's `RandomNumberGenerator::seeded`, which
/// seeds a XorShift generator from the number.
#[verifier::external_body]
pub(crate) fn seeded_rng(seed: u64) -> (rng: SeededRng)
    ensures
        rng.seed() == seed,
        rng.draws() == Seq::<(i32, i32)>::empty(),
{
    SeededRng { rng: RandomNumberGenerator::seeded(seed), seed: Ghost(seed), draws: Ghost(Seq::empty()) }
}

/// A random integer in `min..max`.
///
/// Trusted: calls bracket-random's `RandomNumberGenerator::range`, which
/// draws from rand's `gen_range(min..max)`: a value at least `min` and below
/// `max` (it panics on an empty range, which `requires` rules out). The value
/// is `seeded_draw` of the seed and the draws made before, and this draw is
/// recorded.
#[verifier::external_body]
pub(crate) fn rng_range(rng: &mut SeededRng, min: i32, max: i32) -> (r: i32)
    requires
        min < max,
    ensures
        min <= r < max,
        r == seeded_draw(old(rng).seed(), old(rng).draws(), min, max),
        final(rng).seed() == old(rng).seed(),
        final(rng).draws() == old(rng).draws().push((min, max)),
{
    rng.rng.range(min, max)
}

} // verus!
