//! The pseudo-random generator behind the random tours and graphs. What
//! is stated of it here is believed, not proved.

use vstd::prelude::*;
use rand::distributions::{Distribution, Uniform};
use rand::SeedableRng;
use rand_chacha::ChaCha8Rng;

verus! {

/// The ChaCha generator with 8 rounds of `rand_chacha`, carried through
/// as an opaque value.
#[verifier::external_type_specification]
#[verifier::external_body]
pub struct ExChaCha8Rng(ChaCha8Rng);

/// A generator, with the seed it was made from, if any, and the draws
/// made from it so far: for each the width in bits of the integers that
/// were drawn from, and the bounds `low` and `high` of the range.
pub struct Generator {
    rng: ChaCha8Rng,
    seed: Ghost<Option<u64>>,
    drawn: Ghost<Seq<(int, int, int)>>,
}

/// What a generator made from `seed` gives at the last of the draws
/// `drawn`, after the draws before it.
pub uninterp spec fn seeded_draw(seed: u64, drawn: Seq<(int, int, int)>) -> int;

/// No draws.
pub open spec fn no_draws() -> Seq<(int, int, int)> {
    Seq::empty()
}

/// The draw of a position below `bound`.
pub open spec fn index_draw(bound: int) -> (int, int, int) {
    (usize::BITS as int, 0, bound)
}

/// The draw of a 32-bit integer from `low..high`.
pub open spec fn range_draw(low: int, high: int) -> (int, int, int) {
    (32, low, high)
}

impl Generator {
    /// The seed that the generator was made from, if it was made from
    /// one.
    pub closed spec fn seed(&self) -> Option<u64> {
        self.seed@
    }

    /// The draws made so far.
    pub closed spec fn drawn(&self) -> Seq<(int, int, int)> {
        self.drawn@
    }

    /// A generator: the one that the seed determines, or one seeded from
    /// the operating system.
    pub fn new(seed: Option<u64>) -> (generator: Self)
        ensures
            generator.seed() == seed,
            generator.drawn() == no_draws(),
    {
        match seed {
            Some(seed) => seeded_rng(seed),
            None => entropy_rng(),
        }
    }
}

/// `ChaCha8Rng::seed_from_u64`: a generator whose output is determined by
/// `seed`; no draw has been made from it.
#[verifier::external_body]
pub(crate) fn seeded_rng(seed: u64) -> (generator: Generator)
    ensures
        generator.seed() == Some(seed),
        generator.drawn() == no_draws(),
{
    Generator {
        rng: ChaCha8Rng::seed_from_u64(seed),
        seed: Ghost(Some(seed)),
        drawn: Ghost(no_draws()),
    }
}

/// `ChaCha8Rng::from_entropy`: a generator seeded from the operating
/// system, which fails only where the system can give no entropy. Nothing
/// is stated of what it gives.
#[verifier::external_body]
pub(crate) fn entropy_rng() -> (generator: Generator)
    ensures
        generator.seed() is None,
        generator.drawn() == no_draws(),
{
    Generator { rng: ChaCha8Rng::from_entropy(), seed: Ghost(None), drawn: Ghost(no_draws()) }
}

/// `Uniform::from(0..bound).sample(rng)`: a draw from `0..bound`. The
/// range must not be empty; the draw lies in it. From a generator made
/// from a seed, the draw is the one that the seed and the draws so far
/// determine.
#[verifier::external_body]
pub(crate) fn sample_below(generator: &mut Generator, bound: usize) -> (value: usize)
    requires
        bound > 0,
    ensures
        value < bound,
        final(generator).seed() == old(generator).seed(),
        final(generator).drawn() == old(generator).drawn().push(index_draw(bound as int)),
        old(generator).seed() is Some ==> value == seeded_draw(
            old(generator).seed()->0,
            final(generator).drawn(),
        ),
{
    Uniform::from(0..bound).sample(&mut generator.rng)
}

/// `Uniform::from(low..high).sample(rng)`: a draw from `low..high`. The
/// range must not be empty; the draw lies in it. From a generator made
/// from a seed, the draw is the one that the seed and the draws so far
/// determine.
#[verifier::external_body]
pub(crate) fn sample_between(generator: &mut Generator, low: i32, high: i32) -> (value: i32)
    requires
        low < high,
    ensures
        low <= value < high,
        final(generator).seed() == old(generator).seed(),
        final(generator).drawn() == old(generator).drawn().push(
            range_draw(low as int, high as int),
        ),
        old(generator).seed() is Some ==> value == seeded_draw(
            old(generator).seed()->0,
            final(generator).drawn(),
        ),
{
    Uniform::from(low..high).sample(&mut generator.rng)
}

} // verus!
