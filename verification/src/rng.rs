//! The injectable randomness source. All randomness of the crate (move
//! shuffling, rollout move choice) flows through `RngSource`, so a search
//! seeded with `from_seed` is reproducible. The calls into the `rand`
//! crate stand behind the trusted wrappers at the bottom of the file.

use vstd::prelude::*;

use rand::seq::SliceRandom;
use rand::Rng;
use rand::SeedableRng;

verus! {

/// `rand`'s standard generator, declared so it can stand in fields.
#[verifier::external_type_specification]
#[verifier::external_body]
pub struct ExStdRng(rand::rngs::StdRng);

/// A deterministic pseudo-random generator with an injectable seed.
#[derive(Debug)]
pub struct RngSource {
    inner: rand::rngs::StdRng,
}

impl RngSource {
    /// A generator whose whole output is fixed by `seed`.
    pub fn from_seed(seed: u64) -> RngSource {
        RngSource { inner: seed_rng(seed) }
    }

    /// A generator seeded from operating-system entropy.
    pub fn from_entropy() -> RngSource {
        RngSource { inner: entropy_rng() }
    }

    /// A uniformly random index below `n`.
    pub fn index_below(&mut self, n: usize) -> (i: usize)
        requires
            n >= 1,
        ensures
            i < n,
    {
        rand_below(&mut self.inner, n)
    }

    /// Permute `v` in place, uniformly at random.
    pub fn shuffle(&mut self, v: &mut Vec<u8>)
        ensures
            final(v)@.to_multiset() == old(v)@.to_multiset(),
            final(v)@.len() == old(v)@.len(),
    {
        shuffle_bytes(&mut self.inner, v)
    }
}

/// Relies on rand's `SeedableRng::seed_from_u64`: builds a generator
/// deterministically from the seed; it does not panic.
#[verifier::external_body]
fn seed_rng(seed: u64) -> rand::rngs::StdRng {
    rand::rngs::StdRng::seed_from_u64(seed)
}

/// Relies on rand's `SeedableRng::from_os_rng`: a generator seeded from
/// the operating system; it panics only if the system entropy source
/// fails, which no input of ours controls.
#[verifier::external_body]
fn entropy_rng() -> rand::rngs::StdRng {
    rand::rngs::StdRng::from_os_rng()
}

/// Relies on rand's `Rng::random_range` over `0..n`: returns a value of
/// the range, hence below `n`; it panics only on an empty range, which
/// the precondition excludes.
#[verifier::external_body]
fn rand_below(rng: &mut rand::rngs::StdRng, n: usize) -> (i: usize)
    requires
        n >= 1,
    ensures
        i < n,
{
    rng.random_range(0..n)
}

/// Relies on rand's `SliceRandom::shuffle`: permutes the slice in place,
/// so the elements afterwards are the same multiset, at the same length.
#[verifier::external_body]
fn shuffle_bytes(rng: &mut rand::rngs::StdRng, v: &mut Vec<u8>)
    ensures
        final(v)@.to_multiset() == old(v)@.to_multiset(),
        final(v)@.len() == old(v)@.len(),
{
    v.shuffle(rng)
}

} // verus!
