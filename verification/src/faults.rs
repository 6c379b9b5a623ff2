//! Fault injection.
//!
//! An acceptor can be given a strategy that makes any call fail with a fixed
//! probability before it touches state, to exercise the proposer's fault
//! tolerance. The strategy is seeded so that runs can be replayed; it is
//! disabled by default, and a disabled strategy provably never trips.

use vstd::prelude::*;

verus! {

#[verifier::external_type_specification]
#[verifier::external_body]
pub struct ExStdRng(rand::rngs::StdRng);

/// Relies on rand::SeedableRng::seed_from_u64: builds a generator from a seed.
#[verifier::external_body]
fn rng_from_seed(seed: u64) -> rand::rngs::StdRng {
    <rand::rngs::StdRng as rand::SeedableRng>::seed_from_u64(seed)
}

/// Relies on rand::Rng::gen_range: a draw from `0..n`, so strictly below `n`.
#[verifier::external_body]
fn rng_below(rng: &mut rand::rngs::StdRng, n: u32) -> (r: u32)
    requires
        n >= 1,
    ensures
        r < n,
{
    rand::Rng::gen_range(rng, 0..n)
}

/// A seeded per-call failure strategy: each call fails independently with
/// probability `permille / 1000`.
pub struct Faults {
    permille: u32,
    rng: rand::rngs::StdRng,
}

impl Faults {
    /// The failure rate, in thousandths.
    pub closed spec fn rate(&self) -> u32 {
        self.permille
    }

    /// A disabled strategy: no call ever fails.
    pub fn off() -> (f: Faults)
        ensures
            f.rate() == 0,
    {
        Faults { permille: 0, rng: rng_from_seed(0) }
    }

    /// A strategy that fails `permille` calls in a thousand, drawn from a
    /// generator seeded with `seed`.
    pub fn with_rate(permille: u32, seed: u64) -> (f: Faults)
        requires
            permille <= 1000,
        ensures
            f.rate() == permille,
    {
        Faults { permille, rng: rng_from_seed(seed) }
    }

    /// Decides whether the present call fails. A disabled strategy never
    /// trips, a full-rate one always does, and one in between may answer
    /// either way — every draw is strictly below a thousand.
    pub fn trip(&mut self) -> (r: bool)
        ensures
            final (self).rate() == old(self).rate(),
            old(self).rate() == 0 ==> !r,
            old(self).rate() >= 1000 ==> r,
    {
        if self.permille == 0 {
            false
        } else {
            rng_below(&mut self.rng, 1000) < self.permille
        }
    }
}

} // verus!
