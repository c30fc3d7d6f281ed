use rand::Rng;
use vstd::prelude::*;

verus! {

#[verifier::external_type_specification]
#[verifier::external_body]
pub struct ExStdRng(rand::rngs::StdRng);

/// Relies on rand's `Rng::gen_range` over `0..n`: the value lies in the range;
/// it panics only on an empty range, which `n > 0` rules out.
#[verifier::external_body]
fn gen_below(rng: &mut rand::rngs::StdRng, n: u64) -> (r: u64)
    requires
        n > 0,
    ensures
        r < n,
{
    rng.gen_range(0..n)
}

/// The random choices that one address assignment or one free may make.
#[derive(Clone, Copy, Debug)]
pub struct Draws {
    /// Percentile roll deciding whether a freed range enters, or a request
    /// takes from, the reuse pool.
    pub reuse_roll: u64,
    /// Percentile roll deciding whether a range freed by another thread may be taken.
    pub cross_thread_roll: u64,
    /// Which pool entry is evicted when the pool is full.
    pub evict_pick: u64,
    /// Gap left before a fresh heap or CPU-local address.
    pub slack: u64,
}

impl Draws {
    pub open spec fn wf(self) -> bool {
        &&& self.reuse_roll < 100
        &&& self.cross_thread_roll < 100
        &&& self.slack < 16
    }

    /// Draws every choice from `rng`.
    pub fn from_rng(rng: &mut rand::rngs::StdRng) -> (r: Draws)
        ensures
            r.wf(),
    {
        let reuse_roll = gen_below(rng, 100);
        let cross_thread_roll = gen_below(rng, 100);
        let evict_pick = gen_below(rng, u64::MAX);
        let slack = gen_below(rng, 16);
        Draws { reuse_roll, cross_thread_roll, evict_pick, slack }
    }
}

} // verus!
