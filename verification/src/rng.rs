//! Deterministic pseudo-random source for bomb placement.
//!
//! A linear congruential step with an xorshift output mix.  The generator is
//! a plain value: the caller seeds it (for instance from a clock) and the
//! same seed always yields the same board, which keeps generation a total,
//! reproducible function.

use vstd::prelude::*;

verus! {

/// Pseudo-random generator state.
pub struct Lcg {
    state: u64,
}

impl Lcg {
    /// Starts the stream determined by `seed`.
    pub fn new(seed: u64) -> Lcg {
        Lcg { state: seed }
    }

    /// The next raw 64-bit value of the stream.
    pub fn next_u64(&mut self) -> u64 {
        self.state = self.state.wrapping_mul(6364136223846793005).wrapping_add(
            1442695040888963407,
        );
        let x = self.state;
        x ^ (x >> 33)
    }

    /// A value strictly below `n`.
    pub fn below(&mut self, n: u64) -> (r: u64)
        requires
            n > 0,
        ensures
            r < n,
    {
        self.next_u64() % n
    }

    /// An index strictly below `n`.
    pub fn below_index(&mut self, n: usize) -> (r: usize)
        requires
            n > 0,
        ensures
            r < n,
    {
        let m: u64 = self.next_u64() % (n as u64);
        proof {
            assert(m < n as u64);
        }
        m as usize
    }
}

} // verus!
