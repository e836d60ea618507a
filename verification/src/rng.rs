//! The random-source capability consumed by recursive splitting, and a
//! deterministic, seedable generator implementing it.

use vstd::prelude::*;

verus! {

/// A source of uniformly drawn integers. `split_recursive` consumes one of
/// these; callers may supply a seeded generator for reproducible trees.
pub trait RandomSource {
    /// Draws an integer in the inclusive range `[lo, hi]`.
    fn rand_between(&mut self, lo: i32, hi: i32) -> (r: i32)
        requires
            lo <= hi,
        ensures
            lo <= r <= hi,
    ;
}

/// A deterministic linear congruential generator. Two generators made from
/// the same seed produce the same sequence of draws.
pub struct Lcg {
    state: u64,
}

impl Lcg {
    /// Creates a generator from a seed.
    pub fn new(seed: u64) -> (r: Lcg) {
        Lcg { state: seed }
    }
}

impl RandomSource for Lcg {
    fn rand_between(&mut self, lo: i32, hi: i32) -> (r: i32) {
        self.state = self.state.wrapping_mul(6364136223846793005).wrapping_add(
            1442695040888963407,
        );
        let s: u64 = self.state;
        let x: u64 = s >> 33;
        proof {
            assert(s >> 33 < 0x8000_0000) by (bit_vector);
        }
        let xi: i64 = x as i64;
        let span: i64 = (hi as i64) - (lo as i64) + 1;
        let offset: i64 = xi % span;
        proof {
            assert(0 <= xi % span < span) by (nonlinear_arith)
                requires
                    xi >= 0,
                    span >= 1,
            ;
        }
        let r64: i64 = (lo as i64) + offset;
        r64 as i32
    }
}

} // verus!
