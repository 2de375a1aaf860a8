//! The run's single source of randomness.
//!
//! Every function that needs entropy takes an explicit `&mut RandomSource`,
//! so nothing in the engine draws from ambient global state. Nothing is
//! assumed about which values come out beyond their range: to the verifier
//! two draws on equal inputs may differ.

use vstd::prelude::*;
use rand::Rng;

verus! {

#[verifier::external_type_specification]
#[verifier::external_body]
pub struct ExThreadRng(rand::rngs::ThreadRng);

/// A pseudo-random source owned by one run.
pub struct RandomSource {
    inner: rand::rngs::ThreadRng,
}

impl RandomSource {
    /// Relies on rand::thread_rng: returns a handle to the thread-local generator.
    #[verifier::external_body]
    pub fn new() -> (r: RandomSource) {
        RandomSource { inner: rand::thread_rng() }
    }

    /// Relies on rand::Rng::gen_range: a value uniform in `0..bound`,
    /// which panics only on an empty range. Nothing more is assumed of
    /// the value than its range.
    #[verifier::external_body]
    pub fn draw_below(&mut self, bound: usize) -> (r: usize)
        requires
            bound >= 1,
        ensures
            r < bound,
    {
        self.inner.gen_range(0..bound)
    }

    /// Relies on rand::Rng::gen_range as `draw_below` does, for a
    /// fixed-point fraction: a value uniform in `0..SCALE`, standing for a
    /// real draw in `[0, 1)` with six decimal places.
    #[verifier::external_body]
    pub fn draw_unit_fraction(&mut self) -> (r: u64)
        ensures
            r < crate::fixed::SCALE,
    {
        self.inner.gen_range(0..crate::fixed::SCALE)
    }
}

} // verus!
