//! A seeded linear-congruential generator.

use vstd::prelude::*;

verus! {

/// Multiplier of the generator.
pub const LCG_MULTIPLIER: u32 = 1664525;

/// Increment of the generator.
pub const LCG_INCREMENT: u32 = 1013904223;

/// The largest value a draw can take, and the divisor that turns a draw into
/// a variate of the unit interval.
pub const DRAW_MAX: u32 = 0xFFFF_FFFF;

/// The state that follows `state`: `state * 1664525 + 1013904223`, reduced
/// modulo 2^32.
pub open spec fn lcg_next(state: u32) -> u32 {
    ((state as int * LCG_MULTIPLIER as int + LCG_INCREMENT as int) % 0x1_0000_0000) as u32
}

/// The state that a generator seeded with `seed` starts from.
pub open spec fn seed_state(seed: u64) -> u32 {
    (seed % 0x1_0000_0000) as u32
}

/// A deterministic generator of 32-bit draws.
#[derive(Clone, Copy, Debug)]
pub struct Lcg {
    pub state: u32,
}

impl Lcg {
    /// A generator that starts from `seed`, reduced modulo 2^32.
    pub fn new(seed: u64) -> (rng: Lcg)
        ensures
            rng.state == seed_state(seed),
    {
        Lcg { state: (seed % 0x1_0000_0000u64) as u32 }
    }

    /// Advances the state by one step and returns the new state.
    pub fn next(&mut self) -> (draw: u32)
        ensures
            draw == lcg_next(old(self).state),
            final(self).state == draw,
    {
        let state: u64 = self.state as u64;
        assert(state * 1664525 <= 0xFFFF_FFFF * 1664525) by (nonlinear_arith)
            requires
                state <= 0xFFFF_FFFF,
        ;
        let wide: u64 = state * (LCG_MULTIPLIER as u64) + (LCG_INCREMENT as u64);
        let draw: u32 = (wide % 0x1_0000_0000u64) as u32;
        self.state = draw;
        draw
    }
}

} // verus!
