use vstd::prelude::*;

verus! {

/// Linear congruential generator: multiplier.
pub const LCG_MUL: u64 = 6364136223846793005;
/// Linear congruential generator: increment.
pub const LCG_INC: u64 = 1442695040888963407;

/// One step of the generator's state.
pub open spec fn lcg_next(state: u64) -> u64 {
    vstd::wrapping::u64_specs::wrapping_add(
        vstd::wrapping::u64_specs::wrapping_mul(state, LCG_MUL),
        LCG_INC,
    )
}

/// The generator's state after `n` steps from `state`.
pub open spec fn lcg_iter(state: u64, n: nat) -> u64
    decreases n,
{
    if n == 0 {
        state
    } else {
        lcg_next(lcg_iter(state, (n - 1) as nat))
    }
}

/// A seeded pseudo-random number generator.
#[derive(Clone, Copy)]
pub struct ZooRng(pub u64);

impl ZooRng {
    /// A generator with state `seed`.
    pub fn new(seed: u64) -> (g: ZooRng)
        ensures
            g.0 == seed,
    {
        ZooRng(seed)
    }

    /// Sets the state to `seed`.
    pub fn reseed(&mut self, seed: u64)
        ensures
            final(self).0 == seed,
    {
        self.0 = seed;
    }

    /// Advances the state one step and returns the new state.
    pub fn next_u64(&mut self) -> (x: u64)
        ensures
            final(self).0 == lcg_next(old(self).0),
            x == final(self).0,
    {
        self.0 = self.0.wrapping_mul(LCG_MUL).wrapping_add(LCG_INC);
        self.0
    }

    /// 0 when `upper <= 1` (state unchanged); else the next state, as a `usize`, modulo
    /// `upper`.
    pub fn gen_range(&mut self, upper: usize) -> (x: usize)
        ensures
            upper <= 1 ==> x == 0 && final(self).0 == old(self).0,
            upper > 1 ==> final(self).0 == lcg_next(old(self).0) && x == (final(self).0 as usize)
                % upper,
    {
        if upper <= 1 {
            0
        } else {
            (self.next_u64() as usize) % upper
        }
    }
}

} // verus!
