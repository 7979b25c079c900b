use vstd::prelude::*;

use crate::bots::zoo_rng::{lcg_next, LCG_INC, LCG_MUL};

verus! {

/// A seeded pseudo-random number generator for the tuner.
pub struct Rng(pub u64);

/// The draw in `lo..=hi` that a generator in state `state` (already advanced) gives.
pub open spec fn draw_u8(state: u64, lo: u8, hi: u8) -> u8 {
    (lo + ((state >> 33u64) as u8) % ((hi - lo + 1) as u8)) as u8
}

impl Rng {
    /// A generator with state `seed`.
    pub fn with_seed(seed: u64) -> (g: Rng)
        ensures
            g.0 == seed,
    {
        Rng(seed)
    }

    /// `lo` when `lo > hi` (state unchanged); else advances the state and draws a value in
    /// `lo..=hi` from bits 33 and up of the new state.
    pub fn u8(&mut self, lo: u8, hi: u8) -> (x: u8)
        requires
            !(lo == 0 && hi == 255),
        ensures
            lo > hi ==> x == lo && final(self).0 == old(self).0,
            lo <= hi ==> final(self).0 == lcg_next(old(self).0) && x == draw_u8(
                final(self).0,
                lo,
                hi,
            ),
            lo <= hi ==> lo <= x <= hi,
    {
        if lo > hi {
            return lo;
        }
        self.0 = self.0.wrapping_mul(LCG_MUL).wrapping_add(LCG_INC);
        lo + (self.0 >> 33u64) as u8 % (hi - lo + 1)
    }
}

/// The depth after a mutation step with choice `k`: one less (at least 1), unchanged, or
/// one more (at most 6).
pub open spec fn mutated_depth(depth: u8, k: u8) -> u8 {
    if k == 0 {
        if depth <= 1 { 1 } else { (depth - 1) as u8 }
    } else if k == 1 {
        depth
    } else {
        if depth + 1 >= 6 { 6 } else { (depth + 1) as u8 }
    }
}

/// The budget after a mutation step with choice `k`: halved (at least 5), unchanged, or
/// doubled (at most 200).
pub open spec fn mutated_budget(budget: u64, k: u8) -> u64 {
    if k == 0 {
        if budget / 2 >= 5 { budget / 2 } else { 5 }
    } else if k == 1 {
        budget
    } else {
        if budget * 2 <= 200 { (budget * 2) as u64 } else { 200 }
    }
}

/// A mutated `(depth, budget)` pair: the generator draws a choice in `0..=2` for the depth,
/// then one for the budget.
pub fn mutate(depth: u8, budget: u64, rng: &mut Rng) -> (db: (u8, u64))
    requires
        depth < 255,
        budget <= u64::MAX / 2,
    ensures
        final(rng).0 == lcg_next(lcg_next(old(rng).0)),
        db.0 == mutated_depth(depth, draw_u8(lcg_next(old(rng).0), 0, 2)),
        db.1 == mutated_budget(budget, draw_u8(lcg_next(lcg_next(old(rng).0)), 0, 2)),
{
    let new_depth = match rng.u8(0, 2) {
        0 => depth.saturating_sub(1).max(1),
        1 => depth,
        _ => (depth + 1).min(6),
    };
    let new_budget = match rng.u8(0, 2) {
        0 => (budget / 2).max(5),
        1 => budget,
        _ => (budget * 2).min(200),
    };
    (new_depth, new_budget)
}

} // verus!
