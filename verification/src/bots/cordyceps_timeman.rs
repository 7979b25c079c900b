use vstd::prelude::*;

verus! {

/// Phase of the game for the time manager.
#[derive(Clone, Copy, Debug, PartialEq, Eq, Structural)]
pub enum GamePhase {
    EndgameExact,
    MidgameFull,
    MidgameConserve,
    Emergency,
}

/// Time allotment for one move.
pub struct TimeManager {
    pub phase: GamePhase,
    pub optimum_time_ms: i32,
    pub max_depth: i32,
    pub use_aspiration: bool,
}

pub open spec fn max_i(a: int, b: int) -> int {
    if a >= b { a } else { b }
}

pub open spec fn min_i(a: int, b: int) -> int {
    if a <= b { a } else { b }
}

/// Integer division rounding toward zero, for a positive divisor.
pub open spec fn trunc_div(a: int, b: int) -> int {
    if a >= 0 {
        a / b
    } else {
        -((-a) / b)
    }
}

/// The clock left after the reserve, at least 50 ms.
pub open spec fn remaining_ms(my_time_ms: i32) -> int {
    max_i(my_time_ms - 500, 50)
}

impl TimeManager {
    pub const CONSERVE_MS: i32 = 2500;
    pub const EMERGENCY_MS: i32 = 500;
    pub const RESERVE_MS: i32 = 500;

    /// The allotment for `my_time_ms` on the clock and `live` live mushrooms:
    /// with at most 12 live, exact endgame with the remaining time over `max(live / 3, 2)` (division rounding toward zero)
    /// moves, depth 64; else with over 2500 ms remaining, full midgame over
    /// `max(live / 4, 4)` moves, depth 20; else with over 500 ms, a conserving midgame over
    /// `max(live / 4, 3)` moves capped at 80 ms, depth 14; else emergency with all the
    /// remaining time, depth 2 and no aspiration windows.
    pub open spec fn allotted(self, my_time_ms: i32, live: i32) -> bool {
        let remaining = remaining_ms(my_time_ms);
        if live <= 12 {
            &&& self.phase == GamePhase::EndgameExact
            &&& self.optimum_time_ms == remaining / max_i(trunc_div(live as int, 3), 2)
            &&& self.max_depth == 64
            &&& self.use_aspiration
        } else if remaining > 2500 {
            &&& self.phase == GamePhase::MidgameFull
            &&& self.optimum_time_ms == remaining / max_i(trunc_div(live as int, 4), 4)
            &&& self.max_depth == 20
            &&& self.use_aspiration
        } else if remaining > 500 {
            &&& self.phase == GamePhase::MidgameConserve
            &&& self.optimum_time_ms == min_i(remaining / max_i(trunc_div(live as int, 4), 3), 80)
            &&& self.max_depth == 14
            &&& self.use_aspiration
        } else {
            &&& self.phase == GamePhase::Emergency
            &&& self.optimum_time_ms == remaining
            &&& self.max_depth == 2
            &&& !self.use_aspiration
        }
    }

    /// The allotment before the first move: full midgame, 100 ms, depth 6, aspiration on.
    pub fn new() -> (t: TimeManager)
        ensures
            t.phase == GamePhase::MidgameFull,
            t.optimum_time_ms == 100,
            t.max_depth == 6,
            t.use_aspiration,
    {
        TimeManager {
            phase: GamePhase::MidgameFull,
            optimum_time_ms: 100,
            max_depth: 6,
            use_aspiration: true,
        }
    }

    /// Sets the allotment for `my_time_ms` on the clock and `live_mushrooms` live
    /// mushrooms; see `allotted`.
    pub fn init(&mut self, my_time_ms: i32, live_mushrooms: i32)
        requires
            my_time_ms >= i32::MIN + Self::RESERVE_MS,
        ensures
            final(self).allotted(my_time_ms, live_mushrooms),
    {
        let remaining = (my_time_ms - Self::RESERVE_MS).max(50);
        if live_mushrooms <= 12 {
            self.phase = GamePhase::EndgameExact;
            let est = (live_mushrooms / 3).max(2);
            self.optimum_time_ms = remaining / est;
            self.max_depth = 64;
            self.use_aspiration = true;
        } else if remaining > Self::CONSERVE_MS {
            self.phase = GamePhase::MidgameFull;
            let est = (live_mushrooms / 4).max(4);
            self.optimum_time_ms = remaining / est;
            self.max_depth = 20;
            self.use_aspiration = true;
        } else if remaining > Self::EMERGENCY_MS {
            self.phase = GamePhase::MidgameConserve;
            let est = (live_mushrooms / 4).max(3);
            self.optimum_time_ms = (remaining / est).min(80);
            self.max_depth = 14;
            self.use_aspiration = true;
        } else {
            self.phase = GamePhase::Emergency;
            self.optimum_time_ms = remaining;
            self.max_depth = 2;
            self.use_aspiration = false;
        }
    }
}

} // verus!
