use vstd::prelude::*;

use crate::opening::first::FirstSideTuning;
use crate::opening::second::SecondSideTuning;
use crate::search::SearchConfig;
use crate::timeman::SearchPhase;
use crate::types::FIRST;

verus! {

/// The side a bot plays.
#[derive(Clone, Copy, Debug, PartialEq, Eq, Structural)]
pub enum GameSide {
    First,
    Second,
}

impl GameSide {
    /// The side of player `player`: the first player's, else the second's.
    pub fn from_player(player: i8) -> (s: GameSide)
        ensures
            s == (if player == FIRST {
                GameSide::First
            } else {
                GameSide::Second
            }),
    {
        if player == FIRST {
            GameSide::First
        } else {
            GameSide::Second
        }
    }

    /// The side's label in the protocol.
    pub fn label(self) -> (s: &'static str)
        ensures
            self == GameSide::First ==> s@ == "FIRST"@,
            self == GameSide::Second ==> s@ == "SECOND"@,
    {
        match self {
            GameSide::First => "FIRST",
            GameSide::Second => "SECOND",
        }
    }

    /// The search tuning of the side.
    pub fn tuning(self) -> (t: SideTuning)
        ensures
            self == GameSide::First ==> t is First,
            self == GameSide::Second ==> t is Second,
    {
        match self {
            GameSide::First => SideTuning::First(FirstSideTuning),
            GameSide::Second => SideTuning::Second(SecondSideTuning),
        }
    }
}

/// The search tuning of one side.
#[derive(Clone, Copy, Debug)]
pub enum SideTuning {
    First(FirstSideTuning),
    Second(SecondSideTuning),
}

impl SideTuning {
    /// The side's search configuration for `phase`.
    pub open spec fn spec_search_config(self, config: SearchConfig, phase: SearchPhase) -> SearchConfig {
        match self {
            SideTuning::First(_) => FirstSideTuning::spec_search_config(config, phase),
            SideTuning::Second(_) => SecondSideTuning::spec_search_config(config, phase),
        }
    }

    /// Name of the tuning.
    pub fn name(self) -> (s: &'static str)
        ensures
            self is First ==> s@ == "first"@,
            self is Second ==> s@ == "second"@,
    {
        match self {
            SideTuning::First(t) => t.name(),
            SideTuning::Second(t) => t.name(),
        }
    }

    /// The search configuration for `phase`; see `spec_search_config`.
    pub fn search_config(self, config: SearchConfig, phase: SearchPhase) -> (c: SearchConfig)
        ensures
            c == self.spec_search_config(config, phase),
    {
        match self {
            SideTuning::First(t) => t.search_config(config, phase),
            SideTuning::Second(t) => t.search_config(config, phase),
        }
    }

    /// Whether to clear the transposition table on a new game.
    pub fn clear_tt_on_init(self) -> (b: bool)
        ensures
            b,
    {
        match self {
            SideTuning::First(t) => t.clear_tt_on_init(),
            SideTuning::Second(t) => t.clear_tt_on_init(),
        }
    }
}

} // verus!
