use vstd::prelude::*;

verus! {

/// Phase of the game as the time manager sees it.
#[derive(Clone, Copy, Debug, PartialEq, Eq, Structural)]
pub enum SearchPhase {
    MidgameFull,
    MidgameConserve,
    Endgame,
}

} // verus!
