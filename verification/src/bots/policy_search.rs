use vstd::prelude::*;

use crate::board::Board;

verus! {

/// The time for one move: the time left less a 500 ms reserve, over the turns still
/// expected (a tenth of the live cells, within 2..=80), kept within 10..=100 ms.
pub open spec fn spec_policy_budget(my_time_ms: u64, live: u64) -> u64 {
    let t = live / 10;
    let est = if t < 2 {
        2
    } else if t > 80 {
        80
    } else {
        t
    };
    let usable = if my_time_ms > 500 { (my_time_ms - 500) as u64 } else { 0u64 };
    let q = usable / est;
    if q < 10 {
        10
    } else if q > 100 {
        100
    } else {
        q
    }
}

/// The time for one move on `board`; see `spec_policy_budget`.
pub fn turn_budget(board: &Board, my_time_ms: u64) -> (b: u64)
    ensures
        b == spec_policy_budget(my_time_ms, board.live_mask.count() as u64),
{
    let usable = my_time_ms.saturating_sub(500);
    let live = board.live_mask.popcount() as u64;
    let t = live / 10;
    let est_turns = if t < 2 {
        2
    } else if t > 80 {
        80
    } else {
        t
    };
    let q = usable / est_turns;
    if q < 10 {
        10
    } else if q > 100 {
        100
    } else {
        q
    }
}

} // verus!
