use vstd::prelude::*;

use crate::board::owned_count;
use crate::bots::agent_board::count_owned;
use crate::bots::agent_eval::{agent_terms, connectivity_of, corners_edges_of};
use crate::types::{opponent, N_CELLS};

verus! {

/// Number of cells owned by `player`.
pub fn count_cells(values: &[u8; N_CELLS], owners: &[i8; N_CELLS], player: i8) -> (n: i32)
    ensures
        n == owned_count(owners@, player),
        0 <= n <= N_CELLS,
{
    count_owned(owners, player)
}

/// The light evaluation for `player`: 100 per cell of territory lead, 25 per adjacent pair
/// of own cells, 50 per corner and 15 per border cell balance (see `agent_terms`).
pub open spec fn spec_lightweight_eval(values: Seq<u8>, owners: Seq<i8>, player: i8) -> int {
    let t = agent_terms(values, owners, player);
    t.0 * 100 + t.1 * 25 + t.2 * 50 + t.3 * 15
}

/// The light evaluation; see `spec_lightweight_eval`.
pub fn lightweight_evaluate(values: &[u8; N_CELLS], owners: &[i8; N_CELLS], player: i8) -> (s: i32)
    ensures
        s == spec_lightweight_eval(values@, owners@, player),
{
    let opp = opponent(player);
    let my_cells = count_cells(values, owners, player);
    let opp_cells = count_cells(values, owners, opp);
    let connectivity = connectivity_of(owners, player);
    let (corners, edges) = corners_edges_of(owners, player);
    (my_cells - opp_cells) * 100 + connectivity * 25 + corners * 50 + edges * 15
}

} // verus!
