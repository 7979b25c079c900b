use vstd::prelude::*;

use crate::board::{spec_action_score, Board};
use crate::bots::zoo_utils::{is_corner, is_edge, spec_is_corner, spec_is_edge};
use crate::movegen::rect_in_board;
use crate::types::{Move, PASS};

verus! {

/// A ranking key of a move: eight integers compared in order.
pub type Key8 = (i32, i32, i32, i32, i32, i32, i32, i32);

/// `a` ranks below `b`: the first entry where they differ is smaller in `a`.
pub open spec fn key_lt(a: Key8, b: Key8) -> bool {
    ||| a.0 < b.0
    ||| a.0 == b.0 && a.1 < b.1
    ||| a.0 == b.0 && a.1 == b.1 && a.2 < b.2
    ||| a.0 == b.0 && a.1 == b.1 && a.2 == b.2 && a.3 < b.3
    ||| a.0 == b.0 && a.1 == b.1 && a.2 == b.2 && a.3 == b.3 && a.4 < b.4
    ||| a.0 == b.0 && a.1 == b.1 && a.2 == b.2 && a.3 == b.3 && a.4 == b.4 && a.5 < b.5
    ||| a.0 == b.0 && a.1 == b.1 && a.2 == b.2 && a.3 == b.3 && a.4 == b.4 && a.5 == b.5 && a.6
        < b.6
    ||| a.0 == b.0 && a.1 == b.1 && a.2 == b.2 && a.3 == b.3 && a.4 == b.4 && a.5 == b.5 && a.6
        == b.6 && a.7 < b.7
}

/// Whether `a` ranks below `b`; see `key_lt`.
pub fn key_less(a: Key8, b: Key8) -> (lt: bool)
    ensures
        lt == key_lt(a, b),
{
    if a.0 != b.0 {
        return a.0 < b.0;
    }
    if a.1 != b.1 {
        return a.1 < b.1;
    }
    if a.2 != b.2 {
        return a.2 < b.2;
    }
    if a.3 != b.3 {
        return a.3 < b.3;
    }
    if a.4 != b.4 {
        return a.4 < b.4;
    }
    if a.5 != b.5 {
        return a.5 < b.5;
    }
    if a.6 != b.6 {
        return a.6 < b.6;
    }
    a.7 < b.7
}

/// The ordering score of `mv` on `b` (see `spec_action_score`), as 32-bit integers.
pub open spec fn score6(b: Board, mv: Move) -> (i32, i32, i32, i32, i32, i32) {
    let s = spec_action_score(b.values@, b.owners@, b.player, mv);
    (s.0 as i32, s.1 as i32, s.2 as i32, s.3 as i32, s.4 as i32, s.5 as i32)
}

/// Tie-breakers from the coordinates: the top row, then the sum of the other three,
/// smaller first.
pub open spec fn top_row_rank(mv: Move) -> i32 {
    (-(mv.0 as int)) as i32
}

pub open spec fn coord_rank(mv: Move) -> i32 {
    (-(mv.1 + mv.2 + mv.3)) as i32
}

/// Which key ranks the moves of a zoo player.
#[derive(Clone, Copy, Debug)]
pub enum KeyKind {
    Balanced,
    Area,
    Recapture,
    Fresh,
    Edge,
    Corner,
    NetArea,
    LiveCell,
    Position,
}

/// Distance of the rectangle's centre from the board's centre, doubled: rows, columns.
pub open spec fn center_rank(mv: Move) -> i32 {
    let cr = mv.0 + mv.2 - 9;
    let cc = mv.1 + mv.3 - 16;
    (-((if cr < 0 { -cr } else { cr }) + (if cc < 0 { -cc } else { cc }))) as i32
}

/// The key of `mv` on `b` for ranking `kind`: the ordering score reordered to put the
/// ranking's own term first, with the coordinate tie-breakers; the edge and corner keys put
/// corner and border contact (1 or 0) first, the position key the closeness to the centre.
pub open spec fn spec_key(kind: KeyKind, b: Board, mv: Move) -> Key8 {
    let s = score6(b, mv);
    let corner = if spec_is_corner(mv) { 1i32 } else { 0i32 };
    let edge = if spec_is_edge(mv) { 1i32 } else { 0i32 };
    match kind {
        KeyKind::Balanced => (s.0, s.1, s.2, s.3, s.4, s.5, top_row_rank(mv), coord_rank(mv)),
        KeyKind::Area => (s.5, s.0, s.1, s.2, s.3, s.4, top_row_rank(mv), coord_rank(mv)),
        KeyKind::Recapture => (s.1, s.0, s.2, s.3, s.4, s.5, top_row_rank(mv), coord_rank(mv)),
        KeyKind::Fresh => (s.2, s.0, s.1, s.3, s.4, s.5, top_row_rank(mv), coord_rank(mv)),
        KeyKind::Edge => (corner, edge, s.0, s.1, s.2, s.3, s.4, s.5),
        KeyKind::Corner => (corner, edge, s.0, s.1, s.2, s.3, s.4, s.5),
        KeyKind::NetArea => (s.4, s.0, s.1, s.2, s.3, s.5, top_row_rank(mv), coord_rank(mv)),
        KeyKind::LiveCell => (s.3, s.0, s.1, s.2, s.4, s.5, top_row_rank(mv), coord_rank(mv)),
        KeyKind::Position => (center_rank(mv), s.0, s.1, s.2, s.3, s.4, s.5, coord_rank(mv)),
    }
}

/// The tie-breakers of `mv`, computed.
fn ranks(mv: Move) -> (r: (i32, i32))
    ensures
        r.0 == top_row_rank(mv),
        r.1 == coord_rank(mv),
{
    (-(mv.0 as i32), -(mv.1 as i32 + mv.2 as i32 + mv.3 as i32))
}

/// The ordering score of `mv`, with what the keys need.
fn score_of(board: &Board, mv: Move) -> (s: (i32, i32, i32, i32, i32, i32))
    requires
        mv == PASS || rect_in_board(mv),
    ensures
        s == score6(*board, mv),
{
    let s = board.action_score(mv);
    s
}

/// The balanced key: the ordering score, then the tie-breakers.
pub fn move_key(board: &Board, mv: Move) -> (k: Key8)
    requires
        mv == PASS || rect_in_board(mv),
    ensures
        k == spec_key(KeyKind::Balanced, *board, mv),
{
    let (score_delta, recaptured, fresh, live, net_area, area) = score_of(board, mv);
    let (a, b) = ranks(mv);
    (score_delta, recaptured, fresh, live, net_area, area, a, b)
}

/// The area key: area first.
pub fn area_key(board: &Board, mv: Move) -> (k: Key8)
    requires
        mv == PASS || rect_in_board(mv),
    ensures
        k == spec_key(KeyKind::Area, *board, mv),
{
    let (score_delta, recaptured, fresh, live, net_area, area) = score_of(board, mv);
    let (a, b) = ranks(mv);
    (area, score_delta, recaptured, fresh, live, net_area, a, b)
}

/// The recapture key: opponent cells taken first.
pub fn recapture_key(board: &Board, mv: Move) -> (k: Key8)
    requires
        mv == PASS || rect_in_board(mv),
    ensures
        k == spec_key(KeyKind::Recapture, *board, mv),
{
    let (score_delta, recaptured, fresh, live, net_area, area) = score_of(board, mv);
    let (a, b) = ranks(mv);
    (recaptured, score_delta, fresh, live, net_area, area, a, b)
}

/// The fresh key: unowned cells first.
pub fn fresh_key(board: &Board, mv: Move) -> (k: Key8)
    requires
        mv == PASS || rect_in_board(mv),
    ensures
        k == spec_key(KeyKind::Fresh, *board, mv),
{
    let (score_delta, recaptured, fresh, live, net_area, area) = score_of(board, mv);
    let (a, b) = ranks(mv);
    (fresh, score_delta, recaptured, live, net_area, area, a, b)
}

/// The edge key: corner contact, border contact, then the ordering score.
pub fn edge_key(board: &Board, mv: Move) -> (k: Key8)
    requires
        mv == PASS || rect_in_board(mv),
    ensures
        k == spec_key(KeyKind::Edge, *board, mv),
{
    let (score_delta, recaptured, fresh, live, net_area, area) = score_of(board, mv);
    (
        if is_corner(mv) { 1 } else { 0 },
        if is_edge(mv) { 1 } else { 0 },
        score_delta,
        recaptured,
        fresh,
        live,
        net_area,
        area,
    )
}

/// The corner key: the same as the edge key.
pub fn corner_key(board: &Board, mv: Move) -> (k: Key8)
    requires
        mv == PASS || rect_in_board(mv),
    ensures
        k == spec_key(KeyKind::Corner, *board, mv),
{
    let (score_delta, recaptured, fresh, live, net_area, area) = score_of(board, mv);
    (
        if is_corner(mv) { 1 } else { 0 },
        if is_edge(mv) { 1 } else { 0 },
        score_delta,
        recaptured,
        fresh,
        live,
        net_area,
        area,
    )
}

/// The net-area key: area less own cells first.
pub fn net_area_key(board: &Board, mv: Move) -> (k: Key8)
    requires
        mv == PASS || rect_in_board(mv),
    ensures
        k == spec_key(KeyKind::NetArea, *board, mv),
{
    let (score_delta, recaptured, fresh, live, net_area, area) = score_of(board, mv);
    let (a, b) = ranks(mv);
    (net_area, score_delta, recaptured, fresh, live, area, a, b)
}

/// The live-cell key: live cells first.
pub fn live_cell_key(board: &Board, mv: Move) -> (k: Key8)
    requires
        mv == PASS || rect_in_board(mv),
    ensures
        k == spec_key(KeyKind::LiveCell, *board, mv),
{
    let (score_delta, recaptured, fresh, live, net_area, area) = score_of(board, mv);
    let (a, b) = ranks(mv);
    (live, score_delta, recaptured, fresh, net_area, area, a, b)
}

/// The position key: closeness to the centre first.
pub fn position_key(board: &Board, mv: Move) -> (k: Key8)
    requires
        mv == PASS || rect_in_board(mv),
    ensures
        k == spec_key(KeyKind::Position, *board, mv),
{
    let (score_delta, recaptured, fresh, live, net_area, area) = score_of(board, mv);
    let cr = mv.0 as i32 + mv.2 as i32 - 9;
    let cc = mv.1 as i32 + mv.3 as i32 - 16;
    let center_row = if cr < 0 {
        -cr
    } else {
        cr
    };
    let center_col = if cc < 0 {
        -cc
    } else {
        cc
    };
    let (_, b) = ranks(mv);
    (-(center_row + center_col), score_delta, recaptured, fresh, live, net_area, area, b)
}

/// The key of `mv` for ranking `kind`; see `spec_key`.
pub fn key_of(kind: &KeyKind, board: &Board, mv: Move) -> (k: Key8)
    requires
        mv == PASS || rect_in_board(mv),
    ensures
        k == spec_key(*kind, *board, mv),
{
    match kind {
        KeyKind::Balanced => move_key(board, mv),
        KeyKind::Area => area_key(board, mv),
        KeyKind::Recapture => recapture_key(board, mv),
        KeyKind::Fresh => fresh_key(board, mv),
        KeyKind::Edge => edge_key(board, mv),
        KeyKind::Corner => corner_key(board, mv),
        KeyKind::NetArea => net_area_key(board, mv),
        KeyKind::LiveCell => live_cell_key(board, mv),
        KeyKind::Position => position_key(board, mv),
    }
}

} // verus!
