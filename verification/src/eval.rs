use vstd::prelude::*;

use crate::bitboard::Bitboard;
use crate::board::{
    count_in_rect, fresh_pred, lemma_count_all, lemma_count_bound, lemma_count_next_row,
    lemma_count_same, lemma_count_start, lemma_count_step, lemma_count_union, live_pred,
    own_pred, owned_by_pred, spec_action_score, valid_owners, valid_player, Board,
};
use crate::dataloader::RectGeometry;
use crate::grid::{
    lemma_region_empty_cols_gen, lemma_region_nonneg, lemma_region_split_rows, lemma_row_sum_empty,
    lemma_row_sum_nonneg, lemma_row_sum_split, region_sum, row_sum, value_grid,
};
use crate::movegen::{rect_area, rect_contains, rect_in_board};
use crate::bitboard::N_BITS;
use crate::types::{
    cell_index, is_pass, opponent, spec_opponent, Move, COLS, FIRST, N_CELLS, N_RECTS, PASS, ROWS,
    SECOND,
};

verus! {

/// Features of a move over the cells of its rectangle.
#[derive(Clone, Copy, Debug)]
pub struct MoveFeatures {
    pub fresh: i32,
    pub recaptured: i32,
    pub own: i32,
    pub live: i32,
    pub area: i32,
    pub edge: i32,
    pub corner: i32,
}

/// Whether mask cell `(r, c)` is set.
pub open spec fn at(mask: Bitboard, r: int, c: int) -> bool {
    mask.bit(r * COLS + c)
}

/// Number of adjacent pairs of set cells among flat cells below `n`: each set cell counts its
/// right neighbour and its lower neighbour when they are set.
pub open spec fn pairs_below(mask: Bitboard, n: nat) -> nat
    decreases n,
{
    if n == 0 {
        0
    } else {
        let i = n - 1;
        let r = i / (COLS as int);
        let c = i % (COLS as int);
        pairs_below(mask, (n - 1) as nat) + if at(mask, r, c) && c + 1 < COLS && at(mask, r, c + 1) {
            1nat
        } else {
            0nat
        } + if at(mask, r, c) && r + 1 < ROWS && at(mask, r + 1, c) {
            1nat
        } else {
            0nat
        }
    }
}

/// Number of set cells of row `r` in columns `c1 <= c < c2`.
pub open spec fn row_members(mask: Bitboard, r: int, c1: int, c2: int) -> nat
    decreases c2 - c1,
{
    if c2 <= c1 {
        0
    } else {
        row_members(mask, r, c1, c2 - 1) + if at(mask, r, c2 - 1) { 1nat } else { 0nat }
    }
}

/// Number of set cells of column `c` in rows `r1 <= r < r2`.
pub open spec fn col_members(mask: Bitboard, c: int, r1: int, r2: int) -> nat
    decreases r2 - r1,
{
    if r2 <= r1 {
        0
    } else {
        col_members(mask, c, r1, r2 - 1) + if at(mask, r2 - 1, c) { 1nat } else { 0nat }
    }
}

/// Number of set corner cells.
pub open spec fn corner_members(mask: Bitboard) -> nat {
    (if at(mask, 0, 0) { 1nat } else { 0nat }) + (if at(mask, 0, COLS - 1) { 1nat } else { 0nat })
        + (if at(mask, ROWS - 1, 0) { 1nat } else { 0nat }) + (if at(mask, ROWS - 1, COLS - 1) {
        1nat
    } else {
        0nat
    })
}

/// Number of set border cells that are not corners.
pub open spec fn edge_members(mask: Bitboard) -> nat {
    row_members(mask, 0, 1, COLS - 1) + row_members(mask, ROWS - 1, 1, COLS - 1) + col_members(
        mask,
        0,
        1,
        ROWS - 1,
    ) + col_members(mask, COLS - 1, 1, ROWS - 1)
}

/// Flat cell `i` is a corner of the board.
pub open spec fn is_corner_cell(i: int) -> bool {
    let r = i / (COLS as int);
    let c = i % (COLS as int);
    (r == 0 || r == ROWS - 1) && (c == 0 || c == COLS - 1)
}

/// Flat cell `i` is on the border of the board but not a corner.
pub open spec fn is_edge_cell(i: int) -> bool {
    let r = i / (COLS as int);
    let c = i % (COLS as int);
    !is_corner_cell(i) && (r == 0 || r == ROWS - 1 || c == 0 || c == COLS - 1)
}

/// Cells owned by `player` (and by neither no one nor `opp`).
pub open spec fn own_cell_pred(owners: Seq<i8>, player: i8, opp: i8) -> spec_fn(int) -> bool {
    |i: int| owners[i] != 0 && owners[i] != opp && owners[i] == player
}

pub open spec fn corner_pred() -> spec_fn(int) -> bool {
    |i: int| is_corner_cell(i)
}

pub open spec fn edge_pred() -> spec_fn(int) -> bool {
    |i: int| is_edge_cell(i)
}

/// The features of `mv` for the side to move: unowned cells, opponent cells, own cells,
/// live cells, area, border cells that are not corners, corners; all zero for a pass.
pub open spec fn spec_move_features(values: Seq<u8>, owners: Seq<i8>, player: i8, mv: Move) -> MoveFeatures {
    if mv == PASS {
        MoveFeatures { fresh: 0, recaptured: 0, own: 0, live: 0, area: 0, edge: 0, corner: 0 }
    } else {
        MoveFeatures {
            fresh: count_in_rect(mv, fresh_pred(owners), N_CELLS as nat) as i32,
            recaptured: count_in_rect(
                mv,
                owned_by_pred(owners, spec_opponent(player)),
                N_CELLS as nat,
            ) as i32,
            own: count_in_rect(
                mv,
                own_cell_pred(owners, player, spec_opponent(player)),
                N_CELLS as nat,
            ) as i32,
            live: count_in_rect(mv, live_pred(values), N_CELLS as nat) as i32,
            area: rect_area(mv) as i32,
            edge: count_in_rect(mv, edge_pred(), N_CELLS as nat) as i32,
            corner: count_in_rect(mv, corner_pred(), N_CELLS as nat) as i32,
        }
    }
}

/// Flat cell `i` lies on the border of the board: its first or last row or column.
pub open spec fn border_pred() -> spec_fn(int) -> bool {
    |i: int|
        i / (COLS as int) == 0 || i / (COLS as int) == ROWS - 1 || i % (COLS as int) == 0 || i % (
        COLS as int) == COLS - 1
}

/// On a board whose cells are unowned or owned by one of the two players, with one of them
/// to move, the features of a rectangle add up: its unowned, opponent and own cells
/// together are its area; its live cells are among them; its corners and other border
/// cells are its cells on the board's border; and its ordering score (`spec_action_score`)
/// is made of the same counts, as (fresh + 2 * recaptured, recaptured, fresh, live,
/// area - own, area).
pub proof fn lemma_features_partition(values: Seq<u8>, owners: Seq<i8>, player: i8, mv: Move)
    requires
        owners.len() == N_CELLS,
        valid_owners(owners),
        valid_player(player),
        rect_in_board(mv),
    ensures
        ({
            let f = spec_move_features(values, owners, player, mv);
            &&& f.area == rect_area(mv)
            &&& f.fresh + f.recaptured + f.own == f.area
            &&& 0 <= f.live <= f.area
            &&& f.corner + f.edge == count_in_rect(mv, border_pred(), N_CELLS as nat)
            &&& spec_action_score(values, owners, player, mv) == (
                f.fresh + 2 * f.recaptured,
                f.recaptured as int,
                f.fresh as int,
                f.live as int,
                f.area - f.own,
                f.area as int,
            )
        }),
{
    let n = N_CELLS as nat;
    let opp = spec_opponent(player);
    let fp = fresh_pred(owners);
    let rp = owned_by_pred(owners, opp);
    let op = own_cell_pred(owners, player, opp);
    let lp = live_pred(values);
    let fr = |i: int| fp(i) || rp(i);
    let all = |i: int| fr(i) || op(i);
    let dead = |i: int| !lp(i);
    let either_live = |i: int| lp(i) || dead(i);
    let bp = border_pred();
    lemma_count_union(mv, fp, rp, fr, n);
    lemma_count_union(mv, fr, op, all, n);
    assert forall|i: int| rect_contains(mv, i) implies #[trigger] all(i) by {
        assert(owners[i] == 0 || owners[i] == FIRST || owners[i] == SECOND);
    }
    lemma_count_all(mv, all);
    lemma_count_union(mv, lp, dead, either_live, n);
    lemma_count_all(mv, either_live);
    lemma_count_union(mv, corner_pred(), edge_pred(), bp, n);
    lemma_count_same(mv, own_pred(owners, opp), op, n);
    lemma_count_bound(mv, fp, n);
    lemma_count_bound(mv, rp, n);
    lemma_count_bound(mv, op, n);
    lemma_count_bound(mv, lp, n);
    lemma_count_bound(mv, corner_pred(), n);
    lemma_count_bound(mv, edge_pred(), n);
    assert(rect_area(mv) <= N_CELLS) by (nonlinear_arith)
        requires
            rect_in_board(mv),
    ;
}

/// Every feature lies in `0..=N_CELLS`.
pub open spec fn features_bounded(f: MoveFeatures) -> bool {
    &&& 0 <= f.fresh <= N_CELLS
    &&& 0 <= f.recaptured <= N_CELLS
    &&& 0 <= f.own <= N_CELLS
    &&& 0 <= f.live <= N_CELLS
    &&& 0 <= f.area <= N_CELLS
    &&& 0 <= f.edge <= N_CELLS
    &&& 0 <= f.corner <= N_CELLS
}

/// The static score of a move's features.
pub open spec fn spec_static_move_score(f: MoveFeatures) -> int {
    f.recaptured * 120 + f.fresh * 45 + f.live * 12 + f.area * 25 + f.edge * 8 + f.corner * 15
        - f.own * 20
}

/// Every partial result of `spec_static_move_score`, evaluated left to right, fits in `i32`.
pub open spec fn static_score_fits(f: MoveFeatures) -> bool {
    let a = f.recaptured * 120;
    let b = f.fresh * 45;
    let c = f.live * 12;
    let d = f.area * 25;
    let e = f.edge * 8;
    let g = f.corner * 15;
    let h = f.own * 20;
    &&& i32::MIN <= a <= i32::MAX
    &&& i32::MIN <= b <= i32::MAX
    &&& i32::MIN <= c <= i32::MAX
    &&& i32::MIN <= d <= i32::MAX
    &&& i32::MIN <= e <= i32::MAX
    &&& i32::MIN <= g <= i32::MAX
    &&& i32::MIN <= h <= i32::MAX
    &&& i32::MIN <= a + b <= i32::MAX
    &&& i32::MIN <= a + b + c <= i32::MAX
    &&& i32::MIN <= a + b + c + d <= i32::MAX
    &&& i32::MIN <= a + b + c + d + e <= i32::MAX
    &&& i32::MIN <= a + b + c + d + e + g <= i32::MAX
    &&& i32::MIN <= a + b + c + d + e + g - h <= i32::MAX
}

/// The two cell sets share a cell.
pub open spec fn intersects(a: Bitboard, b: Bitboard) -> bool {
    exists|i: int| 0 <= i < crate::bitboard::N_BITS && #[trigger] a.bit(i) && b.bit(i)
}

/// The geometry record is a legal move on `board`: each of its four border lines meets a live
/// cell and its cell values sum to exactly 10.
pub open spec fn geometry_rect_valid(board: Board, rect: RectGeometry) -> bool {
    &&& intersects(board.live_mask, rect.top_border)
    &&& intersects(board.live_mask, rect.bottom_border)
    &&& intersects(board.live_mask, rect.left_border)
    &&& intersects(board.live_mask, rect.right_border)
    &&& region_sum(
        value_grid(board.values@),
        rect.r1 as int,
        rect.r2 + 1,
        rect.c1 as int,
        rect.c2 + 1,
    ) == 10
}

fn meets(a: &Bitboard, b: &Bitboard) -> (m: bool)
    ensures
        m == intersects(*a, *b),
{
    let x = a.and(b);
    let e = x.is_empty();
    proof {
        if !e {
            let i = choose|i: int| 0 <= i < crate::bitboard::N_BITS && #[trigger] x.bit(i);
            assert(a.bit(i) && b.bit(i));
        }
        if intersects(*a, *b) {
            let i = choose|i: int| 0 <= i < crate::bitboard::N_BITS && #[trigger] a.bit(i) && b.bit(i);
            assert(x.bit(i));
        }
    }
    !e
}

/// Integer terms of the geometry-based evaluation for one side: safe cells, vulnerable
/// cells, steal potential, mobility, threatened cells and forked cells.
#[derive(Clone, Copy, Debug)]
pub struct GeometryTerms {
    pub safe: i32,
    pub vulnerable: i32,
    pub steal: i32,
    pub mobility: i32,
    pub threatened: i32,
    pub forks: i32,
}

/// Number of `k < n` with `p(k)`.
pub open spec fn count_where(p: spec_fn(int) -> bool, n: nat) -> nat
    decreases n,
{
    if n == 0 {
        0
    } else {
        count_where(p, (n - 1) as nat) + if p(n - 1) { 1nat } else { 0nat }
    }
}

/// Sum of `f(k)` over `k < n`.
pub open spec fn sum_where(f: spec_fn(int) -> int, n: nat) -> int
    decreases n,
{
    if n == 0 {
        0
    } else {
        sum_where(f, (n - 1) as nat) + f(n - 1)
    }
}

/// The legal rectangles of `geometry` on `board`, by index.
pub open spec fn valid_pred(board: Board, geometry: Seq<RectGeometry>) -> spec_fn(int) -> bool {
    |k: int| geometry_rect_valid(board, geometry[k])
}

/// Cell `i` lies in a legal rectangle among the first `m` records of `geometry`.
pub open spec fn covered(board: Board, geometry: Seq<RectGeometry>, i: int, m: int) -> bool {
    exists|k: int|
        0 <= k < m && geometry_rect_valid(board, #[trigger] geometry[k])
            && geometry[k].cell_mask.bit(i)
}

/// Members of `mask` lying in some legal rectangle of `geometry`.
pub open spec fn vulnerable_pred(board: Board, geometry: Seq<RectGeometry>, mask: Bitboard) -> spec_fn(int) -> bool {
    |i: int| mask.bit(i) && covered(board, geometry, i, geometry.len() as int)
}

/// Number of members of `mask` lying in some legal rectangle of `geometry`.
pub open spec fn vulnerable_count(board: Board, geometry: Seq<RectGeometry>, mask: Bitboard) -> nat {
    count_where(vulnerable_pred(board, geometry, mask), crate::bitboard::N_BITS as nat)
}

/// Members of `mask` inside rectangle record `g`.
pub open spec fn inside(mask: Bitboard, g: RectGeometry) -> nat {
    mask.and_spec(g.cell_mask).count()
}

/// What record `k` adds to the steal potential of the side owning `mine`: the number of
/// `theirs` cells inside it when it is legal, holds some of them and none of `mine`.
pub open spec fn steal_term(board: Board, geometry: Seq<RectGeometry>, mine: Bitboard, theirs: Bitboard) -> spec_fn(int) -> int {
    |k: int|
        if geometry_rect_valid(board, geometry[k]) && inside(theirs, geometry[k]) > 0 && inside(
            mine,
            geometry[k],
        ) == 0 {
            inside(theirs, geometry[k]) as int
        } else {
            0
        }
}

/// Steal potential of the side owning `mine` against `theirs`.
pub open spec fn steal_sum(board: Board, geometry: Seq<RectGeometry>, mine: Bitboard, theirs: Bitboard) -> int {
    sum_where(steal_term(board, geometry, mine, theirs), geometry.len())
}

/// Number of entries among the first `m` of `list` naming a legal rectangle.
pub open spec fn threats_in(board: Board, geometry: Seq<RectGeometry>, list: Seq<u16>, m: nat) -> nat
    decreases m,
{
    if m == 0 {
        0
    } else {
        threats_in(board, geometry, list, (m - 1) as nat) + if geometry_rect_valid(
            board,
            geometry[list[m - 1] as int],
        ) {
            1nat
        } else {
            0nat
        }
    }
}

/// Cells of `mask` that at least `t` legal rectangles listed for the cell cover.
pub open spec fn threat_pred(
    board: Board,
    geometry: Seq<RectGeometry>,
    cell_to_rects: Seq<Vec<u16>>,
    mask: Bitboard,
    t: nat,
) -> spec_fn(int) -> bool {
    |i: int|
        mask.bit(i) && threats_in(board, geometry, cell_to_rects[i]@, cell_to_rects[i]@.len())
            >= t
}

/// Number of cells of `mask` covered by at least `t` legal rectangles listed for the cell.
pub open spec fn threatened_count(
    board: Board,
    geometry: Seq<RectGeometry>,
    cell_to_rects: Seq<Vec<u16>>,
    mask: Bitboard,
    t: nat,
) -> nat {
    count_where(threat_pred(board, geometry, cell_to_rects, mask, t), N_CELLS as nat)
}

/// The geometry terms of the side owning `mine` (opponent `theirs`).
pub open spec fn spec_geometry_terms(
    board: Board,
    geometry: Seq<RectGeometry>,
    cell_to_rects: Seq<Vec<u16>>,
    mine: Bitboard,
    theirs: Bitboard,
) -> GeometryTerms {
    GeometryTerms {
        safe: (mine.count() - vulnerable_count(board, geometry, mine)) as i32,
        vulnerable: vulnerable_count(board, geometry, mine) as i32,
        steal: steal_sum(board, geometry, mine, theirs) as i32,
        mobility: count_where(valid_pred(board, geometry), geometry.len()) as i32,
        threatened: threatened_count(board, geometry, cell_to_rects, mine, 1) as i32,
        forks: threatened_count(board, geometry, cell_to_rects, mine, 2) as i32,
    }
}

proof fn lemma_covered_step(board: Board, geometry: Seq<RectGeometry>, i: int, m: int)
    requires
        0 <= m < geometry.len(),
    ensures
        covered(board, geometry, i, m + 1) == (covered(board, geometry, i, m) || (
        geometry_rect_valid(board, geometry[m]) && geometry[m].cell_mask.bit(i))),
{
    if covered(board, geometry, i, m + 1) {
        let k = choose|k: int|
            0 <= k < m + 1 && geometry_rect_valid(board, #[trigger] geometry[k])
                && geometry[k].cell_mask.bit(i);
        if k < m {
            assert(covered(board, geometry, i, m));
        }
    }
    if covered(board, geometry, i, m) {
        let k = choose|k: int|
            0 <= k < m && geometry_rect_valid(board, #[trigger] geometry[k])
                && geometry[k].cell_mask.bit(i);
        assert(covered(board, geometry, i, m + 1));
    }
    if geometry_rect_valid(board, geometry[m]) && geometry[m].cell_mask.bit(i) {
        assert(covered(board, geometry, i, m + 1));
    }
}

proof fn lemma_count_where_bits(bb: Bitboard, p: spec_fn(int) -> bool, n: nat)
    requires
        n <= crate::bitboard::N_BITS,
        forall|i: int| 0 <= i < n ==> #[trigger] bb.bit(i) == p(i),
    ensures
        bb.count_below(n) == count_where(p, n),
    decreases n,
{
    if n > 0 {
        lemma_count_where_bits(bb, p, (n - 1) as nat);
        assert(bb.bit(n - 1) == p(n - 1));
    }
}

proof fn lemma_count_zero_bits(bb: Bitboard, n: nat)
    requires
        bb.count_below(n) == 0,
    ensures
        forall|i: int| 0 <= i < n ==> !#[trigger] bb.bit(i),
    decreases n,
{
    if n > 0 {
        lemma_count_zero_bits(bb, (n - 1) as nat);
    }
}

proof fn lemma_count_where_bound(p: spec_fn(int) -> bool, n: nat)
    ensures
        count_where(p, n) <= n,
    decreases n,
{
    if n > 0 {
        lemma_count_where_bound(p, (n - 1) as nat);
    }
}

proof fn lemma_threats_monotone(
    board: Board,
    geometry: Seq<RectGeometry>,
    list: Seq<u16>,
    a: nat,
    b: nat,
)
    requires
        a <= b,
    ensures
        threats_in(board, geometry, list, a) <= threats_in(board, geometry, list, b),
    decreases b - a,
{
    if a < b {
        lemma_threats_monotone(board, geometry, list, a, (b - 1) as nat);
    }
}

impl Board {
    /// Whether the geometry record is a legal move here; see `geometry_rect_valid`.
    pub fn is_rect_valid_with_geometry(&self, rect: &RectGeometry) -> (b: bool)
        requires
            rect.r2 < ROWS,
            rect.c2 < COLS,
        ensures
            b == geometry_rect_valid(*self, *rect),
    {
        let live = &self.live_mask;
        let top_ok = meets(live, &rect.top_border);
        if !top_ok {
            return false;
        }
        let bottom_ok = meets(live, &rect.bottom_border);
        if !bottom_ok {
            return false;
        }
        let left_ok = meets(live, &rect.left_border);
        if !left_ok {
            return false;
        }
        let right_ok = meets(live, &rect.right_border);
        if !right_ok {
            return false;
        }
        let ghost vg = value_grid(self.values@);
        let ghost r1 = rect.r1 as int;
        let ghost c1 = rect.c1 as int;
        let ghost r2 = rect.r2 as int;
        let ghost c2 = rect.c2 as int;
        if rect.r1 > rect.r2 || rect.c1 > rect.c2 {
            proof {
                if r1 <= r2 {
                    lemma_region_empty_cols_gen(vg, r1, r2 + 1, c1, c2 + 1);
                }
            }
        }
        let mut sum = 0u32;
        let mut r = rect.r1;
        while r <= rect.r2
            invariant
                rect.r1 <= r,
                r <= rect.r2 + 1 || r == rect.r1,
                rect.r2 < ROWS,
                rect.c2 < COLS,
                vg == value_grid(self.values@),
                r1 == rect.r1 && r2 == rect.r2 && c1 == rect.c1 && c2 == rect.c2,
                sum <= 10,
                sum == region_sum(vg, r1, r as int, c1, c2 + 1),
            decreases rect.r2 + 1 - r,
        {
            let mut c = rect.c1;
            while c <= rect.c2
                invariant
                    rect.r1 <= r <= rect.r2,
                    rect.c1 <= c,
                    c <= rect.c2 + 1 || c == rect.c1,
                    rect.r2 < ROWS,
                    rect.c2 < COLS,
                    vg == value_grid(self.values@),
                    r1 == rect.r1 && r2 == rect.r2 && c1 == rect.c1 && c2 == rect.c2,
                    sum <= 10,
                    c <= rect.c2 + 1 ==> sum == region_sum(vg, r1, r as int, c1, c2 + 1) + row_sum(
                        vg,
                        r as int,
                        c1,
                        c as int,
                    ),
                    c > rect.c2 + 1 ==> sum == region_sum(vg, r1, r as int, c1, c2 + 1),
                decreases rect.c2 + 1 - c,
            {
                proof {
                    crate::grid::lemma_cell_in_board(r as int, c as int);
                }
                sum += self.values[r as usize * COLS + c as usize] as u32;
                if sum > 10 {
                    proof {
                        lemma_row_sum_split(vg, r as int, c1, c + 1, c2 + 1);
                        lemma_row_sum_nonneg(vg, r as int, c + 1, c2 + 1);
                        lemma_region_split_rows(vg, r1, r as int, r2 + 1, c1, c2 + 1);
                        lemma_region_split_rows(vg, r as int, r + 1, r2 + 1, c1, c2 + 1);
                        lemma_region_nonneg(vg, r + 1, r2 + 1, c1, c2 + 1);
                        assert(region_sum(vg, r as int, r as int, c1, c2 + 1) == 0);
                    }
                    return false;
                }
                c += 1;
            }
            proof {
                if rect.c1 > rect.c2 + 1 {
                    lemma_row_sum_empty(vg, r as int, c1, c2 + 1);
                }
            }
            r += 1;
        }
        proof {
            if r1 > r2 {
                assert(region_sum(vg, r1, r2 + 1, c1, c2 + 1) == 0);
            }
        }
        sum == 10
    }

    /// Number of adjacent (right or down) pairs of cells both in `mask`.
    pub fn count_connectivity(&self, mask: &Bitboard) -> (n: i32)
        ensures
            n == pairs_below(*mask, N_CELLS as nat),
    {
        let mut conn = 0i32;
        let mut r: usize = 0;
        while r < ROWS
            invariant
                r <= ROWS,
                conn == pairs_below(*mask, (r * COLS) as nat),
                conn <= 2 * r * COLS,
            decreases ROWS - r,
        {
            let mut c: usize = 0;
            while c < COLS
                invariant
                    r < ROWS,
                    c <= COLS,
                    conn == pairs_below(*mask, (r * COLS + c) as nat),
                    conn <= 2 * (r * COLS + c),
                decreases COLS - c,
            {
                let ghost i = r * COLS + c;
                proof {
                    assert(i / 17 == r && i % 17 == c);
                }
                if mask.get(r, c) {
                    if c + 1 < COLS && mask.get(r, c + 1) {
                        conn += 1;
                    }
                    if r + 1 < ROWS && mask.get(r + 1, c) {
                        conn += 1;
                    }
                }
                c += 1;
            }
            r += 1;
        }
        conn
    }

    /// Corners and non-corner border cells in `mask`.
    pub fn count_positional(&self, mask: &Bitboard) -> (ce: (i32, i32))
        ensures
            ce.0 == corner_members(*mask),
            ce.1 == edge_members(*mask),
    {
        let mut corners = 0i32;
        let mut edges = 0i32;
        if mask.get(0, 0) {
            corners += 1;
        }
        if mask.get(0, COLS - 1) {
            corners += 1;
        }
        if mask.get(ROWS - 1, 0) {
            corners += 1;
        }
        if mask.get(ROWS - 1, COLS - 1) {
            corners += 1;
        }
        let mut c: usize = 1;
        while c < COLS - 1
            invariant
                1 <= c <= COLS - 1,
                edges == row_members(*mask, 0, 1, c as int) + row_members(
                    *mask,
                    ROWS - 1,
                    1,
                    c as int,
                ),
                edges <= 2 * c,
            decreases COLS - 1 - c,
        {
            if mask.get(0, c) {
                edges += 1;
            }
            if mask.get(ROWS - 1, c) {
                edges += 1;
            }
            c += 1;
        }
        let mut r: usize = 1;
        while r < ROWS - 1
            invariant
                1 <= r <= ROWS - 1,
                edges == row_members(*mask, 0, 1, COLS - 1) + row_members(
                    *mask,
                    ROWS - 1,
                    1,
                    COLS - 1,
                ) + col_members(*mask, 0, 1, r as int) + col_members(*mask, COLS - 1, 1, r as int),
                edges <= 2 * COLS + 2 * r,
            decreases ROWS - 1 - r,
        {
            if mask.get(r, 0) {
                edges += 1;
            }
            if mask.get(r, COLS - 1) {
                edges += 1;
            }
            r += 1;
        }
        (corners, edges)
    }
}

/// Features of `mv` for the side to move of `board`; see `spec_move_features`.
pub fn compute_move_features(board: &Board, mv: Move) -> (f: MoveFeatures)
    requires
        mv == PASS || rect_in_board(mv),
    ensures
        f == spec_move_features(board.values@, board.owners@, board.player, mv),
        features_bounded(f),
{
    if is_pass(mv) {
        return MoveFeatures { fresh: 0, recaptured: 0, own: 0, live: 0, area: 0, edge: 0, corner: 0 };
    }
    let (r1, c1, r2, c2) = mv;
    let opp = opponent(board.player);
    proof {
        assert((r2 - r1 + 1) * (c2 - c1 + 1) <= 10 * 17) by (nonlinear_arith)
            requires
                0 <= r1 <= r2 < 10,
                0 <= c1 <= c2 < 17,
        ;
    }
    let area = (r2 - r1 + 1) as i32 * (c2 - c1 + 1) as i32;
    let ghost fp = fresh_pred(board.owners@);
    let ghost rp = owned_by_pred(board.owners@, opp);
    let ghost op = own_cell_pred(board.owners@, board.player, opp);
    let ghost lp = live_pred(board.values@);
    let ghost ep = edge_pred();
    let ghost cp = corner_pred();
    let mut fresh = 0i32;
    let mut recaptured = 0i32;
    let mut own = 0i32;
    let mut live = 0i32;
    let mut edge = 0i32;
    let mut corner = 0i32;
    let (r1, c1, r2, c2) = (r1 as usize, c1 as usize, r2 as usize, c2 as usize);
    proof {
        lemma_count_start(mv, fp);
        lemma_count_start(mv, rp);
        lemma_count_start(mv, op);
        lemma_count_start(mv, lp);
        lemma_count_start(mv, ep);
        lemma_count_start(mv, cp);
    }
    let mut r = r1;
    while r <= r2
        invariant
            r1 <= r <= r2 + 1,
            r2 < ROWS,
            c1 <= c2 < COLS,
            rect_in_board(mv),
            mv.0 == r1 && mv.1 == c1 && mv.2 == r2 && mv.3 == c2,
            opp == spec_opponent(board.player),
            fp == fresh_pred(board.owners@),
            rp == owned_by_pred(board.owners@, opp),
            op == own_cell_pred(board.owners@, board.player, opp),
            lp == live_pred(board.values@),
            ep == edge_pred(),
            cp == corner_pred(),
            r <= r2 ==> fresh == count_in_rect(mv, fp, (r * COLS + c1) as nat),
            r <= r2 ==> recaptured == count_in_rect(mv, rp, (r * COLS + c1) as nat),
            r <= r2 ==> own == count_in_rect(mv, op, (r * COLS + c1) as nat),
            r <= r2 ==> live == count_in_rect(mv, lp, (r * COLS + c1) as nat),
            r <= r2 ==> edge == count_in_rect(mv, ep, (r * COLS + c1) as nat),
            r <= r2 ==> corner == count_in_rect(mv, cp, (r * COLS + c1) as nat),
            r > r2 ==> fresh == count_in_rect(mv, fp, N_CELLS as nat),
            r > r2 ==> recaptured == count_in_rect(mv, rp, N_CELLS as nat),
            r > r2 ==> own == count_in_rect(mv, op, N_CELLS as nat),
            r > r2 ==> live == count_in_rect(mv, lp, N_CELLS as nat),
            r > r2 ==> edge == count_in_rect(mv, ep, N_CELLS as nat),
            r > r2 ==> corner == count_in_rect(mv, cp, N_CELLS as nat),
        decreases r2 + 1 - r,
    {
        let mut c = c1;
        while c <= c2
            invariant
                r1 <= r <= r2,
                r2 < ROWS,
                c1 <= c <= c2 + 1,
                c2 < COLS,
                rect_in_board(mv),
                mv.0 == r1 && mv.1 == c1 && mv.2 == r2 && mv.3 == c2,
                opp == spec_opponent(board.player),
                fp == fresh_pred(board.owners@),
                rp == owned_by_pred(board.owners@, opp),
                op == own_cell_pred(board.owners@, board.player, opp),
                lp == live_pred(board.values@),
                ep == edge_pred(),
                cp == corner_pred(),
                fresh == count_in_rect(mv, fp, (r * COLS + c) as nat),
                recaptured == count_in_rect(mv, rp, (r * COLS + c) as nat),
                own == count_in_rect(mv, op, (r * COLS + c) as nat),
                live == count_in_rect(mv, lp, (r * COLS + c) as nat),
                edge == count_in_rect(mv, ep, (r * COLS + c) as nat),
                corner == count_in_rect(mv, cp, (r * COLS + c) as nat),
            decreases c2 + 1 - c,
        {
            let idx = cell_index(r, c);
            proof {
                assert(idx / 17 == r && idx % 17 == c);
                lemma_count_step(mv, fp, r as int, c as int);
                lemma_count_step(mv, rp, r as int, c as int);
                lemma_count_step(mv, op, r as int, c as int);
                lemma_count_step(mv, lp, r as int, c as int);
                lemma_count_step(mv, ep, r as int, c as int);
                lemma_count_step(mv, cp, r as int, c as int);
                lemma_count_bound(mv, fp, (r * COLS + c) as nat);
                lemma_count_bound(mv, rp, (r * COLS + c) as nat);
                lemma_count_bound(mv, op, (r * COLS + c) as nat);
                lemma_count_bound(mv, lp, (r * COLS + c) as nat);
                lemma_count_bound(mv, ep, (r * COLS + c) as nat);
                lemma_count_bound(mv, cp, (r * COLS + c) as nat);
            }
            if board.owners[idx] == 0 {
                fresh += 1;
            } else if board.owners[idx] == opp {
                recaptured += 1;
            } else if board.owners[idx] == board.player {
                own += 1;
            }
            if board.values[idx] > 0 {
                live += 1;
            }
            let is_corner = (r == 0 && c == 0) || (r == 0 && c == COLS - 1) || (r == ROWS - 1 && c
                == 0) || (r == ROWS - 1 && c == COLS - 1);
            if is_corner {
                corner += 1;
            } else {
                let is_edge = r == 0 || r == ROWS - 1 || c == 0 || c == COLS - 1;
                if is_edge {
                    edge += 1;
                }
            }
            c += 1;
        }
        proof {
            lemma_count_next_row(mv, fp, r as int);
            lemma_count_next_row(mv, rp, r as int);
            lemma_count_next_row(mv, op, r as int);
            lemma_count_next_row(mv, lp, r as int);
            lemma_count_next_row(mv, ep, r as int);
            lemma_count_next_row(mv, cp, r as int);
        }
        r += 1;
    }
    proof {
        lemma_count_bound(mv, fp, N_CELLS as nat);
        lemma_count_bound(mv, rp, N_CELLS as nat);
        lemma_count_bound(mv, op, N_CELLS as nat);
        lemma_count_bound(mv, lp, N_CELLS as nat);
        lemma_count_bound(mv, ep, N_CELLS as nat);
        lemma_count_bound(mv, cp, N_CELLS as nat);
    }
    MoveFeatures { fresh, recaptured, own, live, area, edge, corner }
}

/// The static score of a move's features; see `spec_static_move_score`.
pub fn static_move_score(features: &MoveFeatures) -> (s: i32)
    requires
        static_score_fits(*features),
    ensures
        s == spec_static_move_score(*features),
{
    features.recaptured * 120 + features.fresh * 45 + features.live * 12 + features.area * 25
        + features.edge * 8 + features.corner * 15 - features.own * 20
}

impl Board {
    /// Number of entries of `list` naming a legal rectangle, counted up to two.
    fn threats_for(&self, geometry: &[RectGeometry], rect_valid: &Vec<bool>, list: &Vec<u16>) -> (t: u32)
        requires
            rect_valid@.len() == geometry@.len(),
            forall|k: int|
                0 <= k < geometry@.len() ==> #[trigger] rect_valid@[k] == geometry_rect_valid(
                    *self,
                    geometry@[k],
                ),
            forall|j: int| 0 <= j < list@.len() ==> (#[trigger] list@[j]) < geometry@.len(),
        ensures
            t <= 2,
            t >= 1 <==> threats_in(*self, geometry@, list@, list@.len()) >= 1,
            t >= 2 <==> threats_in(*self, geometry@, list@, list@.len()) >= 2,
    {
        let mut threats: u32 = 0;
        let mut j: usize = 0;
        while j < list.len() && threats < 2
            invariant
                j <= list@.len(),
                threats <= 2,
                threats == threats_in(*self, geometry@, list@, j as nat),
                rect_valid@.len() == geometry@.len(),
                forall|k: int|
                    0 <= k < geometry@.len() ==> #[trigger] rect_valid@[k] == geometry_rect_valid(
                        *self,
                        geometry@[k],
                    ),
                forall|jj: int| 0 <= jj < list@.len() ==> (#[trigger] list@[jj]) < geometry@.len(),
            decreases list@.len() - j,
        {
            let k = list[j] as usize;
            if rect_valid[k] {
                threats += 1;
            }
            j += 1;
        }
        proof {
            lemma_threats_monotone(*self, geometry@, list@, j as nat, list@.len());
        }
        threats
    }

    /// The integer geometry terms of both sides, the side to move first; see
    /// `spec_geometry_terms`.
    pub fn compute_with_geometry_pair(&self, geometry: &[RectGeometry], cell_to_rects: &[Vec<u16>]) -> (terms: (GeometryTerms, GeometryTerms))
        requires
            geometry@.len() <= N_RECTS,
            forall|k: int|
                0 <= k < geometry@.len() ==> (#[trigger] geometry@[k]).r2 < ROWS && geometry@[k].c2
                    < COLS,
            cell_to_rects@.len() >= N_CELLS,
            forall|i: int, j: int|
                0 <= i < N_CELLS && 0 <= j < cell_to_rects@[i]@.len() ==> (
                #[trigger] cell_to_rects@[i]@[j]) < geometry@.len(),
        ensures
            terms.0 == spec_geometry_terms(
                *self,
                geometry@,
                cell_to_rects@,
                self.my_mask,
                self.opp_mask,
            ),
            terms.1 == spec_geometry_terms(
                *self,
                geometry@,
                cell_to_rects@,
                self.opp_mask,
                self.my_mask,
            ),
    {
        let ghost board = *self;
        let ghost g = geometry@;
        let ghost my_st = steal_term(board, g, self.my_mask, self.opp_mask);
        let ghost opp_st = steal_term(board, g, self.opp_mask, self.my_mask);
        let ghost vp = valid_pred(board, g);
        let mut my_vulnerable = Bitboard::empty();
        let mut opp_vulnerable = Bitboard::empty();
        let mut my_steal: i32 = 0;
        let mut opp_steal: i32 = 0;
        let mut mobility: i32 = 0;
        let mut rect_valid: Vec<bool> = Vec::new();
        let mut idx: usize = 0;
        while idx < geometry.len()
            invariant
                board == *self,
                g == geometry@,
                my_st == steal_term(board, g, self.my_mask, self.opp_mask),
                opp_st == steal_term(board, g, self.opp_mask, self.my_mask),
                vp == valid_pred(board, g),
                idx <= g.len(),
                g.len() <= N_RECTS,
                forall|k: int| 0 <= k < g.len() ==> (#[trigger] g[k]).r2 < ROWS && g[k].c2 < COLS,
                rect_valid@.len() == idx,
                forall|k: int|
                    0 <= k < idx ==> #[trigger] rect_valid@[k] == geometry_rect_valid(board, g[k]),
                mobility == count_where(vp, idx as nat),
                0 <= mobility <= idx,
                my_steal == sum_where(my_st, idx as nat),
                opp_steal == sum_where(opp_st, idx as nat),
                0 <= my_steal <= 192 * idx,
                0 <= opp_steal <= 192 * idx,
                forall|i: int|
                    0 <= i < N_BITS ==> #[trigger] my_vulnerable.bit(i) == (self.my_mask.bit(i)
                        && covered(board, g, i, idx as int)),
                forall|i: int|
                    0 <= i < N_BITS ==> #[trigger] opp_vulnerable.bit(i) == (self.opp_mask.bit(i)
                        && covered(board, g, i, idx as int)),
            decreases g.len() - idx,
        {
            let rect = &geometry[idx];
            let valid = self.is_rect_valid_with_geometry(rect);
            rect_valid.push(valid);
            let ghost old_my = my_vulnerable;
            let ghost old_opp = opp_vulnerable;
            if valid {
                mobility += 1;
                let my_cells = self.my_mask.and(&rect.cell_mask);
                let opp_cells = self.opp_mask.and(&rect.cell_mask);
                let my_in_rect = my_cells.popcount();
                let opp_in_rect = opp_cells.popcount();
                if my_in_rect > 0 {
                    my_vulnerable = my_vulnerable.or(&my_cells);
                } else {
                    proof {
                        lemma_count_zero_bits(my_cells, N_BITS as nat);
                    }
                }
                if opp_in_rect > 0 {
                    opp_vulnerable = opp_vulnerable.or(&opp_cells);
                } else {
                    proof {
                        lemma_count_zero_bits(opp_cells, N_BITS as nat);
                    }
                }
                proof {
                    assert forall|i: int| 0 <= i < N_BITS implies #[trigger] my_vulnerable.bit(i)
                        == (old_my.bit(i) || (self.my_mask.bit(i) && rect.cell_mask.bit(i))) by {
                        assert(my_cells.bit(i) == (self.my_mask.bit(i) && rect.cell_mask.bit(i)));
                    }
                    assert forall|i: int| 0 <= i < N_BITS implies #[trigger] opp_vulnerable.bit(i)
                        == (old_opp.bit(i) || (self.opp_mask.bit(i) && rect.cell_mask.bit(i))) by {
                        assert(opp_cells.bit(i) == (self.opp_mask.bit(i) && rect.cell_mask.bit(i)));
                    }
                }
                if opp_in_rect > 0 && my_in_rect == 0 {
                    my_steal += opp_in_rect as i32;
                }
                if my_in_rect > 0 && opp_in_rect == 0 {
                    opp_steal += my_in_rect as i32;
                }
            }
            proof {
                assert forall|i: int| 0 <= i < N_BITS implies #[trigger] my_vulnerable.bit(i) == (
                self.my_mask.bit(i) && covered(board, g, i, idx + 1)) by {
                    lemma_covered_step(board, g, i, idx as int);
                    assert(old_my.bit(i) == (self.my_mask.bit(i) && covered(board, g, i, idx as int)));
                }
                assert forall|i: int| 0 <= i < N_BITS implies #[trigger] opp_vulnerable.bit(i) == (
                self.opp_mask.bit(i) && covered(board, g, i, idx + 1)) by {
                    lemma_covered_step(board, g, i, idx as int);
                    assert(old_opp.bit(i) == (self.opp_mask.bit(i) && covered(board, g, i, idx as int)));
                }
            }
            idx += 1;
        }
        let my_total = self.my_mask.popcount() as i32;
        let opp_total = self.opp_mask.popcount() as i32;
        let my_vuln = my_vulnerable.popcount() as i32;
        let opp_vuln = opp_vulnerable.popcount() as i32;
        proof {
            lemma_count_where_bits(my_vulnerable, vulnerable_pred(board, g, self.my_mask), N_BITS as nat);
            lemma_count_where_bits(opp_vulnerable, vulnerable_pred(board, g, self.opp_mask), N_BITS as nat);
        }
        let ghost my_t1 = threat_pred(board, g, cell_to_rects@, self.my_mask, 1);
        let ghost my_t2 = threat_pred(board, g, cell_to_rects@, self.my_mask, 2);
        let ghost opp_t1 = threat_pred(board, g, cell_to_rects@, self.opp_mask, 1);
        let ghost opp_t2 = threat_pred(board, g, cell_to_rects@, self.opp_mask, 2);
        let mut my_threatened: i32 = 0;
        let mut my_forks: i32 = 0;
        let mut opp_threatened: i32 = 0;
        let mut opp_forks: i32 = 0;
        let mut i: usize = 0;
        while i < N_CELLS
            invariant
                board == *self,
                g == geometry@,
                i <= N_CELLS,
                rect_valid@.len() == g.len(),
                forall|k: int|
                    0 <= k < g.len() ==> #[trigger] rect_valid@[k] == geometry_rect_valid(board, g[k]),
                cell_to_rects@.len() >= N_CELLS,
                forall|ii: int, j: int|
                    0 <= ii < N_CELLS && 0 <= j < cell_to_rects@[ii]@.len() ==> (
                    #[trigger] cell_to_rects@[ii]@[j]) < g.len(),
                my_t1 == threat_pred(board, g, cell_to_rects@, self.my_mask, 1),
                my_t2 == threat_pred(board, g, cell_to_rects@, self.my_mask, 2),
                opp_t1 == threat_pred(board, g, cell_to_rects@, self.opp_mask, 1),
                opp_t2 == threat_pred(board, g, cell_to_rects@, self.opp_mask, 2),
                my_threatened == count_where(my_t1, i as nat),
                my_forks == count_where(my_t2, i as nat),
                opp_threatened == count_where(opp_t1, i as nat),
                opp_forks == count_where(opp_t2, i as nat),
                0 <= my_threatened <= i,
                0 <= my_forks <= i,
                0 <= opp_threatened <= i,
                0 <= opp_forks <= i,
            decreases N_CELLS - i,
        {
            let r = i / COLS;
            let c = i % COLS;
            assert(r * COLS + c == i);
            let list = &cell_to_rects[i];
            if self.my_mask.get(r, c) {
                let threats = self.threats_for(geometry, &rect_valid, list);
                if threats >= 1 {
                    my_threatened += 1;
                }
                if threats >= 2 {
                    my_forks += 1;
                }
            }
            if self.opp_mask.get(r, c) {
                let threats = self.threats_for(geometry, &rect_valid, list);
                if threats >= 1 {
                    opp_threatened += 1;
                }
                if threats >= 2 {
                    opp_forks += 1;
                }
            }
            i += 1;
        }
        proof {
            lemma_count_where_bound(vp, g.len());
        }
        (
            GeometryTerms {
                safe: my_total - my_vuln,
                vulnerable: my_vuln,
                steal: my_steal,
                mobility,
                threatened: my_threatened,
                forks: my_forks,
            },
            GeometryTerms {
                safe: opp_total - opp_vuln,
                vulnerable: opp_vuln,
                steal: opp_steal,
                mobility,
                threatened: opp_threatened,
                forks: opp_forks,
            },
        )
    }
}

} // verus!
