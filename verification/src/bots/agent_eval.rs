use vstd::prelude::*;

use crate::board::{
    count_in_rect, fresh_pred, lemma_count_bound, lemma_count_next_row, lemma_count_start,
    lemma_count_step, own_pred, owned_below, owned_by_pred, owned_count,
};
use crate::bots::agent_board::{count_owned, playable, starts_pass, AgentBoard};
use crate::eval::sum_where;
use crate::movegen::{
    generate_rectangles, legal_rects, moves_of, rect_area, rect_in_board, valid_rect, RectInfo,
};
use crate::tt::{applied_owners, applied_values};
use crate::types::{cell_index, opponent, spec_opponent, Move, COLS, N_CELLS, ROWS};

verus! {

/// The integer weights of the search bot's evaluation.
#[derive(Clone, Copy, Debug)]
pub struct AgentWeights {
    pub territory: i32,
    pub connectivity: i32,
    pub corner_bonus: i32,
    pub edge_bonus: i32,
    pub steal_potential: i32,
    pub vulnerability: i32,
}

impl AgentWeights {
    /// Every weight lies within one million of zero.
    pub open spec fn bounded(self) -> bool {
        &&& -1_000_000 <= self.territory <= 1_000_000
        &&& -1_000_000 <= self.connectivity <= 1_000_000
        &&& -1_000_000 <= self.corner_bonus <= 1_000_000
        &&& -1_000_000 <= self.edge_bonus <= 1_000_000
        &&& -1_000_000 <= self.steal_potential <= 1_000_000
        &&& -1_000_000 <= self.vulnerability <= 1_000_000
    }
}

/// +1 when cell `i` is `p`'s, -1 when it is the opponent's, else 0.
pub open spec fn side(owners: Seq<i8>, p: i8, i: int) -> int {
    if owners[i] == p {
        1
    } else if owners[i] == spec_opponent(p) {
        -1
    } else {
        0
    }
}

/// For a cell of `p`, how many of its right and lower neighbours are `p`'s too.
pub open spec fn conn_term(owners: Seq<i8>, p: i8) -> spec_fn(int) -> int {
    |i: int|
        if owners[i] == p {
            (if i % 17 + 1 < COLS && owners[i + 1] == p {
                1int
            } else {
                0int
            }) + (if i / 17 + 1 < ROWS && owners[i + COLS] == p {
                1int
            } else {
                0int
            })
        } else {
            0int
        }
}

/// Cell `i` has a live orthogonal neighbour.
pub open spec fn adjacent_live(values: Seq<u8>, i: int) -> bool {
    let r = i / 17;
    let c = i % 17;
    ||| r > 0 && values[i - COLS] > 0
    ||| r < ROWS - 1 && values[i + COLS] > 0
    ||| c > 0 && values[i - 1] > 0
    ||| c < COLS - 1 && values[i + 1] > 0
}

/// Flat cells `i` and `j` of the board are one step apart: in the same row and neighbouring
/// columns, or in the same column and neighbouring rows.
pub open spec fn one_step_apart(i: int, j: int) -> bool {
    let (ri, ci, rj, cj) = (i / (COLS as int), i % (COLS as int), j / (COLS as int), j % (
    COLS as int));
    &&& 0 <= i < N_CELLS
    &&& 0 <= j < N_CELLS
    &&& (ri == rj && (ci - cj == 1 || cj - ci == 1)) || (ci == cj && (ri - rj == 1 || rj - ri
        == 1))
}

/// A cell is next to a live cell, for the recapture swing and vulnerability terms, exactly
/// when some cell of the board one step away from it (up, down, left or right) holds a live
/// value.
pub proof fn lemma_adjacent_live_neighbours(values: Seq<u8>, i: int)
    requires
        0 <= i < N_CELLS,
        values.len() == N_CELLS,
    ensures
        adjacent_live(values, i) <==> exists|j: int| one_step_apart(i, j) && #[trigger] values[j] > 0,
{
    let r = i / 17;
    let c = i % 17;
    if adjacent_live(values, i) {
        if r > 0 && values[i - COLS] > 0 {
            assert(one_step_apart(i, i - 17));
        } else if r < ROWS - 1 && values[i + COLS] > 0 {
            assert(one_step_apart(i, i + 17));
        } else if c > 0 && values[i - 1] > 0 {
            assert(one_step_apart(i, i - 1));
        } else {
            assert(one_step_apart(i, i + 1));
        }
    }
    if exists|j: int| one_step_apart(i, j) && #[trigger] values[j] > 0 {
        let j = choose|j: int| one_step_apart(i, j) && #[trigger] values[j] > 0;
        assert(j == 17 * (j / 17) + j % 17);
        assert(i == 17 * r + c);
        if j / 17 == r && j % 17 == c + 1 {
            assert(j == i + 1);
        } else if j / 17 == r && c == j % 17 + 1 {
            assert(j == i - 1);
        } else if j % 17 == c && j / 17 == r + 1 {
            assert(j == i + 17);
        } else {
            assert(j == i - 17);
        }
    }
}

/// 1 for an opponent cell next to a live cell.
pub open spec fn swing_term(values: Seq<u8>, owners: Seq<i8>, p: i8) -> spec_fn(int) -> int {
    |i: int| if adjacent_live(values, i) && owners[i] == spec_opponent(p) { 1int } else { 0int }
}

/// 1 for a cell of `p` next to a live cell.
pub open spec fn vuln_term(values: Seq<u8>, owners: Seq<i8>, p: i8) -> spec_fn(int) -> int {
    |i: int|
        if adjacent_live(values, i) && owners[i] != spec_opponent(p) && owners[i] == p {
            1int
        } else {
            0int
        }
}

/// Column `c` of the top and bottom rows.
pub open spec fn edge_row_term(owners: Seq<i8>, p: i8) -> spec_fn(int) -> int {
    |c: int| side(owners, p, c) + side(owners, p, (ROWS - 1) * COLS + c)
}

/// Row `k + 1` of the left and right columns.
pub open spec fn edge_col_term(owners: Seq<i8>, p: i8) -> spec_fn(int) -> int {
    |k: int| side(owners, p, (k + 1) * COLS) + side(owners, p, (k + 1) * COLS + COLS - 1)
}

/// The six terms of the evaluation for `p`: territory (own cells less opponent cells),
/// connectivity (adjacent pairs of own cells), corners and border cells (+1 own, -1
/// opponent; the corners count on both the top or bottom row and as corners), recapture
/// swing (opponent cells next to a live cell) and vulnerability (own cells next to one).
pub open spec fn agent_terms(values: Seq<u8>, owners: Seq<i8>, p: i8) -> (int, int, int, int, int, int) {
    (
        owned_count(owners, p) - owned_count(owners, spec_opponent(p)),
        sum_where(conn_term(owners, p), N_CELLS as nat),
        side(owners, p, 0) + side(owners, p, COLS - 1) + side(owners, p, (ROWS - 1) * COLS) + side(
            owners,
            p,
            N_CELLS - 1,
        ),
        sum_where(edge_row_term(owners, p), COLS as nat) + sum_where(
            edge_col_term(owners, p),
            (ROWS - 2) as nat,
        ),
        sum_where(swing_term(values, owners, p), N_CELLS as nat),
        sum_where(vuln_term(values, owners, p), N_CELLS as nat),
    )
}

/// The evaluation: the weighted sum of the terms, vulnerability counted against.
pub open spec fn spec_agent_eval(t: (int, int, int, int, int, int), w: AgentWeights) -> int {
    t.0 * w.territory + t.1 * w.connectivity + t.2 * w.corner_bonus + t.3 * w.edge_bonus + t.4
        * w.steal_potential - t.5 * w.vulnerability
}

/// Every partial result of `spec_agent_eval`, evaluated left to right, fits in `i32`.
pub open spec fn agent_eval_fits(t: (int, int, int, int, int, int), w: AgentWeights) -> bool {
    let a = t.0 * w.territory;
    let b = t.1 * w.connectivity;
    let c = t.2 * w.corner_bonus;
    let d = t.3 * w.edge_bonus;
    let e = t.4 * w.steal_potential;
    let f = t.5 * w.vulnerability;
    &&& i32::MIN <= a <= i32::MAX
    &&& i32::MIN <= b <= i32::MAX
    &&& i32::MIN <= c <= i32::MAX
    &&& i32::MIN <= d <= i32::MAX
    &&& i32::MIN <= e <= i32::MAX
    &&& i32::MIN <= f <= i32::MAX
    &&& i32::MIN <= a + b <= i32::MAX
    &&& i32::MIN <= a + b + c <= i32::MAX
    &&& i32::MIN <= a + b + c + d <= i32::MAX
    &&& i32::MIN <= a + b + c + d + e <= i32::MAX
    &&& i32::MIN <= a + b + c + d + e - f <= i32::MAX
}

proof fn lemma_sum_where_range(f: spec_fn(int) -> int, n: nat, lo: int, hi: int)
    requires
        forall|i: int| 0 <= i < n ==> lo <= #[trigger] f(i) <= hi,
    ensures
        n * lo <= sum_where(f, n) <= n * hi,
    decreases n,
{
    if n > 0 {
        let m = (n - 1) as nat;
        lemma_sum_where_range(f, m, lo, hi);
        assert(lo <= f(m as int) <= hi);
        assert(sum_where(f, n) == sum_where(f, m) + f(m as int));
        assert(m * lo + lo == n * lo && m * hi + hi == n * hi) by (nonlinear_arith)
            requires
                m + 1 == n,
        ;
    } else {
        assert(n * lo == 0 && n * hi == 0) by (nonlinear_arith)
            requires
                n == 0,
        ;
    }
}

proof fn lemma_owned_bound(owners: Seq<i8>, p: i8, n: nat)
    ensures
        owned_below(owners, p, n) <= n,
    decreases n,
{
    if n > 0 {
        lemma_owned_bound(owners, p, (n - 1) as nat);
    }
}

/// Bounds of the evaluation terms.
proof fn lemma_agent_terms_bounds(values: Seq<u8>, owners: Seq<i8>, p: i8)
    ensures
        ({
            let t = agent_terms(values, owners, p);
            &&& -170 <= t.0 <= 170
            &&& 0 <= t.1 <= 340
            &&& -4 <= t.2 <= 4
            &&& -50 <= t.3 <= 50
            &&& 0 <= t.4 <= 170
            &&& 0 <= t.5 <= 170
        }),
{
    lemma_owned_bound(owners, p, N_CELLS as nat);
    lemma_owned_bound(owners, spec_opponent(p), N_CELLS as nat);
    let ct = conn_term(owners, p);
    assert forall|i: int| 0 <= i < N_CELLS implies 0 <= #[trigger] ct(i) <= 2 by {}
    lemma_sum_where_range(ct, N_CELLS as nat, 0, 2);
    let er = edge_row_term(owners, p);
    assert forall|i: int| 0 <= i < COLS implies -2 <= #[trigger] er(i) <= 2 by {}
    lemma_sum_where_range(er, COLS as nat, -2, 2);
    let ec = edge_col_term(owners, p);
    assert forall|i: int| 0 <= i < ROWS - 2 implies -2 <= #[trigger] ec(i) <= 2 by {}
    lemma_sum_where_range(ec, (ROWS - 2) as nat, -2, 2);
    let st = swing_term(values, owners, p);
    assert forall|i: int| 0 <= i < N_CELLS implies 0 <= #[trigger] st(i) <= 1 by {}
    lemma_sum_where_range(st, N_CELLS as nat, 0, 1);
    let vt = vuln_term(values, owners, p);
    assert forall|i: int| 0 <= i < N_CELLS implies 0 <= #[trigger] vt(i) <= 1 by {}
    lemma_sum_where_range(vt, N_CELLS as nat, 0, 1);
}

/// With every weight within one million of zero the evaluation never leaves `i32`, on any
/// position.
pub proof fn lemma_bounded_weights_fit(values: Seq<u8>, owners: Seq<i8>, p: i8, w: AgentWeights)
    requires
        w.bounded(),
    ensures
        agent_eval_fits(agent_terms(values, owners, p), w),
        -1_000_000_000 <= spec_agent_eval(agent_terms(values, owners, p), w) <= 1_000_000_000,
{
    lemma_agent_terms_bounds(values, owners, p);
    let t = agent_terms(values, owners, p);
    lemma_product_bound(t.0, 170, w.territory as int, 1_000_000);
    lemma_product_bound(t.1, 340, w.connectivity as int, 1_000_000);
    lemma_product_bound(t.2, 4, w.corner_bonus as int, 1_000_000);
    lemma_product_bound(t.3, 50, w.edge_bonus as int, 1_000_000);
    lemma_product_bound(t.4, 170, w.steal_potential as int, 1_000_000);
    lemma_product_bound(t.5, 170, w.vulnerability as int, 1_000_000);
}

proof fn lemma_product_bound(x: int, a: int, y: int, b: int)
    requires
        -a <= x <= a,
        -b <= y <= b,
    ensures
        -(a * b) <= x * y <= a * b,
{
    assert(-(a * b) <= x * y <= a * b) by (nonlinear_arith)
        requires
            -a <= x <= a,
            -b <= y <= b,
    ;
}

/// `+1`, `-1` or `0` as the owner `o` is `player`, `opp` or neither.
fn side_value(o: i8, player: i8, opp: i8) -> (s: i32)
    requires
        opp == spec_opponent(player),
    ensures
        s == (if o == player {
            1int
        } else if o == opp {
            -1int
        } else {
            0int
        }),
{
    if o == player {
        1
    } else if o == opp {
        -1
    } else {
        0
    }
}

/// Adjacent (right or down) pairs of cells both owned by `player`; see `conn_term`.
pub fn connectivity_of(owners: &[i8; N_CELLS], player: i8) -> (n: i32)
    ensures
        n == sum_where(conn_term(owners@, player), N_CELLS as nat),
        0 <= n <= 2 * N_CELLS,
{
    let ghost ct = conn_term(owners@, player);
    let mut connectivity = 0i32;
    let mut r: usize = 0;
    while r < ROWS
        invariant
            r <= ROWS,
            ct == conn_term(owners@, player),
            connectivity == sum_where(ct, (r * COLS) as nat),
            0 <= connectivity <= 2 * r * COLS,
        decreases ROWS - r,
    {
        let mut c: usize = 0;
        while c < COLS
            invariant
                r < ROWS,
                c <= COLS,
                ct == conn_term(owners@, player),
                connectivity == sum_where(ct, (r * COLS + c) as nat),
                0 <= connectivity <= 2 * (r * COLS + c),
            decreases COLS - c,
        {
            let idx = cell_index(r, c);
            proof {
                assert(idx / 17 == r && idx % 17 == c);
            }
            if owners[idx] == player {
                if c + 1 < COLS && owners[cell_index(r, c + 1)] == player {
                    connectivity += 1;
                }
                if r + 1 < ROWS && owners[cell_index(r + 1, c)] == player {
                    connectivity += 1;
                }
            }
            c += 1;
        }
        r += 1;
    }
    connectivity
}

/// Corner and border balances for `player`: +1 per own cell, -1 per opponent cell, over
/// the four corners, and over the top and bottom rows and the left and right columns.
pub fn corners_edges_of(owners: &[i8; N_CELLS], player: i8) -> (ce: (i32, i32))
    ensures
        ce.0 == agent_terms(Seq::empty(), owners@, player).2,
        ce.1 == agent_terms(Seq::empty(), owners@, player).3,
        -4 <= ce.0 <= 4,
        -2 * (COLS + ROWS - 2) <= ce.1 <= 2 * (COLS + ROWS - 2),
{
    let opp = opponent(player);
    let mut corners = 0i32;
    corners += side_value(owners[cell_index(0, 0)], player, opp);
    corners += side_value(owners[cell_index(0, COLS - 1)], player, opp);
    corners += side_value(owners[cell_index(ROWS - 1, 0)], player, opp);
    corners += side_value(owners[cell_index(ROWS - 1, COLS - 1)], player, opp);
    let ghost er = edge_row_term(owners@, player);
    let ghost ec = edge_col_term(owners@, player);
    let mut edges = 0i32;
    let mut c: usize = 0;
    while c < COLS
        invariant
            c <= COLS,
            opp == spec_opponent(player),
            er == edge_row_term(owners@, player),
            edges == sum_where(er, c as nat),
            -2 * c <= edges <= 2 * c,
        decreases COLS - c,
    {
        edges += side_value(owners[cell_index(0, c)], player, opp);
        edges += side_value(owners[cell_index(ROWS - 1, c)], player, opp);
        c += 1;
    }
    let mut r: usize = 1;
    while r < ROWS - 1
        invariant
            1 <= r <= ROWS - 1,
            opp == spec_opponent(player),
            er == edge_row_term(owners@, player),
            ec == edge_col_term(owners@, player),
            edges == sum_where(er, COLS as nat) + sum_where(ec, (r - 1) as nat),
            -2 * (COLS + r - 1) <= edges <= 2 * (COLS + r - 1),
        decreases ROWS - 1 - r,
    {
        edges += side_value(owners[cell_index(r, 0)], player, opp);
        edges += side_value(owners[cell_index(r, COLS - 1)], player, opp);
        r += 1;
    }
    (corners, edges)
}

/// Recapture swing and vulnerability for `player`: opponent cells and own cells next to a
/// live cell; see `swing_term` and `vuln_term`.
pub fn adjacency_terms(values: &[u8; N_CELLS], owners: &[i8; N_CELLS], player: i8) -> (sv: (i32, i32))
    ensures
        sv.0 == sum_where(swing_term(values@, owners@, player), N_CELLS as nat),
        sv.1 == sum_where(vuln_term(values@, owners@, player), N_CELLS as nat),
{
    let opp = opponent(player);
    let ghost vals = values@;
    let ghost owns = owners@;
    let ghost st = swing_term(vals, owns, player);
    let ghost vt = vuln_term(vals, owns, player);
    let mut recapture_swing = 0i32;
    let mut vulnerability = 0i32;
    let mut r: usize = 0;
    while r < ROWS
        invariant
            r <= ROWS,
            vals == values@,
            owns == owners@,
            opp == spec_opponent(player),
            st == swing_term(vals, owns, player),
            vt == vuln_term(vals, owns, player),
            recapture_swing == sum_where(st, (r * COLS) as nat),
            vulnerability == sum_where(vt, (r * COLS) as nat),
            0 <= recapture_swing <= r * COLS,
            0 <= vulnerability <= r * COLS,
        decreases ROWS - r,
    {
        let mut c: usize = 0;
        while c < COLS
            invariant
                r < ROWS,
                c <= COLS,
                vals == values@,
                owns == owners@,
                opp == spec_opponent(player),
                st == swing_term(vals, owns, player),
                vt == vuln_term(vals, owns, player),
                recapture_swing == sum_where(st, (r * COLS + c) as nat),
                vulnerability == sum_where(vt, (r * COLS + c) as nat),
                0 <= recapture_swing <= r * COLS + c,
                0 <= vulnerability <= r * COLS + c,
            decreases COLS - c,
        {
            let idx = cell_index(r, c);
            proof {
                assert(idx / 17 == r && idx % 17 == c);
            }
            let mut adjacent_to_live = false;
            if r > 0 && values[cell_index(r - 1, c)] > 0 {
                adjacent_to_live = true;
            }
            if r < ROWS - 1 && values[cell_index(r + 1, c)] > 0 {
                adjacent_to_live = true;
            }
            if c > 0 && values[cell_index(r, c - 1)] > 0 {
                adjacent_to_live = true;
            }
            if c < COLS - 1 && values[cell_index(r, c + 1)] > 0 {
                adjacent_to_live = true;
            }
            assert(adjacent_to_live == adjacent_live(vals, idx as int));
            if adjacent_to_live {
                if owners[idx] == opp {
                    recapture_swing += 1;
                } else if owners[idx] == player {
                    vulnerability += 1;
                }
            }
            c += 1;
        }
        r += 1;
    }
    (recapture_swing, vulnerability)
}

/// The evaluation of `board` for its side to move; see `agent_terms` and `spec_agent_eval`.
pub fn evaluate(board: &AgentBoard, w: &AgentWeights) -> (s: i32)
    requires
        agent_eval_fits(agent_terms(board.values@, board.owners@, board.player), *w),
    ensures
        s == spec_agent_eval(agent_terms(board.values@, board.owners@, board.player), *w),
{
    let player = board.player;
    let opp = opponent(player);
    let territory = count_owned(&board.owners, player) - count_owned(&board.owners, opp);
    let connectivity = connectivity_of(&board.owners, player);
    let (corners, edges) = corners_edges_of(&board.owners, player);
    let (recapture_swing, vulnerability) = adjacency_terms(&board.values, &board.owners, player);
    let t = w.territory;
    let cw = w.connectivity;
    let cb = w.corner_bonus;
    let eb = w.edge_bonus;
    let sp = w.steal_potential;
    let vp = w.vulnerability;
    territory * t + connectivity * cw + corners * cb + edges * eb + recapture_swing * sp
        - vulnerability * vp
}

/// A move with its ordering priority: `(priority, r1, c1, r2, c2)`.
pub type PrioMove = (i32, i8, i8, i8, i8);

/// The ordering priority of rectangle `mv` for `player`: 900 per opponent cell taken, a
/// recapture bonus (2500, plus 1600 per opponent cell and 120 per unowned cell, when any
/// opponent cell is taken), 140 per cell below six for small rectangles, 12 per cell, 500
/// for a rectangle taller than wide, 300 for one of at most four cells, less 60 per own cell.
pub open spec fn move_priority(owners: Seq<i8>, player: i8, mv: Move) -> int {
    let opp = spec_opponent(player);
    let recaptured = count_in_rect(mv, owned_by_pred(owners, opp), N_CELLS as nat) as int;
    let fresh = count_in_rect(mv, fresh_pred(owners), N_CELLS as nat) as int;
    let own = count_in_rect(mv, own_pred(owners, opp), N_CELLS as nat) as int;
    let area = rect_area(mv);
    let height = mv.2 - mv.0 + 1;
    let width = mv.3 - mv.1 + 1;
    let portrait_bonus = if height > width { 500int } else { 0int };
    let small_bonus = if area <= 4 { 300int } else { 0int };
    let recapture_bonus = if recaptured > 0 {
        2500 + recaptured * 1600 + fresh * 120
    } else {
        0
    };
    let efficiency_bonus = if area <= 6 { (6 - area) * 140 } else { 0 };
    recaptured * 900 + recapture_bonus + efficiency_bonus + area * 12 + portrait_bonus + small_bonus
        - own * 60
}

/// Covering the mover's own cells costs priority: of two rectangles of the same height
/// and width that take as many opponent cells and as many unowned cells, the one covering
/// more of the mover's own cells has the lower priority, by 60 per extra own cell.
pub proof fn lemma_own_cells_lower_priority(
    owners1: Seq<i8>,
    player1: i8,
    mv1: Move,
    owners2: Seq<i8>,
    player2: i8,
    mv2: Move,
)
    requires
        mv1.2 - mv1.0 == mv2.2 - mv2.0,
        mv1.3 - mv1.1 == mv2.3 - mv2.1,
        count_in_rect(mv1, owned_by_pred(owners1, spec_opponent(player1)), N_CELLS as nat)
            == count_in_rect(mv2, owned_by_pred(owners2, spec_opponent(player2)), N_CELLS as nat),
        count_in_rect(mv1, fresh_pred(owners1), N_CELLS as nat) == count_in_rect(
            mv2,
            fresh_pred(owners2),
            N_CELLS as nat,
        ),
    ensures
        move_priority(owners1, player1, mv1) - move_priority(owners2, player2, mv2) == 60 * (
        count_in_rect(mv2, own_pred(owners2, spec_opponent(player2)), N_CELLS as nat)
            - count_in_rect(mv1, own_pred(owners1, spec_opponent(player1)), N_CELLS as nat)),
{
    assert(rect_area(mv1) == rect_area(mv2));
}

/// The legal rectangles with their priorities, in generation order.
pub open spec fn prioritized(values: Seq<u8>, owners: Seq<i8>, player: i8) -> Seq<PrioMove> {
    legal_rects(values).map_values(
        |mv: Move| (move_priority(owners, player, mv) as i32, mv.0, mv.1, mv.2, mv.3),
    )
}

/// Where a stable insertion puts key `key` into `s`: just after the last entry, scanning
/// from the end, whose key is not above `key`.
pub open spec fn first_above(s: Seq<(i64, PrioMove)>, key: i64) -> int
    decreases s.len(),
{
    if s.len() == 0 {
        0
    } else if s.last().0 > key {
        first_above(s.drop_last(), key)
    } else {
        s.len() as int
    }
}

/// `s` sorted by key, ascending, entries with equal keys kept in their order (insertion
/// sort).
pub open spec fn stable_sorted(s: Seq<(i64, PrioMove)>) -> Seq<(i64, PrioMove)>
    decreases s.len(),
{
    if s.len() == 0 {
        s
    } else {
        let rest = stable_sorted(s.drop_last());
        rest.insert(first_above(rest, s.last().0), s.last())
    }
}

/// The entries of a keyed list without their keys.
pub open spec fn unkeyed(s: Seq<(i64, PrioMove)>) -> Seq<PrioMove> {
    s.map_values(|e: (i64, PrioMove)| e.1)
}

/// Each move keyed by its priority negated (for an order by priority, highest first).
pub open spec fn keyed_desc(s: Seq<PrioMove>) -> Seq<(i64, PrioMove)> {
    s.map_values(|m: PrioMove| (-(m.0 as int) as i64, m))
}

proof fn lemma_first_above_bound(s: Seq<(i64, PrioMove)>, key: i64)
    ensures
        0 <= first_above(s, key) <= s.len(),
    decreases s.len(),
{
    if s.len() > 0 {
        lemma_first_above_bound(s.drop_last(), key);
    }
}

proof fn lemma_stable_sorted_len(s: Seq<(i64, PrioMove)>)
    ensures
        stable_sorted(s).len() == s.len(),
    decreases s.len(),
{
    if s.len() > 0 {
        lemma_stable_sorted_len(s.drop_last());
        lemma_first_above_bound(stable_sorted(s.drop_last()), s.last().0);
    }
}

/// The keys of `s` never decrease.
pub open spec fn keys_ascending(s: Seq<(i64, PrioMove)>) -> bool {
    forall|i: int, j: int| 0 <= i < j < s.len() ==> (#[trigger] s[i]).0 <= (#[trigger] s[j]).0
}

proof fn lemma_first_above_split(s: Seq<(i64, PrioMove)>, key: i64)
    requires
        keys_ascending(s),
    ensures
        forall|i: int| 0 <= i < first_above(s, key) ==> (#[trigger] s[i]).0 <= key,
        forall|i: int| first_above(s, key) <= i < s.len() ==> (#[trigger] s[i]).0 > key,
    decreases s.len(),
{
    lemma_first_above_bound(s, key);
    if s.len() > 0 {
        if s.last().0 > key {
            let d = s.drop_last();
            assert(keys_ascending(d)) by {
                assert forall|i: int, j: int| 0 <= i < j < d.len() implies (#[trigger] d[i]).0 <= (
                #[trigger] d[j]).0 by {
                    assert(d[i] == s[i] && d[j] == s[j]);
                }
            }
            lemma_first_above_split(d, key);
            assert forall|i: int| first_above(s, key) <= i < s.len() implies (#[trigger] s[i]).0
                > key by {
                if i < s.len() - 1 {
                    assert(d[i] == s[i]);
                }
            }
            assert forall|i: int| 0 <= i < first_above(s, key) implies (#[trigger] s[i]).0 <= key by {
                assert(d[i] == s[i]);
            }
        } else {
            assert forall|i: int| 0 <= i < first_above(s, key) implies (#[trigger] s[i]).0 <= key by {
                if i < s.len() - 1 {
                    assert(s[i].0 <= s[s.len() - 1].0);
                }
            }
        }
    }
}

/// A stable sort orders its entries by key: no key is followed by a smaller one.
pub proof fn lemma_stable_sorted_ascending(s: Seq<(i64, PrioMove)>)
    ensures
        keys_ascending(stable_sorted(s)),
        stable_sorted(s).len() == s.len(),
    decreases s.len(),
{
    lemma_stable_sorted_len(s);
    if s.len() > 0 {
        let rest = stable_sorted(s.drop_last());
        let x = s.last();
        lemma_stable_sorted_ascending(s.drop_last());
        let p = first_above(rest, x.0);
        lemma_first_above_bound(rest, x.0);
        lemma_first_above_split(rest, x.0);
        let out = rest.insert(p, x);
        assert(out == stable_sorted(s));
        assert forall|i: int, j: int| 0 <= i < j < out.len() implies (#[trigger] out[i]).0 <= (
        #[trigger] out[j]).0 by {
            if i < p {
                assert(out[i] == rest[i]);
            } else if i == p {
                assert(out[i] == x);
            } else {
                assert(out[i] == rest[i - 1]);
            }
            if j < p {
                assert(out[j] == rest[j]);
            } else if j == p {
                assert(out[j] == x);
            } else {
                assert(out[j] == rest[j - 1]);
            }
        }
    }
}

/// Sorting keeps every entry: a property of all entries of `s` holds of all entries of its
/// stable sort.
pub proof fn lemma_stable_sorted_keeps(s: Seq<(i64, PrioMove)>, p: spec_fn((i64, PrioMove)) -> bool)
    requires
        forall|i: int| 0 <= i < s.len() ==> #[trigger] p(s[i]),
    ensures
        forall|i: int| 0 <= i < stable_sorted(s).len() ==> #[trigger] p(stable_sorted(s)[i]),
    decreases s.len(),
{
    lemma_stable_sorted_len(s);
    if s.len() > 0 {
        let d = s.drop_last();
        assert forall|i: int| 0 <= i < d.len() implies #[trigger] p(d[i]) by {
            assert(d[i] == s[i]);
        }
        lemma_stable_sorted_keeps(d, p);
        let rest = stable_sorted(d);
        lemma_stable_sorted_len(d);
        let q = first_above(rest, s.last().0);
        lemma_first_above_bound(rest, s.last().0);
        let out = rest.insert(q, s.last());
        assert(out == stable_sorted(s));
        assert(p(s[s.len() - 1]));
        assert forall|i: int| 0 <= i < out.len() implies #[trigger] p(out[i]) by {
            if i < q {
                assert(out[i] == rest[i]);
            } else if i > q {
                assert(out[i] == rest[i - 1]);
            }
        }
    }
}

/// The rectangle of an entry is legal for `values`.
pub open spec fn entry_legal(values: Seq<u8>) -> spec_fn((i64, PrioMove)) -> bool {
    |e: (i64, PrioMove)| valid_rect(values, (e.1.1, e.1.2, e.1.3, e.1.4))
}

/// `items` sorted by key, ascending and stable; see `stable_sorted`.
pub(crate) fn sort_stable(items: &Vec<(i64, PrioMove)>) -> (out: Vec<(i64, PrioMove)>)
    ensures
        out@ == stable_sorted(items@),
{
    let mut out: Vec<(i64, PrioMove)> = Vec::new();
    let mut i: usize = 0;
    while i < items.len()
        invariant
            i <= items@.len(),
            out@ == stable_sorted(items@.subrange(0, i as int)),
        decreases items@.len() - i,
    {
        let x = items[i];
        let mut j = out.len();
        proof {
            assert(out@.subrange(0, j as int) =~= out@);
        }
        while j > 0 && out[j - 1].0 > x.0
            invariant
                j <= out@.len(),
                first_above(out@, x.0) == first_above(out@.subrange(0, j as int), x.0),
            decreases j,
        {
            proof {
                assert(out@.subrange(0, j as int).drop_last() =~= out@.subrange(0, j - 1));
            }
            j -= 1;
        }
        proof {
            let ghost pre = items@.subrange(0, i as int);
            let ghost next = items@.subrange(0, i + 1);
            assert(next.drop_last() =~= pre);
            assert(next.last() == x);
            if j == 0 {
                assert(out@.subrange(0, 0) =~= Seq::<(i64, PrioMove)>::empty());
            }
        }
        out.insert(j, x);
        i += 1;
    }
    proof {
        assert(items@.subrange(0, items@.len() as int) =~= items@);
    }
    out
}

/// Counts over rectangle `mv`: cells owned by `opp`, unowned cells, and cells owned but not
/// by `opp`.
fn rect_owner_counts(owners: &[i8; N_CELLS], opp: i8, mv: Move) -> (cnt: (i32, i32, i32))
    requires
        rect_in_board(mv),
        opp != 0,
    ensures
        cnt.0 == count_in_rect(mv, owned_by_pred(owners@, opp), N_CELLS as nat),
        cnt.1 == count_in_rect(mv, fresh_pred(owners@), N_CELLS as nat),
        cnt.2 == count_in_rect(mv, own_pred(owners@, opp), N_CELLS as nat),
        cnt.0 + cnt.1 + cnt.2 <= N_CELLS,
{
    let (r1, c1, r2, c2) = mv;
    let ghost rp = owned_by_pred(owners@, opp);
    let ghost fp = fresh_pred(owners@);
    let ghost op = own_pred(owners@, opp);
    let mut recaptured = 0i32;
    let mut fresh = 0i32;
    let mut own = 0i32;
    let (r1, c1, r2, c2) = (r1 as usize, c1 as usize, r2 as usize, c2 as usize);
    proof {
        lemma_count_start(mv, fp);
        lemma_count_start(mv, rp);
        lemma_count_start(mv, op);
    }
    let mut r = r1;
    while r <= r2
        invariant
            r1 <= r <= r2 + 1,
            r2 < ROWS,
            c1 <= c2 < COLS,
            rect_in_board(mv),
            mv.0 == r1 && mv.1 == c1 && mv.2 == r2 && mv.3 == c2,
            opp != 0,
            fp == fresh_pred(owners@),
            rp == owned_by_pred(owners@, opp),
            op == own_pred(owners@, opp),
            recaptured + fresh + own <= (if r <= r2 { r * COLS + c1 } else { N_CELLS as int }),
            r <= r2 ==> fresh == count_in_rect(mv, fp, (r * COLS + c1) as nat),
            r <= r2 ==> recaptured == count_in_rect(mv, rp, (r * COLS + c1) as nat),
            r <= r2 ==> own == count_in_rect(mv, op, (r * COLS + c1) as nat),
            r > r2 ==> fresh == count_in_rect(mv, fp, N_CELLS as nat),
            r > r2 ==> recaptured == count_in_rect(mv, rp, N_CELLS as nat),
            r > r2 ==> own == count_in_rect(mv, op, N_CELLS as nat),
        decreases r2 + 1 - r,
    {
        let mut c = c1;
        while c <= c2
            invariant
                r1 <= r <= r2,
                r2 < ROWS,
                c1 <= c <= c2 + 1,
                c2 < COLS,
                rect_in_board(mv),
                mv.0 == r1 && mv.1 == c1 && mv.2 == r2 && mv.3 == c2,
                opp != 0,
                fp == fresh_pred(owners@),
                rp == owned_by_pred(owners@, opp),
                op == own_pred(owners@, opp),
                recaptured + fresh + own <= r * COLS + c,
                fresh == count_in_rect(mv, fp, (r * COLS + c) as nat),
                recaptured == count_in_rect(mv, rp, (r * COLS + c) as nat),
                own == count_in_rect(mv, op, (r * COLS + c) as nat),
            decreases c2 + 1 - c,
        {
            let idx = cell_index(r, c);
            proof {
                lemma_count_step(mv, fp, r as int, c as int);
                lemma_count_step(mv, rp, r as int, c as int);
                lemma_count_step(mv, op, r as int, c as int);
            }
            if owners[idx] == opp {
                recaptured += 1;
            } else if owners[idx] == 0 {
                fresh += 1;
            } else {
                own += 1;
            }
            c += 1;
        }
        proof {
            lemma_count_next_row(mv, fp, r as int);
            lemma_count_next_row(mv, rp, r as int);
            lemma_count_next_row(mv, op, r as int);
        }
        r += 1;
    }
    (recaptured, fresh, own)
}

/// The legal rectangles of the board, as moves, in generation order.
pub fn legal_moves_for(board: &AgentBoard) -> (moves: Vec<Move>)
    ensures
        moves@ == legal_rects(board.values@),
{
    let rects = generate_rectangles(&board.values);
    let mut moves: Vec<Move> = Vec::new();
    let mut i: usize = 0;
    while i < rects.len()
        invariant
            i <= rects@.len(),
            moves@ == moves_of(rects@).subrange(0, i as int),
        decreases rects@.len() - i,
    {
        moves.push(rects[i].to_move());
        proof {
            assert(moves@ =~= moves_of(rects@).subrange(0, i + 1));
        }
        i += 1;
    }
    proof {
        assert(moves_of(rects@).subrange(0, rects@.len() as int) =~= moves_of(rects@));
    }
    moves
}

/// The legal rectangles with their priorities (see `move_priority`), highest priority first,
/// rectangles of equal priority in generation order.
pub fn legal_moves_prioritized(board: &AgentBoard) -> (moves: Vec<PrioMove>)
    ensures
        moves@ == unkeyed(
            stable_sorted(keyed_desc(prioritized(board.values@, board.owners@, board.player))),
        ),
        moves@.len() == legal_rects(board.values@).len(),
        forall|k: int|
            0 <= k < moves@.len() ==> valid_rect(
                board.values@,
                (moves@[k].1, moves@[k].2, moves@[k].3, moves@[k].4),
            ),
{
    let rects = generate_rectangles(&board.values);
    let opp = opponent(board.player);
    let ghost all = prioritized(board.values@, board.owners@, board.player);
    let mut keyed: Vec<(i64, PrioMove)> = Vec::new();
    let mut i: usize = 0;
    while i < rects.len()
        invariant
            i <= rects@.len(),
            opp == spec_opponent(board.player),
            all == prioritized(board.values@, board.owners@, board.player),
            moves_of(rects@) == legal_rects(board.values@),
            forall|k: int| 0 <= k < rects@.len() ==> (#[trigger] rects@[k]).describes(board.values@),
            keyed@ == keyed_desc(all).subrange(0, i as int),
            forall|k: int| 0 <= k < keyed@.len() ==> #[trigger] entry_legal(board.values@)(keyed@[k]),
        decreases rects@.len() - i,
    {
        let r = &rects[i];
        let mv = r.to_move();
        proof {
            assert(moves_of(rects@)[i as int] == mv);
            assert(legal_rects(board.values@)[i as int] == mv);
        }
        let (recaptured, fresh, own) = rect_owner_counts(&board.owners, opp, mv);
        let steal = recaptured;
        let height = r.r2 - r.r1 + 1;
        let width = r.c2 - r.c1 + 1;
        proof {
            assert(1 <= height * width <= 170) by (nonlinear_arith)
                requires
                    1 <= height <= 10,
                    1 <= width <= 17,
            ;
        }
        let area = height as i32 * width as i32;
        let portrait_bonus: i32 = if height > width { 500 } else { 0 };
        let small_bonus: i32 = if area <= 4 { 300 } else { 0 };
        let recapture_bonus: i32 = if recaptured > 0 {
            2_500 + recaptured * 1_600 + fresh * 120
        } else {
            0
        };
        let efficiency_bonus: i32 = if area <= 6 { (6 - area) * 140 } else { 0 };
        let penalty = own * 60;
        let priority = steal * 900 + recapture_bonus + efficiency_bonus + area * 12
            + portrait_bonus + small_bonus - penalty;
        let entry: PrioMove = (priority, r.r1, r.c1, r.r2, r.c2);
        proof {
            assert(priority == move_priority(board.owners@, board.player, mv));
            assert(entry == all[i as int]);
        }
        proof {
            assert(rects@[i as int].describes(board.values@));
        }
        keyed.push((-(priority as i64), entry));
        proof {
            assert(keyed@ =~= keyed_desc(all).subrange(0, i + 1));
        }
        i += 1;
    }
    proof {
        assert(keyed_desc(all).subrange(0, rects@.len() as int) =~= keyed_desc(all));
    }
    let sorted = sort_stable(&keyed);
    proof {
        lemma_stable_sorted_keeps(keyed@, entry_legal(board.values@));
        lemma_stable_sorted_len(keyed@);
    }
    let mut moves: Vec<PrioMove> = Vec::new();
    let mut k: usize = 0;
    while k < sorted.len()
        invariant
            k <= sorted@.len(),
            moves@ == unkeyed(sorted@).subrange(0, k as int),
            forall|j: int| 0 <= j < sorted@.len() ==> #[trigger] entry_legal(board.values@)(sorted@[j]),
        decreases sorted@.len() - k,
    {
        moves.push(sorted[k].1);
        proof {
            assert(moves@ =~= unkeyed(sorted@).subrange(0, k + 1));
        }
        k += 1;
    }
    proof {
        assert(unkeyed(sorted@).subrange(0, sorted@.len() as int) =~= unkeyed(sorted@));
        assert forall|k: int| 0 <= k < moves@.len() implies valid_rect(
            board.values@,
            (moves@[k].1, moves@[k].2, moves@[k].3, moves@[k].4),
        ) by {
            assert(entry_legal(board.values@)(sorted@[k]));
        }
    }
    moves
}

/// The evaluation, for the side to move next, of the position after `(r1, c1, r2, c2)`.
pub fn score_move(board: &AgentBoard, r1: i8, c1: i8, r2: i8, c2: i8, w: &AgentWeights) -> (s: i32)
    requires
        playable((r1, c1, r2, c2)),
        r1 == -1 ==> board.consecutive_passes < i32::MAX,
        w.bounded(),
    ensures
        s == spec_agent_eval(
            if r1 == -1 {
                agent_terms(board.values@, board.owners@, spec_opponent(board.player))
            } else {
                agent_terms(
                    applied_values(board.values@, (r1, c1, r2, c2)),
                    applied_owners(board.owners@, (r1, c1, r2, c2), board.player),
                    spec_opponent(board.player),
                )
            },
            *w,
        ),
{
    let mut copy = *board;
    copy.apply_move(r1, c1, r2, c2);
    proof {
        lemma_bounded_weights_fit(copy.values@, copy.owners@, copy.player, *w);
    }
    evaluate(&copy, w)
}

} // verus!
