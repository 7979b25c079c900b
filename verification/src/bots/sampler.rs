use vstd::prelude::*;

use crate::board::{spec_action_score, valid_owners, valid_player, Board};
use crate::bots::zoo_rng::{lcg_iter, lcg_next};
use crate::mcts::{high_half, Rng};
use crate::movegen::{generate_rectangles, legal_rects, moves_of, rect_in_board, valid_rect};
use crate::protocol::{digit_char, digit_str};
use crate::types::{is_pass, same_move, Move, FIRST, N_CELLS, PASS};

verus! {

/// Output number `k` (from 0) of a generator started in `state`.
pub open spec fn draw(state: u64, k: int) -> u32 {
    high_half(lcg_iter(state, (k + 1) as nat))
}

/// `x` kept within `lo..=hi`.
pub open spec fn clamp_int(x: int, lo: int, hi: int) -> int {
    if x < lo {
        lo
    } else if x > hi {
        hi
    } else {
        x
    }
}

/// The absolute value.
pub open spec fn abs_int(x: int) -> int {
    if x < 0 {
        -x
    } else {
        x
    }
}

/// `x` when positive, else 0.
pub open spec fn pos(x: int) -> int {
    if x > 0 {
        x
    } else {
        0
    }
}

/// The hot spots drawn from `state`: around each of the four corners and the centre (in
/// that order) a row within one and a column within two, both kept on the board, and a
/// strength of 3 to 7; three outputs per spot.
pub open spec fn spec_hotspots(state: u64) -> Seq<(i32, i32, i32)> {
    Seq::new(5, |j: int| hot_spot(state, j, hot_anchor(j)))
}

/// The anchor of hot spot `j`: the corners, then the centre.
pub open spec fn hot_anchor(j: int) -> (int, int) {
    if j == 0 {
        (0, 0)
    } else if j == 1 {
        (0, 16)
    } else if j == 2 {
        (9, 0)
    } else if j == 3 {
        (9, 16)
    } else {
        (5, 8)
    }
}

/// Hot spot `j` drawn from `state` around `anchor`.
pub open spec fn hot_spot(state: u64, j: int, anchor: (int, int)) -> (i32, i32, i32) {
    (
        clamp_int(anchor.0 + (draw(state, 3 * j) % 3) as int - 1, 0, 9) as i32,
        clamp_int(anchor.1 + (draw(state, 3 * j + 1) % 5) as int - 2, 0, 16) as i32,
        (3 + draw(state, 3 * j + 2) % 5) as i32,
    )
}

/// The cold spots drawn from `state`: three spots, each a row, a column and a strength of
/// 2 to 4; three outputs per spot.
pub open spec fn spec_coldspots(state: u64) -> Seq<(i32, i32, i32)> {
    Seq::new(
        3,
        |j: int|
            (
                (draw(state, 3 * j) % 10) as i32,
                (draw(state, 3 * j + 1) % 17) as i32,
                (2 + draw(state, 3 * j + 2) % 3) as i32,
            ),
    )
}

/// The spots lie on the board with strengths of at most 7, and there are at most five.
pub open spec fn small_spots(spots: Seq<(i32, i32, i32)>) -> bool {
    &&& spots.len() <= 5
    &&& forall|j: int|
        0 <= j < spots.len() ==> 0 <= (#[trigger] spots[j]).0 <= 9 && 0 <= spots[j].1 <= 16 && 0
            <= spots[j].2 <= 7
}

/// What the spots add at cell `(r, c)`: for each, its strength less half its distance
/// (rounded down, rows plus columns), when positive.
pub open spec fn spot_sum(r: int, c: int, spots: Seq<(i32, i32, i32)>) -> int
    decreases spots.len(),
{
    if spots.len() == 0 {
        0
    } else {
        let s = spots.last();
        spot_sum(r, c, spots.drop_last()) + pos(
            s.2 - (abs_int(r - s.0) + abs_int(c - s.1)) / 2,
        )
    }
}

fn clamp_i32(x: i32, lo: i32, hi: i32) -> (y: i32)
    requires
        lo <= hi,
    ensures
        y == clamp_int(x as int, lo as int, hi as int),
{
    if x < lo {
        lo
    } else if x > hi {
        hi
    } else {
        x
    }
}

fn draw_hot_spot(rng: &mut Rng, ar: i32, ac: i32, Ghost(s0): Ghost<u64>, Ghost(j): Ghost<int>) -> (spot: (i32, i32, i32))
    requires
        0 <= ar <= 9,
        0 <= ac <= 16,
        0 <= j,
        old(rng).0 == lcg_iter(s0, (3 * j) as nat),
    ensures
        spot == hot_spot(s0, j, (ar as int, ac as int)),
        final(rng).0 == lcg_iter(s0, (3 * j + 3) as nat),
{
    let x = rng.next_u32();
    let r = clamp_i32(ar + (x % 3) as i32 - 1, 0, 9);
    let y = rng.next_u32();
    let c = clamp_i32(ac + (y % 5) as i32 - 2, 0, 16);
    let z = rng.next_u32();
    let amp = 3 + (z % 5) as i32;
    proof {
        assert(lcg_iter(s0, (3 * j + 1) as nat) == lcg_next(lcg_iter(s0, (3 * j) as nat)));
        assert(lcg_iter(s0, (3 * j + 2) as nat) == lcg_next(lcg_iter(s0, (3 * j + 1) as nat)));
        assert(lcg_iter(s0, (3 * j + 3) as nat) == lcg_next(lcg_iter(s0, (3 * j + 2) as nat)));
    }
    (r, c, amp)
}

/// The hot spots; see `spec_hotspots`. Takes fifteen outputs of `rng`.
pub(crate) fn build_hotspots(rng: &mut Rng) -> (spots: Vec<(i32, i32, i32)>)
    ensures
        spots@ == spec_hotspots(old(rng).0),
        final(rng).0 == lcg_iter(old(rng).0, 15),
        small_spots(spots@),
{
    let ghost s0 = rng.0;
    let mut spots: Vec<(i32, i32, i32)> = Vec::new();
    let mut j: usize = 0;
    while j < 5
        invariant
            j <= 5,
            rng.0 == lcg_iter(s0, (3 * j) as nat),
            spots@.len() == j,
            forall|k: int| 0 <= k < j ==> #[trigger] spots@[k] == hot_spot(s0, k, hot_anchor(k)),
        decreases 5 - j,
    {
        let (ar, ac): (i32, i32) = if j == 0 {
            (0, 0)
        } else if j == 1 {
            (0, 16)
        } else if j == 2 {
            (9, 0)
        } else if j == 3 {
            (9, 16)
        } else {
            (5, 8)
        };
        let spot = draw_hot_spot(rng, ar, ac, Ghost(s0), Ghost(j as int));
        spots.push(spot);
        j += 1;
    }
    proof {
        assert(spots@ =~= spec_hotspots(s0));
    }
    spots
}

/// The cold spots; see `spec_coldspots`. Takes nine outputs of `rng`.
pub(crate) fn build_coldspots(rng: &mut Rng) -> (spots: Vec<(i32, i32, i32)>)
    ensures
        spots@ == spec_coldspots(old(rng).0),
        final(rng).0 == lcg_iter(old(rng).0, 9),
        small_spots(spots@),
{
    let ghost s0 = rng.0;
    let mut spots: Vec<(i32, i32, i32)> = Vec::new();
    let mut j: usize = 0;
    while j < 3
        invariant
            j <= 3,
            rng.0 == lcg_iter(s0, (3 * j) as nat),
            spots@ == spec_coldspots(s0).subrange(0, j as int),
        decreases 3 - j,
    {
        let x = rng.next_u32();
        let y = rng.next_u32();
        let z = rng.next_u32();
        proof {
            assert(x == draw(s0, 3 * j));
            assert(y == draw(s0, 3 * j + 1));
            assert(z == draw(s0, 3 * j + 2));
        }
        spots.push(((x % 10) as i32, (y % 17) as i32, 2 + (z % 3) as i32));
        proof {
            assert(spots@ =~= spec_coldspots(s0).subrange(0, j + 1));
        }
        j += 1;
    }
    proof {
        assert(spots@ =~= spec_coldspots(s0));
    }
    spots
}

/// What hot spots add at cell `(r, c)`; see `spot_sum`.
pub(crate) fn hotspot_score(r: usize, c: usize, hotspots: &[(i32, i32, i32)]) -> (score: i32)
    requires
        r < 10,
        c < 17,
        small_spots(hotspots@),
    ensures
        score == spot_sum(r as int, c as int, hotspots@),
        0 <= score <= 35,
{
    let mut score: i32 = 0;
    let mut k: usize = 0;
    while k < hotspots.len()
        invariant
            r < 10,
            c < 17,
            small_spots(hotspots@),
            k <= hotspots@.len(),
            score == spot_sum(r as int, c as int, hotspots@.subrange(0, k as int)),
            0 <= score <= 7 * k,
        decreases hotspots@.len() - k,
    {
        let (hr, hc, amp) = hotspots[k];
        proof {
            assert(0 <= hotspots@[k as int].0 <= 9);
        }
        let dr = if (r as i32) < hr {
            hr - r as i32
        } else {
            r as i32 - hr
        };
        let dc = if (c as i32) < hc {
            hc - c as i32
        } else {
            c as i32 - hc
        };
        let dist = dr + dc;
        let add = if amp - dist / 2 > 0 {
            amp - dist / 2
        } else {
            0
        };
        proof {
            assert(hotspots@.subrange(0, k + 1).drop_last() =~= hotspots@.subrange(0, k as int));
            assert(hotspots@.subrange(0, k + 1).last() == hotspots@[k as int]);
        }
        score = score + add;
        k += 1;
    }
    proof {
        assert(hotspots@.subrange(0, hotspots@.len() as int) =~= hotspots@);
    }
    score
}

/// What cold spots take at cell `(r, c)`; the same sum as for hot spots (see `spot_sum`).
pub(crate) fn coldspot_score(r: usize, c: usize, coldspots: &[(i32, i32, i32)]) -> (score: i32)
    requires
        r < 10,
        c < 17,
        small_spots(coldspots@),
    ensures
        score == spot_sum(r as int, c as int, coldspots@),
        0 <= score <= 35,
{
    hotspot_score(r, c, coldspots)
}

/// Distance of cell `(r, c)` to the nearest border.
pub open spec fn edge_dist(r: int, c: int) -> int {
    let a = if r < 9 - r { r } else { 9 - r };
    let b = if c < 16 - c { c } else { 16 - c };
    if a < b {
        a
    } else {
        b
    }
}

/// The row's bonus: its closeness to the middle row (4, at most 4) plus the wave, halved.
pub open spec fn spec_row_bias(r: int, wave: int) -> int {
    (pos(4 - abs_int(r - 4)) + wave) / 2
}

/// The column's bonus: its closeness to the middle column (8, at most 5) plus the wave,
/// halved.
pub open spec fn spec_col_bias(c: int, wave: int) -> int {
    (pos(5 - abs_int(c - 8)) + wave) / 2
}

/// The row's bonus; see `spec_row_bias`.
pub(crate) fn row_bias(r: usize, wave: i32) -> (b: i32)
    requires
        r < 10,
        0 <= wave <= 4,
    ensures
        b == spec_row_bias(r as int, wave as int),
        0 <= b <= 4,
{
    let dist = if r >= 4 {
        (r - 4) as i32
    } else {
        (4 - r) as i32
    };
    let near = if 4 - dist > 0 {
        4 - dist
    } else {
        0
    };
    (near + wave) / 2
}

/// The column's bonus; see `spec_col_bias`.
pub(crate) fn col_bias(c: usize, wave: i32) -> (b: i32)
    requires
        c < 17,
        0 <= wave <= 4,
    ensures
        b == spec_col_bias(c as int, wave as int),
        0 <= b <= 4,
{
    let dist = if c >= 8 {
        (c - 8) as i32
    } else {
        (8 - c) as i32
    };
    let near = if 5 - dist > 0 {
        5 - dist
    } else {
        0
    };
    (near + wave) / 2
}

/// The score of cell `(r, c)` before jitter: 4, plus half of how close it is to a border
/// (within 4), plus how close it is to the centre (a quarter of the distance, within 4),
/// plus the row's and the column's bonus, plus what the hot spots add, less what the cold
/// spots take.
pub open spec fn cell_score(
    r: int,
    c: int,
    hot: Seq<(i32, i32, i32)>,
    cold: Seq<(i32, i32, i32)>,
    row_wave: int,
    col_wave: int,
) -> int {
    base_cell_score(r, c) + spec_row_bias(r, row_wave) + spec_col_bias(c, col_wave) + spot_sum(
        r,
        c,
        hot,
    ) - spot_sum(r, c, cold)
}

/// The part of a cell's score that depends on its place alone: 4, plus half of how close
/// it is to a border (within 4), plus how close it is to the centre (a quarter of the
/// distance, within 4).
pub open spec fn base_cell_score(r: int, c: int) -> int {
    4 + pos(4 - edge_dist(r, c)) / 2 + pos(4 - (abs_int(r - 4) + abs_int(c - 8)) / 4)
}

fn base_score(r: usize, c: usize) -> (s: i32)
    requires
        r < 10,
        c < 17,
    ensures
        s == base_cell_score(r as int, c as int),
        4 <= s <= 10,
{
    let er = if r < 9 - r {
        r
    } else {
        9 - r
    };
    let ec = if c < 16 - c {
        c
    } else {
        16 - c
    };
    let edge = if er < ec {
        er
    } else {
        ec
    } as i32;
    let dr = if r >= 4 {
        (r - 4) as i32
    } else {
        (4 - r) as i32
    };
    let dc = if c >= 8 {
        (c - 8) as i32
    } else {
        (8 - c) as i32
    };
    let near_edge = if 4 - edge > 0 {
        4 - edge
    } else {
        0
    };
    let near_centre = if 4 - (dr + dc) / 4 > 0 {
        4 - (dr + dc) / 4
    } else {
        0
    };
    4 + near_edge / 2 + near_centre
}

/// Half a jitter of `-2..=2`, rounded toward zero.
pub open spec fn jitter_half(j: int) -> int {
    if j <= -2 {
        -1
    } else if j >= 2 {
        1
    } else {
        0
    }
}

/// The cell values a generator started in `state` textures: hot spots (15 outputs), cold
/// spots (9), the row and the column wave (one each, below 5), then for each cell in
/// row-major order a jitter of output modulo 5 less 2; each cell's score with half its
/// jitter, kept within 1..=9.
pub open spec fn textured_values(state: u64) -> Seq<u8> {
    Seq::new(170, |i: int| textured_cell(state, i))
}

/// Cell `i` of `textured_values(state)`.
pub open spec fn textured_cell(state: u64, i: int) -> u8 {
    let hot = spec_hotspots(state);
    let cold = spec_coldspots(lcg_iter(state, 15));
    let rw = (draw(state, 24) % 5) as int;
    let cw = (draw(state, 25) % 5) as int;
    clamp_int(
        cell_score(i / 17, i % 17, hot, cold, rw, cw) + jitter_half((draw(state, 26 + i) % 5) as int - 2),
        1,
        9,
    ) as u8
}

fn cell_value(
    r: usize,
    c: usize,
    hot: &Vec<(i32, i32, i32)>,
    cold: &Vec<(i32, i32, i32)>,
    row_wave: i32,
    col_wave: i32,
    jitter: i32,
) -> (v: u8)
    requires
        r < 10,
        c < 17,
        small_spots(hot@),
        small_spots(cold@),
        0 <= row_wave <= 4,
        0 <= col_wave <= 4,
        -2 <= jitter <= 2,
    ensures
        v == clamp_int(
            cell_score(r as int, c as int, hot@, cold@, row_wave as int, col_wave as int)
                + jitter_half(jitter as int),
            1,
            9,
        ),
{
    let base = base_score(r, c);
    let rb = row_bias(r, row_wave);
    let cb = col_bias(c, col_wave);
    let h = hotspot_score(r, c, hot.as_slice());
    let k = coldspot_score(r, c, cold.as_slice());
    let half: i32 = if jitter == -2 {
        -1
    } else if jitter == 2 {
        1
    } else {
        0
    };
    let score = base + rb + cb + h - k + half;
    clamp_i32(score, 1, 9) as u8
}

fn textured_board_values(state: u64) -> (values: [u8; 170])
    ensures
        values@ == textured_values(state),
{
    let mut rng = Rng::new(state);
    let hot = build_hotspots(&mut rng);
    let cold = build_coldspots(&mut rng);
    proof {
        lemma_lcg_iter_add(state, 15, 9);
    }
    let x = rng.next_u32();
    let row_wave = (x % 5) as i32;
    let y = rng.next_u32();
    let col_wave = (y % 5) as i32;
    proof {
        assert(x == draw(state, 24));
        assert(y == draw(state, 25));
    }
    let mut values = [4u8; 170];
    let mut idx: usize = 0;
    while idx < 170
        invariant
            idx <= 170,
            rng.0 == lcg_iter(state, (26 + idx) as nat),
            hot@ == spec_hotspots(state),
            cold@ == spec_coldspots(lcg_iter(state, 15)),
            small_spots(hot@),
            small_spots(cold@),
            row_wave == draw(state, 24) % 5,
            col_wave == draw(state, 25) % 5,
            forall|i: int| 0 <= i < idx ==> #[trigger] values@[i] == textured_cell(state, i),
        decreases 170 - idx,
    {
        let r = idx / 17;
        let c = idx % 17;
        let z = rng.next_u32();
        let jitter = (z % 5) as i32 - 2;
        let v = cell_value(r, c, &hot, &cold, row_wave, col_wave, jitter);
        proof {
            assert(z == draw(state, 26 + idx));
            assert(v == textured_cell(state, idx as int));
        }
        values[idx] = v;
        idx += 1;
    }
    proof {
        assert(values@ =~= textured_values(state));
    }
    values
}

proof fn lemma_lcg_iter_add(s: u64, a: nat, b: nat)
    ensures
        lcg_iter(lcg_iter(s, a), b) == lcg_iter(s, a + b),
    decreases b,
{
    if b > 0 {
        lemma_lcg_iter_add(s, a, (b - 1) as nat);
    }
}

/// `v` raised by `by`, at most 9.
pub open spec fn raised(v: u8, by: int) -> u8 {
    if v + by > 9 {
        9
    } else {
        (v + by) as u8
    }
}

/// Cell `i` lies in the block of `h` rows and `w` columns with top-left cell `(rb, cb)`.
pub open spec fn in_block(i: int, rb: int, cb: int, h: int, w: int) -> bool {
    rb <= i / 17 < rb + h && cb <= i % 17 < cb + w
}

/// The values with the 2-by-4 block at `(rb, cb)` raised by 3 (at most 9).
pub open spec fn raise_block(values: Seq<u8>, rb: int, cb: int) -> Seq<u8> {
    Seq::new(
        values.len(),
        |i: int|
            if in_block(i, rb, cb, 2, 4) {
                raised(values[i], 3)
            } else {
                values[i]
            },
    )
}

/// Corner `j` of the edge clusters: top left, top right, bottom left, bottom right.
pub open spec fn cluster_corner(j: int) -> (int, int) {
    if j == 0 {
        (0, 0)
    } else if j == 1 {
        (0, 13)
    } else if j == 2 {
        (8, 0)
    } else {
        (8, 13)
    }
}

/// Where cluster `j` lands for a generator started in `state`: its corner shifted down by
/// output `2j` modulo 2 and right by output `2j + 1` modulo 3, kept on the board.
pub open spec fn cluster_base(state: u64, j: int) -> (int, int) {
    let (r0, c0) = cluster_corner(j);
    let r = r0 + (draw(state, 2 * j) % 2) as int;
    let c = c0 + (draw(state, 2 * j + 1) % 3) as int;
    (if r < 8 { r } else { 8 }, if c < 13 { c } else { 13 })
}

/// The values with the first `n` clusters raised.
pub open spec fn raise_clusters(values: Seq<u8>, state: u64, n: nat) -> Seq<u8>
    decreases n,
{
    if n == 0 {
        values
    } else {
        let b = cluster_base(state, n - 1);
        raise_block(raise_clusters(values, state, (n - 1) as nat), b.0, b.1)
    }
}

/// The band's row for a generator started in `state`: output 8 modulo 10, kept in 1..=8.
pub open spec fn band_row(state: u64) -> int {
    clamp_int((draw(state, 8) % 10) as int, 1, 8)
}

/// The values with the cells of `row` whose column is 0 or 1 modulo 5 raised by 2 (at most
/// 9).
pub open spec fn raise_band(values: Seq<u8>, row: int) -> Seq<u8> {
    Seq::new(
        values.len(),
        |i: int|
            if i / 17 == row && (i % 17) % 5 < 2 {
                raised(values[i], 2)
            } else {
                values[i]
            },
    )
}

/// The edge clusters for `seed`: from a generator started in `seed ^ 0x5bf0_3635_d3f9_0f1d`,
/// the four corner clusters, then the band.
pub open spec fn spec_edge_clusters(values: Seq<u8>, seed: u64) -> Seq<u8> {
    let state = seed ^ 0x5bf0_3635_d3f9_0f1du64;
    raise_band(raise_clusters(values, state, 4), band_row(state))
}

fn raise_block_cells(values: &mut [u8; 170], rb: usize, cb: usize)
    requires
        rb <= 8,
        cb <= 13,
    ensures
        final(values)@ == raise_block(old(values)@, rb as int, cb as int),
{
    let mut k: usize = 0;
    while k < 8
        invariant
            rb <= 8,
            cb <= 13,
            k <= 8,
            values@.len() == 170,
            forall|i: int|
                0 <= i < 170 ==> #[trigger] values@[i] == if in_block(i, rb as int, cb as int, 2, 4) && (
                i / 17 - rb) * 4 + (i % 17 - cb) < k {
                    raised(old(values)@[i], 3)
                } else {
                    old(values)@[i]
                },
        decreases 8 - k,
    {
        let idx = (rb + k / 4) * 17 + cb + k % 4;
        proof {
            assert(idx / 17 == rb + k / 4 && idx % 17 == cb + k % 4);
        }
        let v = values[idx];
        values[idx] = if v > 6 {
            9
        } else {
            v + 3
        };
        k += 1;
    }
    proof {
        assert(values@ =~= raise_block(old(values)@, rb as int, cb as int));
    }
}

fn raise_band_cells(values: &mut [u8; 170], row: usize)
    requires
        row < 10,
    ensures
        final(values)@ == raise_band(old(values)@, row as int),
{
    let mut c: usize = 0;
    while c < 17
        invariant
            row < 10,
            c <= 17,
            values@.len() == 170,
            forall|i: int|
                0 <= i < 170 ==> #[trigger] values@[i] == if i / 17 == row && (i % 17) % 5 < 2 && i % 17
                    < c {
                    raised(old(values)@[i], 2)
                } else {
                    old(values)@[i]
                },
        decreases 17 - c,
    {
        let idx = row * 17 + c;
        proof {
            assert(idx / 17 == row && idx % 17 == c);
        }
        if c % 5 == 0 || c % 5 == 1 {
            let v = values[idx];
            values[idx] = if v > 7 {
                9
            } else {
                v + 2
            };
        }
        c += 1;
    }
    proof {
        assert(values@ =~= raise_band(old(values)@, row as int));
    }
}

/// The edge clusters; see `spec_edge_clusters`.
pub(crate) fn add_edge_clusters(values: &mut [u8; 170], seed: u64)
    ensures
        final(values)@ == spec_edge_clusters(old(values)@, seed),
{
    let state = seed ^ 0x5bf0_3635_d3f9_0f1d;
    let mut rng = Rng::new(state);
    let mut j: usize = 0;
    while j < 4
        invariant
            j <= 4,
            state == seed ^ 0x5bf0_3635_d3f9_0f1du64,
            rng.0 == lcg_iter(state, (2 * j) as nat),
            values@ == raise_clusters(old(values)@, state, j as nat),
        decreases 4 - j,
    {
        let (r0, c0): (usize, usize) = if j == 0 {
            (0, 0)
        } else if j == 1 {
            (0, 13)
        } else if j == 2 {
            (8, 0)
        } else {
            (8, 13)
        };
        let x = rng.next_u32();
        let y = rng.next_u32();
        proof {
            assert(x == draw(state, 2 * j));
            assert(y == draw(state, 2 * j + 1));
        }
        let shift_r = (x % 2) as usize;
        let shift_c = (y % 3) as usize;
        let rb = if r0 + shift_r < 8 {
            r0 + shift_r
        } else {
            8
        };
        let cb = if c0 + shift_c < 13 {
            c0 + shift_c
        } else {
            13
        };
        raise_block_cells(values, rb, cb);
        j += 1;
    }
    let z = rng.next_u32();
    proof {
        assert(z == draw(state, 8));
    }
    let band = (z as usize % 10);
    let band_row = if band < 1 {
        1
    } else if band > 8 {
        8
    } else {
        band
    };
    raise_band_cells(values, band_row);
}

/// The opening lanes for `seed`: ten cells of 1 in row `seed % 10` from column
/// `(seed >> 8) % 8`, and a block of two rows (the row three below and the next, wrapping
/// around) and five columns of 1 from column `(seed >> 16) % 13`; the numbers read as
/// `usize`.
pub open spec fn spec_opening_lane(values: Seq<u8>, seed: u64) -> Seq<u8> {
    let row = ((seed as usize) % 10) as int;
    let sc = (((seed >> 8u64) as usize) % 8) as int;
    let row2 = (row + 3) % 10;
    let sc2 = (((seed >> 16u64) as usize) % 13) as int;
    Seq::new(
        values.len(),
        |i: int|
            if (i / 17 == row && sc <= i % 17 < sc + 10) || ((i / 17 == row2 || i / 17 == (row2 + 1)
                % 10) && sc2 <= i % 17 < sc2 + 5) {
                1u8
            } else {
                values[i]
            },
    )
}

/// The opening lanes; see `spec_opening_lane`.
pub(crate) fn ensure_opening_lane(values: &mut [u8; 170], seed: u64)
    ensures
        final(values)@ == spec_opening_lane(old(values)@, seed),
{
    let row = (seed as usize) % 10;
    let sc = ((seed >> 8) as usize) % 8;
    let mut k: usize = 0;
    while k < 10
        invariant
            row < 10,
            sc < 8,
            k <= 10,
            values@.len() == 170,
            forall|i: int|
                0 <= i < 170 ==> #[trigger] values@[i] == if i / 17 == row && sc <= i % 17 < sc + k {
                    1u8
                } else {
                    old(values)@[i]
                },
        decreases 10 - k,
    {
        let idx = row * 17 + sc + k;
        proof {
            assert(idx / 17 == row && idx % 17 == sc + k);
        }
        values[idx] = 1;
        k += 1;
    }
    let ghost mid = values@;
    let row2 = (row + 3) % 10;
    let sc2 = ((seed >> 16) as usize) % 13;
    let mut k: usize = 0;
    while k < 10
        invariant
            row < 10,
            row2 == (row + 3) % 10,
            sc2 < 13,
            k <= 10,
            values@.len() == 170,
            forall|i: int|
                0 <= i < 170 ==> #[trigger] values@[i] == if (i / 17 == row2 && sc2 <= i % 17 < sc2 + (
                if k < 5 { k } else { 5 })) || (i / 17 == (row2 + 1) % 10 && k > 5 && sc2 <= i % 17
                    < sc2 + k - 5) {
                    1u8
                } else {
                    mid[i]
                },
        decreases 10 - k,
    {
        let r = (row2 + k / 5) % 10;
        let idx = r * 17 + sc2 + k % 5;
        proof {
            assert(idx / 17 == r && idx % 17 == sc2 + k % 5);
        }
        values[idx] = 1;
        k += 1;
    }
    proof {
        assert(values@ =~= spec_opening_lane(old(values)@, seed));
    }
}

/// The generator's starting state for attempt `attempt` at `seed`.
pub open spec fn attempt_state(seed: u64, attempt: u64) -> u64 {
    seed ^ 0x9e3779b97f4a7c15u64 ^ vstd::wrapping::u64_specs::wrapping_mul(
        attempt,
        0x5851_f42d_4c95_7f2du64,
    )
}

/// The cell values of attempt `attempt` at `seed`: the textured values, with edge clusters
/// and then opening lanes both for `seed ^ attempt`.
pub open spec fn attempt_values(seed: u64, attempt: u64) -> Seq<u8> {
    spec_opening_lane(
        spec_edge_clusters(textured_values(attempt_state(seed, attempt)), seed ^ attempt),
        seed ^ attempt,
    )
}

/// The values an opening is drawn on when no attempt does: `3 + (r + c) % 4` at `(r, c)`,
/// with the opening lanes for `seed`.
pub open spec fn fallback_values(seed: u64) -> Seq<u8> {
    spec_opening_lane(Seq::new(170, |i: int| (3 + (i / 17 + i % 17) % 4) as u8), seed)
}

/// The values of the first attempt from `attempt` on (below 24) with 20 to 90 legal
/// rectangles, else the fallback.
pub open spec fn game_like_values(seed: u64, attempt: u64) -> Seq<u8>
    decreases 24 - attempt,
{
    if attempt >= 24 {
        fallback_values(seed)
    } else {
        let v = attempt_values(seed, attempt);
        if 20 <= legal_rects(v).len() <= 90 {
            v
        } else {
            game_like_values(seed, (attempt + 1) as u64)
        }
    }
}

/// A board shaped like a real game's for `seed`: the values `game_like_values(seed, 0)`,
/// nothing owned, the first player to move, no passes.
pub fn generate_game_like_board(seed: u64) -> (b: Board)
    ensures
        b.wf(),
        b.values@ == game_like_values(seed, 0),
        b.owners@ == Seq::new(N_CELLS as nat, |i: int| 0i8),
        b.player == FIRST,
        b.passes == 0,
{
    let owners = [0i8; N_CELLS];
    proof {
        assert(owners@ =~= Seq::new(N_CELLS as nat, |i: int| 0i8));
        assert(valid_player(FIRST));
        assert(valid_owners(owners@));
    }
    let mut attempt: u64 = 0;
    while attempt < 24
        invariant
            attempt <= 24,
            owners@ == Seq::new(N_CELLS as nat, |i: int| 0i8),
            game_like_values(seed, 0) == game_like_values(seed, attempt),
        decreases 24 - attempt,
    {
        let state = seed ^ 0x9e3779b97f4a7c15 ^ attempt.wrapping_mul(0x5851_f42d_4c95_7f2d);
        let mut values = textured_board_values(state);
        add_edge_clusters(&mut values, seed ^ attempt);
        ensure_opening_lane(&mut values, seed ^ attempt);
        proof {
            assert(values@ == attempt_values(seed, attempt));
        }
        let board = Board::from_parts(values, owners, FIRST, 0);
        let rects = generate_rectangles(&board.values);
        let legal = rects.len();
        proof {
            assert(moves_of(rects@).len() == rects@.len());
        }
        if 20 <= legal && legal <= 90 {
            return board;
        }
        attempt += 1;
    }
    let mut values = [4u8; N_CELLS];
    let mut i: usize = 0;
    while i < N_CELLS
        invariant
            i <= N_CELLS,
            forall|k: int| 0 <= k < i ==> #[trigger] values@[k] == (3 + (k / 17 + k % 17) % 4) as u8,
        decreases N_CELLS - i,
    {
        let r = i / 17;
        let c = i % 17;
        values[i] = (3 + (r + c) % 4) as u8;
        i += 1;
    }
    proof {
        assert(values@ =~= Seq::new(170, |i: int| (3 + (i / 17 + i % 17) % 4) as u8));
    }
    ensure_opening_lane(&mut values, seed);
    Board::from_parts(values, owners, FIRST, 0)
}

/// The text of a row of digits.
pub open spec fn row_text(values: Seq<u8>, r: int) -> Seq<char> {
    Seq::new(17, |c: int| digit_char(values[r * 17 + c] as int))
}

/// The first `n` rows, each after a space.
pub open spec fn rows_text(values: Seq<u8>, n: nat) -> Seq<char>
    decreases n,
{
    if n == 0 {
        Seq::empty()
    } else {
        rows_text(values, (n - 1) as nat) + seq![' '] + row_text(values, n - 1)
    }
}

/// The `INIT` line that sets up `board`: `INIT`, then its ten rows of digits, each after a
/// space. Its values must be digits.
pub fn board_to_init_line(board: &Board) -> (line: String)
    requires
        forall|i: int| 0 <= i < N_CELLS ==> #[trigger] board.values@[i] <= 9,
    ensures
        line@ == "INIT"@ + rows_text(board.values@, 10),
{
    proof {
        reveal_strlit("INIT");
        reveal_strlit(" ");
    }
    let mut line = String::from_str("INIT");
    let mut r: usize = 0;
    while r < 10
        invariant
            r <= 10,
            forall|i: int| 0 <= i < N_CELLS ==> #[trigger] board.values@[i] <= 9,
            line@ == "INIT"@ + rows_text(board.values@, r as nat),
        decreases 10 - r,
    {
        let ghost before = line@;
        proof {
            reveal_strlit(" ");
        }
        line.append(" ");
        proof {
            assert(line@ =~= before + seq![' '] + row_text(board.values@, r as int).subrange(0, 0));
        }
        let mut c: usize = 0;
        while c < 17
            invariant
                r < 10,
                c <= 17,
                forall|i: int| 0 <= i < N_CELLS ==> #[trigger] board.values@[i] <= 9,
                line@ == before + seq![' '] + row_text(board.values@, r as int).subrange(0, c as int),
            decreases 17 - c,
        {
            let v = board.values[r * 17 + c];
            line.append(digit_str(v));
            proof {
                assert(row_text(board.values@, r as int).subrange(0, c + 1) =~= row_text(
                    board.values@,
                    r as int,
                ).subrange(0, c as int).push(digit_char(v as int)));
            }
            c += 1;
        }
        proof {
            assert(row_text(board.values@, r as int).subrange(0, 17) =~= row_text(board.values@, r as int));
            assert("INIT"@ + rows_text(board.values@, (r + 1) as nat) =~= before + seq![' '] + row_text(
                board.values@,
                r as int,
            ));
        }
        r += 1;
    }
    line
}

/// How the search's opening move compares with the other legal rectangles.
#[derive(Clone, Copy, Debug)]
pub struct SampleResult {
    pub live_count: u32,
    pub legal_moves: usize,
    pub bot_move: Move,
    pub bot_score: i32,
    pub best_score: i32,
    pub best_rank: usize,
    pub passed: bool,
}

/// The score a move gets in the comparison: -10000 for the pass, else the first part of its
/// ordering score (see `spec_action_score`).
pub open spec fn sample_score(board: Board, mv: Move) -> int {
    if mv == PASS {
        -10000
    } else {
        spec_action_score(board.values@, board.owners@, board.player, mv).0
    }
}

/// The comparison score; see `sample_score`.
pub fn score_move(board: &Board, mv: Move) -> (s: i32)
    requires
        mv == PASS || rect_in_board(mv),
    ensures
        s == sample_score(*board, mv),
        -10000 <= s <= 3 * N_CELLS,
{
    if is_pass(mv) {
        return -10000;
    }
    board.action_score(mv).0
}

/// The greatest score among `moves`, 0 for none.
pub open spec fn best_sample_score(board: Board, moves: Seq<Move>) -> int
    decreases moves.len(),
{
    if moves.len() == 0 {
        0
    } else if moves.len() == 1 {
        sample_score(board, moves[0])
    } else {
        let rest = best_sample_score(board, moves.drop_last());
        let last = sample_score(board, moves.last());
        if last > rest {
            last
        } else {
            rest
        }
    }
}

/// Number of the first `n` moves that rank before move `k` when the moves are sorted by
/// score, highest first, ties kept in order: those scoring more, and those before it
/// scoring the same.
pub open spec fn ahead_of(board: Board, moves: Seq<Move>, k: int, n: nat) -> nat
    decreases n,
{
    if n == 0 {
        0
    } else {
        let j = n - 1;
        let sj = sample_score(board, moves[j]);
        let sk = sample_score(board, moves[k]);
        ahead_of(board, moves, k, (n - 1) as nat) + if sj > sk || (sj == sk && j < k) {
            1nat
        } else {
            0nat
        }
    }
}

/// Index of the first `m` in `moves`, or -1.
pub open spec fn first_index(moves: Seq<Move>, m: Move) -> int
    decreases moves.len(),
{
    if moves.len() == 0 {
        -1
    } else {
        let r = first_index(moves.drop_last(), m);
        if r >= 0 {
            r
        } else if moves.last() == m {
            moves.len() - 1
        } else {
            -1
        }
    }
}

/// The comparison of the search's move `mv` on `board`. With no legal rectangle: the live
/// count, no moves, the pass, scores and rank 0, passed. Otherwise the move played is `mv`
/// when it is legal, else the pass; its score; the best score among the legal rectangles
/// (in generation order, see `legal_rects`); its rank when they are sorted by score, highest
/// first and ties kept in order (the last rank for the pass); and whether it is the pass.
pub open spec fn spec_opening_result(board: Board, mv: Move) -> SampleResult {
    let moves = legal_rects(board.values@);
    let live = board.live_mask.count() as u32;
    if moves.len() == 0 {
        SampleResult {
            live_count: live,
            legal_moves: 0,
            bot_move: PASS,
            bot_score: 0,
            best_score: 0,
            best_rank: 0,
            passed: true,
        }
    } else {
        let bot = if mv == PASS || valid_rect(board.values@, mv) {
            mv
        } else {
            PASS
        };
        let k = first_index(moves, bot);
        let rank = if bot != PASS && k >= 0 {
            ahead_of(board, moves, k, moves.len()) as int
        } else {
            moves.len() - 1
        };
        SampleResult {
            live_count: live,
            legal_moves: moves.len() as usize,
            bot_move: bot,
            bot_score: sample_score(board, bot) as i32,
            best_score: best_sample_score(board, moves) as i32,
            best_rank: rank as usize,
            passed: bot == PASS,
        }
    }
}
proof fn lemma_first_index_bounds(moves: Seq<Move>, m: Move)
    ensures
        -1 <= first_index(moves, m) < moves.len(),
        first_index(moves, m) >= 0 ==> moves[first_index(moves, m)] == m,
    decreases moves.len(),
{
    if moves.len() > 0 {
        lemma_first_index_bounds(moves.drop_last(), m);
    }
}

/// The comparison of the search's move `mv` on `board`; see `spec_opening_result`.
pub fn opening_result(board: &Board, mv: Move) -> (r: SampleResult)
    ensures
        r == spec_opening_result(*board, mv),
{
    let rects = generate_rectangles(&board.values);
    let live_count = board.live_mask.popcount();
    let ghost moves = moves_of(rects@);
    let n = rects.len();
    if n == 0 {
        proof {
            assert(moves.len() == 0);
        }
        return SampleResult {
            live_count,
            legal_moves: 0,
            bot_move: PASS,
            bot_score: 0,
            best_score: 0,
            best_rank: 0,
            passed: true,
        };
    }
    let bot_move = if board.is_legal_action(mv) {
        mv
    } else {
        PASS
    };
    let bot_score = score_move(board, bot_move);
    let first = rects[0].to_move();
    proof {
        assert(moves[0] == first);
        assert(rects@[0].describes(board.values@));
        assert(moves.subrange(0, 1) =~= seq![first]);
    }
    let mut best = score_move(board, first);
    let mut i: usize = 1;
    while i < n
        invariant
            1 <= i <= n,
            n == rects@.len(),
            moves == moves_of(rects@),
            forall|k: int| 0 <= k < rects@.len() ==> (#[trigger] rects@[k]).describes(board.values@),
            best == best_sample_score(*board, moves.subrange(0, i as int)),
            -10000 <= best <= 3 * N_CELLS,
        decreases n - i,
    {
        let m = rects[i].to_move();
        proof {
            assert(moves[i as int] == m);
            assert(rects@[i as int].describes(board.values@));
            assert(moves.subrange(0, i + 1).drop_last() =~= moves.subrange(0, i as int));
            assert(moves.subrange(0, i + 1).last() == m);
        }
        let s = score_move(board, m);
        if s > best {
            best = s;
        }
        i += 1;
    }
    proof {
        assert(moves.subrange(0, n as int) =~= moves);
    }
    let mut found = false;
    let mut k: usize = 0;
    if !is_pass(bot_move) {
        let mut j: usize = 0;
        proof {
            assert(moves.subrange(0, n as int) =~= moves);
        }
        while j < n
            invariant_except_break
                j <= n,
                n == rects@.len(),
                moves == moves_of(rects@),
                moves.subrange(0, n as int) == moves,
                first_index(moves.subrange(0, j as int), bot_move) == -1,
                !found,
            ensures
                found ==> k < n && first_index(moves, bot_move) == k,
                !found ==> first_index(moves, bot_move) == -1,
            decreases n - j,
        {
            let m = rects[j].to_move();
            proof {
                assert(moves[j as int] == m);
                assert(moves.subrange(0, j + 1).drop_last() =~= moves.subrange(0, j as int));
                assert(moves.subrange(0, j + 1).last() == m);
                lemma_first_index_prefix(moves, bot_move, (j + 1) as nat);
            }
            if same_move(m, bot_move) {
                proof {
                    lemma_first_index_stable(moves, bot_move, (j + 1) as nat, n as nat);
                }
                found = true;
                k = j;
                break;
            }
            j += 1;
        }
    }
    let rank = if found {
        let ghost kk = k as int;
        let sk = score_move(board, bot_move);
        let mut count: usize = 0;
        let mut j: usize = 0;
        proof {
            lemma_first_index_bounds(moves, bot_move);
        }
        while j < n
            invariant
                j <= n,
                k < n,
                n == rects@.len(),
                moves == moves_of(rects@),
                moves[k as int] == bot_move,
                sk == sample_score(*board, moves[k as int]),
                forall|t: int| 0 <= t < rects@.len() ==> (#[trigger] rects@[t]).describes(board.values@),
                count == ahead_of(*board, moves, k as int, j as nat),
                count <= j,
            decreases n - j,
        {
            let m = rects[j].to_move();
            proof {
                assert(moves[j as int] == m);
                assert(rects@[j as int].describes(board.values@));
            }
            let sj = score_move(board, m);
            if sj > sk || (sj == sk && j < k) {
                count += 1;
            }
            j += 1;
        }
        count
    } else {
        n - 1
    };
    proof {
        lemma_first_index_bounds(moves, bot_move);
    }
    SampleResult {
        live_count,
        legal_moves: n,
        bot_move,
        bot_score,
        best_score: best,
        best_rank: rank,
        passed: is_pass(bot_move),
    }
}

proof fn lemma_first_index_prefix(moves: Seq<Move>, m: Move, n: nat)
    requires
        0 < n <= moves.len(),
    ensures
        moves.subrange(0, n as int).drop_last() == moves.subrange(0, n - 1),
        first_index(moves.subrange(0, n as int), m) == (if first_index(moves.subrange(0, n - 1), m) >= 0 {
            first_index(moves.subrange(0, n - 1), m)
        } else if moves[n - 1] == m {
            n - 1
        } else {
            -1
        }),
{
    assert(moves.subrange(0, n as int).drop_last() =~= moves.subrange(0, n - 1));
}

proof fn lemma_first_index_stable(moves: Seq<Move>, m: Move, p: nat, q: nat)
    requires
        0 < p <= q <= moves.len(),
        first_index(moves.subrange(0, p as int), m) >= 0,
    ensures
        first_index(moves.subrange(0, q as int), m) == first_index(moves.subrange(0, p as int), m),
    decreases q - p,
{
    if q > p {
        lemma_first_index_stable(moves, m, p, (q - 1) as nat);
        lemma_first_index_prefix(moves, m, q);
    }
}

} // verus!
