use vstd::prelude::*;

use crate::bitboard::{lemma_or_words, word_bit, Bitboard, N_BITS};
use crate::grid::{lemma_cell_in_board, lemma_indicator_row_positive, lemma_prefix_next_row, lemma_region_from_prefix, lemma_region_nonneg, lemma_region_split_cols, lemma_region_split_rows, lemma_row_sum_nonneg, lemma_row_sum_split, lemma_value_grid_bytes, lemma_row_sum_bound, lemma_prefix_bound, lemma_prefix_zero_col, lemma_region_empty_cols, lemma_column_bound, byte_valued, live_grid, live_grid_by_col, prefix, region_sum, row_sum, value_at, value_grid};
use crate::types::{cell_index, Move, COLS, N_CELLS, ROWS};

verus! {

/// A rectangle on the board with precomputed data.
#[derive(Clone, Copy, Debug)]
pub struct RectInfo {
    pub id: u16,
    pub r1: i8,
    pub c1: i8,
    pub r2: i8,
    pub c2: i8,
    pub area: u8,
    pub cell_mask: Bitboard,
}

/// The rectangle lies on the board, with its first corner above and left of its second.
pub open spec fn rect_in_board(mv: Move) -> bool {
    0 <= mv.0 <= mv.2 < ROWS && 0 <= mv.1 <= mv.3 < COLS
}

/// Sum of the cell values inside the rectangle.
pub open spec fn rect_sum(values: Seq<u8>, mv: Move) -> int {
    region_sum(value_grid(values), mv.0 as int, mv.2 + 1, mv.1 as int, mv.3 + 1)
}

/// Row `r` holds a live cell in columns `c1..=c2`.
pub open spec fn row_has_live(values: Seq<u8>, r: int, c1: int, c2: int) -> bool {
    exists|c: int| c1 <= c <= c2 && #[trigger] value_at(values, r, c) > 0
}

/// Column `c` holds a live cell in rows `r1..=r2`.
pub open spec fn col_has_live(values: Seq<u8>, c: int, r1: int, r2: int) -> bool {
    exists|r: int| r1 <= r <= r2 && #[trigger] value_at(values, r, c) > 0
}

/// A legal rectangle: on the board, its values sum to exactly 10, and each of its four
/// border lines (top row, bottom row, left column, right column) holds a live cell.
pub open spec fn valid_rect(values: Seq<u8>, mv: Move) -> bool {
    &&& rect_in_board(mv)
    &&& rect_sum(values, mv) == 10
    &&& row_has_live(values, mv.0 as int, mv.1 as int, mv.3 as int)
    &&& row_has_live(values, mv.2 as int, mv.1 as int, mv.3 as int)
    &&& col_has_live(values, mv.1 as int, mv.0 as int, mv.2 as int)
    &&& col_has_live(values, mv.3 as int, mv.0 as int, mv.2 as int)
}

/// Flat cell `i` lies inside the rectangle.
pub open spec fn rect_contains(mv: Move, i: int) -> bool {
    0 <= i < N_CELLS && mv.0 <= i / (COLS as int) <= mv.2 && mv.1 <= i % (COLS as int) <= mv.3
}

/// Number of cells of the rectangle.
pub open spec fn rect_area(mv: Move) -> int {
    (mv.2 - mv.0 + 1) * (mv.3 - mv.1 + 1)
}

/// Position of a pair `lo <= hi` among all pairs of indices below `n`, pairs ordered by
/// `lo` then `hi`.
pub open spec fn pair_index(lo: int, hi: int, n: int) -> int {
    lo * n - (if lo > 0 { lo * (lo - 1) / 2 } else { 0 }) + (hi - lo)
}

/// The fixed identifier of a rectangle: its row pair index times the number of column pairs,
/// plus its column pair index, truncated to 16 bits.
pub open spec fn spec_fixed_rect_id(r1: int, c1: int, r2: int, c2: int) -> u16 {
    (pair_index(r1, r2, ROWS as int) * ((COLS * (COLS + 1) / 2) as int) + pair_index(
        c1,
        c2,
        COLS as int,
    )) as u16
}

/// The pair after the last pair with first index `lo` is `(lo + 1, lo + 1)`.
pub proof fn lemma_pair_next(lo: int, n: int)
    requires
        0 <= lo < n,
    ensures
        pair_index(lo, n - 1, n) + 1 == pair_index(lo + 1, lo + 1, n),
{
    assert((lo + 1) * n == lo * n + n) by (nonlinear_arith);
    assert((lo + 1) * lo / 2 == (if lo > 0 { lo * (lo - 1) / 2 } else { 0 }) + lo) by (nonlinear_arith)
        requires
            0 <= lo,
    {
        if lo > 0 {
            assert((lo + 1) * lo == lo * (lo - 1) + 2 * lo);
        }
    }
}

/// Pair indices follow the order of pairs by first then second index.
proof fn lemma_pair_index_order(lo1: int, hi1: int, lo2: int, hi2: int, n: int)
    requires
        0 <= lo1 <= hi1 < n,
        0 <= lo2 <= hi2 < n,
        lo1 < lo2 || (lo1 == lo2 && hi1 < hi2),
    ensures
        pair_index(lo1, hi1, n) < pair_index(lo2, hi2, n),
    decreases lo2 - lo1,
{
    if lo1 < lo2 {
        lemma_pair_next(lo1, n);
        if lo1 + 1 < lo2 || (lo1 + 1 == lo2 && lo1 + 1 < hi2) {
            lemma_pair_index_order(lo1 + 1, lo1 + 1, lo2, hi2, n);
        }
    }
}

/// `a` comes before `b` in the order of rectangles by top row, bottom row, left column and
/// right column.
pub open spec fn rect_before(a: Move, b: Move) -> bool {
    ||| a.0 < b.0
    ||| a.0 == b.0 && a.2 < b.2
    ||| a.0 == b.0 && a.2 == b.2 && a.1 < b.1
    ||| a.0 == b.0 && a.2 == b.2 && a.1 == b.1 && a.3 < b.3
}

/// The identifier of a rectangle on the board is below `N_RECTS`, and identifiers follow
/// the order of rectangles by top row, bottom row, left column and right column: a
/// rectangle before another has a smaller one, so that no two rectangles share one.
pub proof fn lemma_fixed_rect_id_order(a: Move, b: Move)
    requires
        rect_in_board(a),
        rect_in_board(b),
    ensures
        spec_fixed_rect_id(a.0 as int, a.1 as int, a.2 as int, a.3 as int) < crate::types::N_RECTS,
        rect_before(a, b) ==> spec_fixed_rect_id(a.0 as int, a.1 as int, a.2 as int, a.3 as int)
            < spec_fixed_rect_id(b.0 as int, b.1 as int, b.2 as int, b.3 as int),
        a != b ==> spec_fixed_rect_id(a.0 as int, a.1 as int, a.2 as int, a.3 as int)
            != spec_fixed_rect_id(b.0 as int, b.1 as int, b.2 as int, b.3 as int),
{
    lemma_rect_id_range(a);
    lemma_rect_id_range(b);
    let ra = pair_index(a.0 as int, a.2 as int, 10);
    let ca = pair_index(a.1 as int, a.3 as int, 17);
    let rb = pair_index(b.0 as int, b.2 as int, 10);
    let cb = pair_index(b.1 as int, b.3 as int, 17);
    if a.0 != b.0 || a.2 != b.2 {
        if a.0 < b.0 || (a.0 == b.0 && a.2 < b.2) {
            lemma_pair_index_order(a.0 as int, a.2 as int, b.0 as int, b.2 as int, 10);
        } else {
            lemma_pair_index_order(b.0 as int, b.2 as int, a.0 as int, a.2 as int, 10);
        }
        assert(ra < rb ==> ra * 153 + ca < rb * 153 + cb) by (nonlinear_arith)
            requires
                0 <= ca < 153,
                0 <= cb < 153,
        ;
        assert(rb < ra ==> rb * 153 + cb < ra * 153 + ca) by (nonlinear_arith)
            requires
                0 <= ca < 153,
                0 <= cb < 153,
        ;
    } else if a.1 != b.1 || a.3 != b.3 {
        if a.1 < b.1 || (a.1 == b.1 && a.3 < b.3) {
            lemma_pair_index_order(a.1 as int, a.3 as int, b.1 as int, b.3 as int, 17);
        } else {
            lemma_pair_index_order(b.1 as int, b.3 as int, a.1 as int, a.3 as int, 17);
        }
    }
}

/// The row and column pair indices of a rectangle on the board lie in `0..55` and `0..153`,
/// and its identifier is their combination, below `N_RECTS`.
proof fn lemma_rect_id_range(a: Move)
    requires
        rect_in_board(a),
    ensures
        0 <= pair_index(a.0 as int, a.2 as int, 10) < 55,
        0 <= pair_index(a.1 as int, a.3 as int, 17) < 153,
        spec_fixed_rect_id(a.0 as int, a.1 as int, a.2 as int, a.3 as int) == pair_index(
            a.0 as int,
            a.2 as int,
            10,
        ) * 153 + pair_index(a.1 as int, a.3 as int, 17),
        spec_fixed_rect_id(a.0 as int, a.1 as int, a.2 as int, a.3 as int) < 8415,
{
    let r = pair_index(a.0 as int, a.2 as int, 10);
    let c = pair_index(a.1 as int, a.3 as int, 17);
    if a.0 > 0 || a.2 > 0 {
        lemma_pair_index_order(0, 0, a.0 as int, a.2 as int, 10);
    }
    if a.0 < 9 || a.2 < 9 {
        lemma_pair_index_order(a.0 as int, a.2 as int, 9, 9, 10);
    }
    if a.1 > 0 || a.3 > 0 {
        lemma_pair_index_order(0, 0, a.1 as int, a.3 as int, 17);
    }
    if a.1 < 16 || a.3 < 16 {
        lemma_pair_index_order(a.1 as int, a.3 as int, 16, 16, 17);
    }
    assert(pair_index(9, 9, 10) == 54);
    assert(pair_index(16, 16, 17) == 152);
    assert(0 <= r * 153 + c <= 54 * 153 + 152) by (nonlinear_arith)
        requires
            0 <= r <= 54,
            0 <= c <= 152,
    ;
}

impl RectInfo {
    /// The rectangle as a move.
    pub open spec fn spec_move(self) -> Move {
        (self.r1, self.c1, self.r2, self.c2)
    }

    /// The record describes its rectangle correctly.
    pub open spec fn describes(self, values: Seq<u8>) -> bool {
        &&& valid_rect(values, self.spec_move())
        &&& self.id == spec_fixed_rect_id(
            self.r1 as int,
            self.c1 as int,
            self.r2 as int,
            self.c2 as int,
        )
        &&& self.area == rect_area(self.spec_move())
        &&& forall|i: int|
            0 <= i < N_BITS ==> #[trigger] self.cell_mask.bit(i) == rect_contains(
                self.spec_move(),
                i,
            )
    }

    /// The rectangle as a move.
    pub fn to_move(&self) -> (mv: Move)
        ensures
            mv == self.spec_move(),
    {
        (self.r1, self.c1, self.r2, self.c2)
    }
}

proof fn lemma_small_triangle(k: int, n: int)
    requires
        0 <= k <= 2 * n + 1,
        0 <= n <= 17,
    ensures
        k * (k - 1) / 2 <= k * n,
        k > 0 ==> k * (k - 1) / 2 >= 0,
{
    assert(k * (k - 1) / 2 <= k * n && (k > 0 ==> k * (k - 1) / 2 >= 0)) by (nonlinear_arith)
        requires
            0 <= k <= 2 * n + 1,
            0 <= n,
    {
        assert(k * (k - 1) >= 0);
        assert(k - 1 <= 2 * n);
        assert(k * (k - 1) <= k * (2 * n));
    }
}

/// The fixed identifier of rectangle `(r1, c1)`-`(r2, c2)`, unique among rectangles on the
/// board.
pub fn fixed_rect_id(r1: i8, c1: i8, r2: i8, c2: i8) -> (id: u16)
    requires
        0 <= r1 <= r2,
        0 <= c1 <= c2,
        r1 <= 2 * ROWS + 1,
        c1 <= 2 * COLS + 1,
    ensures
        id == spec_fixed_rect_id(r1 as int, c1 as int, r2 as int, c2 as int),
{
    let r1 = r1 as usize;
    let r2 = r2 as usize;
    let c1 = c1 as usize;
    let c2 = c2 as usize;
    proof {
        lemma_small_triangle(r1 as int, ROWS as int);
        lemma_small_triangle(c1 as int, COLS as int);
        assert(r1 * ROWS <= 35 * 10) by (nonlinear_arith)
            requires
                r1 <= 35,
        ;
        assert(c1 * COLS <= 35 * 17) by (nonlinear_arith)
            requires
                c1 <= 35,
        ;
    }
    let r_term = if r1 > 0 {
        r1 * (r1 - 1) / 2
    } else {
        0
    };
    let r_index = r1 * ROWS - r_term + (r2 - r1);
    let c_term = if c1 > 0 {
        c1 * (c1 - 1) / 2
    } else {
        0
    };
    let c_index = c1 * COLS - c_term + (c2 - c1);
    let cols_pairs = COLS * (COLS + 1) / 2;
    proof {
        assert(r_index <= 500);
        assert(c_index <= 1000);
        assert(r_index * cols_pairs <= 500 * 153) by (nonlinear_arith)
            requires
                r_index <= 500,
                cols_pairs == 153,
        ;
    }
    #[verifier::truncate]
    ((r_index * cols_pairs + c_index) as u16)
}


/// Whether `action` is a legal rectangle for the cell values `values`.
pub fn is_valid_rectangle(values: &[u8; N_CELLS], action: Move) -> (b: bool)
    ensures
        b == valid_rect(values@, action),
{
    let (r1, c1, r2, c2) = action;
    if r1 < 0 || c1 < 0 || r2 >= ROWS as i8 || c2 >= COLS as i8 || r1 > r2 || c1 > c2 {
        return false;
    }
    let (r1, c1, r2, c2) = (r1 as usize, c1 as usize, r2 as usize, c2 as usize);
    assert(action.0 == r1 && action.1 == c1 && action.2 == r2 && action.3 == c2);
    let ghost vals = values@;
    let ghost vg = value_grid(vals);
    let mut total = 0i32;
    let mut top = false;
    let mut bottom = false;
    let mut left = false;
    let mut right = false;
    let mut r = r1;
    while r <= r2
        invariant
            r1 <= r <= r2 + 1,
            r2 < ROWS,
            c1 <= c2 < COLS,
            vals == values@,
            vg == value_grid(vals),
            action.0 == r1 && action.1 == c1 && action.2 == r2 && action.3 == c2,
            0 <= total <= 10,
            total == region_sum(vg, r1 as int, r as int, c1 as int, c2 + 1),
            top == exists|cc: int|
                c1 <= cc <= c2 && r1 < r && #[trigger] value_at(vals, r1 as int, cc) > 0,
            bottom == exists|cc: int|
                c1 <= cc <= c2 && r2 < r && #[trigger] value_at(vals, r2 as int, cc) > 0,
            left == exists|rr: int|
                r1 <= rr < r && #[trigger] value_at(vals, rr, c1 as int) > 0,
            right == exists|rr: int|
                r1 <= rr < r && #[trigger] value_at(vals, rr, c2 as int) > 0,
        decreases r2 + 1 - r,
    {
        let mut c = c1;
        while c <= c2
            invariant
                r1 <= r <= r2,
                r2 < ROWS,
                c1 <= c <= c2 + 1,
                c2 < COLS,
                vals == values@,
                vg == value_grid(vals),
                action.0 == r1 && action.1 == c1 && action.2 == r2 && action.3 == c2,
                0 <= total <= 10,
                total == region_sum(vg, r1 as int, r as int, c1 as int, c2 + 1) + row_sum(
                    vg,
                    r as int,
                    c1 as int,
                    c as int,
                ),
                top == exists|cc: int|
                    c1 <= cc <= c2 && (r1 < r || (r1 == r && cc < c)) && #[trigger] value_at(
                        vals,
                        r1 as int,
                        cc,
                    ) > 0,
                bottom == exists|cc: int|
                    c1 <= cc <= c2 && (r2 == r && cc < c) && #[trigger] value_at(
                        vals,
                        r2 as int,
                        cc,
                    ) > 0,
                left == exists|rr: int|
                    (r1 <= rr < r || (rr == r && c1 < c)) && #[trigger] value_at(
                        vals,
                        rr,
                        c1 as int,
                    ) > 0,
                right == exists|rr: int|
                    (r1 <= rr < r || (rr == r && c2 < c)) && #[trigger] value_at(
                        vals,
                        rr,
                        c2 as int,
                    ) > 0,
            decreases c2 + 1 - c,
        {
            proof {
                lemma_cell_in_board(r as int, c as int);
            }
            let v = values[cell_index(r, c)] as i32;
            assert(v == value_at(vals, r as int, c as int));
            if v > 0 {
                total += v;
                if total > 10 {
                    proof {
                        lemma_row_sum_split(vg, r as int, c1 as int, c + 1, c2 + 1);
                        lemma_row_sum_nonneg(vg, r as int, c + 1, c2 + 1);
                        lemma_region_split_rows(vg, r1 as int, r as int, r2 + 1, c1 as int, c2 + 1);
                        lemma_region_split_rows(vg, r as int, r + 1, r2 + 1, c1 as int, c2 + 1);
                        lemma_region_nonneg(vg, r + 1, r2 + 1, c1 as int, c2 + 1);
                        assert(region_sum(vg, r as int, r as int, c1 as int, c2 + 1) == 0);
                        assert(region_sum(vg, r as int, r + 1, c1 as int, c2 + 1) == row_sum(
                            vg,
                            r as int,
                            c1 as int,
                            c2 + 1,
                        ));
                        assert(row_sum(vg, r as int, c1 as int, c + 1) == row_sum(
                            vg,
                            r as int,
                            c1 as int,
                            c as int,
                        ) + v);
                        assert(rect_sum(vals, action) == region_sum(
                            vg,
                            r1 as int,
                            r2 + 1,
                            c1 as int,
                            c2 + 1,
                        ));
                    }
                    return false;
                }
                if r == r1 {
                    top = true;
                }
                if r == r2 {
                    bottom = true;
                }
                if c == c1 {
                    left = true;
                }
                if c == c2 {
                    right = true;
                }
            }
            c += 1;
        }
        r += 1;
    }
    proof {
        assert(top == row_has_live(vals, r1 as int, c1 as int, c2 as int));
        assert(bottom == row_has_live(vals, r2 as int, c1 as int, c2 as int));
        assert(left == col_has_live(vals, c1 as int, r1 as int, r2 as int));
        assert(right == col_has_live(vals, c2 as int, r1 as int, r2 as int));
    }
    total == 10 && top && bottom && left && right
}


/// Flat cell `i` lies in rows `r1..=r2` and columns `c1..=c2`.
pub open spec fn in_span(r1: int, r2: int, c1: int, c2: int, i: int) -> bool {
    0 <= i < N_CELLS && r1 <= i / (COLS as int) <= r2 && c1 <= i % (COLS as int) <= c2
}

proof fn lemma_col_bits(n: u64, c1: u64, j: u64)
    requires
        1 <= n <= 17,
        c1 + n <= 17,
        j < 64,
    ensures
        word_bit((((1u64 << n) - 1) as u64) << c1, j as int) == (c1 <= j < c1 + n),
{
    assert((((((((1u64 << n) - 1) as u64) << c1) >> j) & 1u64) == 1u64) == (c1 <= j && j < c1 + n))
        by (bit_vector)
        requires
            1 <= n <= 17,
            c1 + n <= 17,
            j < 64,
    ;
}

proof fn lemma_shl_bit(x: u64, s: u64, j: u64)
    requires
        s < 64,
        j < 64,
    ensures
        word_bit(x << s, j as int) == (s <= j && word_bit(x, j - s)),
{
    if s <= j {
        let d = (j - s) as u64;
        assert((((x << s) >> j) & 1u64 == 1u64) == ((x >> d) & 1u64 == 1u64)) by (bit_vector)
            requires
                s < 64,
                j < 64,
                s <= j,
                d == j - s,
        ;
    } else {
        assert(((x << s) >> j) & 1u64 != 1u64) by (bit_vector)
            requires
                s < 64,
                j < s,
        ;
    }
}

proof fn lemma_shr_bit(x: u64, t: u64, j: u64)
    requires
        t < 64,
        j < 64,
        x < 0x20000,
    ensures
        word_bit(x >> t, j as int) == (j + t < 64 && word_bit(x, j + t)),
{
    if j + t < 64 {
        let d = (j + t) as u64;
        assert((((x >> t) >> j) & 1u64 == 1u64) == ((x >> d) & 1u64 == 1u64)) by (bit_vector)
            requires
                t < 64,
                j < 64,
                d == j + t,
                d < 64,
        ;
    } else {
        assert(((x >> t) >> j) & 1u64 != 1u64) by (bit_vector)
            requires
                t < 64,
                j < 64,
                j + t >= 64,
                x < 0x20000,
        ;
    }
}

/// The cells of rows `r1..=r2` and columns `c1..=c2`.
pub fn rect_mask(r1: usize, r2: usize, c1: usize, c2: usize) -> (bb: Bitboard)
    requires
        r1 <= r2 < ROWS,
        c1 <= c2 < COLS,
    ensures
        forall|i: int|
            0 <= i < N_BITS ==> #[trigger] bb.bit(i) == in_span(
                r1 as int,
                r2 as int,
                c1 as int,
                c2 as int,
                i,
            ),
        bb.count() == (r2 - r1 + 1) * (c2 - c1 + 1),
        bb.cells() == Set::new(|i: int| in_span(r1 as int, r2 as int, c1 as int, c2 as int, i)),
{
    let mut bb = Bitboard::empty();
    proof {
        let n = (c2 - c1 + 1) as u64;
        assert((1u64 << n) >= 1) by (bit_vector)
            requires
                n < 64,
        ;
    }
    let col_bits: u64 = if c2 - c1 + 1 >= 64 {
        u64::MAX
    } else {
        ((1u64 << ((c2 - c1 + 1) as u64)) - 1) << (c1 as u64)
    };
    proof {
        let n = (c2 - c1 + 1) as u64;
        assert(col_bits < 0x20000) by (bit_vector)
            requires
                col_bits == (((1u64 << n) - 1) as u64) << (c1 as u64),
                1 <= n <= 17,
                c1 + n <= 17,
        ;
        assert forall|k: u64| k < 64 implies #[trigger] word_bit(col_bits, k as int) == (c1 <= k
            <= c2) by {
            lemma_col_bits(n, c1 as u64, k);
        }
    }
    let mut r = r1;
    while r <= r2
        invariant
            r1 <= r <= r2 + 1,
            r2 < ROWS,
            c1 <= c2 < COLS,
            col_bits < 0x20000,
            forall|k: u64| k < 64 ==> #[trigger] word_bit(col_bits, k as int) == (c1 <= k <= c2),
            forall|i: int|
                0 <= i < N_BITS ==> #[trigger] bb.bit(i) == in_span(
                    r1 as int,
                    r as int - 1,
                    c1 as int,
                    c2 as int,
                    i,
                ),
        decreases r2 + 1 - r,
    {
        let base_bit = r * COLS;
        let word = base_bit / 64;
        let shift = base_bit % 64;
        let ghost before = bb;
        bb.0[word] = bb.0[word] | (col_bits << (shift as u64));
        let spill = shift + COLS > 64 && word + 1 < 3;
        if spill {
            bb.0[word + 1] = bb.0[word + 1] | (col_bits >> ((64 - shift) as u64));
        }
        proof {
            assert forall|i: int| 0 <= i < N_BITS implies #[trigger] bb.bit(i) == in_span(
                r1 as int,
                r as int,
                c1 as int,
                c2 as int,
                i,
            ) by {
                let wi = i / 64;
                let j = i % 64;
                let in_row = base_bit + c1 <= i <= base_bit + c2;
                assert(in_row == (i / 17 == r as int && c1 <= i % 17 <= c2)) by {
                    assert(i == 17 * (i / 17) + i % 17);
                    assert(0 <= i % 17 < 17);
                    if i / 17 < r as int {
                        assert(17 * (i / 17) + 17 <= 17 * (r as int));
                    }
                    if i / 17 > r as int {
                        assert(17 * (i / 17) >= 17 * (r as int) + 17);
                    }
                }
                assert(in_span(r1 as int, r as int, c1 as int, c2 as int, i) == (in_span(
                    r1 as int,
                    r as int - 1,
                    c1 as int,
                    c2 as int,
                    i,
                ) || in_row));
                assert(i == 64 * wi + j);
                assert(base_bit == 64 * word + shift);
                assert(before.bit(i) == in_span(
                    r1 as int,
                    r as int - 1,
                    c1 as int,
                    c2 as int,
                    i,
                ));
                if wi == word as int {
                    lemma_or_words(before.0@[wi], col_bits << (shift as u64), j as u64);
                    lemma_shl_bit(col_bits, shift as u64, j as u64);
                    if shift <= j {
                        let k = (j - shift) as u64;
                        assert(word_bit(col_bits, k as int) == (c1 <= k <= c2));
                    }
                    assert(bb.bit(i) == (before.bit(i) || in_row));
                } else if wi == word + 1 && spill {
                    lemma_or_words(before.0@[wi], col_bits >> ((64 - shift) as u64), j as u64);
                    lemma_shr_bit(col_bits, (64 - shift) as u64, j as u64);
                    if j + 64 - shift < 64 {
                        let k = (j + 64 - shift) as u64;
                        assert(word_bit(col_bits, k as int) == (c1 <= k <= c2));
                    }
                    assert(bb.bit(i) == (before.bit(i) || in_row));
                } else {
                    assert(bb.0@[wi] == before.0@[wi]);
                    assert(!in_row);
                }
            }
        }
        r += 1;
    }
    proof {
        lemma_span_mask(bb, r1 as int, r2 as int, c1 as int, c2 as int);
    }
    bb
}

proof fn lemma_span_count_below(bb: Bitboard, mv: Move, all: spec_fn(int) -> bool, n: nat)
    requires
        n <= N_BITS,
        forall|i: int| 0 <= i < N_BITS ==> #[trigger] bb.bit(i) == rect_contains(mv, i),
        forall|i: int| #[trigger] all(i),
    ensures
        bb.count_below(n) == crate::board::count_in_rect(mv, all, n),
    decreases n,
{
    if n > 0 {
        lemma_span_count_below(bb, mv, all, (n - 1) as nat);
        assert(bb.bit(n - 1) == rect_contains(mv, n - 1));
        assert(all(n - 1));
    }
}

/// A mask that holds exactly the cells of rows `r1..=r2` and columns `c1..=c2` of the board
/// (what `rect_mask` returns) holds as many cells as the rectangle's area, and its cells are
/// the rectangle's.
pub proof fn lemma_span_mask(bb: Bitboard, r1: int, r2: int, c1: int, c2: int)
    requires
        0 <= r1 <= r2 < ROWS,
        0 <= c1 <= c2 < COLS,
        forall|i: int| 0 <= i < N_BITS ==> #[trigger] bb.bit(i) == in_span(r1, r2, c1, c2, i),
    ensures
        bb.count() == (r2 - r1 + 1) * (c2 - c1 + 1),
        bb.cells() == Set::new(|i: int| in_span(r1, r2, c1, c2, i)),
{
    let mv: Move = (r1 as i8, c1 as i8, r2 as i8, c2 as i8);
    let all = |i: int| true;
    assert forall|i: int| 0 <= i < N_BITS implies #[trigger] bb.bit(i) == rect_contains(mv, i) by {
        assert(in_span(r1, r2, c1, c2, i) == rect_contains(mv, i));
    }
    lemma_span_count_below(bb, mv, all, N_BITS as nat);
    crate::board::lemma_count_gap(mv, all, N_CELLS as nat, N_BITS as nat);
    crate::board::lemma_count_all(mv, all);
    assert(bb.cells() =~= Set::new(|i: int| in_span(r1, r2, c1, c2, i)));
}


/// Row width of a prefix table indexed by (row, column).
pub const PW: usize = 18;
/// Row width of a prefix table indexed by (column, row).
pub const PH: usize = 11;
/// Number of entries of a prefix table.
pub const PREFIX_LEN: usize = 198;

/// `p` holds, at `a * w + b`, the prefix sum of `f` over `[0, a) x [0, b)`, for
/// `a <= n_a` and `b <= n_b`.
pub open spec fn prefix_table(
    p: Seq<i32>,
    f: spec_fn(int, int) -> int,
    n_a: int,
    n_b: int,
    w: int,
) -> bool {
    forall|a: int, b: int| 0 <= a <= n_a && 0 <= b <= n_b ==> #[trigger] p[a * w + b] == prefix(f, a, b)
}

/// The first row and first column of a table of width `w` are zero.
pub open spec fn zero_border(p: Seq<i32>, n_a: int, n_b: int, w: int) -> bool {
    &&& forall|b: int| 0 <= b <= n_b ==> #[trigger] p[b] == 0
    &&& forall|a: int| 0 <= a <= n_a ==> #[trigger] p[a * w] == 0
}

/// Fills `p` with prefix sums of the cell values, by (row, column).
fn prefix_sum(values: &[u8; N_CELLS], p: &mut [i32; PREFIX_LEN])
    requires
        zero_border(old(p)@, ROWS as int, COLS as int, 18),
    ensures
        prefix_table(final(p)@, value_grid(values@), ROWS as int, COLS as int, 18),
{
    let ghost f = value_grid(values@);
    proof {
        lemma_value_grid_bytes(values@);
    }
    let mut r: usize = 0;
    while r < ROWS
        invariant
            r <= ROWS,
            f == value_grid(values@),
            byte_valued(f),
            forall|a: int, b: int|
                0 <= a <= r && 0 <= b <= COLS ==> #[trigger] p@[a * 18 + b] == prefix(f, a, b),
            forall|a: int| r < a <= ROWS ==> #[trigger] p@[a * 18] == 0,
        decreases ROWS - r,
    {
        let mut rt: i32 = 0;
        let mut c: usize = 0;
        proof {
            lemma_prefix_zero_col(f, r + 1);
        }
        while c < COLS
            invariant
                r < ROWS,
                c <= COLS,
                f == value_grid(values@),
                byte_valued(f),
                rt == row_sum(f, r as int, 0, c as int),
                forall|a: int, b: int|
                    0 <= a <= r && 0 <= b <= COLS ==> #[trigger] p@[a * 18 + b] == prefix(f, a, b),
                forall|b: int|
                    0 <= b <= c ==> #[trigger] p@[(r + 1) * 18 + b] == prefix(f, r + 1, b),
                forall|a: int| r + 1 < a <= ROWS ==> #[trigger] p@[a * 18] == 0,
            decreases COLS - c,
        {
            proof {
                lemma_cell_in_board(r as int, c as int);
                lemma_row_sum_bound(f, r as int, c + 1);
                lemma_prefix_bound(f, r as int, c + 1);
                lemma_prefix_next_row(f, r as int, c + 1);
                assert(p@[r * 18 + (c + 1)] == prefix(f, r as int, c + 1));
            }
            rt += values[cell_index(r, c)] as i32;
            p[(r + 1) * PW + c + 1] = p[r * PW + c + 1] + rt;
            c += 1;
        }
        r += 1;
    }
}

/// Fills `p` with prefix counts of the live cells, by (row, column).
fn live_prefix(values: &[u8; N_CELLS], p: &mut [i32; PREFIX_LEN])
    requires
        zero_border(old(p)@, ROWS as int, COLS as int, 18),
    ensures
        prefix_table(final(p)@, live_grid(values@), ROWS as int, COLS as int, 18),
{
    let ghost f = live_grid(values@);
    proof {
        lemma_value_grid_bytes(values@);
    }
    let mut r: usize = 0;
    while r < ROWS
        invariant
            r <= ROWS,
            f == live_grid(values@),
            byte_valued(f),
            forall|a: int, b: int|
                0 <= a <= r && 0 <= b <= COLS ==> #[trigger] p@[a * 18 + b] == prefix(f, a, b),
            forall|a: int| r < a <= ROWS ==> #[trigger] p@[a * 18] == 0,
        decreases ROWS - r,
    {
        let mut rt: i32 = 0;
        let mut c: usize = 0;
        proof {
            lemma_prefix_zero_col(f, r + 1);
        }
        while c < COLS
            invariant
                r < ROWS,
                c <= COLS,
                f == live_grid(values@),
                byte_valued(f),
                rt == row_sum(f, r as int, 0, c as int),
                forall|a: int, b: int|
                    0 <= a <= r && 0 <= b <= COLS ==> #[trigger] p@[a * 18 + b] == prefix(f, a, b),
                forall|b: int|
                    0 <= b <= c ==> #[trigger] p@[(r + 1) * 18 + b] == prefix(f, r + 1, b),
                forall|a: int| r + 1 < a <= ROWS ==> #[trigger] p@[a * 18] == 0,
            decreases COLS - c,
        {
            proof {
                lemma_cell_in_board(r as int, c as int);
                lemma_row_sum_bound(f, r as int, c + 1);
                lemma_prefix_bound(f, r as int, c + 1);
                lemma_prefix_next_row(f, r as int, c + 1);
                assert(p@[r * 18 + (c + 1)] == prefix(f, r as int, c + 1));
            }
            rt += (values[cell_index(r, c)] > 0) as i32;
            p[(r + 1) * PW + c + 1] = p[r * PW + c + 1] + rt;
            c += 1;
        }
        r += 1;
    }
}

/// Fills `p` with prefix counts of the live cells, by (column, row).
fn live_prefix_col(values: &[u8; N_CELLS], p: &mut [i32; PREFIX_LEN])
    requires
        zero_border(old(p)@, COLS as int, ROWS as int, 11),
    ensures
        prefix_table(final(p)@, live_grid_by_col(values@), COLS as int, ROWS as int, 11),
{
    let ghost f = live_grid_by_col(values@);
    proof {
        lemma_value_grid_bytes(values@);
    }
    let mut c: usize = 0;
    while c < COLS
        invariant
            c <= COLS,
            f == live_grid_by_col(values@),
            byte_valued(f),
            forall|a: int, b: int|
                0 <= a <= c && 0 <= b <= ROWS ==> #[trigger] p@[a * 11 + b] == prefix(f, a, b),
            forall|a: int| c < a <= COLS ==> #[trigger] p@[a * 11] == 0,
        decreases COLS - c,
    {
        let mut ct: i32 = 0;
        let mut r: usize = 0;
        proof {
            lemma_prefix_zero_col(f, c + 1);
        }
        while r < ROWS
            invariant
                c < COLS,
                r <= ROWS,
                f == live_grid_by_col(values@),
                byte_valued(f),
                ct == row_sum(f, c as int, 0, r as int),
                forall|a: int, b: int|
                    0 <= a <= c && 0 <= b <= ROWS ==> #[trigger] p@[a * 11 + b] == prefix(f, a, b),
                forall|b: int|
                    0 <= b <= r ==> #[trigger] p@[(c + 1) * 11 + b] == prefix(f, c + 1, b),
                forall|a: int| c + 1 < a <= COLS ==> #[trigger] p@[a * 11] == 0,
            decreases ROWS - r,
        {
            proof {
                lemma_cell_in_board(r as int, c as int);
                lemma_row_sum_bound(f, c as int, r + 1);
                lemma_prefix_bound(f, c as int, r + 1);
                lemma_prefix_next_row(f, c as int, r + 1);
                assert(p@[c * 11 + (r + 1)] == prefix(f, c as int, r + 1));
            }
            ct += (values[cell_index(r, c)] > 0) as i32;
            p[(c + 1) * PH + r + 1] = p[c * PH + r + 1] + ct;
            r += 1;
        }
        c += 1;
    }
}


/// Every entry of a prefix table lies in `0..=80000`.
pub open spec fn entries_bounded(p: Seq<i32>) -> bool {
    forall|k: int| 0 <= k < PREFIX_LEN ==> 0 <= #[trigger] p[k] <= 80000
}

proof fn lemma_table_bounded(p: Seq<i32>, f: spec_fn(int, int) -> int, n_a: int, n_b: int)
    requires
        p.len() == PREFIX_LEN,
        (n_a == ROWS && n_b == COLS) || (n_a == COLS && n_b == ROWS),
        prefix_table(p, f, n_a, n_b, n_b + 1),
        byte_valued(f),
    ensures
        entries_bounded(p),
{
    assert forall|k: int| 0 <= k < PREFIX_LEN implies 0 <= #[trigger] p[k] <= 80000 by {
        if n_b == COLS {
            let a = k / 18;
            let b = k % 18;
            assert(p[a * (n_b + 1) + b] == prefix(f, a, b));
            lemma_prefix_bound(f, a, b);
        } else {
            let a = k / 11;
            let b = k % 11;
            assert(p[a * (n_b + 1) + b] == prefix(f, a, b));
            lemma_prefix_bound(f, a, b);
        }
    }
}

/// Sum over rows `r1..=r2` and columns `c1..=c2` read from a (row, column) prefix table.
fn rect_sum_row(p: &[i32; PREFIX_LEN], r1: usize, c1: usize, r2: usize, c2: usize) -> (s: i32)
    requires
        r1 <= r2 < ROWS,
        c1 <= c2 < COLS,
        entries_bounded(p@),
    ensures
        s == p@[(r2 + 1) * 18 + c2 + 1] - p@[r1 * 18 + c2 + 1] - p@[(r2 + 1) * 18 + c1] + p@[r1
            * 18 + c1],
{
    p[(r2 + 1) * PW + c2 + 1] - p[r1 * PW + c2 + 1] - p[(r2 + 1) * PW + c1] + p[r1 * PW + c1]
}

/// Sum over columns `r1..=r2` and rows `c1..=c2` read from a (column, row) prefix table.
fn rect_sum_col(p: &[i32; PREFIX_LEN], r1: usize, c1: usize, r2: usize, c2: usize) -> (s: i32)
    requires
        r1 <= r2 < COLS,
        c1 <= c2 < ROWS,
        entries_bounded(p@),
    ensures
        s == p@[(r2 + 1) * 11 + c2 + 1] - p@[r1 * 11 + c2 + 1] - p@[(r2 + 1) * 11 + c1] + p@[r1
            * 11 + c1],
{
    p[(r2 + 1) * PH + c2 + 1] - p[r1 * PH + c2 + 1] - p[(r2 + 1) * PH + c1] + p[r1 * PH + c1]
}

proof fn lemma_row_live(values: Seq<u8>, r: int, c1: int, c2: int)
    ensures
        (row_sum(live_grid(values), r, c1, c2 + 1) > 0) == row_has_live(values, r, c1, c2),
{
    let f = live_grid(values);
    lemma_indicator_row_positive(f, r, c1, c2 + 1);
    if row_has_live(values, r, c1, c2) {
        let c = choose|c: int| c1 <= c <= c2 && #[trigger] value_at(values, r, c) > 0;
        assert(f(r, c) == 1);
    }
    if exists|c: int| c1 <= c < c2 + 1 && #[trigger] f(r, c) == 1 {
        let c = choose|c: int| c1 <= c < c2 + 1 && #[trigger] f(r, c) == 1;
        assert(value_at(values, r, c) > 0);
    }
}

proof fn lemma_col_live(values: Seq<u8>, c: int, r1: int, r2: int)
    ensures
        (row_sum(live_grid_by_col(values), c, r1, r2 + 1) > 0) == col_has_live(values, c, r1, r2),
{
    let f = live_grid_by_col(values);
    lemma_indicator_row_positive(f, c, r1, r2 + 1);
    if col_has_live(values, c, r1, r2) {
        let r = choose|r: int| r1 <= r <= r2 && #[trigger] value_at(values, r, c) > 0;
        assert(f(c, r) == 1);
    }
    if exists|r: int| r1 <= r < r2 + 1 && #[trigger] f(c, r) == 1 {
        let r = choose|r: int| r1 <= r < r2 + 1 && #[trigger] f(c, r) == 1;
        assert(value_at(values, r, c) > 0);
    }
}

/// `mv` comes before position `(r1, r2, c1, c2)` in the order rows-top, rows-bottom,
/// columns-left, columns-right.
pub open spec fn lex_before(mv: Move, r1: int, r2: int, c1: int, c2: int) -> bool {
    mv.0 < r1 || (mv.0 == r1 && (mv.2 < r2 || (mv.2 == r2 && (mv.1 < c1 || (mv.1 == c1 && mv.3
        < c2)))))
}

/// Strict order on rectangles: by top row, then bottom row, then left column, then right
/// column.
pub open spec fn move_lt(a: Move, b: Move) -> bool {
    lex_before(a, b.0 as int, b.2 as int, b.1 as int, b.3 as int)
}

/// Some record of `rects` describes `mv`.
pub open spec fn lists_move(rects: Seq<RectInfo>, mv: Move) -> bool {
    exists|k: int| 0 <= k < rects.len() && (#[trigger] rects[k]).spec_move() == mv
}

/// `rects` lists, in order and each once, exactly the legal rectangles of `values` that
/// come before position `(r1, r2, c1, c2)`.
pub open spec fn listed_before(
    values: Seq<u8>,
    rects: Seq<RectInfo>,
    r1: int,
    r2: int,
    c1: int,
    c2: int,
) -> bool {
    &&& forall|k: int| 0 <= k < rects.len() ==> (#[trigger] rects[k]).describes(values)
    &&& forall|i: int, j: int|
        0 <= i < j < rects.len() ==> move_lt(
            (#[trigger] rects[i]).spec_move(),
            (#[trigger] rects[j]).spec_move(),
        )
    &&& forall|k: int|
        0 <= k < rects.len() ==> lex_before((#[trigger] rects[k]).spec_move(), r1, r2, c1, c2)
    &&& forall|mv: Move|
        valid_rect(values, mv) && lex_before(mv, r1, r2, c1, c2) ==> #[trigger] lists_move(
            rects,
            mv,
        )
}

/// All legal rectangles for the cell values `values`, ordered by top row, bottom row, left
/// column and right column.
pub fn generate_rectangles(values: &[u8; N_CELLS]) -> (rects: Vec<RectInfo>)
    ensures
        forall|k: int| 0 <= k < rects@.len() ==> (#[trigger] rects@[k]).describes(values@),
        forall|i: int, j: int|
            0 <= i < j < rects@.len() ==> move_lt(
                (#[trigger] rects@[i]).spec_move(),
                (#[trigger] rects@[j]).spec_move(),
            ),
        forall|mv: Move| valid_rect(values@, mv) ==> #[trigger] lists_move(rects@, mv),
        moves_of(rects@) == legal_rects(values@),
{
    let ghost vals = values@;
    let ghost vg = value_grid(vals);
    let ghost lg = live_grid(vals);
    let ghost lgc = live_grid_by_col(vals);
    let mut vp = [0i32; PREFIX_LEN];
    let mut lp = [0i32; PREFIX_LEN];
    let mut lpc = [0i32; PREFIX_LEN];
    prefix_sum(values, &mut vp);
    live_prefix(values, &mut lp);
    live_prefix_col(values, &mut lpc);
    proof {
        lemma_value_grid_bytes(vals);
        lemma_table_bounded(vp@, vg, ROWS as int, COLS as int);
        lemma_table_bounded(lp@, lg, ROWS as int, COLS as int);
        lemma_table_bounded(lpc@, lgc, COLS as int, ROWS as int);
    }
    let mut rects: Vec<RectInfo> = Vec::with_capacity(256);
    let mut r1: usize = 0;
    while r1 < ROWS
        invariant
            r1 <= ROWS,
            vals == values@,
            vg == value_grid(vals),
            lg == live_grid(vals),
            lgc == live_grid_by_col(vals),
            byte_valued(vg),
            prefix_table(vp@, vg, ROWS as int, COLS as int, 18),
            prefix_table(lp@, lg, ROWS as int, COLS as int, 18),
            prefix_table(lpc@, lgc, COLS as int, ROWS as int, 11),
            entries_bounded(vp@),
            entries_bounded(lp@),
            entries_bounded(lpc@),
            listed_before(vals, rects@, r1 as int, 0, 0, 0),
        decreases ROWS - r1,
    {
        proof {
            lemma_listed_start_bottom(vals, rects@, r1 as int);
        }
        let mut r2: usize = r1;
        while r2 < ROWS
            invariant
                r1 < ROWS,
                r1 <= r2 <= ROWS,
                vals == values@,
                vg == value_grid(vals),
                lg == live_grid(vals),
                lgc == live_grid_by_col(vals),
                byte_valued(vg),
                prefix_table(vp@, vg, ROWS as int, COLS as int, 18),
                prefix_table(lp@, lg, ROWS as int, COLS as int, 18),
                prefix_table(lpc@, lgc, COLS as int, ROWS as int, 11),
                entries_bounded(vp@),
                entries_bounded(lp@),
                entries_bounded(lpc@),
                listed_before(vals, rects@, r1 as int, r2 as int, 0, 0),
            decreases ROWS - r2,
        {
            let mut col_sums = [0i32; COLS];
            let mut c: usize = 0;
            while c < COLS
                invariant
                    r1 <= r2 < ROWS,
                    c <= COLS,
                    vg == value_grid(vals),
                    byte_valued(vg),
                    prefix_table(vp@, vg, ROWS as int, COLS as int, 18),
                    entries_bounded(vp@),
                    forall|k: int|
                        0 <= k < c ==> #[trigger] col_sums@[k] == region_sum(
                            vg,
                            r1 as int,
                            r2 + 1,
                            k,
                            k + 1,
                        ),
                decreases COLS - c,
            {
                proof {
                    lemma_region_from_prefix(vg, r1 as int, r2 + 1, c as int, c + 1);
                    assert(vp@[(r2 + 1) * 18 + (c + 1)] == prefix(vg, r2 + 1, c + 1));
                    assert(vp@[r1 * 18 + (c + 1)] == prefix(vg, r1 as int, c + 1));
                    assert(vp@[(r2 + 1) * 18 + c] == prefix(vg, r2 + 1, c as int));
                    assert(vp@[r1 * 18 + c] == prefix(vg, r1 as int, c as int));
                }
                col_sums[c] = vp[(r2 + 1) * PW + c + 1] - vp[r1 * PW + c + 1] - vp[(r2 + 1) * PW
                    + c] + vp[r1 * PW + c];
                c += 1;
            }
            let mut c1: usize = 0;
            while c1 < COLS
                invariant
                    r1 <= r2 < ROWS,
                    c1 <= COLS,
                    vals == values@,
                    vg == value_grid(vals),
                    lg == live_grid(vals),
                    lgc == live_grid_by_col(vals),
                    byte_valued(vg),
                    prefix_table(lp@, lg, ROWS as int, COLS as int, 18),
                    prefix_table(lpc@, lgc, COLS as int, ROWS as int, 11),
                    entries_bounded(lp@),
                    entries_bounded(lpc@),
                    forall|k: int|
                        0 <= k < COLS ==> #[trigger] col_sums@[k] == region_sum(
                            vg,
                            r1 as int,
                            r2 + 1,
                            k,
                            k + 1,
                        ),
                    listed_before(vals, rects@, r1 as int, r2 as int, c1 as int, 0),
                decreases COLS - c1,
            {
                proof {
                    lemma_listed_start_right(vals, rects@, r1 as int, r2 as int, c1 as int);
                    lemma_region_empty_cols(vg, r1 as int, r2 + 1, c1 as int);
                }
                let mut total: i32 = 0;
                let mut c2: usize = c1;
                while c2 < COLS
                    invariant_except_break
                        c1 <= c2 <= COLS,
                        0 <= total <= 10,
                        total == region_sum(vg, r1 as int, r2 + 1, c1 as int, c2 as int),
                        listed_before(vals, rects@, r1 as int, r2 as int, c1 as int, c2 as int),
                    invariant
                        r1 <= r2 < ROWS,
                        c1 < COLS,
                        vals == values@,
                        vg == value_grid(vals),
                        lg == live_grid(vals),
                        lgc == live_grid_by_col(vals),
                        byte_valued(vg),
                        prefix_table(lp@, lg, ROWS as int, COLS as int, 18),
                        prefix_table(lpc@, lgc, COLS as int, ROWS as int, 11),
                        entries_bounded(lp@),
                        entries_bounded(lpc@),
                        forall|k: int|
                            0 <= k < COLS ==> #[trigger] col_sums@[k] == region_sum(
                                vg,
                                r1 as int,
                                r2 + 1,
                                k,
                                k + 1,
                            ),
                    ensures
                        listed_before(vals, rects@, r1 as int, r2 as int, c1 + 1, 0),
                    decreases COLS - c2,
                {
                    proof {
                        lemma_region_split_cols(vg, r1 as int, r2 + 1, c1 as int, c2 as int, c2 + 1);
                        lemma_region_nonneg(vg, r1 as int, r2 + 1, c2 as int, c2 + 1);
                        lemma_column_bound(vg, r1 as int, r2 + 1, c2 as int);
                    }
                    total += col_sums[c2];
                    if total > 10 {
                        proof {
                            lemma_exceeded_row_tail(
                                vals,
                                rects@,
                                r1 as int,
                                r2 as int,
                                c1 as int,
                                c2 as int,
                            );
                        }
                        break;
                    }
                    let ghost prev = rects@;
                    if total == 10 {
                        let top = rect_sum_row(&lp, r1, c1, r1, c2) > 0;
                        let bottom = rect_sum_row(&lp, r2, c1, r2, c2) > 0;
                        let left = rect_sum_col(&lpc, c1, r1, c1, r2) > 0;
                        let right = rect_sum_col(&lpc, c2, r1, c2, r2) > 0;
                        proof {
                            lemma_live_lines(
                                vals,
                                lp@,
                                lpc@,
                                r1 as int,
                                r2 as int,
                                c1 as int,
                                c2 as int,
                            );
                        }
                        if top && bottom && left && right {
                            let cm = rect_mask(r1, r2, c1, c2);
                            proof {
                                assert((r2 - r1 + 1) * (c2 - c1 + 1) <= 10 * 17) by (nonlinear_arith)
                                    requires
                                        r1 <= r2 < 10,
                                        c1 <= c2 < 17,
                                ;
                            }
                            let info = RectInfo {
                                id: fixed_rect_id(r1 as i8, c1 as i8, r2 as i8, c2 as i8),
                                r1: r1 as i8,
                                c1: c1 as i8,
                                r2: r2 as i8,
                                c2: c2 as i8,
                                area: ((r2 - r1 + 1) * (c2 - c1 + 1)) as u8,
                                cell_mask: cm,
                            };
                            proof {
                                assert(info.spec_move() == (
                                    r1 as i8,
                                    c1 as i8,
                                    r2 as i8,
                                    c2 as i8,
                                ));
                                assert forall|i: int| 0 <= i < N_BITS implies #[trigger] info.cell_mask.bit(
                                    i,
                                ) == rect_contains(info.spec_move(), i) by {}
                                assert(valid_rect(vals, info.spec_move()));
                                assert(info.describes(vals));
                            }
                            rects.push(info);
                            proof {
                                lemma_listed_after_push(
                                    vals,
                                    prev,
                                    rects@,
                                    info,
                                    r1 as int,
                                    r2 as int,
                                    c1 as int,
                                    c2 as int,
                                );
                            }
                        } else {
                            proof {
                                lemma_listed_skip(
                                    vals,
                                    rects@,
                                    r1 as int,
                                    r2 as int,
                                    c1 as int,
                                    c2 as int,
                                (r1 as i8, c1 as i8, r2 as i8, c2 as i8),
                                );
                            }
                        }
                    } else {
                        proof {
                            lemma_listed_skip(
                                vals,
                                rects@,
                                r1 as int,
                                r2 as int,
                                c1 as int,
                                c2 as int,
                                (r1 as i8, c1 as i8, r2 as i8, c2 as i8),
                            );
                        }
                    }
                    c2 += 1;
                }
                c1 += 1;
            }
            proof {
                lemma_listed_next_row(vals, rects@, r1 as int, r2 as int);
            }
            r2 += 1;
        }
        proof {
            lemma_listed_next_top(vals, rects@, r1 as int);
        }
        r1 += 1;
    }
    proof {
        assert forall|mv: Move| valid_rect(vals, mv) implies #[trigger] lists_move(rects@, mv) by {
            assert(lex_before(mv, ROWS as int, 0, 0, 0));
        }
        lemma_moves_are_legal_rects(vals, rects@);
    }
    rects
}

/// Moving the position forward keeps `listed_before` when no legal rectangle lies between
/// the two positions.
proof fn lemma_listed_advance(
    values: Seq<u8>,
    rects: Seq<RectInfo>,
    p: (int, int, int, int),
    q: (int, int, int, int),
)
    requires
        listed_before(values, rects, p.0, p.1, p.2, p.3),
        forall|mv: Move|
            lex_before(mv, p.0, p.1, p.2, p.3) ==> lex_before(mv, q.0, q.1, q.2, q.3),
        forall|mv: Move|
            valid_rect(values, mv) && lex_before(mv, q.0, q.1, q.2, q.3) ==> lex_before(
                mv,
                p.0,
                p.1,
                p.2,
                p.3,
            ),
    ensures
        listed_before(values, rects, q.0, q.1, q.2, q.3),
{
    assert forall|k: int| 0 <= k < rects.len() implies lex_before(
        (#[trigger] rects[k]).spec_move(),
        q.0,
        q.1,
        q.2,
        q.3,
    ) by {
        assert(lex_before(rects[k].spec_move(), p.0, p.1, p.2, p.3));
    }
    assert forall|mv: Move| valid_rect(values, mv) && lex_before(mv, q.0, q.1, q.2, q.3) implies #[trigger] lists_move(
        rects,
        mv,
    ) by {
        assert(lex_before(mv, p.0, p.1, p.2, p.3));
    }
}

proof fn lemma_exceeded_row_tail(
    values: Seq<u8>,
    rects: Seq<RectInfo>,
    r1: int,
    r2: int,
    c1: int,
    c2: int,
)
    requires
        0 <= r1 <= r2 < ROWS,
        0 <= c1 <= c2 < COLS,
        listed_before(values, rects, r1, r2, c1, c2),
        region_sum(value_grid(values), r1, r2 + 1, c1, c2 + 1) > 10,
    ensures
        listed_before(values, rects, r1, r2, c1 + 1, 0),
{
    let vg = value_grid(values);
    lemma_value_grid_bytes(values);
    assert forall|mv: Move| valid_rect(values, mv) && lex_before(mv, r1, r2, c1 + 1, 0) implies lex_before(
        mv,
        r1,
        r2,
        c1,
        c2,
    ) by {
        if mv.0 == r1 && mv.2 == r2 && mv.1 == c1 && mv.3 >= c2 {
            lemma_region_split_cols(vg, r1, r2 + 1, c1, c2 + 1, mv.3 + 1);
            lemma_region_nonneg(vg, r1, r2 + 1, c2 + 1, mv.3 + 1);
            assert(rect_sum(values, mv) > 10);
        }
    }
    lemma_listed_advance(values, rects, (r1, r2, c1, c2), (r1, r2, c1 + 1, 0));
}

proof fn lemma_listed_after_push(
    values: Seq<u8>,
    prev: Seq<RectInfo>,
    now: Seq<RectInfo>,
    info: RectInfo,
    r1: int,
    r2: int,
    c1: int,
    c2: int,
)
    requires
        listed_before(values, prev, r1, r2, c1, c2),
        now == prev.push(info),
        info.describes(values),
        info.spec_move().0 == r1 && info.spec_move().2 == r2 && info.spec_move().1 == c1
            && info.spec_move().3 == c2,
    ensures
        listed_before(values, now, r1, r2, c1, c2 + 1),
{
    let n = prev.len() as int;
    assert(now[n] == info);
    assert forall|k: int| 0 <= k < now.len() implies (#[trigger] now[k]).describes(values) by {
        if k < n {
            assert(now[k] == prev[k]);
        }
    }
    assert forall|i: int, j: int| 0 <= i < j < now.len() implies move_lt(
        (#[trigger] now[i]).spec_move(),
        (#[trigger] now[j]).spec_move(),
    ) by {
        assert(now[i] == prev[i]);
        if j < n {
            assert(now[j] == prev[j]);
            assert(move_lt(prev[i].spec_move(), prev[j].spec_move()));
        } else {
            assert(lex_before(prev[i].spec_move(), r1, r2, c1, c2));
        }
    }
    assert forall|k: int| 0 <= k < now.len() implies lex_before(
        (#[trigger] now[k]).spec_move(),
        r1,
        r2,
        c1,
        c2 + 1,
    ) by {
        if k < n {
            assert(now[k] == prev[k]);
            assert(lex_before(prev[k].spec_move(), r1, r2, c1, c2));
        }
    }
    assert forall|mv: Move| valid_rect(values, mv) && lex_before(mv, r1, r2, c1, c2 + 1) implies #[trigger] lists_move(
        now,
        mv,
    ) by {
        if lex_before(mv, r1, r2, c1, c2) {
            assert(lists_move(prev, mv));
            let k = choose|k: int| 0 <= k < prev.len() && (#[trigger] prev[k]).spec_move() == mv;
            assert(now[k] == prev[k]);
        } else {
            assert(now[n].spec_move() == mv);
        }
    }
}

proof fn lemma_listed_skip(
    values: Seq<u8>,
    rects: Seq<RectInfo>,
    r1: int,
    r2: int,
    c1: int,
    c2: int,
    mv: Move,
)
    requires
        listed_before(values, rects, r1, r2, c1, c2),
        mv.0 == r1 && mv.2 == r2 && mv.1 == c1 && mv.3 == c2,
        !valid_rect(values, mv),
    ensures
        listed_before(values, rects, r1, r2, c1, c2 + 1),
{
    lemma_listed_advance(values, rects, (r1, r2, c1, c2), (r1, r2, c1, c2 + 1));
}

proof fn lemma_listed_next_row(values: Seq<u8>, rects: Seq<RectInfo>, r1: int, r2: int)
    requires
        listed_before(values, rects, r1, r2, COLS as int, 0),
    ensures
        listed_before(values, rects, r1, r2 + 1, 0, 0),
{
    lemma_listed_advance(values, rects, (r1, r2, COLS as int, 0), (r1, r2 + 1, 0, 0));
}

proof fn lemma_listed_next_top(values: Seq<u8>, rects: Seq<RectInfo>, r1: int)
    requires
        listed_before(values, rects, r1, ROWS as int, 0, 0),
    ensures
        listed_before(values, rects, r1 + 1, 0, 0, 0),
{
    lemma_listed_advance(values, rects, (r1, ROWS as int, 0, 0), (r1 + 1, 0, 0, 0));
}

proof fn lemma_listed_start_bottom(values: Seq<u8>, rects: Seq<RectInfo>, r1: int)
    requires
        0 <= r1,
        listed_before(values, rects, r1, 0, 0, 0),
    ensures
        listed_before(values, rects, r1, r1, 0, 0),
{
    lemma_listed_advance(values, rects, (r1, 0, 0, 0), (r1, r1, 0, 0));
}

proof fn lemma_listed_start_right(values: Seq<u8>, rects: Seq<RectInfo>, r1: int, r2: int, c1: int)
    requires
        0 <= c1,
        listed_before(values, rects, r1, r2, c1, 0),
    ensures
        listed_before(values, rects, r1, r2, c1, c1),
{
    lemma_listed_advance(values, rects, (r1, r2, c1, 0), (r1, r2, c1, c1));
}

proof fn lemma_live_lines(
    values: Seq<u8>,
    lp: Seq<i32>,
    lpc: Seq<i32>,
    r1: int,
    r2: int,
    c1: int,
    c2: int,
)
    requires
        0 <= r1 <= r2 < ROWS,
        0 <= c1 <= c2 < COLS,
        prefix_table(lp, live_grid(values), ROWS as int, COLS as int, 18),
        prefix_table(lpc, live_grid_by_col(values), COLS as int, ROWS as int, 11),
    ensures
        (lp[(r1 + 1) * 18 + c2 + 1] - lp[r1 * 18 + c2 + 1] - lp[(r1 + 1) * 18 + c1] + lp[r1 * 18
            + c1] > 0) == row_has_live(values, r1, c1, c2),
        (lp[(r2 + 1) * 18 + c2 + 1] - lp[r2 * 18 + c2 + 1] - lp[(r2 + 1) * 18 + c1] + lp[r2 * 18
            + c1] > 0) == row_has_live(values, r2, c1, c2),
        (lpc[(c1 + 1) * 11 + r2 + 1] - lpc[c1 * 11 + r2 + 1] - lpc[(c1 + 1) * 11 + r1] + lpc[c1
            * 11 + r1] > 0) == col_has_live(values, c1, r1, r2),
        (lpc[(c2 + 1) * 11 + r2 + 1] - lpc[c2 * 11 + r2 + 1] - lpc[(c2 + 1) * 11 + r1] + lpc[c2
            * 11 + r1] > 0) == col_has_live(values, c2, r1, r2),
{
    let lg = live_grid(values);
    let lgc = live_grid_by_col(values);
    lemma_single_line(lp, lg, ROWS as int, COLS as int, 18, r1, c1, c2);
    lemma_single_line(lp, lg, ROWS as int, COLS as int, 18, r2, c1, c2);
    lemma_single_line(lpc, lgc, COLS as int, ROWS as int, 11, c1, r1, r2);
    lemma_single_line(lpc, lgc, COLS as int, ROWS as int, 11, c2, r1, r2);
    lemma_row_live(values, r1, c1, c2);
    lemma_row_live(values, r2, c1, c2);
    lemma_col_live(values, c1, r1, r2);
    lemma_col_live(values, c2, r1, r2);
}

/// The table entries for a single line `a` and range `b1..=b2` give the line's row sum.
proof fn lemma_single_line(
    p: Seq<i32>,
    f: spec_fn(int, int) -> int,
    n_a: int,
    n_b: int,
    w: int,
    a: int,
    b1: int,
    b2: int,
)
    requires
        0 <= a < n_a,
        0 <= b1 <= b2 < n_b,
        prefix_table(p, f, n_a, n_b, w),
    ensures
        p[(a + 1) * w + b2 + 1] - p[a * w + b2 + 1] - p[(a + 1) * w + b1] + p[a * w + b1]
            == row_sum(f, a, b1, b2 + 1),
{
    lemma_region_from_prefix(f, a, a + 1, b1, b2 + 1);
    assert(p[(a + 1) * w + (b2 + 1)] == prefix(f, a + 1, b2 + 1));
    assert(p[a * w + (b2 + 1)] == prefix(f, a, b2 + 1));
    assert(p[(a + 1) * w + b1] == prefix(f, a + 1, b1));
    assert(p[a * w + b1] == prefix(f, a, b1));
    assert(region_sum(f, a, a, b1, b2 + 1) == 0);
}

/// Number of corner quadruples `(r1, r2, c1, c2)` with every coordinate on the board.
pub open spec fn n_enum() -> int {
    (ROWS * ROWS * COLS * COLS) as int
}

/// The corner quadruple at position `k` of the enumeration ordered by top row, bottom row,
/// left column, right column.
pub open spec fn enum_move(k: int) -> Move {
    (
        (k / 2890) as i8,
        ((k / 17) % 17) as i8,
        ((k / 289) % 10) as i8,
        (k % 17) as i8,
    )
}

/// Position of a rectangle in that enumeration.
pub open spec fn enum_index(mv: Move) -> int {
    ((mv.0 * ROWS + mv.2) * COLS + mv.1) * COLS + mv.3
}

/// The quadruples at enumeration positions `k..` that satisfy `pred`, in enumeration order.
pub open spec fn enum_filter(pred: spec_fn(Move) -> bool, k: int) -> Seq<Move>
    decreases n_enum() - k,
{
    if k >= n_enum() || k < 0 {
        Seq::empty()
    } else if pred(enum_move(k)) {
        seq![enum_move(k)] + enum_filter(pred, k + 1)
    } else {
        enum_filter(pred, k + 1)
    }
}

/// Legality as a predicate on moves.
pub open spec fn legal_pred(values: Seq<u8>) -> spec_fn(Move) -> bool {
    |mv: Move| valid_rect(values, mv)
}

/// All legal rectangles, ordered by top row, bottom row, left column, right column.
pub open spec fn legal_rects(values: Seq<u8>) -> Seq<Move> {
    enum_filter(legal_pred(values), 0)
}

/// The moves of a list of rectangle records.
pub open spec fn moves_of(rects: Seq<RectInfo>) -> Seq<Move> {
    rects.map_values(|r: RectInfo| r.spec_move())
}

proof fn lemma_enum_move_index(k: int)
    requires
        0 <= k < n_enum(),
    ensures
        enum_index(enum_move(k)) == k,
{
    let a = k / 17;
    let c2 = k % 17;
    let b = a / 17;
    let c1 = a % 17;
    let r1 = b / 10;
    let r2 = b % 10;
    assert(k == a * 17 + c2);
    assert(a == b * 17 + c1);
    assert(b == r1 * 10 + r2);
    assert(b < 100);
    assert(k / 289 == b) by {
        assert(k == b * 289 + (c1 * 17 + c2));
        assert(0 <= c1 * 17 + c2 < 289);
    }
    assert(k / 2890 == r1) by {
        assert(k == r1 * 2890 + (r2 * 289 + c1 * 17 + c2));
        assert(0 <= r2 * 289 + c1 * 17 + c2 < 2890);
    }
}

proof fn lemma_enum_roundtrip(mv: Move)
    requires
        rect_in_board(mv),
    ensures
        0 <= enum_index(mv) < n_enum(),
        enum_move(enum_index(mv)) == mv,
{
    let k = enum_index(mv);
    assert(k / 2890 == mv.0);
    assert((k / 17) % 17 == mv.1);
    assert((k / 289) % 10 == mv.2);
    assert(k % 17 == mv.3);
}

proof fn lemma_enum_order(a: Move, b: Move)
    requires
        rect_in_board(a),
        rect_in_board(b),
    ensures
        move_lt(a, b) == (enum_index(a) < enum_index(b)),
{
}

#[verifier::spinoff_prover]
#[verifier::rlimit(40)]
proof fn lemma_filter_members(pred: spec_fn(Move) -> bool, k: int)
    requires
        0 <= k <= n_enum(),
        forall|mv: Move| #[trigger] pred(mv) ==> rect_in_board(mv),
    ensures
        forall|mv: Move|
            #[trigger] enum_filter(pred, k).contains(mv) <==> (pred(mv)
                && enum_index(mv) >= k),
    decreases n_enum() - k,
{
    let s = enum_filter(pred, k);
    if k == n_enum() {
        assert forall|mv: Move| #[trigger] s.contains(mv) <==> (pred(mv)
            && enum_index(mv) >= k) by {
            if pred(mv) {
                lemma_enum_roundtrip(mv);
            }
        }
    } else {
        lemma_filter_members(pred, k + 1);
        let rest = enum_filter(pred, k + 1);
        let m = enum_move(k);
        assert forall|mv: Move| #[trigger] s.contains(mv) <==> (pred(mv)
            && enum_index(mv) >= k) by {
            if pred(mv) {
                lemma_enum_roundtrip(mv);
            }
            if pred(m) {
                assert(s == seq![m] + rest);
                if s.contains(mv) {
                    let t = choose|t: int| 0 <= t < s.len() && s[t] == mv;
                    if t > 0 {
                        assert(rest[t - 1] == mv);
                        assert(rest.contains(mv));
                    } else {
                        lemma_enum_roundtrip(m);
                    }
                }
                if pred(mv) && enum_index(mv) >= k {
                    if enum_index(mv) == k {
                        assert(s[0] == mv);
                    } else {
                        assert(rest.contains(mv));
                        let t = choose|t: int| 0 <= t < rest.len() && rest[t] == mv;
                        assert(s[t + 1] == mv);
                    }
                }
            } else {
                if pred(mv) && enum_index(mv) == k {
                    assert(mv == m);
                }
            }
        }
    }
}

/// Every legal rectangle is a valid rectangle of the board.
pub proof fn lemma_legal_rects_valid(values: Seq<u8>)
    ensures
        forall|k: int|
            0 <= k < legal_rects(values).len() ==> valid_rect(values, #[trigger] legal_rects(values)[k]),
{
    lemma_filter_members(legal_pred(values), 0);
    assert forall|k: int| 0 <= k < legal_rects(values).len() implies valid_rect(
        values,
        #[trigger] legal_rects(values)[k],
    ) by {
        assert(legal_rects(values).contains(legal_rects(values)[k]));
    }
}

proof fn lemma_filter_sorted(pred: spec_fn(Move) -> bool, k: int)
    requires
        0 <= k <= n_enum(),
        forall|mv: Move| #[trigger] pred(mv) ==> rect_in_board(mv),
    ensures
        forall|i: int, j: int|
            0 <= i < j < enum_filter(pred, k).len() ==> move_lt(
                #[trigger] enum_filter(pred, k)[i],
                #[trigger] enum_filter(pred, k)[j],
            ),
    decreases n_enum() - k,
{
    let s = enum_filter(pred, k);
    if k < n_enum() {
        lemma_filter_sorted(pred, k + 1);
        lemma_filter_members(pred, k + 1);
        let rest = enum_filter(pred, k + 1);
        let m = enum_move(k);
        if pred(m) {
            assert(s == seq![m] + rest);
            assert forall|i: int, j: int| 0 <= i < j < s.len() implies move_lt(
                #[trigger] s[i],
                #[trigger] s[j],
            ) by {
                if i == 0 {
                    assert(s[j] == rest[j - 1]);
                    assert(rest.contains(s[j]));
                    assert(pred(s[j]) && enum_index(s[j]) >= k + 1);
                    lemma_enum_roundtrip(s[j]);
                    lemma_enum_order(m, s[j]);
                    lemma_enum_move_index(k);
                } else {
                    assert(s[i] == rest[i - 1] && s[j] == rest[j - 1]);
                }
            }
        }
    }
}

proof fn lemma_move_lt_trans(a: Move, b: Move, c: Move)
    requires
        move_lt(a, b),
        move_lt(b, c),
    ensures
        move_lt(a, c),
{
}

/// Two strictly ordered lists of moves with the same members are equal.
proof fn lemma_sorted_unique(s1: Seq<Move>, s2: Seq<Move>)
    requires
        forall|i: int, j: int| 0 <= i < j < s1.len() ==> move_lt(#[trigger] s1[i], #[trigger] s1[j]),
        forall|i: int, j: int| 0 <= i < j < s2.len() ==> move_lt(#[trigger] s2[i], #[trigger] s2[j]),
        forall|mv: Move| #[trigger] s1.contains(mv) <==> s2.contains(mv),
    ensures
        s1 == s2,
    decreases s1.len(),
{
    if s1.len() == 0 {
        if s2.len() > 0 {
            assert(s2.contains(s2[0]));
            assert(s1.contains(s2[0]));
        }
        assert(s1 =~= s2);
    } else {
        assert(s1.contains(s1[0]));
        assert(s2.contains(s1[0]));
        assert(s2.len() > 0);
        assert(s2.contains(s2[0]));
        assert(s1.contains(s2[0]));
        let a = s1[0];
        let b = s2[0];
        let ia = choose|t: int| 0 <= t < s2.len() && s2[t] == a;
        let ib = choose|t: int| 0 <= t < s1.len() && s1[t] == b;
        if a != b {
            assert(ia > 0 && ib > 0);
            assert(move_lt(s2[0], s2[ia]));
            assert(move_lt(s1[0], s1[ib]));
            lemma_move_lt_trans(a, b, a);
        }
        let t1 = s1.drop_first();
        let t2 = s2.drop_first();
        assert forall|mv: Move| #[trigger] t1.contains(mv) <==> t2.contains(mv) by {
            if t1.contains(mv) {
                let t = choose|t: int| 0 <= t < t1.len() && t1[t] == mv;
                assert(s1[t + 1] == mv);
                assert(move_lt(s1[0], s1[t + 1]));
                assert(s1.contains(mv));
                assert(s2.contains(mv));
                let u = choose|u: int| 0 <= u < s2.len() && s2[u] == mv;
                assert(u != 0);
                assert(t2[u - 1] == mv);
            }
            if t2.contains(mv) {
                let t = choose|t: int| 0 <= t < t2.len() && t2[t] == mv;
                assert(s2[t + 1] == mv);
                assert(move_lt(s2[0], s2[t + 1]));
                assert(s2.contains(mv));
                assert(s1.contains(mv));
                let u = choose|u: int| 0 <= u < s1.len() && s1[u] == mv;
                assert(u != 0);
                assert(t1[u - 1] == mv);
            }
        }
        assert forall|i: int, j: int| 0 <= i < j < t1.len() implies move_lt(
            #[trigger] t1[i],
            #[trigger] t1[j],
        ) by {
            assert(t1[i] == s1[i + 1] && t1[j] == s1[j + 1]);
        }
        assert forall|i: int, j: int| 0 <= i < j < t2.len() implies move_lt(
            #[trigger] t2[i],
            #[trigger] t2[j],
        ) by {
            assert(t2[i] == s2[i + 1] && t2[j] == s2[j + 1]);
        }
        lemma_sorted_unique(t1, t2);
        assert(s1 =~= seq![a] + t1);
        assert(s2 =~= seq![b] + t2);
    }
}

/// A list of records that describes, in order, exactly the legal rectangles, has as moves
/// the legal rectangles.
proof fn lemma_moves_are_legal_rects(values: Seq<u8>, rects: Seq<RectInfo>)
    requires
        forall|k: int| 0 <= k < rects.len() ==> (#[trigger] rects[k]).describes(values),
        forall|i: int, j: int|
            0 <= i < j < rects.len() ==> move_lt(
                (#[trigger] rects[i]).spec_move(),
                (#[trigger] rects[j]).spec_move(),
            ),
        forall|mv: Move| valid_rect(values, mv) ==> #[trigger] lists_move(rects, mv),
    ensures
        moves_of(rects) == legal_rects(values),
{
    let m = moves_of(rects);
    lemma_filter_members(legal_pred(values), 0);
    lemma_filter_sorted(legal_pred(values), 0);
    assert forall|mv: Move| #[trigger] m.contains(mv) <==> legal_rects(values).contains(mv) by {
        if m.contains(mv) {
            let t = choose|t: int| 0 <= t < m.len() && m[t] == mv;
            assert(rects[t].describes(values));
            lemma_enum_roundtrip(mv);
        }
        if legal_rects(values).contains(mv) {
            assert(lists_move(rects, mv));
            let t = choose|t: int| 0 <= t < rects.len() && (#[trigger] rects[t]).spec_move() == mv;
            assert(m[t] == mv);
        }
    }
    assert forall|i: int, j: int| 0 <= i < j < m.len() implies move_lt(
        #[trigger] m[i],
        #[trigger] m[j],
    ) by {
        assert(m[i] == rects[i].spec_move() && m[j] == rects[j].spec_move());
    }
    lemma_sorted_unique(m, legal_rects(values));
}
} // verus!
