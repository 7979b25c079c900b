use vstd::prelude::*;
use vstd::string::StrSliceExecFns;

use crate::bitboard::{
    lemma_count_after_insert, lemma_count_after_remove, lemma_count_ext, Bitboard, N_BITS,
};
use crate::movegen::{is_valid_rectangle, legal_rects, rect_contains, rect_in_board, valid_rect};
use crate::tt::{applied_owners, applied_values, hash_board, hash_update, position_hash};
use crate::types::{
    cell_index, is_pass, opponent, spec_opponent, Move, COLS, FIRST, N_CELLS, PASS, ROWS, SECOND,
};

verus! {

/// A game position with cached cell sets.
#[derive(Clone, Copy, Debug)]
pub struct Board {
    pub values: [u8; N_CELLS],
    pub owners: [i8; N_CELLS],
    pub player: i8,
    pub passes: u8,
    pub hash: u64,
    pub my_mask: Bitboard,
    pub opp_mask: Bitboard,
    pub live_mask: Bitboard,
    pub empty_mask: Bitboard,
}

/// One of the two players.
pub open spec fn valid_player(p: i8) -> bool {
    p == FIRST || p == SECOND
}

/// Every cell is unowned or owned by one of the two players.
pub open spec fn valid_owners(owners: Seq<i8>) -> bool {
    forall|i: int| 0 <= i < owners.len() ==> #[trigger] owners[i] == 0 || owners[i] == FIRST
        || owners[i] == SECOND
}

/// Number of cells below `n` owned by `p`.
pub open spec fn owned_below(owners: Seq<i8>, p: i8, n: nat) -> nat
    decreases n,
{
    if n == 0 {
        0
    } else {
        owned_below(owners, p, (n - 1) as nat) + if owners[n - 1] == p { 1nat } else { 0nat }
    }
}

/// Number of cells owned by `p`.
pub open spec fn owned_count(owners: Seq<i8>, p: i8) -> nat {
    owned_below(owners, p, N_CELLS as nat)
}

/// Number of live cells below `n`.
pub open spec fn live_below(values: Seq<u8>, n: nat) -> nat
    decreases n,
{
    if n == 0 {
        0
    } else {
        live_below(values, (n - 1) as nat) + if values[n - 1] > 0 { 1nat } else { 0nat }
    }
}

/// Cell sets `my`, `opp`, `live` and `empty` as derived from owners, values and the side to
/// move: cells of the side to move, of its opponent, with a live mushroom, and of neither
/// player.
pub open spec fn masks_match(
    values: Seq<u8>,
    owners: Seq<i8>,
    player: i8,
    my: Bitboard,
    opp: Bitboard,
    live: Bitboard,
    empty: Bitboard,
) -> bool {
    forall|i: int|
        0 <= i < N_BITS ==> #[trigger] cell_masks_match(values, owners, player, my, opp, live, empty, i)
}

/// The four cell sets agree with the position at cell `i`.
pub open spec fn cell_masks_match(
    values: Seq<u8>,
    owners: Seq<i8>,
    player: i8,
    my: Bitboard,
    opp: Bitboard,
    live: Bitboard,
    empty: Bitboard,
    i: int,
) -> bool {
    &&& my.bit(i) == (i < N_CELLS && owners[i] == player)
    &&& opp.bit(i) == (i < N_CELLS && owners[i] != player && owners[i] == spec_opponent(player))
    &&& live.bit(i) == (i < N_CELLS && values[i] > 0)
    &&& empty.bit(i) == (i < N_CELLS && owners[i] != player && owners[i] != spec_opponent(player))
}

/// Cells of the rectangle with no owner.
pub open spec fn fresh_pred(owners: Seq<i8>) -> spec_fn(int) -> bool {
    |i: int| owners[i] == 0
}

/// Cells of the rectangle owned by `opp`.
pub open spec fn owned_by_pred(owners: Seq<i8>, p: i8) -> spec_fn(int) -> bool {
    |i: int| owners[i] == p
}

/// Cells of the rectangle owned, but not by `opp`.
pub open spec fn own_pred(owners: Seq<i8>, opp: i8) -> spec_fn(int) -> bool {
    |i: int| owners[i] != 0 && owners[i] != opp
}

/// Cells of the rectangle holding a live mushroom.
pub open spec fn live_pred(values: Seq<u8>) -> spec_fn(int) -> bool {
    |i: int| values[i] > 0
}

/// The ordering score of `mv` for `player`: (fresh + 2 * recaptured, recaptured, fresh, live,
/// area - own, area), counted over the cells of the rectangle, with `-10000` first for a
/// pass.
pub open spec fn spec_action_score(values: Seq<u8>, owners: Seq<i8>, player: i8, mv: Move) -> (
    int,
    int,
    int,
    int,
    int,
    int,
) {
    if mv == PASS {
        (-10000, 0, 0, 0, 0, 0)
    } else {
        let opp = spec_opponent(player);
        let fresh = count_in_rect(mv, fresh_pred(owners), N_CELLS as nat) as int;
        let rec = count_in_rect(mv, owned_by_pred(owners, opp), N_CELLS as nat) as int;
        let own = count_in_rect(mv, own_pred(owners, opp), N_CELLS as nat) as int;
        let live = count_in_rect(mv, live_pred(values), N_CELLS as nat) as int;
        let area = crate::movegen::rect_area(mv);
        (fresh + 2 * rec, rec, fresh, live, area - own, area)
    }
}

/// One step of a row-major walk over the rectangle: the count through the next flat index.
pub proof fn lemma_count_step(mv: Move, pred: spec_fn(int) -> bool, r: int, c: int)
    requires
        rect_in_board(mv),
        mv.0 <= r <= mv.2,
        mv.1 <= c <= mv.3,
    ensures
        rect_contains(mv, r * COLS + c),
        count_in_rect(mv, pred, (r * COLS + c + 1) as nat) == count_in_rect(
            mv,
            pred,
            (r * COLS + c) as nat,
        ) + if pred(r * COLS + c) { 1nat } else { 0nat },
{
    let i = r * COLS + c;
    assert(i / 17 == r && i % 17 == c);
    crate::grid::lemma_cell_in_board(r, c);
}

/// Moving a row-major walk from the end of row `r` to the start of row `r + 1` crosses no
/// cell of the rectangle.
pub proof fn lemma_count_next_row(mv: Move, pred: spec_fn(int) -> bool, r: int)
    requires
        rect_in_board(mv),
        mv.0 <= r <= mv.2,
    ensures
        count_in_rect(mv, pred, ((r + 1) * COLS + mv.1) as nat) == count_in_rect(
            mv,
            pred,
            (r * COLS + mv.3 + 1) as nat,
        ),
        r == mv.2 ==> count_in_rect(mv, pred, N_CELLS as nat) == count_in_rect(
            mv,
            pred,
            (r * COLS + mv.3 + 1) as nat,
        ),
{
    let a = (r * COLS + mv.3 + 1) as nat;
    assert forall|i: int| a <= i < (r + 1) * COLS + mv.1 implies !rect_contains(mv, i) by {
        if i < (r + 1) * COLS {
            assert(i / 17 == r);
        } else {
            assert(i / 17 == r + 1);
        }
    }
    lemma_count_gap(mv, pred, a, ((r + 1) * COLS + mv.1) as nat);
    if r == mv.2 {
        assert forall|i: int| a <= i < N_CELLS implies !rect_contains(mv, i) by {
            if i < (r + 1) * COLS {
                assert(i / 17 == r);
            } else {
                assert(i / 17 > r);
            }
        }
        lemma_count_gap(mv, pred, a, N_CELLS as nat);
    }
}

/// Before the first cell of the rectangle no cell of it is counted.
pub proof fn lemma_count_start(mv: Move, pred: spec_fn(int) -> bool)
    requires
        rect_in_board(mv),
    ensures
        count_in_rect(mv, pred, (mv.0 * COLS + mv.1) as nat) == 0,
{
    assert forall|i: int| 0 <= i < mv.0 * COLS + mv.1 implies !rect_contains(mv, i) by {
        if i < mv.0 * COLS {
            assert(i / 17 < mv.0);
        } else {
            assert(i / 17 == mv.0);
        }
    }
    lemma_count_gap(mv, pred, 0, (mv.0 * COLS + mv.1) as nat);
}

/// `ch` has the Unicode White_Space property (as `char::is_whitespace`).
pub open spec fn is_ws(ch: char) -> bool {
    let u = ch as u32;
    (0x9 <= u <= 0xd) || u == 0x20 || u == 0x85 || u == 0xa0 || u == 0x1680 || (0x2000 <= u
        <= 0x200a) || u == 0x2028 || u == 0x2029 || u == 0x202f || u == 0x205f || u == 0x3000
}

/// Index of the first non-whitespace character of `s` at or after `k`, or `s.len()`.
pub open spec fn first_non_ws(s: Seq<char>, k: int) -> int
    decreases s.len() - k,
{
    if k >= s.len() {
        s.len() as int
    } else if is_ws(s[k]) {
        first_non_ws(s, k + 1)
    } else {
        k
    }
}

/// End of `s[a..k]` once its trailing whitespace is removed.
pub open spec fn end_non_ws(s: Seq<char>, a: int, k: int) -> int
    decreases k - a,
{
    if k <= a {
        a
    } else if is_ws(s[k - 1]) {
        end_non_ws(s, a, k - 1)
    } else {
        k
    }
}

/// `s` without leading and trailing whitespace (as `str::trim`).
pub open spec fn trimmed(s: Seq<char>) -> Seq<char> {
    let a = first_non_ws(s, 0);
    s.subrange(a, end_non_ws(s, a, s.len() as int))
}

/// The decimal digit `ch` stands for, or 0 when it is not a digit.
pub open spec fn digit_or_zero(ch: char) -> u8 {
    if '0' <= ch <= '9' {
        (ch as u32 - '0' as u32) as u8
    } else {
        0
    }
}

/// The value of cell `i` once rows `0..r` of the text are written in turn, row `k`, trimmed,
/// from cell `k * COLS` on (running on into the next board rows when longer than a board
/// row), one digit per character (0 for a non-digit), a later write replacing an earlier
/// one; 0 where no row reaches.
pub open spec fn written_value(rows: Seq<Seq<char>>, i: int, r: int) -> u8
    decreases r,
{
    if r <= 0 {
        0u8
    } else {
        let t = trimmed(rows[r - 1]);
        let c = i - (r - 1) * COLS;
        if 0 <= c < t.len() {
            digit_or_zero(t[c])
        } else {
            written_value(rows, i, r - 1)
        }
    }
}

/// Cell values read from text rows: the board's rows of text written in turn (see
/// `written_value`); a row of at most `COLS` characters gives exactly its board row.
pub open spec fn values_from_rows(rows: Seq<Seq<char>>) -> Seq<u8> {
    Seq::new(N_CELLS as nat, |i: int| written_value(rows, i, ROWS as int))
}

/// Every row of text, trimmed and written from the start of its board row, ends within the
/// board.
pub open spec fn rows_fit(rows: Seq<Seq<char>>) -> bool {
    forall|r: int| 0 <= r < ROWS ==> r * COLS + #[trigger] trimmed(rows[r]).len() <= N_CELLS
}

/// The entry of a tool board for cell `i`.
pub open spec fn tool_cell(board: Seq<Vec<i32>>, i: int) -> i32 {
    board[i / (COLS as int)]@[i % (COLS as int)]
}

/// Cell values of a tool board: positive entries are mushroom values (taken modulo 256).
pub open spec fn values_from_tool(board: Seq<Vec<i32>>) -> Seq<u8> {
    Seq::new(
        N_CELLS as nat,
        |i: int|
            if tool_cell(board, i) > 0 {
                tool_cell(board, i) as u8
            } else {
                0u8
            },
    )
}

/// Owners of a tool board: -1 marks the first player's cells, -2 the second player's.
pub open spec fn owners_from_tool(board: Seq<Vec<i32>>) -> Seq<i8> {
    Seq::new(
        N_CELLS as nat,
        |i: int|
            if tool_cell(board, i) > 0 {
                0i8
            } else if tool_cell(board, i) == -1 {
                FIRST
            } else if tool_cell(board, i) == -2 {
                SECOND
            } else {
                0i8
            },
    )
}

/// `char::is_whitespace`.
fn is_ws_char(ch: char) -> (b: bool)
    ensures
        b == is_ws(ch),
{
    let u = ch as u32;
    (0x9 <= u && u <= 0xd) || u == 0x20 || u == 0x85 || u == 0xa0 || u == 0x1680 || (0x2000 <= u
        && u <= 0x200a) || u == 0x2028 || u == 0x2029 || u == 0x202f || u == 0x205f || u == 0x3000
}

fn digit_value(ch: char) -> (d: u8)
    ensures
        d == digit_or_zero(ch),
{
    if '0' <= ch && ch <= '9' {
        (ch as u32 - '0' as u32) as u8
    } else {
        0
    }
}

/// Bounds `(a, b)` such that `s[a..b]` is `s` trimmed.
pub(crate) fn trim_bounds(s: &str) -> (ab: (usize, usize))
    ensures
        ab.0 == first_non_ws(s@, 0),
        ab.1 == end_non_ws(s@, ab.0 as int, s@.len() as int),
        ab.0 <= ab.1 <= s@.len(),
{
    let n = s.unicode_len();
    let mut a: usize = 0;
    while a < n && is_ws_char(s.get_char(a))
        invariant
            n == s@.len(),
            a <= n,
            first_non_ws(s@, a as int) == first_non_ws(s@, 0),
        decreases n - a,
    {
        a += 1;
    }
    let mut b: usize = n;
    while b > a && is_ws_char(s.get_char(b - 1))
        invariant
            n == s@.len(),
            a <= b <= n,
            a == first_non_ws(s@, 0),
            end_non_ws(s@, a as int, b as int) == end_non_ws(s@, a as int, n as int),
        decreases b - a,
    {
        b -= 1;
    }
    (a, b)
}

/// The rectangles `a` and `b` share a cell; a pass overlaps nothing.
pub open spec fn spec_overlap(a: Move, b: Move) -> bool {
    a != PASS && b != PASS && !(a.2 < b.0 || b.2 < a.0 || a.3 < b.1 || b.3 < a.1)
}

/// The immediate gain of `mv` for `player`: fresh cells plus twice the recaptured cells.
pub open spec fn immediate_gain(values: Seq<u8>, owners: Seq<i8>, player: i8, mv: Move) -> int {
    spec_action_score(values, owners, player, mv).0
}

/// The best net gain the side to move (`player`) can take back by replying, within
/// `depth` plies, on a rectangle overlapping `anchor`: the largest of 0 and, over the legal
/// replies overlapping `anchor`, the reply's immediate gain minus the opponent's own best
/// take-back against it.
pub open spec fn exchange_gain(
    values: Seq<u8>,
    owners: Seq<i8>,
    player: i8,
    anchor: Move,
    depth: nat,
) -> int
    decreases depth, 1int, 0int,
{
    if depth == 0 {
        0
    } else {
        exchange_gain_over(
            values,
            owners,
            player,
            anchor,
            depth,
            legal_rects(values),
            legal_rects(values).len(),
        )
    }
}

/// `exchange_gain` restricted to the first `n` replies of `replies`.
pub open spec fn exchange_gain_over(
    values: Seq<u8>,
    owners: Seq<i8>,
    player: i8,
    anchor: Move,
    depth: nat,
    replies: Seq<Move>,
    n: nat,
) -> int
    decreases depth, 0int, n,
{
    if n == 0 || depth == 0 {
        0
    } else {
        let best = exchange_gain_over(values, owners, player, anchor, depth, replies, (n - 1) as nat);
        let reply = replies[n - 1];
        if !spec_overlap(reply, anchor) {
            best
        } else {
            let net = immediate_gain(values, owners, player, reply) - exchange_gain(
                applied_values(values, reply),
                applied_owners(owners, reply, player),
                spec_opponent(player),
                reply,
                (depth - 1) as nat,
            );
            if net > best {
                net
            } else {
                best
            }
        }
    }
}

/// Exchange evaluation of `mv`: its immediate gain less what the opponent can take back on
/// overlapping rectangles within `reply_depth` plies; `i32::MIN / 4` for a pass or an
/// illegal move.
pub open spec fn exchange_eval(
    values: Seq<u8>,
    owners: Seq<i8>,
    player: i8,
    mv: Move,
    reply_depth: nat,
) -> int {
    if mv == PASS || !valid_rect(values, mv) {
        i32::MIN / 4
    } else if reply_depth == 0 {
        immediate_gain(values, owners, player, mv)
    } else {
        immediate_gain(values, owners, player, mv) - exchange_gain(
            applied_values(values, mv),
            applied_owners(owners, mv, player),
            spec_opponent(player),
            mv,
            (reply_depth - 1) as nat,
        )
    }
}

/// Rectangles `a` and `b` share a cell of the board.
pub open spec fn shares_cell(a: Move, b: Move) -> bool {
    exists|i: int| #[trigger] rect_contains(a, i) && rect_contains(b, i)
}

proof fn lemma_overlap_shares_cell(a: Move, b: Move)
    requires
        rect_in_board(a),
        rect_in_board(b),
        spec_overlap(a, b),
    ensures
        shares_cell(a, b),
{
    let r: int = if a.0 >= b.0 { a.0 as int } else { b.0 as int };
    let c: int = if a.1 >= b.1 { a.1 as int } else { b.1 as int };
    let i = r * 17 + c;
    assert(i / 17 == r && i % 17 == c);
    assert(rect_contains(a, i) && rect_contains(b, i));
}

proof fn lemma_gain_over_nothing(
    values: Seq<u8>,
    owners: Seq<i8>,
    player: i8,
    anchor: Move,
    depth: nat,
    replies: Seq<Move>,
    n: nat,
)
    requires
        n <= replies.len(),
        forall|k: int| 0 <= k < n ==> !spec_overlap(#[trigger] replies[k], anchor),
    ensures
        exchange_gain_over(values, owners, player, anchor, depth, replies, n) == 0,
    decreases n,
{
    if n > 0 && depth > 0 {
        lemma_gain_over_nothing(values, owners, player, anchor, depth, replies, (n - 1) as nat);
        assert(!spec_overlap(replies[n - 1], anchor));
    }
}

proof fn lemma_gain_over_nonneg(
    values: Seq<u8>,
    owners: Seq<i8>,
    player: i8,
    anchor: Move,
    depth: nat,
    replies: Seq<Move>,
    n: nat,
)
    ensures
        exchange_gain_over(values, owners, player, anchor, depth, replies, n) >= 0,
    decreases n,
{
    if n > 0 && depth > 0 {
        lemma_gain_over_nonneg(values, owners, player, anchor, depth, replies, (n - 1) as nat);
    }
}

/// The opponent's take-back never adds to a move's value: the exchange evaluation of a
/// legal move is at most its immediate gain, its unowned cells plus twice its opponent
/// cells, and equals it at reply depth 0.
pub proof fn lemma_exchange_at_most_gain(
    values: Seq<u8>,
    owners: Seq<i8>,
    player: i8,
    mv: Move,
    reply_depth: nat,
)
    requires
        valid_rect(values, mv),
    ensures
        exchange_eval(values, owners, player, mv, reply_depth) <= count_in_rect(
            mv,
            fresh_pred(owners),
            N_CELLS as nat,
        ) + 2 * count_in_rect(mv, owned_by_pred(owners, spec_opponent(player)), N_CELLS as nat),
        reply_depth == 0 ==> exchange_eval(values, owners, player, mv, reply_depth)
            == count_in_rect(mv, fresh_pred(owners), N_CELLS as nat) + 2 * count_in_rect(
            mv,
            owned_by_pred(owners, spec_opponent(player)),
            N_CELLS as nat,
        ),
{
    if reply_depth >= 2 {
        let after = applied_values(values, mv);
        lemma_gain_over_nonneg(
            after,
            applied_owners(owners, mv, player),
            spec_opponent(player),
            mv,
            (reply_depth - 1) as nat,
            legal_rects(after),
            legal_rects(after).len(),
        );
    }
}

/// The exchange evaluation takes back only on rectangles that share a cell with the move:
/// when no legal reply on the board after a legal move `mv` shares a cell with it, the
/// evaluation of `mv`, at every reply depth, is its immediate gain: its unowned cells plus
/// twice its opponent cells.
pub proof fn lemma_exchange_without_overlap(
    values: Seq<u8>,
    owners: Seq<i8>,
    player: i8,
    mv: Move,
    reply_depth: nat,
)
    requires
        valid_rect(values, mv),
        forall|k: int|
            0 <= k < legal_rects(applied_values(values, mv)).len() ==> !shares_cell(
                #[trigger] legal_rects(applied_values(values, mv))[k],
                mv,
            ),
    ensures
        exchange_eval(values, owners, player, mv, reply_depth) == count_in_rect(
            mv,
            fresh_pred(owners),
            N_CELLS as nat,
        ) + 2 * count_in_rect(mv, owned_by_pred(owners, spec_opponent(player)), N_CELLS as nat),
{
    let after = applied_values(values, mv);
    let replies = legal_rects(after);
    crate::movegen::lemma_legal_rects_valid(after);
    assert forall|k: int| 0 <= k < replies.len() implies !spec_overlap(#[trigger] replies[k], mv) by {
        if spec_overlap(replies[k], mv) {
            lemma_overlap_shares_cell(replies[k], mv);
        }
    }
    if reply_depth >= 2 {
        lemma_gain_over_nothing(
            after,
            applied_owners(owners, mv, player),
            spec_opponent(player),
            mv,
            (reply_depth - 1) as nat,
            replies,
            replies.len(),
        );
    }
}

impl Board {
    /// The cached cell sets agree with the owners, values and side to move.
    pub open spec fn masks_consistent(self) -> bool {
        masks_match(
            self.values@,
            self.owners@,
            self.player,
            self.my_mask,
            self.opp_mask,
            self.live_mask,
            self.empty_mask,
        )
    }

    /// A well-formed position: a real side to move, real owners, and caches that agree with
    /// the position.
    pub open spec fn wf(self) -> bool {
        &&& self.masks_consistent()
        &&& valid_player(self.player)
        &&& valid_owners(self.owners@)
        &&& self.hash == position_hash(self.values@, self.owners@, self.player, self.passes)
    }

    /// The position after `mv`, as values, owners, side to move and passes.
    pub open spec fn after(self, mv: Move) -> (Seq<u8>, Seq<i8>, i8, u8) {
        (
            applied_values(self.values@, mv),
            applied_owners(self.owners@, mv, self.player),
            spec_opponent(self.player),
            if mv == PASS { (self.passes + 1) as u8 } else { 0u8 },
        )
    }

    /// A board from text rows of digits, first player to move: row `r` of the text, with
    /// surrounding whitespace removed, gives the values from the start of board row `r` on
    /// (non-digits read as 0); see `values_from_rows`.
    pub fn from_rows(rows: &[String]) -> (b: Board)
        requires
            rows@.len() >= ROWS,
            rows_fit(rows@.map_values(|s: String| s@)),
        ensures
            b.wf(),
            b.values@ == values_from_rows(rows@.map_values(|s: String| s@)),
            b.owners@ == Seq::new(N_CELLS as nat, |i: int| 0i8),
            b.player == FIRST,
            b.passes == 0,
    {
        let ghost texts = rows@.map_values(|s: String| s@);
        let mut values = [0u8; N_CELLS];
        let owners = [0i8; N_CELLS];
        let mut r: usize = 0;
        while r < ROWS
            invariant
                r <= ROWS,
                rows@.len() >= ROWS,
                texts == rows@.map_values(|s: String| s@),
                rows_fit(texts),
                forall|i: int| 0 <= i < N_CELLS ==> #[trigger] values@[i] == written_value(texts, i, r as int),
            decreases ROWS - r,
        {
            let line = rows[r].as_str();
            let (a, b) = trim_bounds(line);
            let ghost t = trimmed(line@);
            assert(t =~= line@.subrange(a as int, b as int));
            assert(texts[r as int] == line@);
            assert(r * COLS + t.len() <= N_CELLS) by {
                assert(trimmed(texts[r as int]) == t);
            }
            let mut k = a;
            while k < b
                invariant
                    r < ROWS,
                    a <= k <= b,
                    b <= line@.len(),
                    t == line@.subrange(a as int, b as int),
                    t == trimmed(line@),
                    r * COLS + t.len() <= N_CELLS,
                    texts[r as int] == line@,
                    forall|i: int|
                        0 <= i < N_CELLS ==> #[trigger] values@[i] == (if 0 <= i - r * COLS < k - a {
                            digit_or_zero(t[i - r * COLS])
                        } else {
                            written_value(texts, i, r as int)
                        }),
                decreases b - k,
            {
                let c = k - a;
                let idx = r * COLS + c;
                let d = digit_value(line.get_char(k));
                proof {
                    assert(t[c as int] == line@[k as int]);
                }
                values[idx] = d;
                k += 1;
            }
            proof {
                assert forall|i: int| 0 <= i < N_CELLS implies #[trigger] values@[i] == written_value(
                    texts,
                    i,
                    r + 1,
                ) by {
                    assert(trimmed(texts[r as int]) == t);
                }
            }
            r += 1;
        }
        proof {
            assert(values@ =~= values_from_rows(texts));
            assert forall|i: int| 0 <= i < owners@.len() implies #[trigger] owners@[i] == 0 || owners@[i]
                == FIRST || owners@[i] == SECOND by {}
        }
        Board::from_parts(values, owners, FIRST, 0)
    }

    /// A board from a tool's grid of entries, first player to move: positive entries are
    /// values, -1 marks a first-player cell and -2 a second-player cell.
    pub fn from_tool_board(board: &[Vec<i32>]) -> (b: Board)
        requires
            board@.len() >= ROWS,
            forall|r: int| 0 <= r < ROWS ==> #[trigger] board@[r]@.len() >= COLS,
        ensures
            b.wf(),
            b.values@ == values_from_tool(board@),
            b.owners@ == owners_from_tool(board@),
            b.player == FIRST,
            b.passes == 0,
    {
        let mut values = [0u8; N_CELLS];
        let mut owners = [0i8; N_CELLS];
        let mut r: usize = 0;
        while r < ROWS
            invariant
                r <= ROWS,
                board@.len() >= ROWS,
                forall|k: int| 0 <= k < ROWS ==> #[trigger] board@[k]@.len() >= COLS,
                forall|i: int|
                    0 <= i < N_CELLS ==> #[trigger] values@[i] == (if i / (COLS as int) < r {
                        values_from_tool(board@)[i]
                    } else {
                        0u8
                    }),
                forall|i: int|
                    0 <= i < N_CELLS ==> #[trigger] owners@[i] == (if i / (COLS as int) < r {
                        owners_from_tool(board@)[i]
                    } else {
                        0i8
                    }),
            decreases ROWS - r,
        {
            let mut c: usize = 0;
            while c < COLS
                invariant
                    r < ROWS,
                    c <= COLS,
                    board@.len() >= ROWS,
                    forall|k: int| 0 <= k < ROWS ==> #[trigger] board@[k]@.len() >= COLS,
                    forall|i: int|
                        0 <= i < N_CELLS ==> #[trigger] values@[i] == (if i / (COLS as int) < r || (i
                            / (COLS as int) == r && i % (COLS as int) < c) {
                            values_from_tool(board@)[i]
                        } else {
                            0u8
                        }),
                    forall|i: int|
                        0 <= i < N_CELLS ==> #[trigger] owners@[i] == (if i / (COLS as int) < r || (i
                            / (COLS as int) == r && i % (COLS as int) < c) {
                            owners_from_tool(board@)[i]
                        } else {
                            0i8
                        }),
                decreases COLS - c,
            {
                let idx = cell_index(r, c);
                assert(idx / 17 == r && idx % 17 == c);
                let cell = board[r][c];
                assert(cell == tool_cell(board@, idx as int));
                if cell > 0 {
                    values[idx] = cell as u8;
                } else if cell == -1 {
                    owners[idx] = FIRST;
                } else if cell == -2 {
                    owners[idx] = SECOND;
                }
                c += 1;
            }
            r += 1;
        }
        proof {
            assert(values@ =~= values_from_tool(board@));
            assert(owners@ =~= owners_from_tool(board@));
        }
        Board::from_parts(values, owners, FIRST, 0)
    }

    /// A board from its parts, with caches and hash computed.
    pub fn from_parts(values: [u8; N_CELLS], owners: [i8; N_CELLS], player: i8, passes: u8) -> (b: Board)
        ensures
            b.values == values,
            b.owners == owners,
            b.player == player,
            b.passes == passes,
            b.hash == position_hash(values@, owners@, player, passes),
            b.masks_consistent(),
            valid_player(player) && valid_owners(owners@) ==> b.wf(),
    {
        let hash = hash_board(&values, &owners, player, passes);
        let mut b = Board {
            values,
            owners,
            player,
            passes,
            hash,
            my_mask: Bitboard::empty(),
            opp_mask: Bitboard::empty(),
            live_mask: Bitboard::empty(),
            empty_mask: Bitboard::empty(),
        };
        b.rebuild_bitboards();
        b
    }

    /// Recomputes the cached cell sets from owners, values and side to move.
    fn rebuild_bitboards(&mut self)
        ensures
            final(self).values == old(self).values,
            final(self).owners == old(self).owners,
            final(self).player == old(self).player,
            final(self).passes == old(self).passes,
            final(self).hash == old(self).hash,
            final(self).masks_consistent(),
    {
        self.my_mask = Bitboard::empty();
        self.opp_mask = Bitboard::empty();
        self.live_mask = Bitboard::empty();
        self.empty_mask = Bitboard::empty();
        let opp = opponent(self.player);
        let mut i: usize = 0;
        while i < N_CELLS
            invariant
                i <= N_CELLS,
                self.values == old(self).values,
                self.owners == old(self).owners,
                self.player == old(self).player,
                self.passes == old(self).passes,
                self.hash == old(self).hash,
                opp == spec_opponent(self.player),
                forall|k: int|
                    0 <= k < N_BITS ==> {
                        &&& #[trigger] self.my_mask.bit(k) == (k < i && self.owners@[k]
                            == self.player)
                        &&& self.opp_mask.bit(k) == (k < i && self.owners@[k] != self.player
                            && self.owners@[k] == opp)
                        &&& self.live_mask.bit(k) == (k < i && self.values@[k] > 0)
                        &&& self.empty_mask.bit(k) == (k < i && self.owners@[k] != self.player
                            && self.owners@[k] != opp)
                    },
            decreases N_CELLS - i,
        {
            let r = i / COLS;
            let c = i % COLS;
            assert(r * COLS + c == i);
            let o = self.owners[i];
            if o == self.player {
                self.my_mask.set(r, c);
            } else if o == opp {
                self.opp_mask.set(r, c);
            } else {
                self.empty_mask.set(r, c);
            }
            if self.values[i] > 0 {
                self.live_mask.set(r, c);
            }
            i += 1;
        }
        proof {
            lemma_masks_match_intro(
                self.values@,
                self.owners@,
                self.player,
                self.my_mask,
                self.opp_mask,
                self.live_mask,
                self.empty_mask,
            );
        }
    }

    /// The side to move.
    pub fn current_player(&self) -> (p: i8)
        ensures
            p == self.player,
    {
        self.player
    }

    /// The game is over: both players passed in a row.
    pub fn is_terminal(&self) -> (t: bool)
        ensures
            t == (self.passes >= 2),
    {
        self.passes >= 2
    }

    /// The score of `player_id`: the cells of the side to move when it is that side, else
    /// the cells of its opponent.
    pub open spec fn spec_score(self, player_id: i8) -> int {
        if player_id == self.player {
            owned_count(self.owners@, self.player) as int
        } else {
            owned_count(self.owners@, spec_opponent(self.player)) as int
        }
    }

    /// Number of cells owned by `player_id` if it is the side to move, else by the side not
    /// to move.
    pub fn score(&self, player_id: i8) -> (n: i32)
        requires
            self.wf(),
        ensures
            n == self.spec_score(player_id),
    {
        proof {
            assert forall|i: int| 0 <= i < N_BITS implies #[trigger] self.my_mask.bit(i) == (i
                < N_CELLS && self.owners@[i] == self.player) by {
                assert(cell_masks_match(
                    self.values@,
                    self.owners@,
                    self.player,
                    self.my_mask,
                    self.opp_mask,
                    self.live_mask,
                    self.empty_mask,
                    i,
                ));
            }
            lemma_mask_count_owned(self.my_mask, self.owners@, self.player, N_BITS as nat);
            assert forall|i: int| 0 <= i < N_BITS implies #[trigger] self.opp_mask.bit(i) == (i
                < N_CELLS && self.owners@[i] == spec_opponent(self.player)) by {
                assert(cell_masks_match(
                    self.values@,
                    self.owners@,
                    self.player,
                    self.my_mask,
                    self.opp_mask,
                    self.live_mask,
                    self.empty_mask,
                    i,
                ));
            }
            lemma_mask_count_owned(
                self.opp_mask,
                self.owners@,
                spec_opponent(self.player),
                N_BITS as nat,
            );
        }
        if player_id == self.player {
            self.my_mask.popcount() as i32
        } else {
            self.opp_mask.popcount() as i32
        }
    }

    /// Whether `mv` may be played: a pass, or a legal rectangle.
    pub fn is_legal_action(&self, mv: Move) -> (b: bool)
        ensures
            b == (mv == PASS || valid_rect(self.values@, mv)),
    {
        is_pass(mv) || self.is_valid_rect(mv)
    }

    /// Whether `mv` is a legal rectangle.
    pub fn is_valid_rect(&self, mv: Move) -> (b: bool)
        ensures
            b == valid_rect(self.values@, mv),
    {
        is_valid_rectangle(&self.values, mv)
    }

    /// Score of `mv` for move ordering; see `spec_action_score`.
    pub fn action_score(&self, mv: Move) -> (sc: (i32, i32, i32, i32, i32, i32))
        requires
            mv == PASS || rect_in_board(mv),
        ensures
            (sc.0 as int, sc.1 as int, sc.2 as int, sc.3 as int, sc.4 as int, sc.5 as int)
                == spec_action_score(self.values@, self.owners@, self.player, mv),
            -10000 <= sc.0 <= 3 * N_CELLS,
            0 <= sc.1 <= N_CELLS,
            0 <= sc.2 <= N_CELLS,
            0 <= sc.3 <= N_CELLS,
            -N_CELLS <= sc.4 <= N_CELLS,
            0 <= sc.5 <= N_CELLS,
    {
        if is_pass(mv) {
            return (-10_000, 0, 0, 0, 0, 0);
        }
        let (r1, c1, r2, c2) = mv;
        let opp = opponent(self.player);
        proof {
            assert((r2 - r1 + 1) * (c2 - c1 + 1) <= 10 * 17) by (nonlinear_arith)
                requires
                    0 <= r1 <= r2 < 10,
                    0 <= c1 <= c2 < 17,
            ;
        }
        let area = (r2 as i32 - r1 as i32 + 1) * (c2 as i32 - c1 as i32 + 1);
        let ghost fp = fresh_pred(self.owners@);
        let ghost rp = owned_by_pred(self.owners@, opp);
        let ghost op = own_pred(self.owners@, opp);
        let ghost lp = live_pred(self.values@);
        let mut fresh = 0i32;
        let mut recaptured = 0i32;
        let mut own = 0i32;
        let mut live = 0i32;
        let (r1, c1, r2, c2) = (r1 as usize, c1 as usize, r2 as usize, c2 as usize);
        proof {
            lemma_count_start(mv, fp);
            lemma_count_start(mv, rp);
            lemma_count_start(mv, op);
            lemma_count_start(mv, lp);
        }
        let mut r = r1;
        while r <= r2
            invariant
                r1 <= r <= r2 + 1,
                r2 < ROWS,
                c1 <= c2 < COLS,
                rect_in_board(mv),
                mv.0 == r1 && mv.1 == c1 && mv.2 == r2 && mv.3 == c2,
                opp == spec_opponent(self.player),
                fp == fresh_pred(self.owners@),
                rp == owned_by_pred(self.owners@, opp),
                op == own_pred(self.owners@, opp),
                lp == live_pred(self.values@),
                r <= r2 ==> fresh == count_in_rect(mv, fp, (r * COLS + c1) as nat),
                r <= r2 ==> recaptured == count_in_rect(mv, rp, (r * COLS + c1) as nat),
                r <= r2 ==> own == count_in_rect(mv, op, (r * COLS + c1) as nat),
                r <= r2 ==> live == count_in_rect(mv, lp, (r * COLS + c1) as nat),
                r > r2 ==> fresh == count_in_rect(mv, fp, N_CELLS as nat),
                r > r2 ==> recaptured == count_in_rect(mv, rp, N_CELLS as nat),
                r > r2 ==> own == count_in_rect(mv, op, N_CELLS as nat),
                r > r2 ==> live == count_in_rect(mv, lp, N_CELLS as nat),
            decreases r2 + 1 - r,
        {
            let mut c = c1;
            while c <= c2
                invariant
                    r1 <= r <= r2,
                    r2 < ROWS,
                    c1 <= c <= c2 + 1,
                    c2 < COLS,
                    rect_in_board(mv),
                    mv.0 == r1 && mv.1 == c1 && mv.2 == r2 && mv.3 == c2,
                    opp == spec_opponent(self.player),
                    fp == fresh_pred(self.owners@),
                    rp == owned_by_pred(self.owners@, opp),
                    op == own_pred(self.owners@, opp),
                    lp == live_pred(self.values@),
                    fresh == count_in_rect(mv, fp, (r * COLS + c) as nat),
                    recaptured == count_in_rect(mv, rp, (r * COLS + c) as nat),
                    own == count_in_rect(mv, op, (r * COLS + c) as nat),
                    live == count_in_rect(mv, lp, (r * COLS + c) as nat),
                decreases c2 + 1 - c,
            {
                let idx = cell_index(r, c);
                proof {
                    lemma_count_step(mv, fp, r as int, c as int);
                    lemma_count_step(mv, rp, r as int, c as int);
                    lemma_count_step(mv, op, r as int, c as int);
                    lemma_count_step(mv, lp, r as int, c as int);
                    lemma_count_bound(mv, fp, (r * COLS + c) as nat);
                    lemma_count_bound(mv, rp, (r * COLS + c) as nat);
                    lemma_count_bound(mv, op, (r * COLS + c) as nat);
                    lemma_count_bound(mv, lp, (r * COLS + c) as nat);
                }
                if self.owners[idx] == 0 {
                    fresh += 1;
                } else if self.owners[idx] == opp {
                    recaptured += 1;
                } else {
                    own += 1;
                }
                if self.values[idx] > 0 {
                    live += 1;
                }
                c += 1;
            }
            proof {
                lemma_count_next_row(mv, fp, r as int);
                lemma_count_next_row(mv, rp, r as int);
                lemma_count_next_row(mv, op, r as int);
                lemma_count_next_row(mv, lp, r as int);
            }
            r += 1;
        }
        proof {
            lemma_count_bound(mv, fp, N_CELLS as nat);
            lemma_count_bound(mv, rp, N_CELLS as nat);
            lemma_count_bound(mv, op, N_CELLS as nat);
            lemma_count_bound(mv, lp, N_CELLS as nat);
        }
        (fresh + 2 * recaptured, recaptured, fresh, live, area - own, area)
    }

    /// Whether two rectangles share a cell; a pass overlaps nothing.
    pub fn rectangles_overlap(a: Move, b: Move) -> (o: bool)
        ensures
            o == (a != PASS && b != PASS && !(a.2 < b.0 || b.2 < a.0 || a.3 < b.1 || b.3 < a.1)),
    {
        if is_pass(a) || is_pass(b) {
            return false;
        }
        let (ar1, ac1, ar2, ac2) = a;
        let (br1, bc1, br2, bc2) = b;
        !(ar2 < br1 || br2 < ar1 || ac2 < bc1 || bc2 < ac1)
    }

    /// Exchange evaluation of `mv`; see `exchange_eval`.
    pub fn rectangle_exchange_eval(&self, mv: Move, reply_depth: u8) -> (v: i32)
        requires
            self.wf(),
        ensures
            v == exchange_eval(self.values@, self.owners@, self.player, mv, reply_depth as nat),
    {
        if is_pass(mv) || !self.is_legal_action(mv) {
            return i32::MIN / 4;
        }
        let immediate = self.action_score(mv).0;
        if reply_depth == 0 {
            return immediate;
        }
        let child = self.apply_action(mv);
        let reply_penalty = child.best_overlap_exchange_gain(mv, reply_depth - 1);
        immediate - reply_penalty
    }

    /// The best net gain the side to move can take back on rectangles overlapping `anchor`
    /// within `reply_depth` plies; see `exchange_gain`.
    fn best_overlap_exchange_gain(&self, anchor: Move, reply_depth: u8) -> (g: i32)
        requires
            self.wf(),
        ensures
            g == exchange_gain(self.values@, self.owners@, self.player, anchor, reply_depth as nat),
            g >= 0,
        decreases reply_depth,
    {
        if reply_depth == 0 {
            return 0;
        }
        let replies = crate::movegen::generate_rectangles(&self.values);
        let ghost moves = legal_rects(self.values@);
        let mut best = 0i32;
        let mut j: usize = 0;
        while j < replies.len()
            invariant
                self.wf(),
                reply_depth > 0,
                j <= replies@.len(),
                moves == legal_rects(self.values@),
                crate::movegen::moves_of(replies@) == moves,
                forall|k: int| 0 <= k < replies@.len() ==> (#[trigger] replies@[k]).describes(self.values@),
                best >= 0,
                best == exchange_gain_over(
                    self.values@,
                    self.owners@,
                    self.player,
                    anchor,
                    reply_depth as nat,
                    moves,
                    j as nat,
                ),
            decreases replies@.len() - j,
        {
            let reply_mv = replies[j].to_move();
            proof {
                assert(moves[j as int] == reply_mv);
                assert(replies@[j as int].describes(self.values@));
            }
            if Self::rectangles_overlap(reply_mv, anchor) {
                let immediate = self.action_score(reply_mv).0;
                proof {
                    lemma_count_bound(reply_mv, fresh_pred(self.owners@), N_CELLS as nat);
                    lemma_count_bound(
                        reply_mv,
                        owned_by_pred(self.owners@, spec_opponent(self.player)),
                        N_CELLS as nat,
                    );
                }
                let child = self.apply_action(reply_mv);
                let net = immediate - child.best_overlap_exchange_gain(reply_mv, reply_depth - 1);
                if net > best {
                    best = net;
                }
            }
            j += 1;
        }
        proof {
            assert(replies@.len() == moves.len());
        }
        if best > 0 {
            best
        } else {
            0
        }
    }

    /// The position after the side to move plays `action`: a rectangle takes every cell in
    /// it for the mover and empties its values; a pass counts one more consecutive pass.
    pub fn apply_action(&self, action: Move) -> (next: Board)
        requires
            self.wf(),
            action == PASS || rect_in_board(action),
            action == PASS ==> self.passes < 255,
        ensures
            next.wf(),
            (next.values@, next.owners@, next.player, next.passes) == self.after(action),
    {
        let (r1, c1, r2, c2) = action;
        let next_player = opponent(self.player);
        let next_passes = if is_pass(action) {
            self.passes + 1
        } else {
            0
        };
        let hash = hash_update(
            self.hash,
            &self.values,
            &self.owners,
            action,
            self.player,
            self.passes,
            next_passes,
        );
        if is_pass(action) {
            proof {
                assert forall|i: int| 0 <= i < N_CELLS implies !rect_contains(action, i) by {}
                assert(applied_values(self.values@, action) =~= self.values@);
                assert(applied_owners(self.owners@, action, self.player) =~= self.owners@);
            }
            proof {
                lemma_masks_swap(
                    self.values@,
                    self.owners@,
                    self.player,
                    self.my_mask,
                    self.opp_mask,
                    self.live_mask,
                    self.empty_mask,
                );
            }
            return Board {
                values: self.values,
                owners: self.owners,
                player: next_player,
                passes: next_passes,
                hash,
                my_mask: self.opp_mask,
                opp_mask: self.my_mask,
                live_mask: self.live_mask,
                empty_mask: self.empty_mask,
            };
        }
        let mut values = self.values;
        let mut owners = self.owners;
        let mut my_mask = self.my_mask;
        let mut opp_mask = self.opp_mask;
        let mut live_mask = self.live_mask;
        let mut empty_mask = self.empty_mask;
        let opp = opponent(self.player);
        let player = self.player;
        let (r1, c1, r2, c2) = (r1 as usize, c1 as usize, r2 as usize, c2 as usize);
        let mut r = r1;
        while r <= r2
            invariant
                r1 <= r <= r2 + 1,
                r2 < ROWS,
                c1 <= c2 < COLS,
                action.0 == r1 && action.1 == c1 && action.2 == r2 && action.3 == c2,
                valid_player(player),
                player == self.player,
                opp == spec_opponent(player),
                valid_owners(owners@),
                masks_match(values@, owners@, player, my_mask, opp_mask, live_mask, empty_mask),
                forall|i: int|
                    0 <= i < N_CELLS ==> #[trigger] values@[i] == (if rect_contains(action, i) && i
                        / (COLS as int) < r { 0u8 } else { self.values@[i] }),
                forall|i: int|
                    0 <= i < N_CELLS ==> #[trigger] owners@[i] == (if rect_contains(action, i) && i
                        / (COLS as int) < r { player } else { self.owners@[i] }),
            decreases r2 + 1 - r,
        {
            let mut c = c1;
            while c <= c2
                invariant
                    r1 <= r <= r2,
                    r2 < ROWS,
                    c1 <= c <= c2 + 1,
                    c2 < COLS,
                    action.0 == r1 && action.1 == c1 && action.2 == r2 && action.3 == c2,
                    valid_player(player),
                    player == self.player,
                    opp == spec_opponent(player),
                    valid_owners(owners@),
                    masks_match(values@, owners@, player, my_mask, opp_mask, live_mask, empty_mask),
                    forall|i: int|
                        0 <= i < N_CELLS ==> #[trigger] values@[i] == (if rect_contains(action, i)
                            && (i / (COLS as int) < r || (i / (COLS as int) == r && i % (COLS as int)
                            < c)) { 0u8 } else { self.values@[i] }),
                    forall|i: int|
                        0 <= i < N_CELLS ==> #[trigger] owners@[i] == (if rect_contains(action, i)
                            && (i / (COLS as int) < r || (i / (COLS as int) == r && i % (COLS as int)
                            < c)) { player } else { self.owners@[i] }),
                decreases c2 + 1 - c,
            {
                let idx = cell_index(r, c);
                assert(idx / 17 == r && idx % 17 == c);
                take_cell(
                    &mut values,
                    &mut owners,
                    &mut my_mask,
                    &mut opp_mask,
                    &mut live_mask,
                    &mut empty_mask,
                    r,
                    c,
                    player,
                    opp,
                );
                c += 1;
            }
            r += 1;
        }
        proof {
            assert(values@ =~= applied_values(self.values@, action));
            assert(owners@ =~= applied_owners(self.owners@, action, self.player));
            lemma_masks_swap(values@, owners@, player, my_mask, opp_mask, live_mask, empty_mask);
        }
        Board {
            values,
            owners,
            player: next_player,
            passes: next_passes,
            hash,
            my_mask: opp_mask,
            opp_mask: my_mask,
            live_mask,
            empty_mask,
        }
    }
}


/// Exchanging the sides' cell sets matches the position with the other side to move.
proof fn lemma_masks_swap(
    values: Seq<u8>,
    owners: Seq<i8>,
    p: i8,
    my: Bitboard,
    opp: Bitboard,
    live: Bitboard,
    empty: Bitboard,
)
    requires
        masks_match(values, owners, p, my, opp, live, empty),
        valid_player(p),
    ensures
        masks_match(values, owners, spec_opponent(p), opp, my, live, empty),
{
    assert forall|i: int| 0 <= i < N_BITS implies #[trigger] cell_masks_match(
        values,
        owners,
        spec_opponent(p),
        opp,
        my,
        live,
        empty,
        i,
    ) by {
        assert(cell_masks_match(values, owners, p, my, opp, live, empty, i));
    }
}

/// The mover takes cell `(r, c)`: it becomes theirs and empty of mushrooms, with the cell
/// sets updated to match.
fn take_cell(
    values: &mut [u8; N_CELLS],
    owners: &mut [i8; N_CELLS],
    my_mask: &mut Bitboard,
    opp_mask: &mut Bitboard,
    live_mask: &mut Bitboard,
    empty_mask: &mut Bitboard,
    r: usize,
    c: usize,
    player: i8,
    opp: i8,
)
    requires
        r < ROWS,
        c < COLS,
        valid_player(player),
        opp == spec_opponent(player),
        valid_owners(old(owners)@),
        masks_match(
            old(values)@,
            old(owners)@,
            player,
            *old(my_mask),
            *old(opp_mask),
            *old(live_mask),
            *old(empty_mask),
        ),
    ensures
        final(values)@ == old(values)@.update(r * COLS + c, 0u8),
        final(owners)@ == old(owners)@.update(r * COLS + c, player),
        valid_owners(final(owners)@),
        masks_match(
            final(values)@,
            final(owners)@,
            player,
            *final(my_mask),
            *final(opp_mask),
            *final(live_mask),
            *final(empty_mask),
        ),
{
    let idx = cell_index(r, c);
    let old_owner = owners[idx];
    if old_owner == opp {
        opp_mask.clear(r, c);
    } else if old_owner == 0 {
        empty_mask.clear(r, c);
    }
    my_mask.set(r, c);
    if values[idx] > 0 {
        live_mask.clear(r, c);
        values[idx] = 0;
    }
    owners[idx] = player;
    proof {
        assert(values@ =~= old(values)@.update(idx as int, 0u8));
        lemma_take_masks(
            old(values)@,
            old(owners)@,
            player,
            *old(my_mask),
            *old(opp_mask),
            *old(live_mask),
            *old(empty_mask),
            values@,
            owners@,
            *my_mask,
            *opp_mask,
            *live_mask,
            *empty_mask,
            idx as int,
        );
    }
}

proof fn lemma_take_masks(
    v0: Seq<u8>,
    o0: Seq<i8>,
    player: i8,
    my0: Bitboard,
    opp0: Bitboard,
    live0: Bitboard,
    empty0: Bitboard,
    v1: Seq<u8>,
    o1: Seq<i8>,
    my1: Bitboard,
    opp1: Bitboard,
    live1: Bitboard,
    empty1: Bitboard,
    k: int,
)
    requires
        0 <= k < N_CELLS,
        v0.len() == N_CELLS,
        o0.len() == N_CELLS,
        valid_player(player),
        valid_owners(o0),
        masks_match(v0, o0, player, my0, opp0, live0, empty0),
        v1 == v0.update(k, 0u8),
        o1 == o0.update(k, player),
        forall|i: int| 0 <= i < N_BITS ==> #[trigger] my1.bit(i) == (i == k || my0.bit(i)),
        forall|i: int|
            0 <= i < N_BITS ==> #[trigger] opp1.bit(i) == (if o0[k] == spec_opponent(player) {
                i != k && opp0.bit(i)
            } else {
                opp0.bit(i)
            }),
        forall|i: int|
            0 <= i < N_BITS ==> #[trigger] empty1.bit(i) == (if o0[k] != spec_opponent(player)
                && o0[k] == 0 {
                i != k && empty0.bit(i)
            } else {
                empty0.bit(i)
            }),
        forall|i: int|
            0 <= i < N_BITS ==> #[trigger] live1.bit(i) == (if v0[k] > 0 {
                i != k && live0.bit(i)
            } else {
                live0.bit(i)
            }),
    ensures
        masks_match(v1, o1, player, my1, opp1, live1, empty1),
{
    assert forall|i: int| 0 <= i < N_BITS implies #[trigger] cell_masks_match(
        v1,
        o1,
        player,
        my1,
        opp1,
        live1,
        empty1,
        i,
    ) by {
        assert(cell_masks_match(v0, o0, player, my0, opp0, live0, empty0, i));
        assert(my1.bit(i) == (i == k || my0.bit(i)));
        assert(opp1.bit(i) == opp1.bit(i));
        assert(empty1.bit(i) == empty1.bit(i));
        assert(live1.bit(i) == live1.bit(i));
        if i == k {
            assert(o0[k] == 0 || o0[k] == FIRST || o0[k] == SECOND);
        }
    }
}


/// Number of cells `i < n` inside the rectangle `mv` that satisfy `pred`.
pub open spec fn count_in_rect(mv: Move, pred: spec_fn(int) -> bool, n: nat) -> nat
    decreases n,
{
    if n == 0 {
        0
    } else {
        count_in_rect(mv, pred, (n - 1) as nat) + if rect_contains(mv, n - 1) && pred(n - 1) {
            1nat
        } else {
            0nat
        }
    }
}

/// Counting over an index range holding no cell of the rectangle adds nothing.
pub proof fn lemma_count_gap(mv: Move, pred: spec_fn(int) -> bool, a: nat, b: nat)
    requires
        a <= b,
        forall|i: int| a <= i < b ==> !rect_contains(mv, i),
    ensures
        count_in_rect(mv, pred, b) == count_in_rect(mv, pred, a),
    decreases b - a,
{
    if b > a {
        lemma_count_gap(mv, pred, a, (b - 1) as nat);
    }
}

/// Counting stays below the number of cells considered.
pub proof fn lemma_count_bound(mv: Move, pred: spec_fn(int) -> bool, n: nat)
    ensures
        count_in_rect(mv, pred, n) <= n,
    decreases n,
{
    if n > 0 {
        lemma_count_bound(mv, pred, (n - 1) as nat);
    }
}

/// Two predicates that agree on the rectangle's cells below `n` count the same cells.
pub proof fn lemma_count_same(mv: Move, p: spec_fn(int) -> bool, q: spec_fn(int) -> bool, n: nat)
    requires
        forall|i: int| 0 <= i < n && rect_contains(mv, i) ==> p(i) == q(i),
    ensures
        count_in_rect(mv, p, n) == count_in_rect(mv, q, n),
    decreases n,
{
    if n > 0 {
        lemma_count_same(mv, p, q, (n - 1) as nat);
    }
}

/// Two predicates that hold together on no cell of the rectangle below `n` count, added,
/// the cells where a third one holds that holds where either does.
pub proof fn lemma_count_union(
    mv: Move,
    p: spec_fn(int) -> bool,
    q: spec_fn(int) -> bool,
    either: spec_fn(int) -> bool,
    n: nat,
)
    requires
        forall|i: int| 0 <= i < n && rect_contains(mv, i) ==> !(p(i) && q(i)),
        forall|i: int| 0 <= i < n && rect_contains(mv, i) ==> either(i) == (p(i) || q(i)),
    ensures
        count_in_rect(mv, p, n) + count_in_rect(mv, q, n) == count_in_rect(mv, either, n),
    decreases n,
{
    if n > 0 {
        lemma_count_union(mv, p, q, either, (n - 1) as nat);
    }
}

/// Every cell of the rectangle that lies in columns `mv.1..c` of row `r` is counted, one by
/// one, from the start of the row, by a predicate that holds on the whole rectangle.
proof fn lemma_count_all_row(mv: Move, all: spec_fn(int) -> bool, r: int, c: int)
    requires
        rect_in_board(mv),
        forall|i: int| rect_contains(mv, i) ==> all(i),
        mv.0 <= r <= mv.2,
        mv.1 <= c <= mv.3 + 1,
    ensures
        count_in_rect(mv, all, (r * COLS + c) as nat) == count_in_rect(
            mv,
            all,
            (r * COLS + mv.1) as nat,
        ) + (c - mv.1),
    decreases c - mv.1,
{
    if c > mv.1 {
        lemma_count_all_row(mv, all, r, c - 1);
        lemma_count_step(mv, all, r, c - 1);
    }
}

/// The rows `mv.0..r` of the rectangle hold `(r - mv.0)` times its width of cells.
proof fn lemma_count_all_rows(mv: Move, all: spec_fn(int) -> bool, r: int)
    requires
        rect_in_board(mv),
        forall|i: int| rect_contains(mv, i) ==> all(i),
        mv.0 <= r <= mv.2,
    ensures
        count_in_rect(mv, all, (r * COLS + mv.1) as nat) == (r - mv.0) * (mv.3 - mv.1 + 1),
    decreases r - mv.0,
{
    if r == mv.0 {
        lemma_count_start(mv, all);
    } else {
        lemma_count_all_rows(mv, all, r - 1);
        lemma_count_all_row(mv, all, r - 1, mv.3 + 1);
        lemma_count_next_row(mv, all, r - 1);
        assert((r - 1 - mv.0) * (mv.3 - mv.1 + 1) + (mv.3 + 1 - mv.1) == (r - mv.0) * (mv.3 - mv.1
            + 1)) by (nonlinear_arith);
    }
}

/// A predicate that holds on every cell of a rectangle on the board counts as many cells as
/// the rectangle's area.
pub proof fn lemma_count_all(mv: Move, all: spec_fn(int) -> bool)
    requires
        rect_in_board(mv),
        forall|i: int| rect_contains(mv, i) ==> all(i),
    ensures
        count_in_rect(mv, all, N_CELLS as nat) == crate::movegen::rect_area(mv),
{
    lemma_count_all_rows(mv, all, mv.2 as int);
    lemma_count_all_row(mv, all, mv.2 as int, mv.3 + 1);
    lemma_count_next_row(mv, all, mv.2 as int);
    assert((mv.2 - mv.0) * (mv.3 - mv.1 + 1) + (mv.3 + 1 - mv.1) == (mv.2 - mv.0 + 1) * (mv.3
        - mv.1 + 1)) by (nonlinear_arith);
}

proof fn lemma_owned_split(owners: Seq<i8>, n: nat)
    requires
        n <= owners.len(),
        valid_owners(owners),
    ensures
        owned_below(owners, FIRST, n) + owned_below(owners, SECOND, n) + owned_below(owners, 0, n)
            == n,
    decreases n,
{
    if n > 0 {
        lemma_owned_split(owners, (n - 1) as nat);
        assert(owners[n - 1] == 0 || owners[n - 1] == FIRST || owners[n - 1] == SECOND);
    }
}

/// On a well-formed board the two players' scores and the unowned cells, as many as the
/// empty mask holds, make up the whole board.
pub proof fn lemma_scores_fill_board(b: Board)
    requires
        b.wf(),
    ensures
        b.spec_score(FIRST) + b.spec_score(SECOND) + owned_count(b.owners@, 0) == N_CELLS,
        b.empty_mask.count() == owned_count(b.owners@, 0),
{
    lemma_owned_split(b.owners@, N_CELLS as nat);
    assert forall|i: int| 0 <= i < N_BITS implies #[trigger] b.empty_mask.bit(i) == (i < N_CELLS
        && b.owners@[i] == 0) by {
        assert(cell_masks_match(
            b.values@,
            b.owners@,
            b.player,
            b.my_mask,
            b.opp_mask,
            b.live_mask,
            b.empty_mask,
            i,
        ));
        if i < N_CELLS {
            assert(b.owners@[i] == 0 || b.owners@[i] == FIRST || b.owners@[i] == SECOND);
        }
    }
    lemma_mask_count_owned(b.empty_mask, b.owners@, 0, N_BITS as nat);
}

/// A pass changes neither player's score: a well-formed board `next` holding the position of
/// `b` after a pass scores each player as `b` does.
pub proof fn lemma_pass_keeps_scores(b: Board, next: Board, p: i8)
    requires
        b.wf(),
        next.wf(),
        (next.values@, next.owners@, next.player, next.passes) == b.after(PASS),
        valid_player(p),
    ensures
        next.spec_score(p) == b.spec_score(p),
{
    assert(next.owners@ =~= b.owners@);
}

/// A cell set that holds exactly the cells owned by `p` has as many members as `p` owns cells.
pub proof fn lemma_mask_count_owned(bb: Bitboard, owners: Seq<i8>, p: i8, n: nat)
    requires
        n <= N_BITS,
        forall|i: int| 0 <= i < N_BITS ==> #[trigger] bb.bit(i) == (i < N_CELLS && owners[i] == p),
    ensures
        bb.count_below(n) == owned_below(owners, p, if n <= N_CELLS { n } else { N_CELLS as nat }),
    decreases n,
{
    if n > 0 {
        lemma_mask_count_owned(bb, owners, p, (n - 1) as nat);
        assert(bb.bit(n - 1) == (n - 1 < N_CELLS && owners[n - 1] == p));
    }
}

/// A cell set that holds exactly the live cells has as many members as there are live cells.
pub proof fn lemma_mask_count_live(bb: Bitboard, values: Seq<u8>, n: nat)
    requires
        n <= N_BITS,
        forall|i: int| 0 <= i < N_BITS ==> #[trigger] bb.bit(i) == (i < N_CELLS && values[i] > 0),
    ensures
        bb.count_below(n) == live_below(values, if n <= N_CELLS { n } else { N_CELLS as nat }),
    decreases n,
{
    if n > 0 {
        lemma_mask_count_live(bb, values, (n - 1) as nat);
        assert(bb.bit(n - 1) == (n - 1 < N_CELLS && values[n - 1] > 0));
    }
}


proof fn lemma_masks_match_intro(
    values: Seq<u8>,
    owners: Seq<i8>,
    player: i8,
    my: Bitboard,
    opp: Bitboard,
    live: Bitboard,
    empty: Bitboard,
)
    requires
        forall|i: int|
            0 <= i < N_BITS ==> {
                &&& #[trigger] my.bit(i) == (i < N_CELLS && owners[i] == player)
                &&& opp.bit(i) == (i < N_CELLS && owners[i] != player && owners[i]
                    == spec_opponent(player))
                &&& live.bit(i) == (i < N_CELLS && values[i] > 0)
                &&& empty.bit(i) == (i < N_CELLS && owners[i] != player && owners[i]
                    != spec_opponent(player))
            },
    ensures
        masks_match(values, owners, player, my, opp, live, empty),
{
    assert forall|i: int| 0 <= i < N_BITS implies #[trigger] cell_masks_match(
        values,
        owners,
        player,
        my,
        opp,
        live,
        empty,
        i,
    ) by {
        assert(my.bit(i) == (i < N_CELLS && owners[i] == player));
    }
}

/// Cells of the rectangle not owned by `p`.
pub open spec fn not_owned_by_pred(owners: Seq<i8>, p: i8) -> spec_fn(int) -> bool {
    |i: int| owners[i] != p
}

proof fn lemma_owned_after(owners: Seq<i8>, mv: Move, p: i8, q: i8, n: nat)
    requires
        owners.len() == N_CELLS,
        n <= N_CELLS,
    ensures
        q == p ==> owned_below(applied_owners(owners, mv, p), q, n) == owned_below(owners, q, n)
            + count_in_rect(mv, not_owned_by_pred(owners, p), n),
        q != p ==> owned_below(applied_owners(owners, mv, p), q, n) + count_in_rect(
            mv,
            owned_by_pred(owners, q),
            n,
        ) == owned_below(owners, q, n),
    decreases n,
{
    if n > 0 {
        lemma_owned_after(owners, mv, p, q, (n - 1) as nat);
        let a = applied_owners(owners, mv, p);
        assert(a[n - 1] == if rect_contains(mv, n - 1) { p } else { owners[n - 1] });
    }
}

proof fn lemma_not_owned_split(owners: Seq<i8>, mv: Move, p: i8, n: nat)
    requires
        owners.len() == N_CELLS,
        n <= N_CELLS,
        valid_owners(owners),
        valid_player(p),
    ensures
        count_in_rect(mv, not_owned_by_pred(owners, p), n) == count_in_rect(mv, fresh_pred(owners), n)
            + count_in_rect(mv, owned_by_pred(owners, spec_opponent(p)), n),
    decreases n,
{
    if n > 0 {
        lemma_not_owned_split(owners, mv, p, (n - 1) as nat);
        let o = owners[n - 1];
        assert(o == 0 || o == FIRST || o == SECOND);
    }
}

/// Playing a rectangle gains the mover exactly its unowned and recaptured cells (the third
/// and second parts of its ordering score, see `spec_action_score`), and costs the opponent
/// exactly the recaptured ones.
pub proof fn lemma_rectangle_gain(b: Board, mv: Move)
    requires
        b.wf(),
        rect_in_board(mv),
    ensures
        ({
            let o = b.after(mv).1;
            let sc = spec_action_score(b.values@, b.owners@, b.player, mv);
            &&& owned_count(o, b.player) == owned_count(b.owners@, b.player) + sc.1 + sc.2
            &&& owned_count(o, spec_opponent(b.player)) == owned_count(
                b.owners@,
                spec_opponent(b.player),
            ) - sc.1
        }),
{
    let p = b.player;
    let q = spec_opponent(p);
    lemma_owned_after(b.owners@, mv, p, p, N_CELLS as nat);
    lemma_owned_after(b.owners@, mv, p, q, N_CELLS as nat);
    lemma_not_owned_split(b.owners@, mv, p, N_CELLS as nat);
    assert(b.after(mv).1 == applied_owners(b.owners@, mv, p));
    assert(mv != PASS);
}

} // verus!
