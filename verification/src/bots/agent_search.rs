use vstd::prelude::*;

use core::time::Duration;
use std::time::Instant;

use crate::board::owned_count;
use crate::bots::agent_board::{
    lemma_undone_same_cells, lemma_unmake_restores, move_applies, playable, spec_terminal_score,
    starts_pass, AgentBoard,
};
use crate::bots::agent_eval::{
    agent_terms, entry_legal, evaluate, keyed_desc, lemma_bounded_weights_fit,
    lemma_stable_sorted_keeps, legal_moves_prioritized, prioritized, spec_agent_eval,
    stable_sorted, unkeyed, AgentWeights, PrioMove,
};
use crate::bots::agent_tt::{
    bucket_index, empty_entry, key_signature, probe_entry, probe_result, spec_pack_move,
    stored_bucket, TTBucket, TTEntry, TranspositionTable, TT_FLAG_EXACT, TT_FLAG_LOWER,
    TT_FLAG_UPPER, TT_SIZE,
};
use crate::bots::agent_zobrist::{hash_board, spec_hash_board, ZobristKeys};
use crate::tt::{applied_owners, applied_values};
use crate::movegen::{legal_rects, valid_rect};
use crate::types::{opponent, spec_opponent, Move, PASS};

verus! {

#[verifier::external_type_specification]
#[verifier::external_body]
pub struct ExInstant(Instant);

/// The current instant, from `Instant::now`; nothing is known of it.
#[verifier::external_body]
fn instant_now() -> Instant {
    Instant::now()
}

/// The time since `start`, from `Instant::elapsed`; nothing is known of it.
#[verifier::external_body]
fn time_since(start: &Instant) -> Duration {
    start.elapsed()
}

/// Whole milliseconds of `d`, from `Duration::as_millis`; nothing is promised here of the
/// value, which depends on the clock.
#[verifier::external_body]
fn whole_millis(d: &Duration) -> u128 {
    d.as_millis()
}

/// A stopwatch started when it was made.
pub struct Timer {
    start: Instant,
}

impl Timer {
    /// A stopwatch started now.
    pub fn new() -> (t: Timer) {
        Timer { start: instant_now() }
    }

    /// Milliseconds since the start, `u64::MAX` when more than that.
    pub fn elapsed_ms(&self) -> u64 {
        let ms = whole_millis(&time_since(&self.start));
        if ms > u64::MAX as u128 {
            u64::MAX
        } else {
            ms as u64
        }
    }

    /// At least `budget_ms` milliseconds have passed since the start: always so for a budget
    /// of 0; otherwise it depends on the clock.
    pub fn timed_out(&self, budget_ms: u64) -> (b: bool)
        ensures
            budget_ms == 0 ==> b,
    {
        self.elapsed_ms() >= budget_ms
    }
}

/// Search window bound: no search is asked for a window beyond it.
pub const INF: i32 = 999999;
/// Bound of every value a search returns or stores.
pub const VALUE_BOUND: i32 = 1_000_000_000;
/// Bound of the window ends a search accepts.
pub const WINDOW_BOUND: i32 = 2_000_000_000;

/// Every value stored in the table lies within `VALUE_BOUND` of zero.
pub open spec fn tt_values_bounded(tt: TranspositionTable) -> bool {
    forall|i: int|
        0 <= i < tt.buckets().len() ==> -VALUE_BOUND <= (#[trigger] tt.buckets()[i]).slot0.value
            <= VALUE_BOUND && -VALUE_BOUND <= tt.buckets()[i].slot1.value <= VALUE_BOUND
}

/// The table and the node counter of a search, and the answers the clock has given so far
/// (true: the budget was spent), one per clock check, in order.
pub struct SearchState {
    pub tt: TranspositionTable,
    pub nodes: u64,
    pub clock_answers: Ghost<Seq<bool>>,
}

impl SearchState {
    /// An empty table of age 1 and no node searched.
    pub fn new() -> (s: SearchState)
        ensures
            s.tt.wf(),
            tt_values_bounded(s.tt),
            s.tt.buckets().len() == TT_SIZE,
            forall|i: int|
                0 <= i < TT_SIZE ==> #[trigger] s.tt.buckets()[i] == (TTBucket {
                    slot0: empty_entry(),
                    slot1: empty_entry(),
                }),
            s.tt.spec_age() == 1,
            s.nodes == 0,
            s.clock_answers@.len() == 0,
    {
        let tt = TranspositionTable::new();
        SearchState { tt, nodes: 0, clock_answers: Ghost(Seq::empty()) }
    }

    /// The table is usable and holds bounded values.
    pub open spec fn wf(&self) -> bool {
        self.tt.wf() && tt_values_bounded(self.tt)
    }
}

proof fn lemma_probe_bounded(b: TTBucket, sig: u32, depth: i16, alpha: i32, beta: i32)
    requires
        -VALUE_BOUND <= b.slot0.value <= VALUE_BOUND,
        -VALUE_BOUND <= b.slot1.value <= VALUE_BOUND,
    ensures
        -VALUE_BOUND <= probe_result(b, sig, depth, alpha, beta).1 <= VALUE_BOUND,
{
}

/// The same board: values, owners, side to move and passes in a row.
pub open spec fn same_board(a: AgentBoard, b: AgentBoard) -> bool {
    &&& a.values@ == b.values@
    &&& a.owners@ == b.owners@
    &&& a.player == b.player
    &&& a.consecutive_passes == b.consecutive_passes
}

/// The final score of a finished game for the side to move of `b`.
pub open spec fn terminal_value(b: AgentBoard) -> int {
    spec_terminal_score(
        owned_count(b.owners@, b.player) - owned_count(b.owners@, spec_opponent(b.player)),
    )
}

/// Whether two moves are the same.
fn same_rect(a: (i8, i8, i8, i8), b: (i8, i8, i8, i8)) -> (eq: bool)
    ensures
        eq == (a == b),
{
    a.0 == b.0 && a.1 == b.1 && a.2 == b.2 && a.3 == b.3
}

/// The moves, ordered by key ascending and stable, the key of a move being `i32::MAX` for
/// `first` and its priority otherwise.
fn order_with_tt_move(moves: &Vec<PrioMove>, tt_move: Move, Ghost(values): Ghost<Seq<u8>>) -> (ordered: Vec<PrioMove>)
    requires
        forall|k: int|
            0 <= k < moves@.len() ==> valid_rect(
                values,
                (moves@[k].1, moves@[k].2, moves@[k].3, moves@[k].4),
            ),
    ensures
        ordered@.len() == moves@.len(),
        ordered@ == unkeyed(stable_sorted(tt_keyed(moves@, tt_move))),
        forall|k: int|
            0 <= k < ordered@.len() ==> valid_rect(
                values,
                (ordered@[k].1, ordered@[k].2, ordered@[k].3, ordered@[k].4),
            ),
{
    let mut keyed: Vec<(i64, PrioMove)> = Vec::new();
    let mut i: usize = 0;
    while i < moves.len()
        invariant
            i <= moves@.len(),
            keyed@ == tt_keyed(moves@, tt_move).subrange(0, i as int),
            forall|k: int|
                0 <= k < moves@.len() ==> valid_rect(
                    values,
                    (moves@[k].1, moves@[k].2, moves@[k].3, moves@[k].4),
                ),
        decreases moves@.len() - i,
    {
        let m = moves[i];
        let key: i64 = if same_rect((m.1, m.2, m.3, m.4), tt_move) {
            i32::MAX as i64
        } else {
            m.0 as i64
        };
        keyed.push((key, m));
        proof {
            assert(keyed@ =~= tt_keyed(moves@, tt_move).subrange(0, i + 1));
        }
        i += 1;
    }
    proof {
        assert(tt_keyed(moves@, tt_move).subrange(0, moves@.len() as int) =~= tt_keyed(
            moves@,
            tt_move,
        ));
    }
    let sorted = crate::bots::agent_eval::sort_stable(&keyed);
    proof {
        crate::bots::agent_eval::lemma_stable_sorted_ascending(keyed@);
        assert forall|k: int| 0 <= k < keyed@.len() implies #[trigger] entry_legal(values)(
            keyed@[k],
        ) by {
            assert(keyed@[k].1 == moves@[k]);
        }
        lemma_stable_sorted_keeps(keyed@, entry_legal(values));
    }
    let mut ordered: Vec<PrioMove> = Vec::new();
    let mut k: usize = 0;
    while k < sorted.len()
        invariant
            k <= sorted@.len(),
            ordered@ == unkeyed(sorted@).subrange(0, k as int),
            forall|j: int| 0 <= j < sorted@.len() ==> #[trigger] entry_legal(values)(sorted@[j]),
        decreases sorted@.len() - k,
    {
        ordered.push(sorted[k].1);
        proof {
            assert(ordered@ =~= unkeyed(sorted@).subrange(0, k + 1));
        }
        k += 1;
    }
    proof {
        assert(unkeyed(sorted@).subrange(0, sorted@.len() as int) =~= unkeyed(sorted@));
        assert forall|k: int| 0 <= k < ordered@.len() implies valid_rect(
            values,
            (ordered@[k].1, ordered@[k].2, ordered@[k].3, ordered@[k].4),
        ) by {
            assert(entry_legal(values)(sorted@[k]));
        }
    }
    ordered
}

/// Each move keyed by `i32::MAX` when it is `tt_move`, else by its priority.
pub open spec fn tt_keyed(s: Seq<PrioMove>, tt_move: Move) -> Seq<(i64, PrioMove)> {
    s.map_values(
        |m: PrioMove|
            (
                if (m.1, m.2, m.3, m.4) == tt_move {
                    i32::MAX as i64
                } else {
                    m.0 as i64
                },
                m,
            ),
    )
}

/// A position as the search reads it: cell values and owners, the side to move and the
/// passes in a row.
pub struct SearchPos {
    pub values: Seq<u8>,
    pub owners: Seq<i8>,
    pub player: i8,
    pub passes: i32,
}

/// The position of a board.
pub open spec fn pos_of(b: AgentBoard) -> SearchPos {
    SearchPos {
        values: b.values@,
        owners: b.owners@,
        player: b.player,
        passes: b.consecutive_passes,
    }
}

/// The position after `mv`; see `move_applies`.
pub open spec fn pos_after(p: SearchPos, mv: Move) -> SearchPos {
    if starts_pass(mv) {
        SearchPos {
            values: p.values,
            owners: p.owners,
            player: spec_opponent(p.player),
            passes: (p.passes + 1) as i32,
        }
    } else {
        SearchPos {
            values: applied_values(p.values, mv),
            owners: applied_owners(p.owners, mv, p.player),
            player: spec_opponent(p.player),
            passes: 0,
        }
    }
}

/// The evaluation of a position for its side to move.
pub open spec fn pos_eval(p: SearchPos, w: AgentWeights) -> int {
    spec_agent_eval(agent_terms(p.values, p.owners, p.player), w)
}

/// The final score of a finished game for the side to move.
pub open spec fn pos_terminal(p: SearchPos) -> int {
    spec_terminal_score(
        owned_count(p.owners, p.player) - owned_count(p.owners, spec_opponent(p.player)),
    )
}

/// The legal rectangles with their priorities, highest priority first.
pub open spec fn pos_moves(p: SearchPos) -> Seq<PrioMove> {
    unkeyed(stable_sorted(keyed_desc(prioritized(p.values, p.owners, p.player))))
}

/// The table key of a position.
pub open spec fn pos_key(p: SearchPos, keys: ZobristKeys) -> u64 {
    spec_hash_board(keys, p.values, p.owners, p.player)
}

/// What stays fixed during a search: the weights, the keys and the table's age.
pub struct SearchEnv {
    pub weights: AgentWeights,
    pub keys: ZobristKeys,
    pub age: u8,
}

/// What a search changes besides its value: the table's buckets, the node counter, and the
/// move last written as the best one.
pub struct SearchMemo {
    pub tt: Seq<TTBucket>,
    pub nodes: u64,
    pub best: PrioMove,
}

/// The result of a search: its value, what it left behind, and how many clock answers it
/// read.
pub struct SearchOutcome {
    pub value: i32,
    pub memo: SearchMemo,
    pub checks: nat,
}

/// The state of the loop over the moves of a node: the raised lower bound, the best value
/// and move so far, the table flag so far, what the searches left, and the clock answers
/// read.
pub struct MoveLoop {
    pub alpha: i32,
    pub best_value: i32,
    pub local_best: PrioMove,
    pub flag: u8,
    pub memo: SearchMemo,
    pub checks: nat,
}

/// The clock after `n` answers were read: answer `k` of it is answer `k + n` of `clock`.
pub open spec fn later_clock(clock: spec_fn(nat) -> bool, n: nat) -> spec_fn(nat) -> bool {
    |k: nat| clock(k + n)
}

/// A clock whose budget is never spent.
pub open spec fn never_late() -> spec_fn(nat) -> bool {
    |k: nat| false
}

/// `clock` gives the answers of `log` from position `from` on.
pub open spec fn clock_agrees(clock: spec_fn(nat) -> bool, log: Seq<bool>, from: nat) -> bool {
    forall|k: nat| #![trigger clock(k)] from + k < log.len() ==> clock(k) == log[(from + k) as int]
}

/// No answer of `log` from position `from` on says the budget was spent.
pub open spec fn no_late_answer(log: Seq<bool>, from: nat) -> bool {
    forall|k: int| from <= k < log.len() ==> !#[trigger] log[k]
}

/// `longer` starts with `shorter`.
pub open spec fn log_extends(longer: Seq<bool>, shorter: Seq<bool>) -> bool {
    &&& shorter.len() <= longer.len()
    &&& forall|j: int| 0 <= j < shorter.len() ==> #[trigger] longer[j] == shorter[j]
}

/// The score of a move for the side that played it: the child's value negated.
pub open spec fn negated(v: i32) -> i32 {
    (-v) as i32
}

/// Negamax search with alpha-beta pruning of `pos` to `depth` plies in window
/// `(alpha, beta)`, reading the clock's answers from `clock`, one at each node reached with
/// a node count that is a multiple of 4096. A finished game scores its final score; a
/// spent budget scores the evaluation; otherwise the node is counted, depth 0 scores the
/// evaluation, and a table hit answers from the table and names the table's move as the
/// best; with no legal rectangle the pass is searched (and nothing stored); otherwise the
/// moves are searched in turn (see `move_loop`), then maybe the pass (see `pass_option`),
/// and the result is stored (see `stored_result`).
pub open spec fn node_search(
    pos: SearchPos,
    depth: int,
    alpha: i32,
    beta: i32,
    memo: SearchMemo,
    clock: spec_fn(nat) -> bool,
    env: SearchEnv,
) -> SearchOutcome
    decreases depth, 1int, 0int,
{
    let checked = memo.nodes & 4095 == 0;
    if pos.passes >= 2 {
        SearchOutcome { value: pos_terminal(pos) as i32, memo, checks: 0 }
    } else if checked && clock(0) {
        SearchOutcome { value: pos_eval(pos, env.weights) as i32, memo, checks: 1 }
    } else {
        let checks: nat = if checked { 1 } else { 0 };
        let counted = SearchMemo {
            tt: memo.tt,
            nodes: vstd::wrapping::u64_specs::wrapping_add(memo.nodes, 1),
            best: memo.best,
        };
        if depth <= 0 {
            SearchOutcome { value: pos_eval(pos, env.weights) as i32, memo: counted, checks }
        } else {
            let key = pos_key(pos, env.keys);
            let probe = probe_result(
                memo.tt[bucket_index(key)],
                key_signature(key),
                depth as i16,
                alpha,
                beta,
            );
            if probe.0 {
                SearchOutcome {
                    value: probe.1,
                    memo: SearchMemo {
                        tt: memo.tt,
                        nodes: counted.nodes,
                        best: (0i32, probe.2.0, probe.2.1, probe.2.2, probe.2.3),
                    },
                    checks,
                }
            } else if pos_moves(pos).len() == 0 {
                let child = node_search(
                    pos_after(pos, PASS),
                    depth - 1,
                    negated(beta),
                    negated(alpha),
                    counted,
                    later_clock(clock, checks),
                    env,
                );
                SearchOutcome {
                    value: negated(child.value),
                    memo: child.memo,
                    checks: checks + child.checks,
                }
            } else {
                let ordered = unkeyed(stable_sorted(tt_keyed(pos_moves(pos), probe.2)));
                let start = MoveLoop {
                    alpha,
                    best_value: -999999i32,
                    local_best: ordered[0],
                    flag: TT_FLAG_UPPER,
                    memo: counted,
                    checks,
                };
                let looped = move_loop(pos, depth, beta, ordered, 0, start, clock, env);
                let tried = pass_option(pos, depth, beta, ordered.len(), looped, clock, env);
                stored_result(tried, alpha, key, depth, env.age)
            }
        }
    }
}

/// The moves `ordered[i..]` searched in turn from loop state `acc`: each one's score is
/// the negated value of the child search in window `(-beta, -alpha)`; a score above the
/// best so far makes it the best, one above `alpha` raises `alpha` and makes the flag
/// exact, and `alpha` reaching `beta` stops the loop with a lower-bound flag.
pub open spec fn move_loop(
    pos: SearchPos,
    depth: int,
    beta: i32,
    ordered: Seq<PrioMove>,
    i: int,
    acc: MoveLoop,
    clock: spec_fn(nat) -> bool,
    env: SearchEnv,
) -> MoveLoop
    decreases depth, 0int, ordered.len() - i,
{
    if depth <= 0 || i < 0 || i >= ordered.len() {
        acc
    } else {
        let mv = ordered[i];
        let child = node_search(
            pos_after(pos, (mv.1, mv.2, mv.3, mv.4)),
            depth - 1,
            negated(beta),
            negated(acc.alpha),
            acc.memo,
            later_clock(clock, acc.checks),
            env,
        );
        let next = moved(acc, mv, negated(child.value), child);
        if next.alpha >= beta {
            MoveLoop {
                alpha: next.alpha,
                best_value: next.best_value,
                local_best: next.local_best,
                flag: TT_FLAG_LOWER,
                memo: next.memo,
                checks: next.checks,
            }
        } else {
            move_loop(pos, depth, beta, ordered, i + 1, next, clock, env)
        }
    }
}

/// The loop state after move `mv` scored `score` with child search `child`.
pub open spec fn moved(acc: MoveLoop, mv: PrioMove, score: i32, child: SearchOutcome) -> MoveLoop {
    MoveLoop {
        alpha: if score > acc.alpha { score } else { acc.alpha },
        best_value: if score > acc.best_value { score } else { acc.best_value },
        local_best: if score > acc.best_value { mv } else { acc.local_best },
        flag: if score > acc.alpha { TT_FLAG_EXACT } else { acc.flag },
        memo: child.memo,
        checks: acc.checks + child.checks,
    }
}

/// The pass tried after the moves, at depth 3 or more when at most five rectangles are
/// legal and the evaluation is positive: its score, when above the best, makes the pass
/// the best move with an exact flag.
pub open spec fn pass_option(
    pos: SearchPos,
    depth: int,
    beta: i32,
    n_moves: nat,
    acc: MoveLoop,
    clock: spec_fn(nat) -> bool,
    env: SearchEnv,
) -> MoveLoop
    decreases depth, 0int, 0int,
{
    if depth >= 3 && n_moves <= 5 && pos_eval(pos, env.weights) > 0 {
        let child = node_search(
            pos_after(pos, PASS),
            depth - 1,
            negated(beta),
            negated(acc.alpha),
            acc.memo,
            later_clock(clock, acc.checks),
            env,
        );
        let score = negated(child.value);
        MoveLoop {
            alpha: acc.alpha,
            best_value: if score > acc.best_value { score } else { acc.best_value },
            local_best: if score > acc.best_value { (0i32, -1i8, -1i8, -1i8, -1i8) } else { acc.local_best },
            flag: if score > acc.best_value { TT_FLAG_EXACT } else { acc.flag },
            memo: child.memo,
            checks: acc.checks + child.checks,
        }
    } else {
        acc
    }
}

/// The table flag of a finished node: an upper bound whose best value rose above the
/// original `alpha` becomes exact.
pub open spec fn final_flag(tried: MoveLoop, alpha: i32) -> u8 {
    if tried.flag == TT_FLAG_UPPER && tried.best_value > alpha {
        TT_FLAG_EXACT
    } else {
        tried.flag
    }
}

/// The result of a node searched through its moves: the best value, stored in the table
/// under `key` with the depth, flag, age and best move, and the best move named as such.
pub open spec fn stored_result(tried: MoveLoop, alpha: i32, key: u64, depth: int, age: u8) -> SearchOutcome {
    let idx = bucket_index(key);
    let entry = TTEntry {
        key_sig: key_signature(key),
        depth: depth as i16,
        value: tried.best_value,
        flag: final_flag(tried, alpha),
        age,
        packed_move: spec_pack_move(
            tried.local_best.1,
            tried.local_best.2,
            tried.local_best.3,
            tried.local_best.4,
        ),
    };
    SearchOutcome {
        value: tried.best_value,
        memo: SearchMemo {
            tt: tried.memo.tt.update(idx, stored_bucket(tried.memo.tt[idx], entry)),
            nodes: tried.memo.nodes,
            best: tried.local_best,
        },
        checks: tried.checks,
    }
}

/// The memo of a search state, with `best` as the best move.
pub open spec fn memo_of(state: SearchState, best: PrioMove) -> SearchMemo {
    SearchMemo { tt: state.tt.buckets(), nodes: state.nodes, best }
}

/// The environment of a search with these weights and keys and the state's table age.
pub open spec fn env_of(weights: AgentWeights, keys: ZobristKeys, state: SearchState) -> SearchEnv {
    SearchEnv { weights, keys, age: state.tt.spec_age() }
}

/// The search of `pos` when the clock never says the budget is spent.
pub open spec fn untimed_search(
    pos: SearchPos,
    depth: int,
    alpha: i32,
    beta: i32,
    memo: SearchMemo,
    env: SearchEnv,
) -> SearchOutcome {
    node_search(pos, depth, alpha, beta, memo, never_late(), env)
}

proof fn lemma_agrees_prefix(c: spec_fn(nat) -> bool, long: Seq<bool>, short: Seq<bool>, from: nat)
    requires
        clock_agrees(c, long, from),
        log_extends(long, short),
    ensures
        clock_agrees(c, short, from),
{
    assert forall|k: nat| from + k < short.len() implies #[trigger] c(k) == short[(from + k) as int] by {
        assert(c(k) == long[(from + k) as int]);
    }
}

proof fn lemma_agrees_later(c: spec_fn(nat) -> bool, log: Seq<bool>, from: nat, n: nat)
    requires
        clock_agrees(c, log, from),
    ensures
        clock_agrees(later_clock(c, n), log, from + n),
{
    assert forall|k: nat| (from + n) + k < log.len() implies #[trigger] later_clock(c, n)(k) == log[((from + n) + k) as int] by {
        assert(c(k + n) == log[(from + (k + n)) as int]);
    }
}

proof fn lemma_never_late_agrees(log: Seq<bool>, from: nat)
    requires
        no_late_answer(log, from),
    ensures
        clock_agrees(never_late(), log, from),
{
    assert forall|k: nat| from + k < log.len() implies #[trigger] never_late()(k) == log[(from + k) as int] by {
        assert(!log[(from + k) as int]);
    }
}

/// The loop state of `alpha_beta` as a `MoveLoop`: the memo and answers read of `state`.
pub open spec fn loop_state(
    alpha: i32,
    best_value: i32,
    local_best: PrioMove,
    flag: u8,
    state: SearchState,
    best: PrioMove,
    from: nat,
) -> MoveLoop {
    MoveLoop {
        alpha,
        best_value,
        local_best,
        flag,
        memo: memo_of(state, best),
        checks: (state.clock_answers@.len() - from) as nat,
    }
}

/// What `alpha_beta` returned and left, as a `SearchOutcome`.
pub open spec fn search_result(value: i32, state: SearchState, best: PrioMove, from: nat) -> SearchOutcome {
    SearchOutcome {
        value,
        memo: memo_of(state, best),
        checks: (state.clock_answers@.len() - from) as nat,
    }
}

proof fn lemma_untimed(
    pos: SearchPos,
    depth: int,
    alpha: i32,
    beta: i32,
    memo: SearchMemo,
    env: SearchEnv,
    log: Seq<bool>,
    from: nat,
    out: SearchOutcome,
)
    requires
        forall|c: spec_fn(nat) -> bool|
            #[trigger] clock_agrees(c, log, from) ==> node_search(pos, depth, alpha, beta, memo, c, env)
                == out,
    ensures
        no_late_answer(log, from) ==> untimed_search(pos, depth, alpha, beta, memo, env) == out,
{
    if no_late_answer(log, from) {
        lemma_never_late_agrees(log, from);
    }
}

/// Negamax search with alpha-beta pruning of `board` to `depth` plies, for its side to move,
/// in window `(alpha, beta)`, as `node_search` states it: the value returned, the table and
/// node counter left in `state`, and the move left in `best_move` are those of
/// `node_search` given the answers the clock gave during the call (each check asks whether
/// `budget_ms` milliseconds have passed on `timer`), which are appended to
/// `state.clock_answers`; when none of them says the budget was spent, they are those of
/// `untimed_search`. The board comes back as it was.
pub fn alpha_beta(
    board: &mut AgentBoard,
    state: &mut SearchState,
    depth: i16,
    alpha: i32,
    beta: i32,
    timer: &Timer,
    budget_ms: u64,
    best_move: &mut PrioMove,
    weights: &AgentWeights,
    keys: &ZobristKeys,
) -> (value: i32)
    requires
        old(state).wf(),
        keys.wf(),
        weights.bounded(),
        depth >= 0,
        -WINDOW_BOUND <= alpha <= WINDOW_BOUND,
        -WINDOW_BOUND <= beta <= WINDOW_BOUND,
    ensures
        final(state).wf(),
        final(state).tt.spec_age() == old(state).tt.spec_age(),
        same_board(*old(board), *final(board)),
        -VALUE_BOUND <= value <= VALUE_BOUND,
        log_extends(final(state).clock_answers@, old(state).clock_answers@),
        forall|c: spec_fn(nat) -> bool|
            #[trigger] clock_agrees(c, final(state).clock_answers@, old(state).clock_answers@.len())
                ==> node_search(
                pos_of(*old(board)),
                depth as int,
                alpha,
                beta,
                memo_of(*old(state), *old(best_move)),
                c,
                env_of(*weights, *keys, *old(state)),
            ) == search_result(
                value,
                *final(state),
                *final(best_move),
                old(state).clock_answers@.len(),
            ),
        no_late_answer(final(state).clock_answers@, old(state).clock_answers@.len())
            ==> untimed_search(
            pos_of(*old(board)),
            depth as int,
            alpha,
            beta,
            memo_of(*old(state), *old(best_move)),
            env_of(*weights, *keys, *old(state)),
        ) == search_result(
            value,
            *final(state),
            *final(best_move),
            old(state).clock_answers@.len(),
        ),
        old(board).consecutive_passes >= 2 ==> value == terminal_value(*old(board)),
        old(board).consecutive_passes < 2 && depth == 0 ==> value == spec_agent_eval(
            agent_terms(old(board).values@, old(board).owners@, old(board).player),
            *weights,
        ),
    decreases depth,
{
    let ghost b0 = *board;
    let ghost pos = pos_of(*board);
    let ghost log0 = state.clock_answers@;
    let ghost memo0 = memo_of(*state, *best_move);
    let ghost env = env_of(*weights, *keys, *state);
    if board.consecutive_passes >= 2 {
        let p = board.player;
        let opp = opponent(p);
        let margin = board.owned_cells(p) - board.owned_cells(opp);
        let v: i32 = if margin > 0 {
            100000 + margin
        } else if margin < 0 {
            -100000 + margin
        } else {
            0
        };
        proof {
            let out = search_result(v, *state, *best_move, log0.len());
            assert forall|c: spec_fn(nat) -> bool|
                #[trigger] clock_agrees(c, state.clock_answers@, log0.len()) implies node_search(
                pos,
                depth as int,
                alpha,
                beta,
                memo0,
                c,
                env,
            ) == out by {}
            lemma_untimed(pos, depth as int, alpha, beta, memo0, env, state.clock_answers@, log0.len(), out);
        }
        return v;
    }
    proof {
        lemma_bounded_weights_fit(board.values@, board.owners@, board.player, *weights);
    }
    let checked = (state.nodes & 4095) == 0;
    if checked {
        let late = timer.timed_out(budget_ms);
        state.clock_answers = Ghost(state.clock_answers@.push(late));
        if late {
            let v = evaluate(board, weights);
            proof {
                let out = search_result(v, *state, *best_move, log0.len());
                assert forall|c: spec_fn(nat) -> bool|
                    #[trigger] clock_agrees(c, state.clock_answers@, log0.len()) implies node_search(
                    pos,
                    depth as int,
                    alpha,
                    beta,
                    memo0,
                    c,
                    env,
                ) == out by {
                    assert(c(0) == state.clock_answers@[log0.len() as int]);
                }
                lemma_untimed(pos, depth as int, alpha, beta, memo0, env, state.clock_answers@, log0.len(), out);
            }
            return v;
        }
    }
    let ghost checks: nat = if checked { 1 } else { 0 };
    let ghost log1 = state.clock_answers@;
    proof {
        assert(log1.len() == log0.len() + checks);
        assert(checked ==> !log1[log0.len() as int]);
        assert(log_extends(log1, log0));
    }
    state.nodes = state.nodes.wrapping_add(1);
    let ghost counted = memo_of(*state, *best_move);
    if depth == 0 {
        let v = evaluate(board, weights);
        proof {
            let out = search_result(v, *state, *best_move, log0.len());
            assert forall|c: spec_fn(nat) -> bool|
                #[trigger] clock_agrees(c, state.clock_answers@, log0.len()) implies node_search(
                pos,
                depth as int,
                alpha,
                beta,
                memo0,
                c,
                env,
            ) == out by {
                if checked {
                    assert(c(0) == state.clock_answers@[log0.len() as int]);
                }
            }
            lemma_untimed(pos, depth as int, alpha, beta, memo0, env, state.clock_answers@, log0.len(), out);
        }
        return v;
    }
    let key = hash_board(keys, &board.values, &board.owners, board.player);
    let (hit, tt_value, tt_move) = state.tt.probe(key, depth, alpha, beta);
    proof {
        state.tt.lemma_buckets_len();
        let b = state.tt.buckets()[bucket_index(key)];
        lemma_probe_bounded(b, key_signature(key), depth, alpha, beta);
        assert(key == pos_key(pos, *keys));
    }
    if hit {
        *best_move = (0, tt_move.0, tt_move.1, tt_move.2, tt_move.3);
        proof {
            let out = search_result(tt_value, *state, *best_move, log0.len());
            assert forall|c: spec_fn(nat) -> bool|
                #[trigger] clock_agrees(c, state.clock_answers@, log0.len()) implies node_search(
                pos,
                depth as int,
                alpha,
                beta,
                memo0,
                c,
                env,
            ) == out by {
                if checked {
                    assert(c(0) == state.clock_answers@[log0.len() as int]);
                }
            }
            lemma_untimed(pos, depth as int, alpha, beta, memo0, env, state.clock_answers@, log0.len(), out);
        }
        return tt_value;
    }
    let moves = legal_moves_prioritized(board);
    if moves.len() == 0 {
        let ghost before = *board;
        let record = board.make_move(-1, -1, -1, -1);
        let ghost after = *board;
        proof {
            assert(pos_of(after) == pos_after(pos, PASS));
        }
        let child = alpha_beta(
            board,
            state,
            depth - 1,
            -beta,
            -alpha,
            timer,
            budget_ms,
            best_move,
            weights,
            keys,
        );
        let score = -child;
        let ghost mid = *board;
        board.unmake_move(&record);
        proof {
            lemma_undone_same_cells(record, mid, after, *board);
            lemma_unmake_restores(before, after, record, *board, PASS);
            let out = search_result(score, *state, *best_move, log0.len());
            assert forall|c: spec_fn(nat) -> bool|
                #[trigger] clock_agrees(c, state.clock_answers@, log0.len()) implies node_search(
                pos,
                depth as int,
                alpha,
                beta,
                memo0,
                c,
                env,
            ) == out by {
                lemma_agrees_prefix(c, state.clock_answers@, log1, log0.len());
                if checked {
                    assert(c(0) == log1[log0.len() as int]);
                }
                lemma_agrees_later(c, state.clock_answers@, log0.len(), checks);
            }
            lemma_untimed(pos, depth as int, alpha, beta, memo0, env, state.clock_answers@, log0.len(), out);
        }
        return score;
    }
    let ordered = order_with_tt_move(&moves, tt_move, Ghost(board.values@));
    let ghost start = MoveLoop {
        alpha,
        best_value: -999999i32,
        local_best: ordered@[0],
        flag: TT_FLAG_UPPER,
        memo: counted,
        checks,
    };
    let mut best_value: i32 = -999999;
    let mut local_best = ordered[0];
    let mut flag = TT_FLAG_UPPER;
    let alpha_orig = alpha;
    let mut alpha = alpha;
    let mut i: usize = 0;
    while i < ordered.len()
        invariant_except_break
            i <= ordered@.len(),
            forall|c: spec_fn(nat) -> bool|
                #[trigger] clock_agrees(c, state.clock_answers@, log0.len()) ==> move_loop(
                    pos,
                    depth as int,
                    beta,
                    ordered@,
                    0,
                    start,
                    c,
                    env,
                ) == move_loop(
                    pos,
                    depth as int,
                    beta,
                    ordered@,
                    i as int,
                    loop_state(alpha, best_value, local_best, flag, *state, *best_move, log0.len()),
                    c,
                    env,
                ),
        invariant
            1 <= depth,
            same_board(b0, *board),
            b0.consecutive_passes < 2,
            pos == pos_of(b0),
            env == env_of(*weights, *keys, *state),
            log_extends(state.clock_answers@, log1),
            log1.len() == log0.len() + checks,
            state.wf(),
            keys.wf(),
            weights.bounded(),
            -WINDOW_BOUND <= alpha <= WINDOW_BOUND,
            -WINDOW_BOUND <= beta <= WINDOW_BOUND,
            -VALUE_BOUND <= best_value <= VALUE_BOUND,
            forall|k: int|
                0 <= k < ordered@.len() ==> valid_rect(
                    b0.values@,
                    (ordered@[k].1, ordered@[k].2, ordered@[k].3, ordered@[k].4),
                ),
        ensures
            forall|c: spec_fn(nat) -> bool|
                #[trigger] clock_agrees(c, state.clock_answers@, log0.len()) ==> move_loop(
                    pos,
                    depth as int,
                    beta,
                    ordered@,
                    0,
                    start,
                    c,
                    env,
                ) == loop_state(alpha, best_value, local_best, flag, *state, *best_move, log0.len()),
        decreases ordered@.len() - i,
    {
        let mv = ordered[i];
        let ghost acc_i = loop_state(alpha, best_value, local_best, flag, *state, *best_move, log0.len());
        let ghost log_i = state.clock_answers@;
        let ghost before = *board;
        let record = board.make_move(mv.1, mv.2, mv.3, mv.4);
        let ghost after = *board;
        proof {
            assert(pos_of(after) == pos_after(pos, (mv.1, mv.2, mv.3, mv.4)));
        }
        let child = alpha_beta(
            board,
            state,
            depth - 1,
            -beta,
            -alpha,
            timer,
            budget_ms,
            best_move,
            weights,
            keys,
        );
        let score = -child;
        let ghost mid = *board;
        board.unmake_move(&record);
        proof {
            lemma_undone_same_cells(record, mid, after, *board);
            lemma_unmake_restores(before, after, record, *board, (mv.1, mv.2, mv.3, mv.4));
        }
        if score > best_value {
            best_value = score;
            local_best = mv;
        }
        if score > alpha {
            alpha = score;
            flag = TT_FLAG_EXACT;
        }
        proof {
            let cur = loop_state(alpha, best_value, local_best, flag, *state, *best_move, log0.len());
            assert forall|c: spec_fn(nat) -> bool|
                #[trigger] clock_agrees(c, state.clock_answers@, log0.len()) implies move_loop(
                pos,
                depth as int,
                beta,
                ordered@,
                0,
                start,
                c,
                env,
            ) == (if alpha >= beta {
                MoveLoop {
                    alpha,
                    best_value,
                    local_best,
                    flag: TT_FLAG_LOWER,
                    memo: cur.memo,
                    checks: cur.checks,
                }
            } else {
                move_loop(pos, depth as int, beta, ordered@, i + 1, cur, c, env)
            }) by {
                lemma_agrees_prefix(c, state.clock_answers@, log_i, log0.len());
                lemma_agrees_later(c, state.clock_answers@, log0.len(), acc_i.checks);
            }
        }
        if alpha >= beta {
            flag = TT_FLAG_LOWER;
            break;
        }
        i += 1;
    }
    let ghost looped = loop_state(alpha, best_value, local_best, flag, *state, *best_move, log0.len());
    let ghost log_l = state.clock_answers@;
    let ghost passed = depth >= 3 && ordered@.len() <= 5 && pos_eval(pos, *weights) > 0;
    if depth >= 3 && ordered.len() <= 5 {
        let static_eval = evaluate(board, weights);
        if static_eval > 0 {
            let ghost before = *board;
            let record = board.make_move(-1, -1, -1, -1);
            let ghost after = *board;
            proof {
                assert(pos_of(after) == pos_after(pos, PASS));
            }
            let child = alpha_beta(
                board,
                state,
                depth - 1,
                -beta,
                -alpha,
                timer,
                budget_ms,
                best_move,
                weights,
                keys,
            );
            let pass_score = -child;
            let ghost mid = *board;
            board.unmake_move(&record);
            proof {
                lemma_undone_same_cells(record, mid, after, *board);
                lemma_unmake_restores(before, after, record, *board, PASS);
            }
            if pass_score > best_value {
                best_value = pass_score;
                local_best = (0, -1, -1, -1, -1);
                flag = TT_FLAG_EXACT;
            }
        }
    }
    let ghost tried = loop_state(alpha, best_value, local_best, flag, *state, *best_move, log0.len());
    proof {
        assert forall|c: spec_fn(nat) -> bool|
            #[trigger] clock_agrees(c, state.clock_answers@, log0.len()) implies pass_option(
            pos,
            depth as int,
            beta,
            ordered@.len(),
            move_loop(pos, depth as int, beta, ordered@, 0, start, c, env),
            c,
            env,
        ) == tried by {
            lemma_agrees_prefix(c, state.clock_answers@, log_l, log0.len());
            if passed {
                lemma_agrees_later(c, state.clock_answers@, log0.len(), looped.checks);
            }
        }
    }
    *best_move = local_best;
    if flag == TT_FLAG_UPPER && best_value > alpha_orig {
        flag = TT_FLAG_EXACT;
    }
    let ghost tt_before = state.tt;
    proof {
        tt_before.lemma_buckets_len();
    }
    state.tt.store(
        key,
        depth,
        best_value,
        flag,
        local_best.1,
        local_best.2,
        local_best.3,
        local_best.4,
    );
    proof {
        let idx = bucket_index(key);
        assert forall|j: int| 0 <= j < state.tt.buckets().len() implies -VALUE_BOUND
            <= (#[trigger] state.tt.buckets()[j]).slot0.value <= VALUE_BOUND && -VALUE_BOUND
            <= state.tt.buckets()[j].slot1.value <= VALUE_BOUND by {
            if j != idx {
                assert(state.tt.buckets()[j] == tt_before.buckets()[j]);
            }
        }
        let out = search_result(best_value, *state, *best_move, log0.len());
        assert(out == stored_result(tried, alpha_orig, key, depth as int, env.age));
        assert forall|c: spec_fn(nat) -> bool|
            #[trigger] clock_agrees(c, state.clock_answers@, log0.len()) implies node_search(
            pos,
            depth as int,
            alpha_orig,
            beta,
            memo0,
            c,
            env,
        ) == out by {
            lemma_agrees_prefix(c, state.clock_answers@, log1, log0.len());
            if checked {
                assert(c(0) == log1[log0.len() as int]);
            }
        }
        lemma_untimed(pos, depth as int, alpha_orig, beta, memo0, env, state.clock_answers@, log0.len(), out);
    }
    best_value
}

/// The clock that gives the answers of `log` from position `from` on, and then never says
/// the budget was spent.
pub open spec fn log_clock(log: Seq<bool>, from: nat) -> spec_fn(nat) -> bool {
    |k: nat| from + k < log.len() && log[(from + k) as int]
}

proof fn lemma_log_clock_agrees(log: Seq<bool>, from: nat)
    ensures
        clock_agrees(log_clock(log, from), log, from),
{
    assert forall|k: nat| from + k < log.len() implies #[trigger] log_clock(log, from)(k) == log[(
    from + k) as int] by {}
}

/// The move of a prioritized move.
pub open spec fn as_move(m: PrioMove) -> Move {
    (m.1, m.2, m.3, m.4)
}

/// The table of a new search: every bucket empty.
pub open spec fn empty_table() -> Seq<TTBucket> {
    Seq::new(TT_SIZE as nat, |i: int| TTBucket { slot0: empty_entry(), slot1: empty_entry() })
}

/// The state of iterative deepening between depths: the move kept, the score of the last
/// depth that finished in time, the table, node counter and age, and how many answers the
/// clock and the per-depth clock have given.
pub struct Deepening {
    pub best: PrioMove,
    pub prev: i32,
    pub tt: Seq<TTBucket>,
    pub nodes: u64,
    pub age: u8,
    pub checks: nat,
    pub halves: nat,
}

/// Iterative deepening of `pos` from `depth` to 12. Each depth ages the table and searches
/// with a window of 50 around the previous score (the full window at depth 1), again with
/// the full window when the score falls outside; the clock is then asked whether the
/// budget is spent: if not, the depth's move and score are kept. The clock is asked again:
/// a spent budget stops the deepening, and so does, otherwise, the depth having taken over
/// half the budget (the answer of `halves`). The result is the move kept last.
pub open spec fn deepen(
    pos: SearchPos,
    depth: int,
    st: Deepening,
    clock: spec_fn(nat) -> bool,
    halves: spec_fn(nat) -> bool,
    weights: AgentWeights,
    keys: ZobristKeys,
) -> PrioMove
    decreases 13 - depth,
{
    if depth > 12 || depth < 1 {
        st.best
    } else {
        let alpha: i32 = if depth == 1 { (-INF) as i32 } else { (st.prev - 50) as i32 };
        let beta: i32 = if depth == 1 { INF } else { (st.prev + 50) as i32 };
        let age = vstd::wrapping::u8_specs::wrapping_add(st.age, 1);
        let env = SearchEnv { weights, keys, age };
        let first = node_search(
            pos,
            depth,
            alpha,
            beta,
            SearchMemo { tt: st.tt, nodes: st.nodes, best: st.best },
            later_clock(clock, st.checks),
            env,
        );
        let again = first.value <= alpha || first.value >= beta;
        let last = if again {
            node_search(
                pos,
                depth,
                (-INF) as i32,
                INF,
                first.memo,
                later_clock(clock, st.checks + first.checks),
                env,
            )
        } else {
            first
        };
        let used: nat = st.checks + first.checks + if again { last.checks } else { 0 };
        let in_time = !clock(used);
        let best = if in_time { last.memo.best } else { st.best };
        let prev = if in_time { last.value } else { st.prev };
        if clock(used + 1) || halves(st.halves) {
            best
        } else {
            deepen(
                pos,
                depth + 1,
                Deepening {
                    best,
                    prev,
                    tt: last.memo.tt,
                    nodes: last.memo.nodes,
                    age,
                    checks: used + 2,
                    halves: st.halves + 1,
                },
                clock,
                halves,
                weights,
                keys,
            )
        }
    }
}

/// The move the search bot chooses for `pos` given the clock's answers (`clock`: whether
/// the budget is spent, at each check in order; `halves`: whether a depth took over half
/// the budget): the pass when no rectangle is legal; with at most five, a depth-8 search
/// from a new table, whose move is taken when the clock then says the budget is not
/// spent; otherwise iterative deepening (see `deepen`) from the first prioritized
/// rectangle, with the table the depth-8 search left if there was one.
pub open spec fn chosen_move(
    pos: SearchPos,
    clock: spec_fn(nat) -> bool,
    halves: spec_fn(nat) -> bool,
    weights: AgentWeights,
    keys: ZobristKeys,
) -> Move {
    let moves = pos_moves(pos);
    if moves.len() == 0 {
        PASS
    } else {
        let fresh = SearchMemo { tt: empty_table(), nodes: 0, best: moves[0] };
        let start = Deepening {
            best: moves[0],
            prev: 0,
            tt: empty_table(),
            nodes: 0,
            age: 1,
            checks: 0,
            halves: 0,
        };
        if moves.len() <= 5 {
            let o = node_search(
                pos,
                8,
                (-INF) as i32,
                INF,
                fresh,
                clock,
                SearchEnv { weights, keys, age: 1 },
            );
            if !clock(o.checks) {
                as_move(o.memo.best)
            } else {
                as_move(
                    deepen(
                        pos,
                        1,
                        Deepening {
                            best: moves[0],
                            prev: 0,
                            tt: o.memo.tt,
                            nodes: o.memo.nodes,
                            age: 1,
                            checks: o.checks + 1,
                            halves: 0,
                        },
                        clock,
                        halves,
                        weights,
                        keys,
                    ),
                )
            }
        } else {
            as_move(deepen(pos, 1, start, clock, halves, weights, keys))
        }
    }
}

/// The deepening state of the search bot's loop.
pub open spec fn deepening_of(best: PrioMove, prev: i32, state: SearchState, halves: Seq<bool>) -> Deepening {
    Deepening {
        best,
        prev,
        tt: state.tt.buckets(),
        nodes: state.nodes,
        age: state.tt.spec_age(),
        checks: state.clock_answers@.len(),
        halves: halves.len(),
    }
}

/// The move the search bot chooses for `pos` when the clock never says the budget is spent
/// nor that a depth took over half of it.
pub open spec fn untimed_move(pos: SearchPos, weights: AgentWeights, keys: ZobristKeys) -> Move {
    chosen_move(pos, never_late(), never_late(), weights, keys)
}

/// `search_best_move`, also handing back the answers its clock gave, in order: whether the
/// budget was spent at each check, and whether a depth took over half the budget. The move
/// is `chosen_move` for those answers; when none of them is yes, it is `untimed_move`.
pub fn search_best_move_logged(
    board: &AgentBoard,
    time_budget_ms: i64,
    weights: &AgentWeights,
    keys: &ZobristKeys,
) -> (r: (Move, Ghost<Seq<bool>>, Ghost<Seq<bool>>))
    requires
        keys.wf(),
        weights.bounded(),
        -(i64::MAX / 80) <= time_budget_ms <= i64::MAX / 80,
    ensures
        legal_rects(board.values@).len() == 0 ==> r.0 == PASS,
        r.0 == chosen_move(pos_of(*board), log_clock(r.1@, 0), log_clock(r.2@, 0), *weights, *keys),
        no_late_answer(r.1@, 0) && no_late_answer(r.2@, 0) ==> r.0 == untimed_move(
            pos_of(*board),
            *weights,
            *keys,
        ),
{
    let ghost pos = pos_of(*board);
    let timer = Timer::new();
    let mut work = *board;
    let moves = legal_moves_prioritized(&work);
    if moves.len() == 0 {
        let ghost none: Seq<bool> = Seq::empty();
        proof {
            assert(chosen_move(pos, log_clock(none, 0), log_clock(none, 0), *weights, *keys) == PASS);
            assert(chosen_move(pos, never_late(), never_late(), *weights, *keys) == PASS);
        }
        return ((-1, -1, -1, -1), Ghost(none), Ghost(none));
    }
    let mut state = SearchState::new();
    proof {
        assert(state.tt.buckets() =~= empty_table());
    }
    let scaled = time_budget_ms * 80 / 100;
    let budget: i64 = if scaled > 1 {
        scaled
    } else {
        1
    };
    let budget_ms = budget as u64;
    let ghost mut halves: Seq<bool> = Seq::empty();
    let ghost start = deepening_of(moves@[0], 0, state, halves);
    let ghost small = moves@.len() <= 5;
    if moves.len() <= 5 {
        let mut best_mv = moves[0];
        let ghost memo_b = memo_of(state, best_mv);
        let ghost env_b = env_of(*weights, *keys, state);
        let v = alpha_beta(
            &mut work,
            &mut state,
            8,
            -INF,
            INF,
            &timer,
            budget_ms,
            &mut best_mv,
            weights,
            keys,
        );
        let ghost log_8 = state.clock_answers@;
        let late = timer.timed_out(budget_ms);
        state.clock_answers = Ghost(state.clock_answers@.push(late));
        if !late {
            proof {
                let c = log_clock(state.clock_answers@, 0);
                let h = log_clock(halves, 0);
                lemma_log_clock_agrees(state.clock_answers@, 0);
                lemma_agrees_prefix(c, state.clock_answers@, log_8, 0);
                assert(c(log_8.len()) == late);
                assert(chosen_move(pos, c, h, *weights, *keys) == (
                    best_mv.1,
                    best_mv.2,
                    best_mv.3,
                    best_mv.4,
                ));
                lemma_untimed_move(pos, state.clock_answers@, halves, *weights, *keys);
            }
            return ((best_mv.1, best_mv.2, best_mv.3, best_mv.4), Ghost(state.clock_answers@), Ghost(halves));
        }
        proof {
            start = deepening_of(moves@[0], 0, state, halves);
            assert forall|c: spec_fn(nat) -> bool, h: spec_fn(nat) -> bool|
                #![trigger clock_agrees(c, state.clock_answers@, 0nat), clock_agrees(h, halves, 0nat)]
                clock_agrees(c, state.clock_answers@, 0nat) && clock_agrees(h, halves, 0nat)
                    implies chosen_move(pos, c, h, *weights, *keys) == as_move(
                    deepen(pos, 1, start, c, h, *weights, *keys),
                ) by {
                lemma_agrees_prefix(c, state.clock_answers@, log_8, 0);
                assert(c(log_8.len()) == late);
            }
        }
    } else {
        proof {
            assert forall|c: spec_fn(nat) -> bool, h: spec_fn(nat) -> bool|
                #![trigger clock_agrees(c, state.clock_answers@, 0nat), clock_agrees(h, halves, 0nat)]
                clock_agrees(c, state.clock_answers@, 0nat) && clock_agrees(h, halves, 0nat)
                    implies chosen_move(pos, c, h, *weights, *keys) == as_move(
                    deepen(pos, 1, start, c, h, *weights, *keys),
                ) by {}
        }
    }
    let mut best_move = moves[0];
    let mut prev_score = 0i32;
    let max_depth: i16 = 12;
    let mut depth: i16 = 1;
    while depth <= max_depth
        invariant_except_break
            1 <= depth <= max_depth + 1,
            forall|c: spec_fn(nat) -> bool, h: spec_fn(nat) -> bool|
                #![trigger clock_agrees(c, state.clock_answers@, 0nat), clock_agrees(h, halves, 0nat)]
                clock_agrees(c, state.clock_answers@, 0nat) && clock_agrees(h, halves, 0nat)
                    ==> deepen(pos, 1, start, c, h, *weights, *keys) == deepen(
                    pos,
                    depth as int,
                    deepening_of(best_move, prev_score, state, halves),
                    c,
                    h,
                    *weights,
                    *keys,
                ),
        invariant
            max_depth == 12,
            state.wf(),
            keys.wf(),
            weights.bounded(),
            -VALUE_BOUND <= prev_score <= VALUE_BOUND,
            same_board(*board, work),
            pos == pos_of(*board),
            moves@.len() > 0,
            moves@ == pos_moves(pos),
            forall|c: spec_fn(nat) -> bool, h: spec_fn(nat) -> bool|
                #![trigger clock_agrees(c, state.clock_answers@, 0nat), clock_agrees(h, halves, 0nat)]
                clock_agrees(c, state.clock_answers@, 0nat) && clock_agrees(h, halves, 0nat)
                    ==> chosen_move(pos, c, h, *weights, *keys) == as_move(
                    deepen(pos, 1, start, c, h, *weights, *keys),
                ),
        ensures
            forall|c: spec_fn(nat) -> bool, h: spec_fn(nat) -> bool|
                #![trigger clock_agrees(c, state.clock_answers@, 0nat), clock_agrees(h, halves, 0nat)]
                clock_agrees(c, state.clock_answers@, 0nat) && clock_agrees(h, halves, 0nat)
                    ==> chosen_move(pos, c, h, *weights, *keys) == as_move(best_move),
        decreases max_depth + 1 - depth,
    {
        let ghost cur = deepening_of(best_move, prev_score, state, halves);
        let ghost log_i = state.clock_answers@;
        let ghost halves_i = halves;
        let depth_timer = Timer::new();
        let (alpha, beta) = if depth == 1 {
            (-INF, INF)
        } else {
            (prev_score - 50, prev_score + 50)
        };
        let mut depth_best = best_move;
        state.tt.increment_age();
        let ghost memo_1 = memo_of(state, depth_best);
        let ghost env_1 = env_of(*weights, *keys, state);
        let ghost len_1 = state.clock_answers@.len();
        let score = alpha_beta(
            &mut work,
            &mut state,
            depth,
            alpha,
            beta,
            &timer,
            budget_ms,
            &mut depth_best,
            weights,
            keys,
        );
        let ghost log_1 = state.clock_answers@;
        let ghost len_2 = state.clock_answers@.len();
        let again = score <= alpha || score >= beta;
        let final_score = if again {
            alpha_beta(
                &mut work,
                &mut state,
                depth,
                -INF,
                INF,
                &timer,
                budget_ms,
                &mut depth_best,
                weights,
                keys,
            )
        } else {
            score
        };
        let ghost log_2 = state.clock_answers@;
        let late = timer.timed_out(budget_ms);
        state.clock_answers = Ghost(state.clock_answers@.push(late));
        if !late {
            best_move = depth_best;
            prev_score = final_score;
        }
        let late_after = timer.timed_out(budget_ms);
        state.clock_answers = Ghost(state.clock_answers@.push(late_after));
        let half = if late_after {
            false
        } else {
            depth_timer.elapsed_ms() > budget_ms / 2
        };
        proof {
            if !late_after {
                halves = halves.push(half);
            }
        }
        let stop = late_after || half;
        proof {
            assert forall|c: spec_fn(nat) -> bool, h: spec_fn(nat) -> bool|
                #![trigger clock_agrees(c, state.clock_answers@, 0nat), clock_agrees(h, halves, 0nat)]
                clock_agrees(c, state.clock_answers@, 0nat) && clock_agrees(h, halves, 0nat)
                    implies deepen(pos, 1, start, c, h, *weights, *keys) == (if stop {
                    best_move
                } else {
                    deepen(
                        pos,
                        depth + 1,
                        deepening_of(best_move, prev_score, state, halves),
                        c,
                        h,
                        *weights,
                        *keys,
                    )
                }) && chosen_move(pos, c, h, *weights, *keys) == as_move(
                    deepen(pos, 1, start, c, h, *weights, *keys),
                ) by {
                lemma_agrees_prefix(c, state.clock_answers@, log_i, 0);
                lemma_agrees_prefix(c, state.clock_answers@, log_1, 0);
                lemma_agrees_prefix(c, state.clock_answers@, log_2, 0);
                lemma_agrees_later(c, log_1, 0, len_1);
                lemma_agrees_later(c, log_2, 0, len_2);
                if !late_after {
                    lemma_agrees_prefix(h, halves, halves_i, 0);
                    assert(h(halves_i.len()) == half);
                } else {
                    assert(halves == halves_i);
                }
                assert(c(log_2.len()) == late);
                assert(c((log_2.len() + 1) as nat) == late_after);
            }
        }
        if stop {
            break;
        }
        depth += 1;
    }
    proof {
        let c = log_clock(state.clock_answers@, 0);
        let h = log_clock(halves, 0);
        lemma_log_clock_agrees(state.clock_answers@, 0);
        lemma_log_clock_agrees(halves, 0);
        assert(chosen_move(pos, c, h, *weights, *keys) == as_move(best_move));
        lemma_untimed_move(pos, state.clock_answers@, halves, *weights, *keys);
    }
    ((best_move.1, best_move.2, best_move.3, best_move.4), Ghost(state.clock_answers@), Ghost(halves))
}

proof fn lemma_untimed_move(
    pos: SearchPos,
    answers: Seq<bool>,
    halves: Seq<bool>,
    weights: AgentWeights,
    keys: ZobristKeys,
)
    ensures
        no_late_answer(answers, 0) && no_late_answer(halves, 0) ==> chosen_move(
            pos,
            log_clock(answers, 0),
            log_clock(halves, 0),
            weights,
            keys,
        ) == untimed_move(pos, weights, keys),
{
    if no_late_answer(answers, 0) && no_late_answer(halves, 0) {
        assert(log_clock(answers, 0) =~= never_late()) by {
            assert forall|k: nat| #[trigger] log_clock(answers, 0)(k) == never_late()(k) by {
                if k < answers.len() {
                    assert(!answers[k as int]);
                }
            }
        }
        assert(log_clock(halves, 0) =~= never_late()) by {
            assert forall|k: nat| #[trigger] log_clock(halves, 0)(k) == never_late()(k) by {
                if k < halves.len() {
                    assert(!halves[k as int]);
                }
            }
        }
    }
}

/// The move the search bot plays on `board` within about `time_budget_ms` milliseconds (80%
/// of it, at least 1): `chosen_move` for the answers its clock gives (see
/// `search_best_move_logged`, which hands them back); the pass when no rectangle is legal.
pub fn search_best_move(board: &AgentBoard, time_budget_ms: i64, weights: &AgentWeights, keys: &ZobristKeys) -> (mv: Move)
    requires
        keys.wf(),
        weights.bounded(),
        -(i64::MAX / 80) <= time_budget_ms <= i64::MAX / 80,
    ensures
        legal_rects(board.values@).len() == 0 ==> mv == PASS,
        exists|clock: spec_fn(nat) -> bool, halves: spec_fn(nat) -> bool|
            mv == #[trigger] chosen_move(pos_of(*board), clock, halves, *weights, *keys),
{
    let (mv, answers, halves) = search_best_move_logged(board, time_budget_ms, weights, keys);
    proof {
        let c = log_clock(answers@, 0);
        let h = log_clock(halves@, 0);
        assert(mv == chosen_move(pos_of(*board), c, h, *weights, *keys));
    }
    mv
}

} // verus!
