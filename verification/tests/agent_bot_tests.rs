use mushroom_bot::bots::agent_board::AgentBoard;
use mushroom_bot::bots::agent_eval::{
    evaluate, legal_moves_for, legal_moves_prioritized, score_move, AgentWeights,
};
use mushroom_bot::bots::agent_protocol::{turn_budget, Protocol};
use mushroom_bot::bots::agent_search::{alpha_beta, search_best_move, SearchState, Timer};
use mushroom_bot::bots::agent_tt::TranspositionTable;
use mushroom_bot::bots::agent_zobrist::{hash_board, init_zobrist, xorshift64};
use mushroom_bot::types::{FIRST, SECOND};

fn rows_of(s: &str) -> Vec<String> {
    vec![s.to_string(); 10]
}

fn standard_board() -> AgentBoard {
    AgentBoard::from_rows(&rows_of("12345678912345678"))
}

fn default_weights() -> AgentWeights {
    AgentWeights {
        territory: 100,
        connectivity: 12,
        corner_bonus: 25,
        edge_bonus: 5,
        steal_potential: 50,
        vulnerability: -15,
    }
}

#[test]
fn agent_board_from_rows_reads_digits() {
    let b = standard_board();
    assert_eq!(b.values[0], 1);
    assert_eq!(b.values[16], 8);
    assert_eq!(b.values[17], 1);
    assert_eq!(b.player, FIRST);
    assert_eq!(b.consecutive_passes, 0);
    assert!(b.owners.iter().all(|&o| o == 0));
}

#[test]
fn agent_make_then_unmake_restores_board() {
    let mut b = standard_board();
    let before = b;
    let rec = b.make_move(0, 0, 0, 3);
    assert_eq!(b.values[0], 0);
    assert_eq!(b.values[3], 0);
    assert_eq!(b.values[4], 5);
    assert_eq!(b.owners[3], FIRST);
    assert_eq!(b.player, SECOND);
    assert_eq!(b.consecutive_passes, 0);
    b.unmake_move(&rec);
    assert_eq!(b.values, before.values);
    assert_eq!(b.owners, before.owners);
    assert_eq!(b.player, before.player);
    assert_eq!(b.consecutive_passes, before.consecutive_passes);
}

#[test]
fn agent_pass_counts_and_unmakes() {
    let mut b = standard_board();
    let rec = b.make_move(-1, -1, -1, -1);
    assert_eq!(b.consecutive_passes, 1);
    assert_eq!(b.player, SECOND);
    b.unmake_move(&rec);
    assert_eq!(b.consecutive_passes, 0);
    assert_eq!(b.player, FIRST);
}

#[test]
fn agent_apply_move_matches_make_move() {
    let mut a = standard_board();
    let mut b = standard_board();
    a.apply_move(2, 4, 3, 4);
    let _ = b.make_move(2, 4, 3, 4);
    assert_eq!(a.values, b.values);
    assert_eq!(a.owners, b.owners);
    assert_eq!(a.player, b.player);
}

#[test]
fn agent_legal_move_checks() {
    let b = standard_board();
    assert!(b.is_legal_move(0, 0, 0, 3));
    assert!(!b.is_legal_move(0, 0, 0, 2));
    assert!(b.is_legal_move(-1, 5, 5, 5));
    assert!(!b.is_legal_move(0, 0, 0, 20));
    assert!(b.is_legal_move(0, 4, 1, 4));
}

#[test]
fn agent_terminal_score_sign_and_margin() {
    let mut b = standard_board();
    b.apply_move(0, 0, 0, 3);
    assert_eq!(b.owned_cells(FIRST), 4);
    assert_eq!(b.terminal_score_for(FIRST), 100004);
    assert_eq!(b.terminal_score_for(SECOND), -100004);
    assert!(!b.is_terminal());
    b.apply_move(-1, -1, -1, -1);
    b.apply_move(-1, -1, -1, -1);
    assert!(b.is_terminal());
    let fresh = standard_board();
    assert_eq!(fresh.terminal_score_for(FIRST), 0);
}

#[test]
fn agent_evaluate_exact_values() {
    let b = standard_board();
    let w = default_weights();
    assert_eq!(evaluate(&b, &w), 0);
    let mut after = b;
    after.apply_move(0, 0, 0, 3);
    // side to move (second) sees: territory -4, corner -1, border -4, four opponent cells
    // next to live cells.
    assert_eq!(evaluate(&after, &w), -400 - 25 - 20 + 200);
    assert_eq!(score_move(&b, 0, 0, 0, 3, &w), -245);
}

#[test]
fn agent_legal_moves_for_lists_generation_order() {
    let b = standard_board();
    let moves = legal_moves_for(&b);
    assert!(moves.contains(&(0, 0, 0, 3)));
    assert!(moves.contains(&(0, 4, 1, 4)));
    let empty = AgentBoard::from_rows(&rows_of("00000000000000000"));
    assert!(legal_moves_for(&empty).is_empty());
}

#[test]
fn agent_prioritized_highest_first() {
    let b = standard_board();
    let moves = legal_moves_prioritized(&b);
    assert_eq!(moves.len(), legal_moves_for(&b).len());
    assert_eq!(moves[0], (1384, 0, 4, 1, 4));
    for k in 1..moves.len() {
        assert!(moves[k - 1].0 >= moves[k].0);
    }
}

#[test]
fn agent_xorshift_known_values() {
    let mut s = 1234567890123456789u64;
    assert_eq!(xorshift64(&mut s), 11490187703438194519u64);
    assert_eq!(s, 11490187703438194519u64);
    assert_eq!(xorshift64(&mut s), 10947751791980740601u64);
}

#[test]
fn agent_zobrist_keys_and_hash() {
    let keys = init_zobrist();
    assert_eq!(keys.value.len(), 1700);
    assert_eq!(keys.owner.len(), 510);
    assert_eq!(keys.value[0], 11490187703438194519u64);
    let b = standard_board();
    let h1 = hash_board(&keys, &b.values, &b.owners, FIRST);
    let h2 = hash_board(&keys, &b.values, &b.owners, SECOND);
    assert_eq!(h1 ^ h2, keys.player);
    let mut c = b;
    c.apply_move(0, 0, 0, 3);
    assert_ne!(hash_board(&keys, &c.values, &c.owners, FIRST), h1);
}

#[test]
fn agent_tt_store_then_probe() {
    let mut tt = TranspositionTable::new();
    let key = 0x1234_5678_9abc_def0u64;
    tt.store(key, 3, 42, 1, 1, 2, 3, 4);
    let (hit, value, mv) = tt.probe(key, 3, -100, 100);
    assert!(hit);
    assert_eq!(value, 42);
    assert_eq!(mv, (1, 2, 3, 4));
    let (hit2, _, _) = tt.probe(key, 4, -100, 100);
    assert!(!hit2);
}

#[test]
fn agent_alpha_beta_restores_board() {
    let mut b = standard_board();
    let before = b;
    let keys = init_zobrist();
    let w = default_weights();
    let mut state = SearchState::new();
    let timer = Timer::new();
    let mut best = (0, -1, -1, -1, -1);
    let v = alpha_beta(&mut b, &mut state, 2, -999999, 999999, &timer, 60_000, &mut best, &w, &keys);
    assert_eq!(b.values, before.values);
    assert_eq!(b.owners, before.owners);
    assert_eq!(b.player, before.player);
    assert!(v.abs() <= 1_000_000_000);
    assert!(b.is_legal_move(best.1, best.2, best.3, best.4));
}

#[test]
fn agent_alpha_beta_leaf_and_terminal() {
    let keys = init_zobrist();
    let w = default_weights();
    let mut state = SearchState::new();
    let timer = Timer::new();
    let mut best = (0, -1, -1, -1, -1);
    let mut b = standard_board();
    b.apply_move(0, 0, 0, 3);
    let v0 = alpha_beta(&mut b, &mut state, 0, -999999, 999999, &timer, 60_000, &mut best, &w, &keys);
    assert_eq!(v0, evaluate(&b, &w));
    b.apply_move(-1, -1, -1, -1);
    b.apply_move(-1, -1, -1, -1);
    let vt = alpha_beta(&mut b, &mut state, 3, -999999, 999999, &timer, 60_000, &mut best, &w, &keys);
    assert_eq!(vt, b.terminal_score_for(b.player));
}

#[test]
fn agent_search_passes_without_moves() {
    let keys = init_zobrist();
    let w = default_weights();
    let empty = AgentBoard::from_rows(&rows_of("00000000000000000"));
    assert_eq!(search_best_move(&empty, 100, &w, &keys), (-1, -1, -1, -1));
}

#[test]
fn agent_search_returns_legal_move() {
    let keys = init_zobrist();
    let w = default_weights();
    let mut rows = rows_of("00000000000000000");
    rows[0] = "55000000000000000".to_string();
    rows[5] = "00000000000000091".to_string();
    let b = AgentBoard::from_rows(&rows);
    let mv = search_best_move(&b, 200, &w, &keys);
    assert!(mv == (0, 0, 0, 1) || mv == (5, 15, 5, 16));
}

#[test]
fn agent_turn_budget_values() {
    let b = standard_board();
    assert_eq!(turn_budget(&b.values, 10_000), 238);
    assert_eq!(turn_budget(&b.values, 0), 20);
    assert_eq!(turn_budget(&b.values, 10_000_000), 2500);
    let empty = AgentBoard::from_rows(&rows_of("00000000000000000"));
    assert_eq!(turn_budget(&empty.values, 1000), 250);
}

#[test]
fn agent_protocol_session() {
    let mut p = Protocol::new(default_weights(), init_zobrist());
    assert_eq!(p.handle("  "), None);
    assert_eq!(p.handle("READY FIRST"), Some("OK".to_string()));
    assert!(p.i_am_first);
    assert_eq!(p.board.player, FIRST);
    let init = format!("INIT {}", rows_of("12345678912345678").join(" "));
    assert_eq!(p.handle(&init), None);
    assert_eq!(p.board.values[0], 1);
    let reply = p.handle("TIME 1000 1000").unwrap();
    let nums: Vec<i8> = reply.split_whitespace().map(|s| s.parse().unwrap()).collect();
    assert_eq!(nums.len(), 4);
    assert_eq!(p.board.player, SECOND);
    assert_eq!(p.handle("OPP -1 -1 -1 -1 0"), None);
    assert_eq!(p.opp_consecutive_passes, 1);
    assert_eq!(p.board.player, FIRST);
    assert_eq!(p.handle("FINISH"), None);
    assert!(!p.running);
}

#[test]
fn agent_protocol_locks_in_after_two_passes() {
    let mut p = Protocol::new(default_weights(), init_zobrist());
    p.handle("READY SECOND");
    assert_eq!(p.board.player, SECOND);
    let init = format!("INIT {}", rows_of("12345678912345678").join(" "));
    p.handle(&init);
    p.handle("OPP 0 0 0 3 0");
    assert_eq!(p.board.owned_cells(FIRST), 4);
    assert_eq!(p.opp_consecutive_passes, 0);
    p.board.owners[100] = SECOND;
    p.board.owners[101] = SECOND;
    p.board.owners[102] = SECOND;
    p.board.owners[103] = SECOND;
    p.board.owners[104] = SECOND;
    p.handle("OPP -1 -1 -1 -1 0");
    p.handle("OPP -1 -1 -1 -1 0");
    assert_eq!(p.opp_consecutive_passes, 2);
    assert_eq!(p.handle("TIME 1000 1000"), Some("-1 -1 -1 -1".to_string()));
}
