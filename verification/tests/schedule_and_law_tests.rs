use mushroom_bot::bitboard::Bitboard;
use mushroom_bot::board::Board;
use mushroom_bot::bots::agent_board::AgentBoard;
use mushroom_bot::bots::agent_eval::{evaluate, legal_moves_for, AgentWeights};
use mushroom_bot::bots::agent_search::{alpha_beta, search_best_move_logged, SearchState, Timer};
use mushroom_bot::bots::agent_zobrist::init_zobrist;
use mushroom_bot::bots::tournament::{tournament_board_seed, tournament_first_moves_first, Tally};
use mushroom_bot::bots::trainer::{match_schedule, trainer_first_moves_first, trainer_game_seed};
use mushroom_bot::dataloader::{build_cell_to_rects, RectGeometry};
use mushroom_bot::eval::compute_move_features;
use mushroom_bot::movegen::{fixed_rect_id, rect_mask};
use mushroom_bot::types::{FIRST, PASS, SECOND};

fn digit_rows() -> Vec<String> {
    vec!["12345678912345678".to_string(); 10]
}

fn weights() -> AgentWeights {
    AgentWeights {
        territory: 100,
        connectivity: 12,
        corner_bonus: 25,
        edge_bonus: 5,
        steal_potential: 50,
        vulnerability: -15,
    }
}

#[test]
fn trainer_round_robin_pairs() {
    let pairs = match_schedule(3, 2, None).unwrap();
    assert_eq!(
        pairs,
        vec![
            (0, 1),
            (0, 1),
            (0, 2),
            (0, 2),
            (1, 0),
            (1, 0),
            (1, 2),
            (1, 2),
            (2, 0),
            (2, 0),
            (2, 1),
            (2, 1)
        ]
    );
}

#[test]
fn trainer_focus_pairs_both_ways() {
    let pairs = match_schedule(3, 2, Some(1)).unwrap();
    assert_eq!(pairs, vec![(1, 0), (0, 1), (1, 0), (0, 1), (1, 2), (2, 1), (1, 2), (2, 1)]);
}

#[test]
fn trainer_focus_out_of_range_has_no_schedule() {
    assert_eq!(match_schedule(3, 5, Some(3)), None);
    assert_eq!(match_schedule(3, 5, Some(7)), None);
}

#[test]
fn trainer_no_games_per_pair() {
    assert_eq!(match_schedule(4, 0, None), Some(vec![]));
    assert_eq!(match_schedule(1, 3, None), Some(vec![]));
    assert_eq!(match_schedule(1, 3, Some(0)), Some(vec![]));
}

#[test]
fn trainer_game_seeds_and_sides() {
    assert_eq!(trainer_game_seed(42, 0), 42);
    assert_eq!(trainer_game_seed(42, 3), 42 + 3 * 7919);
    assert!(trainer_first_moves_first(4));
    assert!(!trainer_first_moves_first(5));
}

#[test]
fn tournament_seeds_and_sides() {
    assert_eq!(tournament_board_seed(42, 7), 7042);
    assert!(tournament_first_moves_first(3, false));
    assert!(!tournament_first_moves_first(3, true));
    assert!(tournament_first_moves_first(4, true));
}

#[test]
fn tournament_tally_counts_results() {
    let mut t = Tally::new();
    t.record(5);
    t.record(0);
    t.record(-3);
    t.record(12);
    assert_eq!(t.games, 4);
    assert_eq!(t.wins, 2);
    assert_eq!(t.draws, 1);
    assert_eq!(t.total_margin, 14);
    assert_eq!(t.losses(), 1);
}

#[test]
fn features_partition_rectangle() {
    let board = Board::from_rows(&digit_rows());
    // The first player takes (0,0)-(0,3); the second player is then to move.
    let board = board.apply_action((0, 0, 0, 3));
    // A rectangle over one row of owned cells and one row of fresh cells.
    let mv = (0, 0, 1, 4);
    let f = compute_move_features(&board, mv);
    assert_eq!(f.area, 10);
    assert_eq!(f.recaptured, 4);
    assert_eq!(f.own, 0);
    assert_eq!(f.fresh, 6);
    assert_eq!(f.fresh + f.recaptured + f.own, f.area);
    assert_eq!(f.live, 6);
    // Border cells of the rectangle: the whole top row (5) and (1,0).
    assert_eq!(f.corner + f.edge, 6);
    assert_eq!(f.corner, 1);
    assert_eq!(
        board.action_score(mv),
        (f.fresh + 2 * f.recaptured, f.recaptured, f.fresh, f.live, f.area - f.own, f.area)
    );
}

#[test]
fn rect_mask_holds_the_area() {
    let bb = rect_mask(1, 3, 2, 6);
    assert_eq!(bb.popcount(), 15);
    for r in 0..10usize {
        for c in 0..17usize {
            assert_eq!(bb.get(r, c), (1..=3).contains(&r) && (2..=6).contains(&c));
        }
    }
    assert_eq!(rect_mask(0, 9, 0, 16).popcount(), 170);
    assert_eq!(rect_mask(4, 4, 7, 7).popcount(), 1);
}

#[test]
fn fixed_rect_ids_follow_rectangle_order() {
    let mut expected: u16 = 0;
    for r1 in 0..10i8 {
        for r2 in r1..10i8 {
            for c1 in 0..17i8 {
                for c2 in c1..17i8 {
                    assert_eq!(fixed_rect_id(r1, c1, r2, c2), expected);
                    expected += 1;
                }
            }
        }
    }
    assert_eq!(expected, 8415);
}

#[test]
fn scores_and_empty_cells_fill_board() {
    let board = Board::from_rows(&digit_rows());
    let board = board.apply_action((0, 0, 0, 3));
    let board = board.apply_action((1, 0, 1, 3));
    let board = board.apply_action((0, 0, 1, 4));
    assert_eq!(board.score(FIRST), 10);
    assert_eq!(board.score(SECOND), 0);
    assert_eq!(
        board.score(FIRST) + board.score(SECOND) + board.empty_mask.popcount() as i32,
        170
    );
    let passed = board.apply_action(PASS);
    assert_eq!(passed.score(FIRST), board.score(FIRST));
    assert_eq!(passed.score(SECOND), board.score(SECOND));
}

#[test]
fn alpha_beta_depth_one_takes_best_reply() {
    let keys = init_zobrist();
    let w = weights();
    let mut b = AgentBoard::from_rows(&digit_rows());
    let mut best_value = i32::MIN;
    let mut best_moves = Vec::new();
    for mv in legal_moves_for(&b) {
        let mut child = b;
        child.apply_move(mv.0, mv.1, mv.2, mv.3);
        let score = -evaluate(&child, &w);
        if score > best_value {
            best_value = score;
            best_moves = vec![mv];
        } else if score == best_value {
            best_moves.push(mv);
        }
    }
    let mut state = SearchState::new();
    let timer = Timer::new();
    let mut best = (0, -1, -1, -1, -1);
    let v = alpha_beta(&mut b, &mut state, 1, -999999, 999999, &timer, 600_000, &mut best, &w, &keys);
    assert_eq!(v, best_value);
    assert!(best_moves.contains(&(best.1, best.2, best.3, best.4)));
    assert_eq!(state.nodes, 1 + legal_moves_for(&b).len() as u64);
}

#[test]
fn overlong_row_runs_into_next_row() {
    let mut rows = vec![String::new(); 10];
    rows[0] = "12345678912345678999".to_string();
    rows[1] = "5".to_string();
    let board = Board::from_rows(&rows);
    assert_eq!(board.values[16], 8);
    assert_eq!(board.values[17], 5);
    assert_eq!(board.values[18], 9);
    assert_eq!(board.values[19], 9);
    assert_eq!(board.values[20], 0);
}

fn wide_record(r1: u8, c1: u8, r2: u8, c2: u8) -> RectGeometry {
    let empty = Bitboard::empty();
    RectGeometry {
        r1,
        c1,
        r2,
        c2,
        area: 0,
        cell_mask: empty,
        top_border: empty,
        bottom_border: empty,
        left_border: empty,
        right_border: empty,
    }
}

#[test]
fn cell_lists_of_records_past_last_column() {
    // Columns 15..=18 of row 0 are cells 15, 16, 17 and 18.
    // Columns 0..=20 of rows 0 and 1 reach cells 17..=20 from both rows.
    let geo = vec![wide_record(0, 15, 0, 18), wide_record(0, 0, 1, 20), wide_record(3, 5, 2, 5)];
    let cells = build_cell_to_rects(&geo);
    assert_eq!(cells[14], vec![1u16]);
    assert_eq!(cells[15], vec![0u16, 1]);
    assert_eq!(cells[17], vec![0u16, 1, 1]);
    assert_eq!(cells[18], vec![0u16, 1, 1]);
    assert_eq!(cells[19], vec![1u16, 1]);
    assert_eq!(cells[21], vec![1u16]);
    assert_eq!(cells[37], vec![1u16]);
    assert_eq!(cells[38], Vec::<u16>::new());
}

#[test]
fn logged_search_move_matches_plain_search() {
    let keys = init_zobrist();
    let w = weights();
    let mut rows = vec!["00000000000000000".to_string(); 10];
    rows[0] = "55000000000000000".to_string();
    rows[5] = "00000000000000091".to_string();
    let b = AgentBoard::from_rows(&rows);
    let (mv, _, _) = search_best_move_logged(&b, 200, &w, &keys);
    assert!(mv == (0, 0, 0, 1) || mv == (5, 15, 5, 16));
    let empty = AgentBoard::from_rows(&vec!["00000000000000000".to_string(); 10]);
    let (pass, _, _) = search_best_move_logged(&empty, 200, &w, &keys);
    assert_eq!(pass, PASS);
}
