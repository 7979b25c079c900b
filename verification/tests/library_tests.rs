use mushroom_bot::board::Board;
use mushroom_bot::bots::cordyceps_board::{is_terminal, legal_moves};
use mushroom_bot::bots::cordyceps_eval::{count_cells, lightweight_evaluate};
use mushroom_bot::bots::cordyceps_movegen::{generate_moves, live_mushrooms};
use mushroom_bot::bots::cordyceps_timeman::{GamePhase, TimeManager};
use mushroom_bot::bots::tuner::{mutate, Rng};
use mushroom_bot::bots::zoo_rng::ZooRng;
use mushroom_bot::dataloader::{build_cell_to_rects, load_geometry_from_data, RectGeometry};
use mushroom_bot::end_game::ordering::endgame_move_bonus;
use mushroom_bot::eval::{compute_move_features, static_move_score};
use mushroom_bot::mid_game::ordering::midgame_move_bonus;
use mushroom_bot::movegen::{fixed_rect_id, generate_rectangles, is_valid_rectangle, rect_mask};
use mushroom_bot::mquality::{load_mquality_from_bytes, write_mquality_bytes, MoveQualityTable};
use mushroom_bot::opening::ordering::{opening_move_bonus, opening_mquality_key};
use mushroom_bot::tt::{hash_board, hash_update};
use mushroom_bot::types::{FIRST, PASS, SECOND};

fn rows_of(s: &str) -> Vec<String> {
    vec![s.to_string(); 10]
}

fn standard_board() -> Board {
    Board::from_rows(&rows_of("12345678912345678"))
}

fn geometry(r1: usize, c1: usize, r2: usize, c2: usize) -> RectGeometry {
    RectGeometry {
        r1: r1 as u8,
        c1: c1 as u8,
        r2: r2 as u8,
        c2: c2 as u8,
        area: ((r2 - r1 + 1) * (c2 - c1 + 1)) as u8,
        cell_mask: rect_mask(r1, r2, c1, c2),
        top_border: rect_mask(r1, r1, c1, c2),
        bottom_border: rect_mask(r2, r2, c1, c2),
        left_border: rect_mask(r1, r2, c1, c1),
        right_border: rect_mask(r1, r2, c2, c2),
    }
}

#[test]
fn lib_rectangles_are_legal_and_sorted() {
    let b = standard_board();
    let rects = generate_rectangles(&b.values);
    assert!(!rects.is_empty());
    for r in &rects {
        assert!(is_valid_rectangle(&b.values, r.to_move()));
        assert_eq!(r.id, fixed_rect_id(r.r1, r.c1, r.r2, r.c2));
        assert_eq!(r.cell_mask.popcount() as u8, r.area);
    }
    for k in 1..rects.len() {
        let a = (rects[k - 1].r1, rects[k - 1].r2, rects[k - 1].c1, rects[k - 1].c2);
        let c = (rects[k].r1, rects[k].r2, rects[k].c1, rects[k].c2);
        assert!(a < c);
    }
    assert!(!is_valid_rectangle(&b.values, PASS));
}

#[test]
fn lib_fixed_rect_ids() {
    assert_eq!(fixed_rect_id(0, 0, 0, 0), 0);
    assert_eq!(fixed_rect_id(0, 0, 0, 3), 3);
    assert_eq!(fixed_rect_id(0, 1, 0, 1), 17);
    assert_eq!(fixed_rect_id(9, 16, 9, 16), 8414);
}

#[test]
fn lib_geometry_terms_pair() {
    let b = standard_board().apply_action((0, 4, 1, 4));
    assert_eq!(b.player, SECOND);
    let geo = vec![geometry(0, 3, 0, 5), geometry(1, 3, 1, 5), geometry(2, 4, 3, 4), geometry(0, 0, 0, 0)];
    assert!(b.is_rect_valid_with_geometry(&geo[0]));
    assert!(!b.is_rect_valid_with_geometry(&geo[3]));
    let cells = build_cell_to_rects(&geo);
    assert_eq!(cells[4], vec![0u16]);
    let (mine, theirs) = b.compute_with_geometry_pair(&geo, &cells);
    assert_eq!((mine.safe, mine.vulnerable, mine.steal, mine.mobility), (0, 0, 2, 3));
    assert_eq!((mine.threatened, mine.forks), (0, 0));
    assert_eq!((theirs.safe, theirs.vulnerable, theirs.steal, theirs.mobility), (0, 2, 0, 3));
    assert_eq!((theirs.threatened, theirs.forks), (2, 0));
}

#[test]
fn lib_geometry_file_round_trip() {
    let mut data = vec![0u8; 104];
    let g = geometry(2, 4, 3, 4);
    data.extend_from_slice(&[g.r1, g.c1, g.r2, g.c2, g.area, 0, 0, 0]);
    for bb in [g.cell_mask, g.top_border, g.bottom_border, g.left_border, g.right_border] {
        for w in bb.0 {
            data.extend_from_slice(&w.to_le_bytes());
        }
    }
    let loaded = load_geometry_from_data(&data).unwrap();
    assert_eq!(loaded.len(), 1);
    assert_eq!((loaded[0].r1, loaded[0].c1, loaded[0].r2, loaded[0].c2, loaded[0].area), (2, 4, 3, 4, 2));
    assert_eq!(loaded[0].cell_mask, g.cell_mask);
    assert_eq!(loaded[0].right_border, g.right_border);
    assert!(load_geometry_from_data(&[0u8; 10]).is_none());
}

#[test]
fn lib_move_features_and_static_score() {
    let b = standard_board();
    let f = compute_move_features(&b, (0, 0, 0, 3));
    assert_eq!((f.fresh, f.recaptured, f.own, f.live, f.area, f.edge, f.corner), (4, 0, 0, 4, 4, 3, 1));
    assert_eq!(static_move_score(&f), 4 * 45 + 4 * 12 + 4 * 25 + 3 * 8 + 15);
}

#[test]
fn lib_ordering_bonuses() {
    let mut rows = rows_of("00000000000000000");
    rows[0] = "12345678912345678".to_string();
    let mid = Board::from_rows(&rows);
    let rects = generate_rectangles(&mid.values);
    assert_eq!(midgame_move_bonus(&mid, (0, 0, 0, 3), &rects), 42);
    let standard = standard_board();
    assert_eq!(midgame_move_bonus(&standard, (0, 0, 0, 3), &rects), 0);
    let mut small_rows = rows_of("00000000000000000");
    small_rows[0] = "55000000000000000".to_string();
    let small = Board::from_rows(&small_rows);
    assert_eq!(endgame_move_bonus(&small, (0, 0, 0, 1), &rects), 42);
    let all = generate_rectangles(&standard.values);
    assert_eq!(opening_move_bonus(&standard, (0, 0, 0, 3), &all), 149);
    assert_eq!(opening_move_bonus(&small, PASS, &all), 0);
    assert_eq!(opening_mquality_key(&standard, (0, 0, 0, 3), &all, 100, 149), (3, 0, 5));
}

#[test]
fn lib_mquality_round_trip() {
    let mut t = MoveQualityTable::new(2);
    t.counts[5] = 17;
    t.win_rate_bits[3] = 0x3F400000;
    let bytes = write_mquality_bytes(&t);
    let back = load_mquality_from_bytes(&bytes).unwrap();
    assert_eq!(back.rect_count, 2);
    assert_eq!(back.phases, 3);
    assert_eq!(back.buckets, 8);
    assert_eq!(back.counts, t.counts);
    assert_eq!(back.win_rate_bits, t.win_rate_bits);
    assert_eq!(back.avg_value_bits, t.avg_value_bits);
    assert!(load_mquality_from_bytes(&bytes[..10]).is_none());
    assert_eq!(MoveQualityTable::score_bucket(-1000), 0);
    assert_eq!(MoveQualityTable::score_bucket(-149), 4);
    assert_eq!(MoveQualityTable::score_bucket(300), 6);
    assert_eq!(MoveQualityTable::phase_for_position(30, 100), 0);
    assert_eq!(MoveQualityTable::phase_for_position(20, 100), 1);
    assert_eq!(MoveQualityTable::phase_for_position(30, 10), 2);
}

#[test]
fn lib_incremental_hash_matches_full_hash() {
    let b = standard_board();
    let h0 = hash_board(&b.values, &b.owners, b.player, b.passes);
    assert_eq!(h0, b.hash);
    let next = b.apply_action((0, 0, 0, 3));
    assert_eq!(next.hash, hash_board(&next.values, &next.owners, next.player, next.passes));
    let h1 = hash_update(h0, &b.values, &b.owners, (0, 0, 0, 3), b.player, b.passes, 0);
    assert_eq!(h1, next.hash);
    assert_ne!(h1, h0);
}

#[test]
fn lib_cordyceps_helpers() {
    let b = standard_board();
    assert_eq!(live_mushrooms(&b), 170);
    assert_eq!(legal_moves(&b), generate_moves(&b));
    assert!(!is_terminal(&b));
    let after = b.apply_action((0, 0, 0, 3));
    assert_eq!(count_cells(&after.values, &after.owners, FIRST), 4);
    assert_eq!(lightweight_evaluate(&after.values, &after.owners, FIRST), 4 * 100 + 3 * 25 + 50 + 4 * 15);
    assert_eq!(lightweight_evaluate(&after.values, &after.owners, SECOND), -400 - 50 - 60);
    assert_eq!(live_mushrooms(&after), 166);
}

#[test]
fn lib_cordyceps_time_manager() {
    let mut tm = TimeManager::new();
    assert_eq!(tm.optimum_time_ms, 100);
    tm.init(10_500, 100);
    assert!(tm.phase == GamePhase::MidgameFull);
    assert_eq!(tm.optimum_time_ms, 400);
    tm.init(1_500, 100);
    assert!(tm.phase == GamePhase::MidgameConserve);
    assert_eq!(tm.optimum_time_ms, 40);
    tm.init(10_500, 12);
    assert!(tm.phase == GamePhase::EndgameExact);
    assert_eq!(tm.optimum_time_ms, 2500);
    tm.init(600, 100);
    assert!(tm.phase == GamePhase::Emergency);
    assert_eq!(tm.optimum_time_ms, 100);
}

#[test]
fn lib_generators() {
    let mut z = ZooRng::new(7);
    assert_eq!(z.next_u64(), 9098160460397411210u64);
    let mut z2 = ZooRng::new(7);
    assert_eq!(z2.gen_range(1), 0);
    assert_eq!(z2.0, 7);
    assert_eq!(z2.gen_range(10), (9098160460397411210u64 % 10) as usize);
    let mut r = Rng::with_seed(7);
    let x = r.u8(3, 5);
    assert!((3..=5).contains(&x));
    assert_eq!(x, 3 + ((9098160460397411210u64 >> 33) as u8) % 3);
    let mut r2 = Rng::with_seed(1);
    let (d, bud) = mutate(3, 50, &mut r2);
    assert!((2..=4).contains(&d));
    assert!(bud == 25 || bud == 50 || bud == 100);
}
