use mushroom_bot::agent::{Agent, AgentReply};
use mushroom_bot::board::Board;
use mushroom_bot::bots::zoo_utils::{format_move, parse_move};
use mushroom_bot::databuild::{build_data_bytes, build_geometry_bytes, data_file_weights};
use mushroom_bot::dataloader::{load_geometry_from_data, load_mquality_from_data, read_weights_from_data};
use mushroom_bot::movegen::fixed_rect_id;
use mushroom_bot::mquality::{write_mquality_bytes, MoveQualityTable};
use mushroom_bot::opening::second::SecondSideTuning;
use mushroom_bot::opening::stealth::stealth_bonus;
use mushroom_bot::opening::traps::{tactical_squeeze_bonus, trapbook_bonus};
use mushroom_bot::protocol::split_whitespace;
use mushroom_bot::types::{Move, N_RECTS, PASS};

fn word(d: &[u8], at: usize) -> u32 {
    u32::from_le_bytes([d[at], d[at + 1], d[at + 2], d[at + 3]])
}

fn standard_board() -> Board {
    Board::from_rows(&vec!["12345678912345678".to_string(); 10])
}

fn single_rect_board() -> Board {
    let mut rows = vec!["00000000000000000".to_string(); 10];
    rows[0] = "19000000000000000".to_string();
    Board::from_rows(&rows)
}

#[test]
fn data_move_text_reads_back() {
    let moves: [Move; 5] = [PASS, (0, 0, 0, 3), (9, 16, 9, 16), (-128, 127, 5, -7), (3, 4, 7, 12)];
    for mv in moves {
        let text = format_move(mv);
        let words = split_whitespace(&text);
        assert_eq!(parse_move(&words), Some(mv));
    }
    assert_eq!(format_move((-128, 127, 5, -7)), "-128 127 5 -7");
}

#[test]
fn data_trap_bonuses() {
    let b = single_rect_board();
    let mv = (0, 0, 0, 1);
    let child = b.apply_action(mv);
    assert_eq!(trapbook_bonus(&b, mv, &child), 50);
    assert_eq!(trapbook_bonus(&b, PASS, &child), 0);
    assert_eq!(tactical_squeeze_bonus(&child), 30);
    // Two live cells: outside the trap window.
    assert_eq!(SecondSideTuning.trap_bonus(&b, mv, &child), 0);
    assert_eq!(SecondSideTuning.trap_bonus(&b, PASS, &child), -10000);

    let s = standard_board();
    let mv = (0, 0, 0, 3);
    let child = s.apply_action(mv);
    // Many replies, four live cells gone.
    assert_eq!(trapbook_bonus(&s, mv, &child), 0);
    // The best reply recaptures the whole row segment: well above 200.
    assert_eq!(tactical_squeeze_bonus(&child), 0);
}

#[test]
fn data_stealth_bonus() {
    let s = standard_board();
    let corner = (0, 0, 0, 3);
    let child = s.apply_action(corner);
    // Far from the centre, most cells left.
    assert_eq!(stealth_bonus(&s, corner, &child), 7);
    let centre = (5, 8, 5, 9);
    let child = s.apply_action(centre);
    assert_eq!(stealth_bonus(&s, centre, &child), 17);
    assert_eq!(stealth_bonus(&s, PASS, &child), 0);
    let small = single_rect_board();
    let child = small.apply_action((0, 0, 0, 1));
    assert_eq!(stealth_bonus(&small, (0, 0, 0, 1), &child), 0);
}

#[test]
fn data_file_weights_defaults_and_text() {
    assert_eq!(data_file_weights(None), vec![156, 211, -10, 40, 8, 31, 26, 22]);
    assert_eq!(data_file_weights(Some("1, 2 x -3\n4")), vec![1, 2, -3, 4]);
}

#[test]
fn data_file_without_geometry() {
    let weights = [1, -2, 3, -4, 5, -6, 7, i32::MIN];
    let d = build_data_bytes(&[], &weights, &[], false);
    assert_eq!(d.len(), 72 + 32 + 8415 * 140);
    assert_eq!(&d[0..4], b"CPSB");
    assert_eq!(word(&d, 4), 3);
    assert_eq!(word(&d, 24), 72);
    assert_eq!(word(&d, 32), 8415);
    assert_eq!(word(&d, 48), 0);
    assert_eq!(read_weights_from_data(&d), Some(weights));
    assert!(load_mquality_from_data(&d).is_none());
}

#[test]
fn data_file_carries_mquality() {
    let mut t = MoveQualityTable::new(2);
    t.counts[5] = 9;
    t.win_rate_bits[7] = 0x3f00_0000;
    let mq = write_mquality_bytes(&t);
    let weights = [10, 20, 30, 40, 50, 60, 70, 80, 90];
    let d = build_data_bytes(&[], &weights, &mq, true);
    assert_eq!(word(&d, 4), 4);
    let body = 72 + 36 + 8415 * 140;
    assert_eq!(word(&d, 48) as usize, body);
    assert_eq!(d.len(), body + mq.len());
    assert_eq!(read_weights_from_data(&d), Some([10, 20, 30, 40, 50, 60, 70, 80]));
    let back = load_mquality_from_data(&d).unwrap();
    assert_eq!(back.rect_count, 2);
    assert_eq!(back.counts, t.counts);
    assert_eq!(back.win_rate_bits, t.win_rate_bits);
    // A table asked for but empty: version 4, no table.
    let e = build_data_bytes(&[], &weights, &[], true);
    assert_eq!(word(&e, 4), 4);
    assert_eq!(word(&e, 48), 0);
}

#[test]
fn data_geometry_file_and_data_file() {
    let geo = build_geometry_bytes();
    assert_eq!(&geo[0..4], b"GPSB");
    assert_eq!(word(&geo, 4), 1);
    assert_eq!(word(&geo, 8), N_RECTS as u32);
    assert_eq!(word(&geo, 12), 72);
    let cells_at = 72 + 128 * N_RECTS;
    assert_eq!(word(&geo, 24) as usize, cells_at);
    assert_eq!(&geo[72..80], &[0, 0, 0, 0, 1, 0, 0, 0]);
    // The first cell is covered only by the rectangles with corner (0, 0): 10 * 17 of them.
    let n = u16::from_le_bytes([geo[cells_at], geo[cells_at + 1]]);
    assert_eq!(n, 170);
    assert_eq!(u16::from_le_bytes([geo[cells_at + 2], geo[cells_at + 3]]), 170);
    assert_eq!(u16::from_le_bytes([geo[cells_at + 4], geo[cells_at + 5]]), 0);

    let weights = [1, 2, 3, 4, 5, 6, 7, 8];
    let d = build_data_bytes(&geo, &weights, &[], false);
    let records = load_geometry_from_data(&d).unwrap();
    assert_eq!(records.len(), N_RECTS);
    for (k, g) in records.iter().enumerate() {
        assert_eq!(fixed_rect_id(g.r1 as i8, g.c1 as i8, g.r2 as i8, g.c2 as i8) as usize, k);
        assert_eq!(g.cell_mask.popcount() as u8, g.area);
        assert_eq!(g.top_border.popcount() as u8, g.c2 - g.c1 + 1);
        assert_eq!(g.left_border.popcount() as u8, g.r2 - g.r1 + 1);
    }
    assert_eq!((records[1].r1, records[1].c1, records[1].r2, records[1].c2), (0, 0, 0, 1));
    assert_eq!((records[17].r1, records[17].c1, records[17].r2, records[17].c2), (0, 1, 0, 1));
    assert_eq!(read_weights_from_data(&d), Some(weights));
}

#[test]
fn data_rectangle_gain_matches_score_parts() {
    let b = standard_board();
    let mv = (0, 0, 0, 3);
    let sc = b.action_score(mv);
    let mover = b.player;
    let after = b.apply_action(mv);
    // `score` counts the side to move's cells for that side; after the move the mover is the
    // side not to move.
    assert_eq!(after.score(mover), b.score(mover) + sc.1 + sc.2);
    let reply = (1, 0, 1, 3);
    let sc2 = after.action_score(reply);
    let again = after.apply_action(reply);
    assert_eq!(again.score(after.player), after.score(after.player) + sc2.1 + sc2.2);
    assert_eq!(again.score(mover), after.score(mover) - sc2.1);
    // Covering the first rectangle again recaptures its four cells.
    let recapture = (0, 0, 1, 3);
    let sc3 = again.action_score(recapture);
    assert_eq!(sc3.1, 4);
}

#[test]
fn data_opp_line_plays_the_move() {
    let mut agent = Agent::new();
    agent.board = Some(standard_board());
    let mv = (2, 0, 2, 3);
    let line = format!("OPP {}", format_move(mv));
    assert!(matches!(agent.handle(&line), AgentReply::Nothing));
    let expected = standard_board().apply_action(mv);
    let got = agent.board.unwrap();
    assert_eq!(got.values, expected.values);
    assert_eq!(got.owners, expected.owners);
    assert_eq!(got.player, expected.player);
}

#[test]
fn data_tool_board_and_exchange() {
    let mut grid = vec![vec![0i32; 17]; 10];
    grid[0][0] = 1;
    grid[0][1] = 9;
    grid[1][0] = -1;
    grid[1][1] = -2;
    let b = Board::from_tool_board(&grid);
    assert_eq!(b.values[0], 1);
    assert_eq!(b.values[1], 9);
    assert_eq!(b.owners[17], mushroom_bot::types::FIRST);
    assert_eq!(b.owners[18], mushroom_bot::types::SECOND);
    assert_eq!(b.current_player(), mushroom_bot::types::FIRST);
    // The only rectangle: two fresh cells, nothing to take back afterwards.
    assert_eq!(b.rectangle_exchange_eval((0, 0, 0, 1), 0), 2);
    assert_eq!(b.rectangle_exchange_eval((0, 0, 0, 1), 2), 2);
    assert_eq!(b.rectangle_exchange_eval(PASS, 2), i32::MIN / 4);
    assert_eq!(b.rectangle_exchange_eval((0, 0, 0, 0), 1), i32::MIN / 4);
}

#[test]
fn data_table_shapes() {
    let t = MoveQualityTable::default_table();
    assert_eq!(t.rect_count, N_RECTS);
    assert_eq!(t.counts.len(), N_RECTS * 24);
    assert_eq!(MoveQualityTable::phase_for_live_count(12), 2);
    assert_eq!(MoveQualityTable::phase_for_live_count(13), 1);
    assert_eq!(MoveQualityTable::phase_for_live_count(25), 0);
}
