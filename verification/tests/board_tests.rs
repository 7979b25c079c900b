use mushroom_bot::bitboard::Bitboard;
use mushroom_bot::board::Board;
use mushroom_bot::types::{FIRST, PASS, SECOND};

fn initial_rows() -> Vec<String> {
    vec![
        "12345678912345678".to_string(),
        "12345678912345678".to_string(),
        "12345678912345678".to_string(),
        "12345678912345678".to_string(),
        "12345678912345678".to_string(),
        "12345678912345678".to_string(),
        "12345678912345678".to_string(),
        "12345678912345678".to_string(),
        "12345678912345678".to_string(),
        "12345678912345678".to_string(),
    ]
}

#[test]
fn test_board_creation() {
    let rows = initial_rows();
    let board = Board::from_rows(&rows);
    assert_eq!(board.player, FIRST);
    assert_eq!(board.passes, 0);
    assert!(!board.is_terminal());
}

#[test]
fn test_apply_pass() {
    let rows = initial_rows();
    let board = Board::from_rows(&rows);
    let after_pass = board.apply_action(PASS);
    assert_eq!(after_pass.player, SECOND);
    assert_eq!(after_pass.passes, 1);
    assert!(!after_pass.is_terminal());

    let after_two_passes = after_pass.apply_action(PASS);
    assert!(after_two_passes.is_terminal());
}

#[test]
fn test_bitboard_operations() {
    let mut bb = Bitboard::empty();
    assert!(bb.is_empty());
    assert_eq!(bb.popcount(), 0);

    bb.set(0, 0);
    assert!(!bb.is_empty());
    assert!(bb.get(0, 0));
    assert!(!bb.get(0, 1));
    assert_eq!(bb.popcount(), 1);

    bb.set(5, 10);
    assert_eq!(bb.popcount(), 2);

    bb.clear(0, 0);
    assert_eq!(bb.popcount(), 1);
    assert!(!bb.get(0, 0));
}

#[test]
fn test_connectivity() {
    let rows = initial_rows();
    let board = Board::from_rows(&rows);

    let mut mask = Bitboard::empty();
    mask.set(0, 0);
    mask.set(0, 1);
    mask.set(1, 0);

    let conn = board.count_connectivity(&mask);
    assert_eq!(conn, 2);
}
