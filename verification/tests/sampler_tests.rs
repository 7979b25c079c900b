use mushroom_bot::board::Board;
use mushroom_bot::bots::arena;
use mushroom_bot::bots::sampler::{board_to_init_line, generate_game_like_board, opening_result, score_move};
use mushroom_bot::bots::tournament;
use mushroom_bot::movegen::generate_rectangles;
use mushroom_bot::types::{Move, FIRST, N_CELLS, PASS};

struct Lcg(u64);

impl Lcg {
    fn next_u32(&mut self) -> u32 {
        self.0 = self.0.wrapping_mul(6364136223846793005).wrapping_add(1442695040888963407);
        (self.0 >> 32) as u32
    }
}

fn spot_score(r: usize, c: usize, spots: &[(i32, i32, i32)]) -> i32 {
    let mut score = 0i32;
    for &(hr, hc, amp) in spots {
        let dist = (r as i32 - hr).abs() + (c as i32 - hc).abs();
        score += (amp - dist / 2).max(0);
    }
    score
}

fn expected_values(seed: u64) -> [u8; N_CELLS] {
    for attempt in 0..24u64 {
        let mut rng = Lcg(seed ^ 0x9e3779b97f4a7c15 ^ attempt.wrapping_mul(0x5851_f42d_4c95_7f2d));
        let mut values = [4u8; N_CELLS];
        let mut hot = Vec::new();
        for &(ar, ac) in &[(0i32, 0i32), (0, 16), (9, 0), (9, 16), (5, 8)] {
            let r = (ar + (rng.next_u32() % 3) as i32 - 1).clamp(0, 9);
            let c = (ac + (rng.next_u32() % 5) as i32 - 2).clamp(0, 16);
            let amp = 3 + (rng.next_u32() % 5) as i32;
            hot.push((r, c, amp));
        }
        let mut cold = Vec::new();
        for _ in 0..3 {
            let r = (rng.next_u32() % 10) as i32;
            let c = (rng.next_u32() % 17) as i32;
            let amp = 2 + (rng.next_u32() % 3) as i32;
            cold.push((r, c, amp));
        }
        let row_wave = (rng.next_u32() % 5) as i32;
        let col_wave = (rng.next_u32() % 5) as i32;
        for r in 0..10usize {
            for c in 0..17usize {
                let mut score = 4i32;
                let edge = r.min(9 - r).min(c.min(16 - c)) as i32;
                let dr = (r as i32 - 4).abs();
                let dc = (c as i32 - 8).abs();
                score += (4 - edge).max(0) / 2;
                score += (4 - (dr + dc) / 4).max(0);
                score += ((4 - dr).max(0) + row_wave) / 2;
                score += ((5 - dc).max(0) + col_wave) / 2;
                score += spot_score(r, c, &hot);
                score -= spot_score(r, c, &cold);
                let jitter = (rng.next_u32() % 5) as i32 - 2;
                score += jitter / 2;
                values[r * 17 + c] = score.clamp(1, 9) as u8;
            }
        }
        let mut crng = Lcg((seed ^ attempt) ^ 0x5bf0_3635_d3f9_0f1d);
        for &(r0, c0) in &[(0usize, 0usize), (0, 13), (8, 0), (8, 13)] {
            let r_base = (r0 + (crng.next_u32() % 2) as usize).min(8);
            let c_base = (c0 + (crng.next_u32() % 3) as usize).min(13);
            for dr in 0..2 {
                for dc in 0..4 {
                    let idx = (r_base + dr) * 17 + c_base + dc;
                    values[idx] = values[idx].saturating_add(3).min(9);
                }
            }
        }
        let band_row = (crng.next_u32() as usize % 10).clamp(1, 8);
        for c in 0..17 {
            if c % 5 == 0 || c % 5 == 1 {
                let idx = band_row * 17 + c;
                values[idx] = values[idx].saturating_add(2).min(9);
            }
        }
        lanes(&mut values, seed ^ attempt);
        let board = Board::from_parts(values, [0i8; N_CELLS], FIRST, 0);
        let legal = generate_rectangles(&board.values).len();
        if (20..=90).contains(&legal) {
            return values;
        }
    }
    let mut values = [4u8; N_CELLS];
    for r in 0..10 {
        for c in 0..17 {
            values[r * 17 + c] = 3 + ((r + c) % 4) as u8;
        }
    }
    lanes(&mut values, seed);
    values
}

fn lanes(values: &mut [u8; N_CELLS], seed: u64) {
    let row = (seed as usize) % 10;
    let start = ((seed >> 8) as usize) % 8;
    for offset in 0..10 {
        values[row * 17 + start + offset] = 1;
    }
    let row2 = (row + 3) % 10;
    let start2 = ((seed >> 16) as usize) % 13;
    for dr in 0..2 {
        for dc in 0..5 {
            values[((row2 + dr) % 10) * 17 + start2 + dc] = 1;
        }
    }
}

#[test]
fn sampler_boards_match_the_generator() {
    for seed in [0u64, 1, 7, 42, 1234, 0xdead_beef, u64::MAX] {
        let b = generate_game_like_board(seed);
        assert_eq!(b.values, expected_values(seed), "seed {seed}");
        assert!(b.owners.iter().all(|&o| o == 0));
        assert_eq!(b.player, FIRST);
        assert_eq!(b.passes, 0);
        assert!(b.values.iter().all(|&v| (1..=9).contains(&v)));
    }
}

#[test]
fn sampler_init_line() {
    let b = Board::from_rows(&vec!["12345678912345678".to_string(); 10]);
    let line = board_to_init_line(&b);
    let expected = format!("INIT{}", " 12345678912345678".repeat(10));
    assert_eq!(line, expected);
    let g = generate_game_like_board(5);
    let line = board_to_init_line(&g);
    assert!(line.starts_with("INIT "));
    assert_eq!(line.len(), 4 + 10 * 18);
}

#[test]
fn sampler_random_boards() {
    let seed = 99u64;
    let b = tournament::random_board(seed);
    let mut state = seed;
    for i in 0..N_CELLS {
        state = state.wrapping_mul(6364136223846793005).wrapping_add(1442695040888963407);
        assert_eq!(b.values[i], 1 + (state >> 33) as u8 % 9);
    }
    let a = arena::random_board(seed);
    let mut state = seed.wrapping_mul(6364136223846793005).wrapping_add(1442695040888963407);
    for i in 0..N_CELLS {
        state = state.wrapping_mul(6364136223846793005).wrapping_add(1442695040888963407);
        assert_eq!(a.values[i], (state % 9 + 1) as u8);
    }
    assert!(a.owners.iter().all(|&o| o == 0));
}

fn expected_rank(board: &Board, bot: Move) -> (i32, usize) {
    let rects = generate_rectangles(&board.values);
    let mut scored: Vec<(i32, Move)> = rects.iter().map(|r| (score_move(board, r.to_move()), r.to_move())).collect();
    scored.sort_by(|a, b| b.0.cmp(&a.0));
    let best = scored.first().map(|s| s.0).unwrap_or(0);
    let rank = scored.iter().position(|&(_, m)| m == bot).unwrap_or(scored.len().saturating_sub(1));
    (best, rank)
}

#[test]
fn sampler_opening_result_ranks_the_move() {
    let board = generate_game_like_board(42);
    let rects = generate_rectangles(&board.values);
    assert!(!rects.is_empty());
    for k in [0usize, 1, rects.len() / 2, rects.len() - 1] {
        let mv = rects[k].to_move();
        let r = opening_result(&board, mv);
        let (best, rank) = expected_rank(&board, mv);
        assert_eq!(r.bot_move, mv);
        assert_eq!(r.legal_moves, rects.len());
        assert_eq!(r.best_score, best);
        assert_eq!(r.best_rank, rank);
        assert_eq!(r.bot_score, board.action_score(mv).0);
        assert!(!r.passed);
        assert_eq!(r.live_count, board.live_mask.popcount());
    }
    // An illegal move is replaced by the pass, ranked last.
    let r = opening_result(&board, (0, 0, 9, 16));
    assert_eq!(r.bot_move, PASS);
    assert_eq!(r.bot_score, -10000);
    assert_eq!(r.best_rank, rects.len() - 1);
    assert!(r.passed);
}
