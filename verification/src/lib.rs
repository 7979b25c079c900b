use vstd::prelude::*;

pub mod types;
pub mod agent;
pub mod bitboard;
pub mod bots;
pub mod grid;
pub mod movegen;
pub mod mquality;
pub mod tt;
pub mod board;
pub mod mcts;
pub mod eval;
pub mod mid_game;
pub mod end_game;
pub mod databuild;
pub mod dataloader;
pub mod opening;
pub mod protocol;
pub mod search;
pub mod timeman;

verus! {
}
