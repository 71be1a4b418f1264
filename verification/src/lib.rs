//! Kalah: the rules of the game and a depth-bounded alpha-beta search.
//!
//! - `board`: the mathematical model of a position and of a move, with the
//!   proofs that a move keeps the stones on the board.
//! - `game`: the executable position, `Kalah`.
//! - `moves`: the children of a position, chains of moves followed through.
//! - `minimax`: the value of a position with and without pruning, and the
//!   proof that pruning does not change it.
//! - `cache`: the transposition cache.
//! - `search`: the executable search.
pub mod board;
pub mod cache;
pub mod game;
pub mod minimax;
pub mod moves;
pub mod search;

pub use board::Turn;
pub use cache::TranspositionCache;
pub use game::{Kalah, MoveError};
pub use search::{choose_move, minimax};
