//! Tic-tac-toe board and an exhaustive minimax engine with optional
//! alpha-beta pruning, verified with Verus.
pub mod board;

pub use board::{Board, GameError, Marker, Outcome};
pub mod engine;
pub mod laws;
