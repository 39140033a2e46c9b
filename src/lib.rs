//! Rules engine for Othello (Reversi): an 8x8 board, legality of moves,
//! moves with the stones they turn over, and inspection of the position.
//!
//! Cells are indexed 0..64 in row-major order; every index handed to the
//! board must be below 64.
pub mod board;
pub mod laws;
pub mod rules;

pub use board::{Board, BoardError};
