//! Move generation for 8x8 checkers on packed 64-bit bitboards.
pub mod bit_grid;
pub mod board;

pub use bit_grid::BitGrid;
pub use board::{Board, Move, Piece, Player, Player1, Player2, Position};
