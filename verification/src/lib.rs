//! A move generator and rules engine for a 7x7 square-capture board game.
//!
//! The board lives in a 64-bit word: an 8x8 grid of which one full rank and
//! one full file are permanently blocked, leaving a 7x7 playable region.
//! Moves are single placements next to a friendly piece, jumps to cells two
//! rings away, or a forced pass; landing next to opponent pieces flips them.

pub mod bits;
pub mod board;
pub mod fen;
pub mod moves;
pub mod perft;
pub mod player;
pub mod square;

pub use bits::expand;
pub use board::Board;
pub use fen::FenError;
pub use moves::Move;
pub use perft::{generate_depth_n_fens, perft};
pub use player::Player;
pub use square::Square;
