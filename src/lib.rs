//! Search for placements of non-attacking queens on a square board.
pub mod board;
pub mod key;
pub mod search;
