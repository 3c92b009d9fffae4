pub mod attacks;
pub mod bitboard;
pub mod board;
pub mod movegen;
pub mod eval;
pub mod lemmas;
pub mod moves;
pub mod perft;
pub mod piece;
pub mod search;
pub mod undo;
