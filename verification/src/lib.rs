//! A chess engine: positions, move generation, evaluation and search.

pub mod attacks;
pub mod board;
pub mod evaluation;
pub mod laws;
pub mod magics;
pub mod nnue;
pub mod perft;
pub mod random;
pub mod search;
pub mod threads;
pub mod tools;
pub mod transposition;
pub mod types;
pub mod uci;
pub mod zobrist;
