//! The vocabulary shared by the whole crate.

pub mod bitboard;
pub mod bits;
pub mod constants;
pub mod history;
pub mod moves;
pub mod pieces;
pub mod plytable;
pub mod pv;
pub mod score;
pub mod sides;
pub mod squares;
pub mod stackvec;
pub mod text;
pub mod transposition;
