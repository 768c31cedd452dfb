//! Board geometry and score constants.

use vstd::prelude::*;

verus! {

pub const A_FILE: u64 = 0x0101010101010101;
pub const B_FILE: u64 = 0x0202020202020202;
pub const G_FILE: u64 = 0x4040404040404040;
pub const H_FILE: u64 = 0x8080808080808080;

pub const A: u64 = 0x0101010101010101;
pub const H: u64 = 0x8080808080808080;
pub const G: u64 = 0x4040404040404040;
pub const B: u64 = 0x0202020202020202;
pub const AB: u64 = 0x0303030303030303;
pub const HG: u64 = 0xC0C0C0C0C0C0C0C0;

pub const RANK_1: u64 = 0x00000000000000FF;
pub const RANK_2: u64 = 0x000000000000FF00;
pub const RANK_4: u64 = 0x00000000FF000000;
pub const RANK_5: u64 = 0x000000FF00000000;
pub const RANK_7: u64 = 0x00FF000000000000;
pub const RANK_8: u64 = 0xFF00000000000000;

pub const FULL: u64 = 0xFFFFFFFFFFFFFFFF;
pub const WK_SIDE: u64 = 0x0000000000000060;
pub const WQ_SIDE: u64 = 0x000000000000000E;

pub const BORDERS: u64 = 0xFF818181818181FF;

pub const STARTING_FEN: &'static str = "rnbqkbnr/pppppppp/8/8/8/8/PPPPPPPP/RNBQKBNR w KQkq - 0 1";

pub const NORTH: i8 = 8;
pub const SOUTH: i8 = -8;
pub const WEST: i8 = -1;
pub const EAST: i8 = 1;
pub const NORTH_WEST: i8 = 7;
pub const SOUTH_WEST: i8 = -9;
pub const SOUTH_EAST: i8 = -7;
pub const NORTH_EAST: i8 = 9;

pub const INFINITY: i32 = 100000;
pub const MATE_SCORE: i32 = 9000;
pub const MATE_CUTOFF: i32 = 8900;
pub const TIMEOUT_SCORE: i32 = 111111;

pub const MAX_PLY: u8 = 128;
pub const MAX_HISTORY: i32 = 8000;
pub const MAX_MOVE_NUM: usize = 256;

} // verus!
