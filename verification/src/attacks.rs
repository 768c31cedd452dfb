//! Which squares a piece reaches.

use core::ops::Not;

use crate::types::bitboard::BitBoard;
use crate::types::bits::{
    bit, file_of, group_bits, is_square, lemma_bit_regions, lemma_borders, lemma_lowest_bit,
    rank_of,
};
use crate::types::constants::{A_FILE, BORDERS, H_FILE, RANK_1, RANK_8};
use crate::types::pieces::Piece;
use crate::types::sides::Side;
use crate::types::squares::Square;
use vstd::prelude::*;

verus! {

pub open spec fn distance_of(a: int, b: int) -> int {
    if a < b {
        b - a
    } else {
        a - b
    }
}

/// Same rank or same file.
pub open spec fn on_line(a: int, b: int) -> bool {
    rank_of(a) == rank_of(b) || file_of(a) == file_of(b)
}

/// Same diagonal.
pub open spec fn on_diagonal(a: int, b: int) -> bool {
    rank_of(a) - file_of(a) == rank_of(b) - file_of(b) || rank_of(a) + file_of(a) == rank_of(b)
        + file_of(b)
}

/// `x` lies strictly between `a` and `b` on a rank, a file or a diagonal.
pub open spec fn between(a: int, b: int, x: int) -> bool {
    &&& is_square(x)
    &&& {
        ||| rank_of(a) == rank_of(b) && rank_of(x) == rank_of(a) && (file_of(a) < file_of(x)
            < file_of(b) || file_of(b) < file_of(x) < file_of(a))
        ||| file_of(a) == file_of(b) && file_of(x) == file_of(a) && (rank_of(a) < rank_of(x)
            < rank_of(b) || rank_of(b) < rank_of(x) < rank_of(a))
        ||| rank_of(a) - file_of(a) == rank_of(b) - file_of(b) && rank_of(x) - file_of(x)
            == rank_of(a) - file_of(a) && (rank_of(a) < rank_of(x) < rank_of(b) || rank_of(b)
            < rank_of(x) < rank_of(a))
        ||| rank_of(a) + file_of(a) == rank_of(b) + file_of(b) && rank_of(x) + file_of(x)
            == rank_of(a) + file_of(a) && (rank_of(a) < rank_of(x) < rank_of(b) || rank_of(b)
            < rank_of(x) < rank_of(a))
    }
}

/// No square between `a` and `b` is in `occ`.
pub open spec fn clear(a: int, b: int, occ: Set<int>) -> bool {
    forall|x: int| #[trigger] between(a, b, x) ==> !occ.contains(x)
}

pub open spec fn pawn_reach(side: Side, a: int, t: int) -> bool {
    &&& is_square(t)
    &&& distance_of(file_of(a), file_of(t)) == 1
    &&& match side {
        Side::White => rank_of(t) == rank_of(a) + 1,
        Side::Black => rank_of(t) == rank_of(a) - 1,
    }
}

pub open spec fn knight_reach(a: int, t: int) -> bool {
    let dr = distance_of(rank_of(a), rank_of(t));
    let df = distance_of(file_of(a), file_of(t));
    is_square(t) && (dr == 1 && df == 2 || dr == 2 && df == 1)
}

pub open spec fn king_reach(a: int, t: int) -> bool {
    is_square(t) && a != t && distance_of(rank_of(a), rank_of(t)) <= 1 && distance_of(
        file_of(a),
        file_of(t),
    ) <= 1
}

pub open spec fn bishop_reach(a: int, t: int, occ: Set<int>) -> bool {
    is_square(t) && a != t && on_diagonal(a, t) && clear(a, t, occ)
}

pub open spec fn rook_reach(a: int, t: int, occ: Set<int>) -> bool {
    is_square(t) && a != t && on_line(a, t) && clear(a, t, occ)
}

/// Whether a piece on `a` attacks `t` when the squares in `occ` are taken.
pub open spec fn reach(piece: Piece, side: Side, a: int, t: int, occ: Set<int>) -> bool {
    match piece {
        Piece::Pawn => pawn_reach(side, a, t),
        Piece::Knight => knight_reach(a, t),
        Piece::Bishop => bishop_reach(a, t, occ),
        Piece::Rook => rook_reach(a, t, occ),
        Piece::Queen => bishop_reach(a, t, occ) || rook_reach(a, t, occ),
        Piece::King => king_reach(a, t),
    }
}

pub fn mask_pawn_attacks(side: Side, square: Square) -> (res: BitBoard)
    ensures
        forall|t: int| #[trigger] res.has(t) <==> pawn_reach(side, square.idx(), t),
{
    broadcast use {group_bits, lemma_bit_regions};

    let current: u64 = 1u64 << (square as u64);
    let mut top_left: u64 = 0;
    let mut top_right: u64 = 0;
    proof {
        lemma_lowest_bit(current & A_FILE);
        lemma_lowest_bit(current & H_FILE);
        assert(bit(current & A_FILE, square.idx()) <==> file_of(square.idx()) == 0);
        assert(bit(current & H_FILE, square.idx()) <==> file_of(square.idx()) == 7);
    }
    match side {
        Side::White => {
            if current & A_FILE == 0 {
                top_left = current << 7u64;
            }
            if current & H_FILE == 0 {
                top_right = current << 9u64;
            }
        },
        Side::Black => {
            if current & H_FILE == 0 {
                top_left = current >> 7u64;
            }
            if current & A_FILE == 0 {
                top_right = current >> 9u64;
            }
        },
    }
    BitBoard(top_left | top_right)
}

/// The square `offset` numbers on, if `on` and if it is on the board.
fn jump(square: Square, on: bool, offset: i8) -> (res: u64)
    requires
        -64 < offset < 64,
    ensures
        forall|t: int| #[trigger]
            bit(res, t) <==> on && is_square(t) && t == square.idx() + offset,
{
    broadcast use group_bits;

    if on {
        square.to_bb().shift(offset).0
    } else {
        0
    }
}

proof fn lemma_knight_jumps(a: int, t: int)
    requires
        is_square(a),
        is_square(t),
    ensures
        knight_reach(a, t) <==> {
            let f = file_of(a);
            ||| f != 0 && (t == a + 15 || t == a - 17)
            ||| f > 1 && (t == a + 6 || t == a - 10)
            ||| f != 7 && (t == a + 17 || t == a - 15)
            ||| f < 6 && (t == a + 10 || t == a - 6)
        },
{
}

proof fn lemma_king_jumps(a: int, t: int)
    requires
        is_square(a),
        is_square(t),
    ensures
        king_reach(a, t) <==> {
            let f = file_of(a);
            ||| t == a + 8 || t == a - 8
            ||| f != 0 && (t == a + 7 || t == a - 1 || t == a - 9)
            ||| f != 7 && (t == a - 7 || t == a + 1 || t == a + 9)
        },
{
}

pub fn mask_knight_attacks(square: Square) -> (res: BitBoard)
    ensures
        forall|t: int| #[trigger] res.has(t) <==> knight_reach(square.idx(), t),
{
    let file: usize = square.to_file();
    let tl1: u64 = jump(square, file != 0, 15);
    let tl2: u64 = jump(square, file > 1, 6);
    let bl1: u64 = jump(square, file > 1, -10);
    let bl2: u64 = jump(square, file != 0, -17);
    let tr1: u64 = jump(square, file != 7, 17);
    let tr2: u64 = jump(square, file < 6, 10);
    let br1: u64 = jump(square, file < 6, -6);
    let br2: u64 = jump(square, file != 7, -15);
    let res = BitBoard(tl1 | tl2 | bl1 | bl2 | tr1 | tr2 | br1 | br2);
    proof {
        assert forall|t: int| #[trigger] res.has(t) <==> knight_reach(square.idx(), t) by {
            broadcast use group_bits;

            if is_square(t) {
                lemma_knight_jumps(square.idx(), t);
            }
        }
    }
    res
}

pub fn mask_king_attacks(square: Square) -> (res: BitBoard)
    ensures
        forall|t: int| #[trigger] res.has(t) <==> king_reach(square.idx(), t),
{
    let file: usize = square.to_file();
    let n: u64 = jump(square, true, 8);
    let nw: u64 = jump(square, file != 0, 7);
    let w: u64 = jump(square, file != 0, -1);
    let sw: u64 = jump(square, file != 0, -9);
    let s: u64 = jump(square, true, -8);
    let se: u64 = jump(square, file != 7, -7);
    let e: u64 = jump(square, file != 7, 1);
    let ne: u64 = jump(square, file != 7, 9);
    let res = BitBoard(n | nw | w | sw | s | se | e | ne);
    proof {
        assert forall|t: int| #[trigger] res.has(t) <==> king_reach(square.idx(), t) by {
            broadcast use group_bits;

            if is_square(t) {
                lemma_king_jumps(square.idx(), t);
            }
        }
    }
    res
}

/// One of the eight directions, as a step in rank and file.
pub open spec fn is_direction(dr: int, df: int) -> bool {
    -1 <= dr <= 1 && -1 <= df <= 1 && !(dr == 0 && df == 0)
}

/// `t` lies on the ray that leaves `a` in direction `(dr, df)`.
pub open spec fn on_ray(a: int, t: int, dr: int, df: int) -> bool {
    let r = rank_of(t) - rank_of(a);
    let f = file_of(t) - file_of(a);
    &&& is_square(t)
    &&& a != t
    &&& dr == 0 ==> r == 0
    &&& dr == 1 ==> r > 0
    &&& dr == -1 ==> r < 0
    &&& df == 0 ==> f == 0
    &&& df == 1 ==> f > 0
    &&& df == -1 ==> f < 0
    &&& dr != 0 && df != 0 ==> r == f || r == -f
}

/// The number of king steps between two squares.
pub open spec fn king_steps(a: int, b: int) -> int {
    let r = distance_of(rank_of(a), rank_of(b));
    let f = distance_of(file_of(a), file_of(b));
    if r > f {
        r
    } else {
        f
    }
}

/// `n` steps of size `d`, where `d` is a unit or zero.
spec fn steps(n: int, d: int) -> int {
    if d == 1 {
        n
    } else if d == -1 {
        -n
    } else {
        0
    }
}

proof fn lemma_on_ray(a: int, t: int, dr: int, df: int)
    requires
        is_square(a),
        is_direction(dr, df),
        on_ray(a, t, dr, df),
    ensures
        1 <= king_steps(a, t) <= 7,
        rank_of(t) == rank_of(a) + steps(king_steps(a, t), dr),
        file_of(t) == file_of(a) + steps(king_steps(a, t), df),
{
}

proof fn lemma_ray_step(a: int, here: int, dr: int, df: int, n: int)
    requires
        is_square(a),
        is_square(here),
        is_direction(dr, df),
        n >= 1,
        rank_of(here) == rank_of(a) + steps(n, dr),
        file_of(here) == file_of(a) + steps(n, df),
    ensures
        on_ray(a, here, dr, df),
        king_steps(a, here) == n,
        n <= 7,
        forall|t: int| on_ray(a, t, dr, df) && king_steps(a, t) == n ==> t == here,
{
}

/// On a ray, the squares between the start and a square are those nearer to the start.
proof fn lemma_ray_between(a: int, t: int, x: int, dr: int, df: int)
    requires
        is_square(a),
        is_direction(dr, df),
        on_ray(a, t, dr, df),
    ensures
        between(a, t, x) <==> on_ray(a, x, dr, df) && king_steps(a, x) < king_steps(a, t),
{
}

/// The squares on a ray up to and with the first one in `occ`.
pub fn walk(square: Square, dr: i8, df: i8, occ: BitBoard) -> (res: BitBoard)
    requires
        is_direction(dr as int, df as int),
    ensures
        forall|t: int| #[trigger]
            res.has(t) <==> on_ray(square.idx(), t, dr as int, df as int) && clear(
                square.idx(),
                t,
                occ.squares(),
            ),
{
    broadcast use group_bits;

    let ghost a = square.idx();
    let ghost e = dr as int;
    let ghost g = df as int;
    let mut attacks: BitBoard = BitBoard(0);
    let mut r: i8 = square.to_rank() as i8 + dr;
    let mut f: i8 = square.to_file() as i8 + df;
    let ghost mut n: int = 0;
    let ghost mut last: int = a;
    let mut blocked: bool = false;
    while !blocked && 0 <= r && r < 8 && 0 <= f && f < 8
        invariant
            a == square.idx(),
            e == dr as int,
            g == df as int,
            is_direction(e, g),
            0 <= n <= 7,
            -1 <= r <= 8,
            -1 <= f <= 8,
            !blocked ==> r == rank_of(a) + steps(n + 1, e) && f == file_of(a) + steps(n + 1, g),
            forall|t: int| #[trigger]
                attacks.has(t) <==> on_ray(a, t, e, g) && king_steps(a, t) <= n,
            forall|t: int|
                #![trigger occ.has(t)]
                on_ray(a, t, e, g) && king_steps(a, t) < n + (if blocked { 0int } else { 1 })
                    ==> !occ.has(t),
            blocked ==> on_ray(a, last, e, g) && king_steps(a, last) == n && occ.has(last),
        decreases 8 - n,
    {
        let here = Square::from((r as usize) * 8 + f as usize);
        attacks.set_bit(here);
        proof {
            n = n + 1;
            last = here.idx();
            lemma_ray_step(a, last, e, g, n);
        }
        if occ.contains(here) {
            blocked = true;
        } else {
            r = r + dr;
            f = f + df;
        }
    }
    proof {
        assert forall|t: int| #[trigger] attacks.has(t) <==> on_ray(a, t, e, g) && clear(
            a,
            t,
            occ.squares(),
        ) by {
            if on_ray(a, t, e, g) {
                lemma_on_ray(a, t, e, g);
                if king_steps(a, t) <= n {
                    assert forall|x: int| #[trigger] between(a, t, x) implies !occ.squares().contains(
                        x,
                    ) by {
                        lemma_ray_between(a, t, x, e, g);
                        assert(!occ.has(x));
                    }
                } else if blocked {
                    lemma_ray_between(a, t, last, e, g);
                    assert(between(a, t, last));
                    assert(occ.squares().contains(last));
                }
            }
        }
    }
    attacks
}

/// Squares off the border.
pub open spec fn inner(t: int) -> bool {
    1 <= rank_of(t) <= 6 && 1 <= file_of(t) <= 6
}

/// The squares on which a piece could stop a bishop on `square` short: its diagonals
/// without the border.
pub fn mask_bishop_attacks(square: Square) -> (res: BitBoard)
    ensures
        forall|t: int| #[trigger]
            res.has(t) <==> is_square(t) && t != square.idx() && on_diagonal(square.idx(), t)
                && inner(t),
{
    broadcast use group_bits;

    let reached = blocked_bishop_attacks(square, BitBoard(0));
    let res = reached & BitBoard(BORDERS).not();
    proof {
        assert forall|t: int| #[trigger] res.has(t) <==> is_square(t) && t != square.idx()
            && on_diagonal(square.idx(), t) && inner(t) by {
            lemma_borders(t);
            assert(clear(square.idx(), t, BitBoard(0).squares()));
        }
    }
    res
}

/// The squares on which a piece could stop a rook on `square` short: its rank without
/// the outer files and its file without the outer ranks.
pub fn mask_rook_attacks(square: Square) -> (res: BitBoard)
    ensures
        forall|t: int| #[trigger]
            res.has(t) <==> is_square(t) && t != square.idx() && {
                ||| file_of(t) == file_of(square.idx()) && 1 <= rank_of(t) <= 6
                ||| rank_of(t) == rank_of(square.idx()) && 1 <= file_of(t) <= 6
            },
{
    broadcast use {group_bits, lemma_bit_regions};

    let none = BitBoard(0);
    let vertical = walk(square, 1, 0, none) | walk(square, -1, 0, none);
    let horizontal = walk(square, 0, 1, none) | walk(square, 0, -1, none);
    let res = (vertical & BitBoard(RANK_1).not() & BitBoard(RANK_8).not()) | (horizontal
        & BitBoard(A_FILE).not()
        & BitBoard(H_FILE).not());
    proof {
        let a = square.idx();
        assert forall|t: int| #[trigger] res.has(t) <==> is_square(t) && t != a && {
            ||| file_of(t) == file_of(a) && 1 <= rank_of(t) <= 6
            ||| rank_of(t) == rank_of(a) && 1 <= file_of(t) <= 6
        } by {
            assert(clear(a, t, none.squares()));
        }
    }
    res
}

/// The squares that a bishop on `square` attacks when the squares of `block_board` are
/// taken.
pub fn blocked_bishop_attacks(square: Square, block_board: BitBoard) -> (res: BitBoard)
    ensures
        forall|t: int| #[trigger]
            res.has(t) <==> bishop_reach(square.idx(), t, block_board.squares()),
{
    broadcast use group_bits;

    let ne = walk(square, 1, 1, block_board);
    let se = walk(square, -1, 1, block_board);
    let nw = walk(square, 1, -1, block_board);
    let sw = walk(square, -1, -1, block_board);
    let res = ne | se | nw | sw;
    proof {
        let a = square.idx();
        assert forall|t: int| #[trigger] res.has(t) <==> bishop_reach(
            a,
            t,
            block_board.squares(),
        ) by {
            lemma_bishop_rays(a, t);
        }
    }
    res
}

/// The squares that a rook on `square` attacks when the squares of `block_board` are
/// taken.
pub fn blocked_rook_attacks(square: Square, block_board: BitBoard) -> (res: BitBoard)
    ensures
        forall|t: int| #[trigger]
            res.has(t) <==> rook_reach(square.idx(), t, block_board.squares()),
{
    broadcast use group_bits;

    let s = walk(square, -1, 0, block_board);
    let n = walk(square, 1, 0, block_board);
    let e = walk(square, 0, 1, block_board);
    let w = walk(square, 0, -1, block_board);
    let res = s | n | e | w;
    proof {
        let a = square.idx();
        assert forall|t: int| #[trigger] res.has(t) <==> rook_reach(
            a,
            t,
            block_board.squares(),
        ) by {
            lemma_rook_rays(a, t);
        }
    }
    res
}

proof fn lemma_bishop_rays(a: int, t: int)
    requires
        is_square(a),
    ensures
        is_square(t) && a != t && on_diagonal(a, t) <==> on_ray(a, t, 1, 1) || on_ray(a, t, -1, 1)
            || on_ray(a, t, 1, -1) || on_ray(a, t, -1, -1),
{
}

proof fn lemma_rook_rays(a: int, t: int)
    requires
        is_square(a),
    ensures
        is_square(t) && a != t && on_line(a, t) <==> on_ray(a, t, -1, 0) || on_ray(a, t, 1, 0)
            || on_ray(a, t, 0, 1) || on_ray(a, t, 0, -1),
{
}

/// Whether two squares share a rank, a file or a diagonal.
pub open spec fn aligned(a: int, b: int) -> bool {
    on_line(a, b) || on_diagonal(a, b)
}

/// `x` lies on the line through `a` and `b`.
pub open spec fn collinear(a: int, b: int, x: int) -> bool {
    ||| rank_of(a) == rank_of(b) && rank_of(x) == rank_of(a)
    ||| file_of(a) == file_of(b) && file_of(x) == file_of(a)
    ||| rank_of(a) - file_of(a) == rank_of(b) - file_of(b) && rank_of(x) - file_of(x) == rank_of(a)
        - file_of(a)
    ||| rank_of(a) + file_of(a) == rank_of(b) + file_of(b) && rank_of(x) + file_of(x) == rank_of(a)
        + file_of(a)
}

/// The direction from `a` to `b`, if they are aligned.
fn direction(a: Square, b: Square) -> (res: Option<(i8, i8)>)
    ensures
        res is Some <==> a.idx() != b.idx() && aligned(a.idx(), b.idx()),
        res matches Some((dr, df)) ==> is_direction(dr as int, df as int) && on_ray(
            a.idx(),
            b.idx(),
            dr as int,
            df as int,
        ),
{
    let r: i8 = b.to_rank() as i8 - a.to_rank() as i8;
    let f: i8 = b.to_file() as i8 - a.to_file() as i8;
    let dr: i8 = if r > 0 { 1 } else if r < 0 { -1 } else { 0 };
    let df: i8 = if f > 0 { 1 } else if f < 0 { -1 } else { 0 };
    if r == 0 && f == 0 {
        None
    } else if r == 0 || f == 0 || r == f || r == -f {
        Some((dr, df))
    } else {
        None
    }
}

/// The squares strictly between two squares.
pub fn between_squares(a: Square, b: Square) -> (res: BitBoard)
    ensures
        forall|x: int| #[trigger] res.has(x) <==> between(a.idx(), b.idx(), x),
{
    broadcast use group_bits;

    match direction(a, b) {
        Some((dr, df)) => {
            let end = b.to_bb();
            let res = walk(a, dr, df, end) & end.not();
            proof {
                let (p, q) = (a.idx(), b.idx());
                let stop = end.squares();
                assert forall|x: int| #[trigger] res.has(x) <==> between(p, q, x) by {
                    lemma_ray_between(p, q, x, dr as int, df as int);
                    if on_ray(p, x, dr as int, df as int) {
                        lemma_on_ray(p, x, dr as int, df as int);
                        lemma_on_ray(p, q, dr as int, df as int);
                        lemma_ray_between(p, x, q, dr as int, df as int);
                        if king_steps(p, x) > king_steps(p, q) {
                            assert(between(p, x, q));
                            assert(stop.contains(q));
                        } else {
                            assert(clear(p, x, stop)) by {
                                assert forall|y: int| #[trigger] between(p, x, y) implies !stop.contains(y) by {
                                    lemma_ray_between(p, x, y, dr as int, df as int);
                                }
                            }
                        }
                    }
                }
            }
            res
        },
        None => {
            assert forall|x: int| !between(a.idx(), b.idx(), x) by {}
            BitBoard(0)
        },
    }
}

/// The whole line through two squares, empty if they share none.
pub fn line_through(a: Square, b: Square) -> (res: BitBoard)
    ensures
        forall|x: int| #[trigger]
            res.has(x) <==> is_square(x) && a.idx() != b.idx() && collinear(a.idx(), b.idx(), x),
{
    broadcast use group_bits;

    match direction(a, b) {
        Some((dr, df)) => {
            let none = BitBoard(0);
            let res = walk(a, dr, df, none) | walk(a, -dr, -df, none) | a.to_bb();
            proof {
                let p = a.idx();
                assert forall|x: int| #[trigger] res.has(x) <==> is_square(x) && collinear(
                    p,
                    b.idx(),
                    x,
                ) by {
                    assert(clear(p, x, none.squares()));
                }
            }
            res
        },
        None => BitBoard(0),
    }
}

} // verus!
