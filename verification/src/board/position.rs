//! The mathematical model of a position: what stands on each square, and what follows
//! from that.

use crate::attacks::{aligned, between, on_diagonal, on_line, reach};
use crate::types::bits::{file_of, is_square};
use crate::types::pieces::Piece;
use crate::types::sides::{CastlingRights, Side};
use crate::zobrist::Zobrist;
use vstd::prelude::*;

verus! {

/// What stands on each of the sixty-four squares.
pub type Placement = Seq<Option<(Side, Piece)>>;

/// What decides which moves there are: the board, the turn, the castling rights and the
/// square where a pawn can be taken en passant.
pub struct Position {
    pub mb: Placement,
    pub stm: Side,
    pub rights: CastlingRights,
    pub ep: Option<int>,
}

/// The kind of the piece on a square.
pub open spec fn piece_of(square: Option<(Side, Piece)>) -> Piece {
    match square {
        Some((_, piece)) => piece,
        None => Piece::Pawn,
    }
}

/// The side of the piece on a square.
pub open spec fn side_of(square: Option<(Side, Piece)>) -> Side {
    match square {
        Some((side, _)) => side,
        None => Side::White,
    }
}

/// Square `i` holds the given piece.
pub open spec fn holds(mb: Placement, i: int, side: Side, piece: Piece) -> bool {
    is_square(i) && mb[i] == Some((side, piece))
}

/// Square `i` holds a piece of `side`.
pub open spec fn owned(mb: Placement, side: Side, i: int) -> bool {
    is_square(i) && mb[i] is Some && side_of(mb[i]) == side
}

/// Square `i` holds a piece of the given kind.
pub open spec fn of_kind(mb: Placement, piece: Piece, i: int) -> bool {
    is_square(i) && mb[i] is Some && piece_of(mb[i]) == piece
}

/// The squares that hold a piece.
pub open spec fn occupied(mb: Placement) -> Set<int> {
    Set::new(|i: int| is_square(i) && mb[i] is Some)
}

/// `k` is the lowest square with a king of `side`.
pub open spec fn king_at(mb: Placement, side: Side, k: int) -> bool {
    holds(mb, k, side, Piece::King) && forall|j: int|
        0 <= j < k ==> !#[trigger] holds(mb, j, side, Piece::King)
}

/// `side` has a king.
pub open spec fn has_king(mb: Placement, side: Side) -> bool {
    exists|k: int| #[trigger] holds(mb, k, side, Piece::King)
}

/// `side` has no two kings.
pub open spec fn single_king(mb: Placement, side: Side) -> bool {
    forall|i: int, j: int| #[trigger]
        holds(mb, i, side, Piece::King) && #[trigger] holds(mb, j, side, Piece::King) ==> i == j
}

/// The king of `side`.
pub open spec fn king_sq(mb: Placement, side: Side) -> int {
    choose|k: int| king_at(mb, side, k)
}

pub proof fn lemma_king_unique(mb: Placement, side: Side, k: int)
    requires
        king_at(mb, side, k),
    ensures
        king_sq(mb, side) == k,
{
    let q = king_sq(mb, side);
    assert(king_at(mb, side, q));
    assert(holds(mb, q, side, Piece::King));
    assert(holds(mb, k, side, Piece::King));
}

pub proof fn lemma_king_exists(mb: Placement, side: Side)
    requires
        has_king(mb, side),
    ensures
        king_at(mb, side, king_sq(mb, side)),
{
    let k = choose|k: int| #[trigger] holds(mb, k, side, Piece::King);
    lemma_lowest_king(mb, side, k);
}

proof fn lemma_lowest_king(mb: Placement, side: Side, k: int)
    requires
        holds(mb, k, side, Piece::King),
    ensures
        exists|q: int| king_at(mb, side, q),
    decreases k,
{
    if exists|j: int| 0 <= j < k && #[trigger] holds(mb, j, side, Piece::King) {
        let j = choose|j: int| 0 <= j < k && #[trigger] holds(mb, j, side, Piece::King);
        lemma_lowest_king(mb, side, j);
    } else {
        assert(king_at(mb, side, k));
    }
}

/// The piece on `a`, of `side`, attacks `t` when the squares in `occ` are taken. Of the
/// kings of a side only the lowest counts.
pub open spec fn attacker(mb: Placement, side: Side, a: int, t: int, occ: Set<int>) -> bool {
    &&& owned(mb, side, a)
    &&& piece_of(mb[a]) == Piece::King ==> a == king_sq(mb, side)
    &&& reach(piece_of(mb[a]), side, a, t, occ)
}

/// Some piece of `side` attacks `t` when the squares in `occ` are taken.
pub open spec fn attacked(mb: Placement, side: Side, t: int, occ: Set<int>) -> bool {
    exists|a: int| #[trigger] attacker(mb, side, a, t, occ)
}

/// The squares that `side` attacks, seen with the king of the opponent off the board, so
/// that a king cannot hide behind itself.
pub open spec fn threatened(mb: Placement, side: Side, t: int) -> bool {
    attacked(mb, side, t, occupied(mb).remove(king_sq(mb, side.other())))
}

/// The piece on `a` gives check to `side`. A king gives no check.
pub open spec fn checker(mb: Placement, side: Side, a: int) -> bool {
    &&& owned(mb, side.other(), a)
    &&& piece_of(mb[a]) != Piece::King
    &&& reach(piece_of(mb[a]), side.other(), a, king_sq(mb, side), occupied(mb))
}

/// A piece that slides along the line on which `a` and `b` lie.
pub open spec fn slides_along(piece: Piece, a: int, b: int) -> bool {
    &&& a != b
    &&& match piece {
        Piece::Bishop => on_diagonal(a, b),
        Piece::Rook => on_line(a, b),
        Piece::Queen => aligned(a, b),
        _ => false,
    }
}

/// The slider on `a` pins the piece on `b` to the king of `side`: `b` is the one piece
/// between the two.
pub open spec fn pins(mb: Placement, side: Side, a: int, b: int) -> bool {
    let k = king_sq(mb, side);
    &&& owned(mb, side.other(), a)
    &&& slides_along(piece_of(mb[a]), a, k)
    &&& between(a, k, b)
    &&& owned(mb, side, b)
    &&& forall|x: int| #[trigger] between(a, k, x) && x != b ==> mb[x] is None
}

/// The piece on `b` is pinned to the king of `side`.
pub open spec fn pinned(mb: Placement, side: Side, b: int) -> bool {
    exists|a: int| #[trigger] pins(mb, side, a, b)
}

/// The worth of the pieces of `side` on the first `n` squares.
pub open spec fn material_upto(mb: Placement, side: Side, n: int) -> int
    decreases n,
{
    if n <= 0 {
        0
    } else {
        material_upto(mb, side, n - 1) + (if mb[n - 1] is Some && side_of(mb[n - 1]) == side {
            piece_of(mb[n - 1]).worth()
        } else {
            0
        })
    }
}

/// The worth of the pieces of `side`.
pub open spec fn material(mb: Placement, side: Side) -> int {
    material_upto(mb, side, 64)
}

pub open spec fn worth_on(square: Option<(Side, Piece)>, side: Side) -> int {
    if square is Some && side_of(square) == side {
        piece_of(square).worth()
    } else {
        0
    }
}

pub proof fn lemma_material_update(
    mb: Placement,
    side: Side,
    i: int,
    x: Option<(Side, Piece)>,
    n: int,
)
    requires
        mb.len() == 64,
        0 <= i < 64,
        n <= 64,
    ensures
        material_upto(mb.update(i, x), side, n) == material_upto(mb, side, n) + (if i < n {
            worth_on(x, side) - worth_on(mb[i], side)
        } else {
            0
        }),
    decreases n,
{
    if n > 0 {
        lemma_material_update(mb, side, i, x, n - 1);
    }
}

pub proof fn lemma_material_bound(mb: Placement, side: Side, n: int)
    ensures
        0 <= material_upto(mb, side, n),
        n >= 0 ==> material_upto(mb, side, n) <= 900 * n,
    decreases n,
{
    if n > 0 {
        lemma_material_bound(mb, side, n - 1);
    }
}

/// The number for what stands on square `i`, zero for an empty square.
pub open spec fn square_key(z: Zobrist, square: Option<(Side, Piece)>, i: int) -> u64 {
    match square {
        Some((side, piece)) => z.piece_num(side, piece, i),
        None => 0,
    }
}

/// The key of the pieces on the first `n` squares.
pub open spec fn pieces_key_upto(z: Zobrist, mb: Placement, n: int) -> u64
    decreases n,
{
    if n <= 0 {
        0
    } else {
        pieces_key_upto(z, mb, n - 1) ^ square_key(z, mb[n - 1], n - 1)
    }
}

/// The key of the pieces on the board.
pub open spec fn pieces_key(z: Zobrist, mb: Placement) -> u64 {
    pieces_key_upto(z, mb, 64)
}

/// The key of everything but the pieces.
pub open spec fn features_key(
    z: Zobrist,
    stm: Side,
    rights: CastlingRights,
    ep: Option<int>,
) -> u64 {
    let side = if stm == Side::Black {
        z.side
    } else {
        0
    };
    let passant = match ep {
        Some(i) => z.enpassant@[file_of(i)],
        None => 0,
    };
    side ^ z.castling@[rights.0 as int] ^ passant
}

/// The key of a position.
pub open spec fn position_key(
    z: Zobrist,
    mb: Placement,
    stm: Side,
    rights: CastlingRights,
    ep: Option<int>,
) -> u64 {
    pieces_key(z, mb) ^ features_key(z, stm, rights, ep)
}

/// Exclusive or is associative and commutative, and its own inverse.
pub proof fn lemma_xor(a: u64, b: u64, c: u64)
    by (bit_vector)
    ensures
        (a ^ b) ^ c == a ^ (b ^ c),
        (a ^ b) ^ c == (a ^ c) ^ b,
        a ^ b == b ^ a,
        a ^ a == 0,
        a ^ 0 == a,
        0 ^ a == a,
        (a ^ b) ^ b == a,
{
}

pub proof fn lemma_pieces_key_update(
    z: Zobrist,
    mb: Placement,
    i: int,
    x: Option<(Side, Piece)>,
    n: int,
)
    requires
        mb.len() == 64,
        0 <= i < 64,
        n <= 64,
    ensures
        pieces_key_upto(z, mb.update(i, x), n) == if i < n {
            pieces_key_upto(z, mb, n) ^ square_key(z, mb[i], i) ^ square_key(z, x, i)
        } else {
            pieces_key_upto(z, mb, n)
        },
    decreases n,
{
    if n > 0 {
        lemma_pieces_key_update(z, mb, i, x, n - 1);
        let p = pieces_key_upto(z, mb, n - 1);
        let a = square_key(z, mb[i], i);
        let b = square_key(z, x, i);
        if i == n - 1 {
            lemma_xor(p, a, a);
        } else if i < n - 1 {
            let c = square_key(z, mb[n - 1], n - 1);
            assert(((p ^ a) ^ b) ^ c == ((p ^ c) ^ a) ^ b) by (bit_vector);
        }
    }
}

} // verus!
