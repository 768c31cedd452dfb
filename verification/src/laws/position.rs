//! What a move changes on the board and in the keys, and what distances and checks mean.

use crate::attacks::{between, collinear, king_reach, king_steps, pawn_reach, reach};
use crate::board::{Board, BoardState};
use crate::board::legality::{in_check, pawn_moves};
use crate::board::makemove::{
    applied, clock_after, forfeits, king_rook_home, made, movable, passing, queen_rook_home,
};
use crate::board::movegen::castling_step;
use crate::board::position::{
    attacker, checker, holds, king_at, king_sq, lemma_king_unique, lemma_material_update,
    lemma_pieces_key_update, lemma_xor, material, occupied, of_kind, owned, piece_of, pieces_key,
    pinned, pins, position_key, side_of, single_king, square_key, threatened, Placement,
};
use crate::board::see::{
    bears_on, cheapest, cleared, exchange, gain_of, loss_of, lowest, of_kind_in, trade_value,
    uncovered, usable, wins_exchange,
};
use crate::board::status::{
    checks_directly, drawn, non_pawn_key_upto, officer_part, pawn_key_upto, pawn_part,
};
use crate::evaluation::{centre_steps, rook_steps, soon_mated, soon_mating};
use crate::types::bits::{file_of, is_square, rank_of};
use crate::types::moves::{MoveKind, Step};
use crate::types::pieces::Piece;
use crate::types::sides::{Castling, CastlingRights, Side};
use crate::types::squares::partner;
use crate::zobrist::Zobrist;
use vstd::prelude::*;

verus! {

/// The corner from which a rook castles.
pub open spec fn corner(side: Side, short: bool) -> int {
    match side {
        Side::White => if short {
            7
        } else {
            0
        },
        Side::Black => if short {
            63
        } else {
            56
        },
    }
}

/// The square from which a king castles.
pub open spec fn home(side: Side) -> int {
    match side {
        Side::White => 4,
        Side::Black => 60,
    }
}

/// The right to castle to one side.
pub open spec fn right(side: Side, short: bool) -> Castling {
    if short {
        Castling::king_side(side)
    } else {
        Castling::queen_side(side)
    }
}

/// King and rook stand where they castle from.
pub open spec fn at_home(mb: Placement, side: Side, short: bool) -> bool {
    holds(mb, home(side), side, Piece::King) && holds(mb, corner(side, short), side, Piece::Rook)
}

/// A move keeps the right to castle exactly as long as king and rook stay at home.
pub proof fn law_castling_kept(mb: Placement, mover: Side, s: Step, side: Side, short: bool)
    requires
        mb.len() == 64,
        movable(mb, mover, s),
        is_square(s.from),
        at_home(mb, side, short),
        single_king(mb, side),
        s.kind is EnPassant ==> is_square(partner(s.to)),
    ensures
        forfeits(mb, s, right(side, short)) <==> !at_home(applied(mb, s), side, short),
{
    let h = home(side);
    if piece_of(mb[s.from]) == Piece::King && mover == side {
        assert(holds(mb, s.from, side, Piece::King));
        assert(s.from == h);
    }
    assert(Castling::king_side(Side::White) != Castling::king_side(Side::Black));
    assert(Castling::queen_side(Side::White) != Castling::queen_side(Side::Black));
    match (side, mover) {
        (Side::White, Side::White) => {},
        (Side::White, Side::Black) => {},
        (Side::Black, Side::White) => {},
        (Side::Black, Side::Black) => {},
    }
}

/// A move that does not castle empties its own square and brings its piece, or the piece that a
/// pawn becomes, to the target. Nothing else changes but the square of a pawn that is taken in
/// passing.
pub proof fn law_move_applied(mb: Placement, side: Side, s: Step, i: int)
    requires
        mb.len() == 64,
        movable(mb, side, s),
        is_square(i),
        !s.kind.castling(),
        s.kind is EnPassant ==> is_square(partner(s.to)) && partner(s.to) != s.from,
    ensures
        applied(mb, s)[s.from] is None,
        s.kind.promoted() is None ==> applied(mb, s)[s.to] == mb[s.from],
        s.kind.promoted() matches Some(p) ==> applied(mb, s)[s.to] == Some((side, p)),
        i != s.from && i != s.to && i != s.victim() ==> applied(mb, s)[i] == mb[i],
        s.kind is EnPassant ==> applied(mb, s)[s.victim()] is None,
{
}

/// Castling brings the king two squares towards the rook, and the rook to the square that the
/// king has passed.
pub proof fn law_castling_applied(mb: Placement, side: Side, short: bool, i: int)
    requires
        mb.len() == 64,
        is_square(i),
        at_home(mb, side, short),
    ensures
        ({
            let k = home(side);
            let s = if short {
                Step { from: k, to: k + 2, kind: MoveKind::KingCastle }
            } else {
                Step { from: k, to: k - 2, kind: MoveKind::QueenCastle }
            };
            let passed = if short {
                k + 1
            } else {
                k - 1
            };
            let after = applied(mb, s);
            &&& after[s.to] == Some((side, Piece::King))
            &&& after[passed] == Some((side, Piece::Rook))
            &&& after[k] is None
            &&& after[corner(side, short)] is None
            &&& i != k && i != s.to && i != passed && i != corner(side, short) ==> after[i] == mb[i]
        }),
{
}

/// A move takes from the opponent's material what it takes, and adds to the own material what a
/// promotion gains over the pawn; castling changes neither.
pub proof fn law_material_after(mb: Placement, side: Side, s: Step)
    requires
        mb.len() == 64,
        movable(mb, side, s),
        is_square(s.from),
        s.kind is EnPassant ==> is_square(partner(s.to)) && partner(s.to) != s.from,
    ensures
        !s.kind.capturing() ==> material(applied(mb, s), side.other()) == material(
            mb,
            side.other(),
        ),
        s.kind.capturing() ==> material(applied(mb, s), side.other()) == material(mb, side.other())
            - piece_of(mb[s.victim()]).worth(),
        s.kind.promoted() is None ==> material(applied(mb, s), side) == material(mb, side),
        s.kind.promoted() matches Some(p) ==> material(applied(mb, s), side) == material(mb, side)
            - 100 + p.worth(),
{
    lemma_material_placed(mb, side, s);
    lemma_material_placed(mb, side.other(), s);
    assert(side.other() != side);
}

/// What the updates of the squares of a move do to the material of a side.
proof fn lemma_material_placed(mb: Placement, of: Side, s: Step)
    requires
        mb.len() == 64,
        movable(mb, side_of(mb[s.from]), s),
        is_square(s.from),
        s.kind is EnPassant ==> is_square(partner(s.to)) && partner(s.to) != s.from,
    ensures
        material(applied(mb, s), of) == material(mb, of) + if s.kind.castling() {
            0
        } else {
            crate::board::position::worth_on(applied(mb, s)[s.to], of)
                - crate::board::position::worth_on(mb[s.from], of) - (if s.kind.quiet() {
                0
            } else {
                crate::board::position::worth_on(mb[s.victim()], of)
            })
        },
{
    let side = side_of(mb[s.from]);
    if s.kind is KingCastle {
        let a = mb.update(s.from, None);
        let b = a.update(king_rook_home(side), None);
        let c = b.update(s.to, Some((side, Piece::King)));
        lemma_material_update(mb, of, s.from, None, 64);
        lemma_material_update(a, of, king_rook_home(side), None, 64);
        lemma_material_update(b, of, s.to, Some((side, Piece::King)), 64);
        lemma_material_update(c, of, s.from + 1, Some((side, Piece::Rook)), 64);
    } else if s.kind is QueenCastle {
        let a = mb.update(s.from, None);
        let b = a.update(queen_rook_home(side), None);
        let c = b.update(s.to, Some((side, Piece::King)));
        lemma_material_update(mb, of, s.from, None, 64);
        lemma_material_update(a, of, queen_rook_home(side), None, 64);
        lemma_material_update(b, of, s.to, Some((side, Piece::King)), 64);
        lemma_material_update(c, of, s.from - 1, Some((side, Piece::Rook)), 64);
    } else if s.kind is EnPassant {
        let a = mb.update(partner(s.to), None);
        let b = a.update(s.from, None);
        lemma_material_update(mb, of, partner(s.to), None, 64);
        lemma_material_update(a, of, s.from, None, 64);
        lemma_material_update(b, of, s.to, mb[s.from], 64);
    } else {
        let x = match s.kind.promoted() {
            Some(piece) => Some((side, piece)),
            None => mb[s.from],
        };
        let a = mb.update(s.from, None);
        lemma_material_update(mb, of, s.from, None, 64);
        lemma_material_update(a, of, s.to, x, 64);
    }
}

/// The clock of moves without progress starts anew with every capture and every move of a pawn,
/// and with nothing else: it is zero afterwards exactly then.
pub proof fn law_clock(mb: Placement, side: Side, s: Step, clock: int)
    requires
        movable(mb, side, s),
        0 <= clock,
    ensures
        clock_after(mb, s, clock) == 0 <==> owned(mb, side.other(), s.to) || mb[s.from] == Some(
            (side, Piece::Pawn),
        ),
        clock_after(mb, s, clock) != 0 ==> clock_after(mb, s, clock) == clock + 1,
{
}

/// A game is drawn once a hundred moves have brought no progress, or once a position stands on
/// the board again, and not before.
pub proof fn law_drawn(b: Board, i: int)
    ensures
        b.state.half_move_clock >= 100 ==> drawn(b),
        0 <= i < b.game_history@.len() - 1 && b.game_history@[i] == b.game_history@.last()
            ==> drawn(b),
        b.state.half_move_clock < 100 && b.game_history@.no_duplicates() ==> !drawn(b),
{
}

/// Only squares between matter to a piece, so taking its own square and that of its target off
/// or onto the board changes nothing.
proof fn lemma_ends_do_not_matter(
    piece: Piece,
    side: Side,
    a: int,
    t: int,
    p: Set<int>,
    q: Set<int>,
)
    requires
        reach(piece, side, a, t, p),
        forall|x: int| q.contains(x) ==> p.contains(x) || x == a,
    ensures
        reach(piece, side, a, t, q),
{
    assert(!between(a, t, a));
}

/// A move that gives check directly leaves the opposing king in check, unless it castles.
pub proof fn law_direct_check(mb: Placement, side: Side, s: Step)
    requires
        mb.len() == 64,
        movable(mb, side, s),
        is_square(s.from),
        !s.kind.castling(),
        s.kind is EnPassant ==> is_square(partner(s.to)) && partner(s.to) != s.from,
        checks_directly(mb, s),
        single_king(mb, side),
        single_king(mb, side.other()),
        holds(mb, king_sq(mb, side.other()), side.other(), Piece::King),
    ensures
        in_check(applied(mb, s), side.other()),
{
    let after = applied(mb, s);
    let k = king_sq(mb, side.other());
    assert(side.other().other() == side);
    assert(k != s.from && k != s.to);
    assert(s.kind is EnPassant ==> k != partner(s.to));
    assert(after[k] == mb[k]);
    assert forall|i: int| #[trigger] holds(after, i, side.other(), Piece::King) implies i == k by {
        assert(holds(mb, i, side.other(), Piece::King));
    }
    lemma_one_king(after, side.other(), k);
    let arriving = match s.kind.promoted() {
        Some(p) => p,
        None => piece_of(mb[s.from]),
    };
    lemma_ends_do_not_matter(
        arriving,
        side,
        s.to,
        k,
        occupied(mb).remove(s.from),
        occupied(after),
    );
    assert(after[s.to] == Some((side, arriving)));
    if arriving == Piece::King {
        assert forall|i: int| #[trigger] holds(after, i, side, Piece::King) implies i == s.to by {
            if i != s.to {
                assert(holds(mb, i, side, Piece::King));
                assert(holds(mb, s.from, side, Piece::King));
            }
        }
        lemma_one_king(after, side, s.to);
    }
    assert(attacker(after, side, s.to, k, occupied(after)));
}

proof fn lemma_one_king(mb: Placement, side: Side, k: int)
    requires
        holds(mb, k, side, Piece::King),
        forall|i: int| #[trigger] holds(mb, i, side, Piece::King) ==> i == k,
    ensures
        king_sq(mb, side) == k,
{
    assert(king_at(mb, side, k));
    lemma_king_unique(mb, side, k);
}

/// The key of a position changes by the number of the side when the other side is to move, by
/// the two numbers of the rights when those change, and by the number of the file for a pawn
/// that may be taken in passing.
pub proof fn law_key_features(
    z: Zobrist,
    mb: Placement,
    stm: Side,
    rights: CastlingRights,
    others: CastlingRights,
    e: int,
)
    ensures
        position_key(z, mb, stm.other(), rights, None) == position_key(z, mb, stm, rights, None)
            ^ z.side,
        position_key(z, mb, stm, others, None) == position_key(z, mb, stm, rights, None)
            ^ z.castling@[rights.0 as int] ^ z.castling@[others.0 as int],
        position_key(z, mb, stm, rights, Some(e)) == position_key(z, mb, stm, rights, None)
            ^ z.enpassant@[file_of(e)],
{
    let p = pieces_key(z, mb);
    let c = z.castling@[rights.0 as int];
    let d = z.castling@[others.0 as int];
    let f = z.enpassant@[file_of(e)];
    let n = z.side;
    lemma_xor_features(p, c, d, f, n);
}

proof fn lemma_xor_features(p: u64, c: u64, d: u64, f: u64, n: u64)
    by (bit_vector)
    ensures
        p ^ (0 ^ c ^ 0) == (p ^ (n ^ c ^ 0)) ^ n,
        p ^ (n ^ c ^ 0) == (p ^ (0 ^ c ^ 0)) ^ n,
        p ^ (0 ^ d ^ 0) == (p ^ (0 ^ c ^ 0)) ^ c ^ d,
        p ^ (n ^ d ^ 0) == (p ^ (n ^ c ^ 0)) ^ c ^ d,
        p ^ (0 ^ c ^ f) == (p ^ (0 ^ c ^ 0)) ^ f,
        p ^ (n ^ c ^ f) == (p ^ (n ^ c ^ 0)) ^ f,
{
}

/// A piece on an empty square changes the key of a position by its own number.
pub proof fn law_key_piece(z: Zobrist, mb: Placement, i: int, side: Side, piece: Piece)
    requires
        mb.len() == 64,
        0 <= i < 64,
        mb[i] is None,
    ensures
        pieces_key(z, mb.update(i, Some((side, piece)))) == pieces_key(z, mb)
            ^ z.pieces@[piece as int + 6 * (side as int)]@[i],
{
    lemma_pieces_key_update(z, mb, i, Some((side, piece)), 64);
    let a = pieces_key(z, mb);
    let b = square_key(z, Some((side, piece)), i);
    lemma_xor(a, 0, b);
    lemma_xor(a, b, 0);
}

/// The key of the pawns rests on the pawns alone.
pub proof fn law_pawn_key(z: Zobrist, a: Placement, b: Placement, n: int)
    requires
        forall|i: int, side: Side|
            0 <= i < n ==> (#[trigger] holds(a, i, side, Piece::Pawn) <==> holds(
                b,
                i,
                side,
                Piece::Pawn,
            )),
        n <= 64,
    ensures
        pawn_key_upto(z, a, n) == pawn_key_upto(z, b, n),
    decreases n,
{
    if n > 0 {
        law_pawn_key(z, a, b, n - 1);
        assert(holds(a, n - 1, Side::White, Piece::Pawn) <==> holds(
            b,
            n - 1,
            Side::White,
            Piece::Pawn,
        ));
        assert(holds(a, n - 1, Side::Black, Piece::Pawn) <==> holds(
            b,
            n - 1,
            Side::Black,
            Piece::Pawn,
        ));
    }
}

/// A pawn on an empty square changes the key of the pawns by its own number.
pub proof fn law_pawn_key_changes(z: Zobrist, mb: Placement, i: int, side: Side, n: int)
    requires
        mb.len() == 64,
        0 <= i < n <= 64,
        mb[i] is None,
    ensures
        pawn_key_upto(z, mb.update(i, Some((side, Piece::Pawn))), n) == pawn_key_upto(z, mb, n)
            ^ z.pieces@[6 * (side as int)]@[i],
    decreases n,
{
    let after = mb.update(i, Some((side, Piece::Pawn)));
    let x = z.pieces@[6 * (side as int)]@[i];
    assert(Piece::Pawn as int == 0);
    if i == n - 1 {
        law_pawn_key(z, after, mb, n - 1);
        let k = pawn_key_upto(z, mb, n - 1);
        lemma_xor(k, 0, x);
        assert(pawn_part(z, after[i], i) == x);
        assert(pawn_part(z, mb[i], i) == 0);
    } else {
        law_pawn_key_changes(z, mb, i, side, n - 1);
        let k = pawn_key_upto(z, mb, n - 1);
        lemma_xor(k, x, pawn_part(z, mb[n - 1], n - 1));
    }
}

/// The key of the pieces of a side rests on those of its pieces that are not pawns.
pub proof fn law_non_pawn_key(z: Zobrist, of: Side, a: Placement, b: Placement, n: int)
    requires
        forall|i: int, piece: Piece|
            0 <= i < n && piece != Piece::Pawn ==> (#[trigger] holds(a, i, of, piece) <==> holds(
                b,
                i,
                of,
                piece,
            )),
        n <= 64,
    ensures
        non_pawn_key_upto(z, of, a, n) == non_pawn_key_upto(z, of, b, n),
    decreases n,
{
    if n > 0 {
        law_non_pawn_key(z, of, a, b, n - 1);
        let i = n - 1;
        if let Some((side, piece)) = a[i] {
            if side == of && piece != Piece::Pawn {
                assert(holds(a, i, of, piece));
            }
        }
        if let Some((side, piece)) = b[i] {
            if side == of && piece != Piece::Pawn {
                assert(holds(b, i, of, piece) <==> holds(a, i, of, piece));
            }
        }
    }
}

/// A piece of the side other than a pawn on an empty square changes the key of its pieces by
/// its own number.
pub proof fn law_non_pawn_key_changes(
    z: Zobrist,
    of: Side,
    mb: Placement,
    i: int,
    piece: Piece,
    n: int,
)
    requires
        mb.len() == 64,
        0 <= i < n <= 64,
        mb[i] is None,
        piece != Piece::Pawn,
    ensures
        non_pawn_key_upto(z, of, mb.update(i, Some((of, piece))), n) == non_pawn_key_upto(
            z,
            of,
            mb,
            n,
        ) ^ z.pieces@[piece as int + 6 * (of as int)]@[i],
    decreases n,
{
    let after = mb.update(i, Some((of, piece)));
    let x = z.pieces@[piece as int + 6 * (of as int)]@[i];
    if i == n - 1 {
        law_non_pawn_key(z, of, after, mb, n - 1);
        let k = non_pawn_key_upto(z, of, mb, n - 1);
        lemma_xor(k, 0, x);
        assert(officer_part(z, of, after[i], i) == x);
        assert(officer_part(z, of, mb[i], i) == 0);
    } else {
        law_non_pawn_key_changes(z, of, mb, i, piece, n - 1);
        let k = non_pawn_key_upto(z, of, mb, n - 1);
        lemma_xor(k, x, officer_part(z, of, mb[n - 1], n - 1));
    }
}

/// A move wins no more than what it takes, with what a promotion adds, and at least that less
/// what it risks. A promotion that takes nothing is left out: it is never refused.
pub proof fn law_exchange_bounds(st: BoardState, s: Step, threshold: int)
    requires
        s.kind.promoted() is Some ==> s.kind.capturing(),
    ensures
        wins_exchange(st, s, threshold) ==> threshold <= gain_of(st.mb(), s),
        threshold <= gain_of(st.mb(), s) - loss_of(st.mb(), s) ==> wins_exchange(st, s, threshold),
{
}

/// What a capture takes and what it risks: the worth of the pieces, with the promotion counted
/// in both.
pub proof fn law_exchange_stakes(mb: Placement, s: Step, side: Side, piece: Piece, victim: Piece)
    requires
        mb[s.from] == Some((side, piece)),
        mb[s.victim()] == Some((side.other(), victim)),
    ensures
        s.kind.promoted() is None ==> gain_of(mb, s) == victim.worth() && loss_of(mb, s)
            == piece.worth(),
        s.kind.promoted() matches Some(p) ==> gain_of(mb, s) == victim.worth() + p.worth() - 100
            && loss_of(mb, s) == p.worth(),
{
}

/// Kings and rooks measure the same way in both directions, need no step to stay and at least
/// one to leave, and never more over a third square. A rook needs as many steps as a king or
/// more, and at most twice as many. One step of a king is a move of a king.
pub proof fn law_distances(a: int, b: int, c: int)
    requires
        is_square(a),
        is_square(b),
        is_square(c),
    ensures
        king_steps(a, b) == king_steps(b, a),
        rook_steps(a, b) == rook_steps(b, a),
        king_steps(a, b) == 0 <==> a == b,
        rook_steps(a, b) == 0 <==> a == b,
        king_steps(a, c) <= king_steps(a, b) + king_steps(b, c),
        rook_steps(a, c) <= rook_steps(a, b) + rook_steps(b, c),
        king_steps(a, b) <= rook_steps(a, b) <= 2 * king_steps(a, b),
        king_steps(a, b) == 1 <==> king_reach(a, b),
{
}

/// The distance from the middle is the number of rook steps to the nearest of the four middle
/// squares.
pub proof fn law_centre(a: int)
    requires
        is_square(a),
    ensures
        centre_steps(a) <= rook_steps(a, 27) && centre_steps(a) <= rook_steps(a, 28)
            && centre_steps(a) <= rook_steps(a, 35) && centre_steps(a) <= rook_steps(a, 36),
        centre_steps(a) == rook_steps(a, 27) || centre_steps(a) == rook_steps(a, 28)
            || centre_steps(a) == rook_steps(a, 35) || centre_steps(a) == rook_steps(a, 36),
{
}

/// Mating soon and being mated soon are the same seen from the two sides, and no score is both;
/// a score at least as high as one of mating soon is one too.
pub proof fn law_soon_mate(score: int, higher: int)
    requires
        score <= higher,
    ensures
        soon_mated(score) <==> soon_mating(-score),
        !(soon_mated(score) && soon_mating(score)),
        soon_mating(score) ==> soon_mating(higher),
        soon_mating(8900) && !soon_mating(8899),
{
}

/// A square is attacked by a pawn of one side exactly if a pawn of the other side there would
/// attack the square of the first.
pub proof fn law_pawn_reach(side: Side, a: int, t: int)
    requires
        is_square(a),
        is_square(t),
    ensures
        pawn_reach(side, a, t) <==> pawn_reach(side.other(), t, a),
        pawn_reach(side, a, t) ==> rank_of(a) != rank_of(t) && file_of(a) != file_of(t),
{
}

/// Nothing is lost where the opponent has no piece that may take back: the move wins what it
/// takes, and no more.
pub proof fn law_exchange_undefended(st: BoardState, s: Step, threshold: int)
    requires
        s.kind.promoted() is Some ==> s.kind.capturing(),
        occupied(st.mb()).finite(),
        usable(
            st,
            s.to,
            Set::new(
                |a: int|
                    cleared(st.mb(), s).contains(a) && bears_on(
                        st.mb(),
                        a,
                        s.to,
                        cleared(st.mb(), s),
                    ),
            ),
            st.side_to_move.other(),
        ) =~= Set::empty(),
    ensures
        wins_exchange(st, s, threshold) <==> threshold <= gain_of(st.mb(), s),
{
    let occ = cleared(st.mb(), s);
    let attackers = Set::new(|a: int| occ.contains(a) && bears_on(st.mb(), a, s.to, occ));
    assert(attackers.subset_of(occ));
    let balance = gain_of(st.mb(), s) - threshold - loss_of(st.mb(), s);
    let other = st.side_to_move.other();
    assert(usable(st, s.to, attackers, other) =~= Set::empty());
    assert(exchange(st, s.to, attackers, occ, other, balance) == other);
    assert(other != st.side_to_move);
}

/// What is taken back once, and cannot be answered, is lost: the move wins what it takes less
/// what it risks, and no more.
pub proof fn law_exchange_taken_back(st: BoardState, s: Step, threshold: int)
    requires
        s.kind.promoted() is Some ==> s.kind.capturing(),
        occupied(st.mb()).finite(),
        loss_of(st.mb(), s) >= 0,
        ({
            let mb = st.mb();
            let occ = cleared(mb, s);
            let attackers = Set::new(|a: int| occ.contains(a) && bears_on(mb, a, s.to, occ));
            let theirs = usable(st, s.to, attackers, st.side_to_move.other());
            let piece = cheapest(mb, theirs);
            let a = lowest(of_kind_in(mb, theirs, piece));
            let left = occ.remove(a);
            &&& !(theirs =~= Set::empty())
            &&& piece == Piece::King ==> forall|b: int| #[trigger]
                attackers.contains(b) ==> !owned(mb, st.side_to_move, b)
            &&& occ.contains(a)
            &&& usable(st, s.to, uncovered(mb, s.to, attackers, left, piece), st.side_to_move)
                =~= Set::empty()
        }),
    ensures
        wins_exchange(st, s, threshold) <==> threshold <= gain_of(st.mb(), s) - loss_of(st.mb(), s),
{
    let mb = st.mb();
    let occ = cleared(mb, s);
    let attackers = Set::new(|a: int| occ.contains(a) && bears_on(mb, a, s.to, occ));
    assert(attackers.subset_of(occ));
    let other = st.side_to_move.other();
    assert(other.other() == st.side_to_move);
    let theirs = usable(st, s.to, attackers, other);
    let piece = cheapest(mb, theirs);
    let a = lowest(of_kind_in(mb, theirs, piece));
    let left = occ.remove(a);
    let more = uncovered(mb, s.to, attackers, left, piece);
    assert(more.subset_of(left));
    let balance = gain_of(mb, s) - threshold - loss_of(mb, s);
    let next = -balance - 1 - piece.worth();
    assert(exchange(st, s.to, more, left, st.side_to_move, next) == st.side_to_move);
    assert(exchange(st, s.to, attackers, occ, other, balance) == st.side_to_move);
}

/// A capture trades up exactly if it takes a piece that is worth more than the one that takes it,
/// and two captures that trade a for b and b for a come to nothing.
pub proof fn law_trade_value(mb: Placement, s: Step, t: Step, side: Side, a: Piece, b: Piece)
    requires
        mb[s.from] == Some((side, a)),
        mb[s.victim()] == Some((side.other(), b)),
        mb[t.from] == Some((side.other(), b)),
        mb[t.victim()] == Some((side, a)),
    ensures
        trade_value(mb, s) > 0 <==> b.worth() > a.worth(),
        trade_value(mb, s) + trade_value(mb, t) == 0,
        a == Piece::Pawn && b == Piece::Queen ==> trade_value(mb, s) == 800,
{
}

/// Two moves, one of each side, are one move of the game: the same side is to move again, the
/// counter has grown by one, and two positions more are remembered.
pub proof fn law_turns(a: Board, s: Step, b: Board, t: Step, c: Board)
    requires
        made(a, s, b),
        made(b, t, c),
    ensures
        b.state.side_to_move == a.state.side_to_move.other(),
        c.state.side_to_move == a.state.side_to_move,
        c.state.full_move == a.state.full_move + 1,
        c.game_history@.len() == a.game_history@.len() + 2,
        c.state_stack@.len() == a.state_stack@.len() + 2,
        b.state.full_move == a.state.full_move || a.state.side_to_move == Side::White,
{
}

/// A square may be passed only just after a pawn has moved two squares, and is then the one
/// between them.
pub proof fn law_passing(mb: Placement, side: Side, s: Step)
    requires
        movable(mb, side, s),
        is_square(s.from),
    ensures
        passing(s) is Some <==> s.kind is DoublePawn,
        passing(s) matches Some(e) ==> 2 * e == s.from + s.to,
{
}

/// A king castles exactly if it has the right to, king and rook are at home, no piece stands
/// between them, and the king is attacked neither where it stands nor where it passes nor where
/// it arrives.
pub proof fn law_castling(mb: Placement, side: Side, rights: CastlingRights, s: Step, short: bool)
    requires
        mb.len() == 64,
        king_sq(mb, side) == home(side) ==> holds(mb, home(side), side, Piece::King),
        s.from == home(side),
        short ==> s.to == home(side) + 2 && s.kind is KingCastle,
        !short ==> s.to == home(side) - 2 && s.kind is QueenCastle,
    ensures
        castling_step(mb, side, rights, s) <==> {
            &&& rights.holds(right(side, short))
            &&& king_sq(mb, side) == home(side)
            &&& at_home(mb, side, short)
            &&& forall|x: int| #[trigger]
                between(home(side), corner(side, short), x) ==> mb[x] is None
            &&& forall|x: int|
                x == s.from || x == s.to || between(s.from, s.to, x) ==> !(#[trigger] threatened(
                    mb,
                    side.other(),
                    x,
                ))
        },
{
    let h = home(side);
    let c = corner(side, short);
    let step = if short {
        1int
    } else {
        -1
    };
    assert(between(h, c, h + step));
    assert(between(h, c, h + 2 * step));
    assert(!short ==> between(h, c, h - 3));
    assert(between(s.from, s.to, h + step));
    assert forall|x: int| #[trigger] between(h, c, x) implies x == h + step || x == h + 2 * step
        || !short && x == h - 3 by {
        assert(rank_of(x) == rank_of(h));
    }
    assert forall|x: int| #[trigger] between(s.from, s.to, x) implies x == h + step by {
        assert(rank_of(x) == rank_of(h));
    }
    if castling_step(mb, side, rights, s) {
        assert(!threatened(mb, side.other(), h));
    }
}

/// A pawn goes forward only: one rank, or two from the rank where it starts. It changes the file
/// exactly if it takes, and becomes another piece exactly if it reaches the last rank.
pub proof fn law_pawn_goes(mb: Placement, side: Side, ep: Option<int>, s: Step)
    requires
        pawn_moves(mb, side, ep, s),
        ep matches Some(e) ==> rank_of(e) == 2 || rank_of(e) == 5,
    ensures
        ({
            let ranks = if side == Side::White {
                s.to / 8 - s.from / 8
            } else {
                s.from / 8 - s.to / 8
            };
            let files = s.to % 8 - s.from % 8;
            let first = if side == Side::White {
                1int
            } else {
                6
            };
            let final_rank = if side == Side::White {
                7int
            } else {
                0
            };
            &&& ranks == 1 || ranks == 2 && s.from / 8 == first && s.kind is DoublePawn
            &&& s.kind is DoublePawn ==> ranks == 2
            &&& s.kind.capturing() <==> files == 1 || files == -1
            &&& !s.kind.capturing() <==> files == 0
            &&& !s.kind.capturing() ==> mb[s.to] is None
            &&& s.kind.capturing() && !(s.kind is EnPassant) ==> owned(mb, side.other(), s.to)
            &&& s.kind.promoted() is Some ==> s.to / 8 == final_rank
            &&& s.to / 8 == final_rank && ranks == 1 ==> s.kind.promoted() is Some
        }),
{
    assert(rank_of(s.to) == s.to / 8 && rank_of(s.from) == s.from / 8);
    assert(file_of(s.to) == s.to % 8 && file_of(s.from) == s.from % 8);
}

/// A pinned piece is all that keeps a slider of the opponent from the king: with it off the
/// board the king is in check.
pub proof fn law_pinned(mb: Placement, side: Side, b: int)
    requires
        mb.len() == 64,
        pinned(mb, side, b),
        single_king(mb, side),
        holds(mb, king_sq(mb, side), side, Piece::King),
        mb[b] != Some((side, Piece::King)),
    ensures
        in_check(mb.update(b, None), side),
{
    let k = king_sq(mb, side);
    let a = choose|a: int| #[trigger] pins(mb, side, a, b);
    let after = mb.update(b, None);
    assert(a != b && k != b);
    assert forall|i: int| #[trigger] holds(after, i, side, Piece::King) implies i == k by {
        assert(holds(mb, i, side, Piece::King));
    }
    assert(holds(after, k, side, Piece::King));
    lemma_one_king(after, side, k);
    assert forall|x: int| #[trigger] between(a, k, x) implies !occupied(after).contains(x) by {
        if x != b {
            assert(mb[x] is None);
        }
    }
    assert(reach(piece_of(after[a]), side.other(), a, k, occupied(after)));
    assert(attacker(after, side.other(), a, k, occupied(after)));
}

/// A king is in check exactly if some piece other than the opposing king gives it, where the
/// kings do not stand side by side.
pub proof fn law_checkers(mb: Placement, side: Side)
    requires
        !king_reach(king_sq(mb, side.other()), king_sq(mb, side)),
    ensures
        in_check(mb, side) <==> exists|a: int| #[trigger] checker(mb, side, a),
{
    let k = king_sq(mb, side);
    if in_check(mb, side) {
        let a = choose|a: int| #[trigger] attacker(mb, side.other(), a, k, occupied(mb));
        assert(checker(mb, side, a));
    }
    if exists|a: int| #[trigger] checker(mb, side, a) {
        let a = choose|a: int| #[trigger] checker(mb, side, a);
        assert(attacker(mb, side.other(), a, k, occupied(mb)));
    }
}

/// A king does not take back on a square that is defended: the move wins what it takes.
pub proof fn law_exchange_king_stays(st: BoardState, s: Step, threshold: int, b: int)
    requires
        s.kind.promoted() is Some ==> s.kind.capturing(),
        occupied(st.mb()).finite(),
        ({
            let mb = st.mb();
            let occ = cleared(mb, s);
            let attackers = Set::new(|a: int| occ.contains(a) && bears_on(mb, a, s.to, occ));
            let theirs = usable(st, s.to, attackers, st.side_to_move.other());
            &&& cheapest(mb, theirs) == Piece::King
            &&& attackers.contains(b)
            &&& owned(mb, st.side_to_move, b)
        }),
    ensures
        wins_exchange(st, s, threshold) <==> threshold <= gain_of(st.mb(), s),
{
    let mb = st.mb();
    let occ = cleared(mb, s);
    let attackers = Set::new(|a: int| occ.contains(a) && bears_on(mb, a, s.to, occ));
    assert(attackers.subset_of(occ));
    let other = st.side_to_move.other();
    assert(other.other() == st.side_to_move);
    let balance = gain_of(mb, s) - threshold - loss_of(mb, s);
    assert(attackers.contains(b) && owned(mb, other.other(), b));
    assert(exchange(st, s.to, attackers, occ, other, balance) == other);
}

/// A piece bears on a square exactly if it attacks it, whichever side it is of; a pawn does on
/// all four squares diagonally next to it.
pub proof fn law_bears_on(mb: Placement, a: int, t: int, occ: Set<int>, side: Side, piece: Piece)
    requires
        is_square(a),
        is_square(t),
        a != t,
        mb[a] == Some((side, piece)),
    ensures
        piece != Piece::Pawn ==> (bears_on(mb, a, t, occ) <==> reach(piece, side, a, t, occ)),
        piece == Piece::Pawn ==> (bears_on(mb, a, t, occ) <==> pawn_reach(Side::White, a, t)
            || pawn_reach(Side::Black, a, t)),
{
    assert forall|x: int| between(a, t, x) <==> #[trigger] between(t, a, x) by {}
    assert forall|x: int| #[trigger] between(a, t, x) <==> between(t, a, x) by {}
}

/// Once a piece has taken back, the others that bore on the square still do, and what stood
/// behind it comes into view: a slider along the ranks and files behind a rook or queen, and one
/// along the diagonals behind a pawn, bishop or queen.
pub proof fn law_uncovered(
    mb: Placement,
    t: int,
    attackers: Set<int>,
    occ: Set<int>,
    piece: Piece,
    a: int,
    side: Side,
)
    requires
        is_square(a),
        is_square(t),
        occ.contains(a),
    ensures
        attackers.contains(a) ==> uncovered(mb, t, attackers, occ, piece).contains(a),
        mb[a] == Some((side, Piece::Rook)) && bears_on(mb, a, t, occ) && (piece == Piece::Rook
            || piece == Piece::Queen) ==> uncovered(mb, t, attackers, occ, piece).contains(a),
        mb[a] == Some((side, Piece::Bishop)) && bears_on(mb, a, t, occ) && (piece == Piece::Bishop
            || piece == Piece::Queen || piece == Piece::Pawn) ==> uncovered(
            mb,
            t,
            attackers,
            occ,
            piece,
        ).contains(a),
        mb[a] == Some((side, Piece::Queen)) && bears_on(mb, a, t, occ) && piece == Piece::Queen
            ==> uncovered(mb, t, attackers, occ, piece).contains(a),
        uncovered(mb, t, attackers, occ, piece).contains(a) && !attackers.contains(a) ==> bears_on(
            mb,
            a,
            t,
            occ,
        ) && piece != Piece::Knight && piece != Piece::King,
{
}

/// The cheapest of some pieces is worth no more than any of them, but that a king comes last.
pub proof fn law_cheapest(mb: Placement, set: Set<int>, a: int, side: Side, piece: Piece)
    requires
        set.contains(a),
        is_square(a),
        mb[a] == Some((side, piece)),
    ensures
        piece != Piece::King ==> cheapest(mb, set).worth() <= piece.worth() && cheapest(mb, set)
            != Piece::King,
        exists|b: int| set.contains(b) && #[trigger] of_kind(mb, cheapest(mb, set), b),
{
    assert(of_kind_in(mb, set, piece).contains(a));
    let p = cheapest(mb, set);
    if p != Piece::King {
        let found = of_kind_in(mb, set, p);
        assert(exists|b: int| #[trigger] found.contains(b)) by {
            if !(exists|b: int| #[trigger] found.contains(b)) {
                assert(found =~= Set::empty());
            }
        }
        let b = choose|b: int| #[trigger] found.contains(b);
        assert(set.contains(b) && of_kind(mb, p, b));
    } else {
        assert(set.contains(a) && of_kind(mb, p, a));
    }
}

/// A piece that bears on a square may be used there unless it is pinned, and a pinned one only
/// along the line of its own king.
pub proof fn law_usable(st: BoardState, t: int, attackers: Set<int>, side: Side, a: int)
    requires
        attackers.contains(a),
    ensures
        usable(st, t, attackers, side).contains(a) ==> owned(st.mb(), side, a),
        owned(st.mb(), side, a) && !st.pinned_bb(side).has(a) ==> usable(
            st,
            t,
            attackers,
            side,
        ).contains(a),
        owned(st.mb(), side, a) && st.pinned_bb(side).has(a) && t != king_sq(st.mb(), side) ==> (
        usable(st, t, attackers, side).contains(a) <==> collinear(t, king_sq(st.mb(), side), a)),
{
}

} // verus!
