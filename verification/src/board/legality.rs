//! The rules of the game stated directly, and the proof that move generation follows them.

use crate::attacks::{between, clear, collinear, king_reach, knight_reach, pawn_reach, reach};
use crate::board::BoardState;
use crate::board::makemove::{
    after_passant, applied, forward, king_home, movable, passant_live, passant_taker, passed,
    pawn_home, slider_check,
};
use crate::board::movegen::{
    castling_step, evades, generated, keeps_pin, king_step, last_rank, officer_step, one_check,
    piece_step,
};
use crate::board::position::{
    attacked, attacker, checker, has_king, holds, king_at, king_sq, lemma_king_exists,
    lemma_king_unique, occupied, owned, piece_of, pinned, pins, single_king, slides_along,
    threatened,
};
use crate::types::bits::{is_square, rank_of};
use crate::types::moves::{MoveKind, Step};
use crate::types::pieces::Piece;
use crate::types::sides::{CastlingRights, Side};
use crate::types::squares::partner;
use vstd::prelude::*;

verus! {

/// The king of `side` is attacked.
pub open spec fn in_check(mb: Seq<Option<(Side, Piece)>>, side: Side) -> bool {
    attacked(mb, side.other(), king_sq(mb, side), occupied(mb))
}

/// A position that can arise in a game: one king each, the side that has just moved is
/// not in check, and next to a pawn that has just passed a square no other pawn and no
/// knight gives check.
pub open spec fn fair(st: BoardState) -> bool {
    let mb = st.mb();
    let stm = st.side_to_move;
    &&& single_king(mb, Side::White)
    &&& single_king(mb, Side::Black)
    &&& !in_check(mb, stm.other())
    &&& st.ep() matches Some(e) ==> forall|c: int| #[trigger]
        checker(mb, stm, c) ==> c == partner(e) || slides_along(
            piece_of(mb[c]),
            c,
            king_sq(mb, stm),
        )
}

/// How a piece other than king and pawn moves, checks and pins aside.
pub open spec fn officer_moves(mb: Seq<Option<(Side, Piece)>>, stm: Side, s: Step) -> bool {
    let piece = piece_of(mb[s.from]);
    &&& owned(mb, stm, s.from)
    &&& piece != Piece::Pawn && piece != Piece::King
    &&& is_square(s.to)
    &&& reach(piece, stm, s.from, s.to, occupied(mb))
    &&& {
        ||| s.kind is Capture && owned(mb, stm.other(), s.to)
        ||| s.kind is QuietMove && mb[s.to] is None
    }
}

/// How the king moves, castling and checks aside.
pub open spec fn king_moves(mb: Seq<Option<(Side, Piece)>>, stm: Side, s: Step) -> bool {
    &&& holds(mb, s.from, stm, Piece::King)
    &&& king_reach(s.from, s.to)
    &&& {
        ||| s.kind is Capture && owned(mb, stm.other(), s.to)
        ||| s.kind is QuietMove && mb[s.to] is None
    }
}

/// How a pawn moves, checks and pins aside.
pub open spec fn pawn_moves(
    mb: Seq<Option<(Side, Piece)>>,
    stm: Side,
    ep: Option<int>,
    s: Step,
) -> bool {
    let promotes = rank_of(s.to) == last_rank(stm);
    &&& holds(mb, s.from, stm, Piece::Pawn)
    &&& is_square(s.to)
    &&& match s.kind {
        MoveKind::QuietMove => s.to == s.from + forward(stm) && mb[s.to] is None && !promotes,
        MoveKind::DoublePawn => {
            &&& rank_of(s.from) == pawn_home(stm)
            &&& s.to == s.from + 2 * forward(stm)
            &&& mb[s.from + forward(stm)] is None
            &&& mb[s.to] is None
        },
        MoveKind::NPromotion
        | MoveKind::BPromotion
        | MoveKind::RPromotion
        | MoveKind::QPromotion => s.to == s.from + forward(stm) && mb[s.to] is None && promotes,
        MoveKind::Capture => pawn_reach(stm, s.from, s.to) && owned(mb, stm.other(), s.to)
            && !promotes,
        MoveKind::NPromCapture
        | MoveKind::BPromCapture
        | MoveKind::RPromCapture
        | MoveKind::QPromCapture => pawn_reach(stm, s.from, s.to) && owned(mb, stm.other(), s.to)
            && promotes,
        MoveKind::EnPassant => pawn_reach(stm, s.from, s.to) && ep == Some(s.to),
        _ => false,
    }
}

/// A legal move: a piece moves as it does and its own king is not in check afterwards, or
/// the king castles.
pub open spec fn legal(st: BoardState, s: Step) -> bool {
    let mb = st.mb();
    let stm = st.side_to_move;
    ||| castling_step(mb, stm, st.castling_rights, s)
    ||| (officer_moves(mb, stm, s) || king_moves(mb, stm, s) || pawn_moves(mb, stm, st.ep(), s))
        && !in_check(applied(mb, s), stm)
}

/// A square on the line of a king and a piece next to it in a pin lies inside the pin, or
/// the way to it leads across one of its ends.
proof fn lemma_line_order(a: int, k: int, f: int, t: int)
    requires
        is_square(a),
        is_square(k),
        is_square(t),
        between(a, k, f),
        collinear(k, f, t),
        t != f,
        t != a,
        t != k,
        !between(a, k, t),
    ensures
        between(f, t, a) || between(f, t, k),
{
}

/// A square between two squares is on their line.
proof fn lemma_between_collinear(a: int, k: int, f: int, t: int)
    requires
        is_square(a),
        is_square(k),
        between(a, k, f),
        between(a, k, t) || t == a,
    ensures
        collinear(k, f, t),
{
}

proof fn lemma_between_symmetric(a: int, b: int, x: int)
    ensures
        between(a, b, x) == between(b, a, x),
{
}

/// Two squares that are seen from `k` across the same square are on one ray.
proof fn lemma_same_ray(k: int, c: int, d: int, t: int)
    requires
        is_square(k),
        is_square(c),
        is_square(d),
        between(k, c, t),
        between(k, d, t),
        c != d,
    ensures
        between(k, c, d) || between(k, d, c),
{
}

/// Nothing lies between squares that are a knight's jump or a king's step apart.
proof fn lemma_contact(a: int, b: int, x: int)
    requires
        is_square(a),
        knight_reach(a, b) || king_reach(a, b),
    ensures
        !between(a, b, x),
        !between(b, a, x),
{
}

/// With one king, it is where it is.
pub proof fn lemma_the_king(mb: Seq<Option<(Side, Piece)>>, side: Side, k: int)
    requires
        single_king(mb, side),
        holds(mb, k, side, Piece::King),
    ensures
        king_sq(mb, side) == k,
        king_at(mb, side, k),
{
    assert(king_at(mb, side, k));
    lemma_king_unique(mb, side, k);
}

/// Where the kings are after a step, and that there is still one each.
pub proof fn lemma_kings_after(mb: Seq<Option<(Side, Piece)>>, stm: Side, s: Step)
    requires
        mb.len() == 64,
        movable(mb, stm, s),
        single_king(mb, stm),
        single_king(mb, stm.other()),
        has_king(mb, stm),
        has_king(mb, stm.other()),
    ensures
        single_king(applied(mb, s), stm),
        single_king(applied(mb, s), stm.other()),
        king_sq(applied(mb, s), stm.other()) == king_sq(mb, stm.other()),
        king_sq(applied(mb, s), stm) == if piece_of(mb[s.from]) == Piece::King {
            s.to
        } else {
            king_sq(mb, stm)
        },
        holds(mb, king_sq(mb, stm), stm, Piece::King),
        holds(mb, king_sq(mb, stm.other()), stm.other(), Piece::King),
{
    let after = applied(mb, s);
    let k = king_sq(mb, stm);
    let q = king_sq(mb, stm.other());
    lemma_king_exists(mb, stm);
    lemma_king_exists(mb, stm.other());
    let here = if piece_of(mb[s.from]) == Piece::King {
        s.to
    } else {
        k
    };
    assert forall|i: int| #[trigger] holds(after, i, stm, Piece::King) <==> i == here by {
        if holds(mb, i, stm, Piece::King) {
            assert(i == k);
        }
        assert(holds(mb, s.from, stm, Piece::King) ==> s.from == k);
    }
    assert forall|i: int| #[trigger] holds(after, i, stm.other(), Piece::King) <==> i == q by {
        if holds(mb, i, stm.other(), Piece::King) {
            assert(i == q);
        }
    }
    lemma_the_king(after, stm, here);
    lemma_the_king(after, stm.other(), q);
}

/// In a fair position the generated moves can be made.
pub proof fn law_generated_movable(st: BoardState, s: Step)
    requires
        st.kings(),
        fair(st),
        st.ep() matches Some(e) ==> passed(st.mb(), st.side_to_move, e),
        generated(st, s) || legal(st, s),
    ensures
        movable(st.mb(), st.side_to_move, s),
{
    let mb = st.mb();
    let stm = st.side_to_move;
    let q = king_sq(mb, stm.other());
    lemma_king_exists(mb, stm);
    lemma_king_exists(mb, stm.other());
    if owned(mb, stm.other(), s.to) && piece_of(mb[s.to]) == Piece::King {
        lemma_the_king(mb, stm.other(), s.to);
        if !castling_step(mb, stm, st.castling_rights, s) && s.kind !is EnPassant {
            if holds(mb, s.from, stm, Piece::King) {
                lemma_the_king(mb, stm, s.from);
            }
            assert(attacker(mb, stm, s.from, q, occupied(mb)));
        }
    }
}

/// A plain move: one piece goes from one square to another, taking what is there.
spec fn plain(mb: Seq<Option<(Side, Piece)>>, stm: Side, s: Step) -> bool {
    &&& movable(mb, stm, s)
    &&& !s.kind.castling()
    &&& s.kind !is EnPassant
    &&& piece_of(mb[s.from]) != Piece::King
    &&& {
        ||| knight_reach(s.from, s.to) && piece_of(mb[s.from]) == Piece::Knight
        ||| forall|x: int| #[trigger] between(s.from, s.to, x) ==> mb[x] is None
    }
}

/// The attackers of a square after a plain move were there before.
proof fn lemma_attacker_before(mb: Seq<Option<(Side, Piece)>>, stm: Side, s: Step, a: int)
    requires
        mb.len() == 64,
        movable(mb, stm, s),
        owned(applied(mb, s), stm.other(), a),
    ensures
        owned(mb, stm.other(), a),
        applied(mb, s)[a] == mb[a],
        a != s.to,
        a != s.from,
        s.kind is EnPassant ==> a != partner(s.to),
{
}

/// A piece that attacks the king from next to it or by a knight's jump, or along a clear
/// line, gives check.
proof fn lemma_checker(mb: Seq<Option<(Side, Piece)>>, stm: Side, a: int)
    requires
        owned(mb, stm.other(), a),
        piece_of(mb[a]) != Piece::King,
        reach(piece_of(mb[a]), stm.other(), a, king_sq(mb, stm), occupied(mb)),
    ensures
        checker(mb, stm, a),
{
}

/// Kings that are not next to each other stay so as long as neither moves.
proof fn lemma_kings_apart(mb: Seq<Option<(Side, Piece)>>, stm: Side)
    requires
        holds(mb, king_sq(mb, stm), stm, Piece::King),
        holds(mb, king_sq(mb, stm.other()), stm.other(), Piece::King),
        !in_check(mb, stm.other()),
    ensures
        !king_reach(king_sq(mb, stm.other()), king_sq(mb, stm)),
{
    let k = king_sq(mb, stm);
    let q = king_sq(mb, stm.other());
    if king_reach(q, k) {
        assert(king_reach(k, q));
        assert(attacker(mb, stm, k, q, occupied(mb)));
    }
}

/// A plain move that answers checks and keeps pins leaves the king safe.
proof fn lemma_plain_safe(mb: Seq<Option<(Side, Piece)>>, stm: Side, s: Step)
    requires
        mb.len() == 64,
        plain(mb, stm, s),
        single_king(mb, stm),
        single_king(mb, stm.other()),
        has_king(mb, stm),
        has_king(mb, stm.other()),
        !in_check(mb, stm.other()),
        evades(mb, stm, s.to),
        keeps_pin(mb, stm, s),
    ensures
        !in_check(applied(mb, s), stm),
{
    let after = applied(mb, s);
    let k = king_sq(mb, stm);
    let other = stm.other();
    let occ = occupied(mb);
    let occ2 = occupied(after);
    lemma_kings_after(mb, stm, s);
    lemma_kings_apart(mb, stm);
    assert forall|a: int| !attacker(after, other, a, k, occ2) by {
        if attacker(after, other, a, k, occ2) {
            lemma_attacker_before(mb, stm, s, a);
            let p = piece_of(mb[a]);
            assert(occ2.contains(s.to));
            assert(occ.contains(a) && occ.contains(k));
            if p == Piece::King {
            } else if p == Piece::Pawn || p == Piece::Knight {
                lemma_checker(mb, stm, a);
                if between(k, a, s.to) {
                    assert(knight_reach(a, k) || king_reach(a, k));
                    lemma_contact(a, k, s.to);
                }
            } else {
                assert(slides_along(p, a, k) && clear(a, k, occ2));
                lemma_between_symmetric(a, k, s.to);
                assert(!between(a, k, s.to));
                assert forall|x: int| #[trigger] between(a, k, x) && x != s.from implies !occ.contains(
                    x,
                ) by {
                    assert(!occ2.contains(x));
                }
                if between(a, k, s.from) {
                    assert forall|x: int| #[trigger] between(a, k, x) && x
                        != s.from implies mb[x] is None by {
                        assert(!occ.contains(x));
                    }
                    assert(pins(mb, stm, a, s.from));
                    assert(collinear(k, s.from, s.to));
                    lemma_line_order(a, k, s.from, s.to);
                    if knight_reach(s.from, s.to) {
                        lemma_contact(s.from, s.to, a);
                        lemma_contact(s.from, s.to, k);
                    }
                } else {
                    assert(clear(a, k, occ));
                    lemma_checker(mb, stm, a);
                }
            }
        }
    }
}

/// A king that goes to a square that is not attacked is safe there.
proof fn lemma_king_safe(mb: Seq<Option<(Side, Piece)>>, stm: Side, s: Step)
    requires
        mb.len() == 64,
        movable(mb, stm, s),
        king_moves(mb, stm, s),
        single_king(mb, stm),
        single_king(mb, stm.other()),
        has_king(mb, stm),
        has_king(mb, stm.other()),
    ensures
        !threatened(mb, stm.other(), s.to) <==> !in_check(applied(mb, s), stm),
{
    let after = applied(mb, s);
    let k = king_sq(mb, stm);
    let other = stm.other();
    let occ = occupied(mb).remove(k);
    let occ2 = occupied(after);
    lemma_kings_after(mb, stm, s);
    lemma_the_king(mb, stm, s.from);
    assert(other.other() == stm);
    assert forall|a: int|
        attacker(after, other, a, s.to, occ2) <==> attacker(mb, other, a, s.to, occ) by {
        if attacker(after, other, a, s.to, occ2) {
            lemma_attacker_before(mb, stm, s, a);
            lemma_clear_same(a, s.to, occ2, occ);
        }
        if attacker(mb, other, a, s.to, occ) {
            assert(a != s.to);
            assert(after[a] == mb[a]);
            lemma_clear_same(a, s.to, occ2, occ);
        }
    }
    if threatened(mb, other, s.to) {
        let a = choose|a: int| #[trigger] attacker(mb, other, a, s.to, occ);
        assert(attacker(after, other, a, s.to, occ2));
    }
    if in_check(after, stm) {
        let a = choose|a: int| #[trigger] attacker(after, other, a, s.to, occ2);
        assert(attacker(mb, other, a, s.to, occ));
    }
}

/// Lines are clear in two sets alike if the sets differ at most in the end of the line.
proof fn lemma_clear_same(a: int, t: int, x: Set<int>, y: Set<int>)
    requires
        is_square(a),
        is_square(t),
        forall|i: int| i != t ==> x.contains(i) == y.contains(i),
    ensures
        clear(a, t, x) == clear(a, t, y),
{
    assert forall|i: int| #[trigger] between(a, t, i) implies x.contains(i) == y.contains(i) by {
        assert(i != t);
    }
    if clear(a, t, x) {
        assert forall|i: int| #[trigger] between(a, t, i) implies !y.contains(i) by {
            assert(!x.contains(i));
        }
    }
    if clear(a, t, y) {
        assert forall|i: int| #[trigger] between(a, t, i) implies !x.contains(i) by {
            assert(!y.contains(i));
        }
    }
}

/// Castling as it is allowed leaves the king safe.
proof fn lemma_castling_safe(
    mb: Seq<Option<(Side, Piece)>>,
    stm: Side,
    rights: CastlingRights,
    s: Step,
)
    requires
        mb.len() == 64,
        movable(mb, stm, s),
        castling_step(mb, stm, rights, s),
        single_king(mb, stm),
        single_king(mb, stm.other()),
        has_king(mb, stm),
        has_king(mb, stm.other()),
    ensures
        !in_check(applied(mb, s), stm),
{
    let after = applied(mb, s);
    let h = king_home(stm);
    let other = stm.other();
    let occ = occupied(mb).remove(h);
    let occ2 = occupied(after);
    lemma_kings_after(mb, stm, s);
    assert(other.other() == stm);
    assert forall|a: int| !attacker(after, other, a, s.to, occ2) by {
        if attacker(after, other, a, s.to, occ2) {
            assert(owned(mb, other, a) && after[a] == mb[a]);
            let p = piece_of(mb[a]);
            if p == Piece::Bishop || p == Piece::Rook || p == Piece::Queen {
                assert(clear(a, s.to, occ2));
                let beside = if s.kind is KingCastle {
                    h + 1
                } else {
                    h - 1
                };
                assert(occ2.contains(beside));
                if rank_of(a) == rank_of(s.to) {
                    assert(between(a, s.to, beside));
                } else {
                    assert forall|x: int| #[trigger] between(a, s.to, x) implies !occ.contains(
                        x,
                    ) by {
                        assert(!occ2.contains(x));
                        assert(rank_of(x) != rank_of(s.to));
                    }
                    assert(clear(a, s.to, occ));
                }
            }
            assert(attacker(mb, other, a, s.to, occ));
            assert(threatened(mb, other, s.to));
        }
    }
}

/// A capture en passant that keeps pins leaves the king safe, if some such capture does.
proof fn lemma_passant_safe(mb: Seq<Option<(Side, Piece)>>, stm: Side, s: Step)
    requires
        mb.len() == 64,
        movable(mb, stm, s),
        s.kind is EnPassant,
        pawn_reach(stm, s.from, s.to),
        passant_live(mb, stm, s.to),
        single_king(mb, stm),
        single_king(mb, stm.other()),
        has_king(mb, stm),
        has_king(mb, stm.other()),
        !in_check(mb, stm.other()),
        keeps_pin(mb, stm, s),
        forall|c: int| #[trigger]
            checker(mb, stm, c) ==> c == partner(s.to) || slides_along(
                piece_of(mb[c]),
                c,
                king_sq(mb, stm),
            ),
    ensures
        !in_check(applied(mb, s), stm),
{
    let after = applied(mb, s);
    let k = king_sq(mb, stm);
    let other = stm.other();
    let e = s.to;
    let occ = occupied(mb);
    let occ2 = occupied(after);
    let gone = partner(e);
    let t = choose|t: int| #[trigger] passant_taker(mb, stm, e, t);
    let occ3 = after_passant(mb, e, t);
    lemma_kings_after(mb, stm, s);
    lemma_kings_apart(mb, stm);
    assert(occ2 =~= after_passant(mb, e, s.from));
    assert forall|a: int| !attacker(after, other, a, k, occ2) by {
        if attacker(after, other, a, k, occ2) {
            lemma_attacker_before(mb, stm, s, a);
            let p = piece_of(mb[a]);
            if p == Piece::King {
            } else if p == Piece::Pawn || p == Piece::Knight {
                lemma_checker(mb, stm, a);
            } else {
                assert(slides_along(p, a, k) && clear(a, k, occ2));
                assert(occ2.contains(e));
                assert(!between(a, k, e));
                assert(clear(k, a, occ3) ==> slider_check(mb, stm, a, occ3));
                assert(!clear(k, a, occ3));
                let x = choose|x: int| #[trigger] between(k, a, x) && occ3.contains(x);
                lemma_between_symmetric(k, a, x);
                assert(!occ2.contains(x));
                assert(x == s.from);
                assert(t != s.from);
                lemma_between_symmetric(k, a, t);
                assert(occ2.contains(t));
                assert(!between(a, k, t));
                assert(between(a, k, s.from));
                if between(a, k, gone) {
                    assert(holds(mb, t, stm, Piece::Pawn));
                    assert(rank_of(t) == rank_of(gone) && rank_of(s.from) == rank_of(gone));
                    assert(t == a || t == k);
                } else {
                    assert forall|y: int| #[trigger] between(a, k, y) && y
                        != s.from implies mb[y] is None by {
                        assert(!occ2.contains(y));
                    }
                    assert(pins(mb, stm, a, s.from));
                    lemma_line_order(a, k, s.from, e);
                    assert(king_reach(s.from, e));
                    lemma_contact(s.from, e, a);
                    lemma_contact(s.from, e, k);
                }
            }
        }
    }
}

/// Generated moves are legal.
proof fn lemma_sound(st: BoardState, s: Step)
    requires
        st.kings(),
        fair(st),
        st.ep() matches Some(e) ==> passant_live(st.mb(), st.side_to_move, e),
        generated(st, s),
    ensures
        legal(st, s),
        !in_check(applied(st.mb(), s), st.side_to_move),
{
    let mb = st.mb();
    let stm = st.side_to_move;
    law_generated_movable(st, s);
    lemma_king_exists(mb, stm);
    if castling_step(mb, stm, st.castling_rights, s) {
        lemma_castling_safe(mb, stm, st.castling_rights, s);
    } else if king_step(mb, stm, s) {
        assert(king_moves(mb, stm, s));
        lemma_king_safe(mb, stm, s);
    } else if officer_step(mb, stm, s) {
        assert(officer_moves(mb, stm, s));
        lemma_officer_plain(mb, stm, s);
        lemma_plain_safe(mb, stm, s);
    } else {
        assert(pawn_moves(mb, stm, st.ep(), s));
        if s.kind is EnPassant {
            lemma_passant_safe(mb, stm, s);
        } else {
            lemma_pawn_plain(mb, stm, st.ep(), s);
            lemma_plain_safe(mb, stm, s);
        }
    }
}

proof fn lemma_officer_plain(mb: Seq<Option<(Side, Piece)>>, stm: Side, s: Step)
    requires
        movable(mb, stm, s),
        officer_moves(mb, stm, s),
    ensures
        plain(mb, stm, s),
{
    if piece_of(mb[s.from]) != Piece::Knight {
        assert(clear(s.from, s.to, occupied(mb)));
        assert forall|x: int| #[trigger] between(s.from, s.to, x) implies mb[x] is None by {
            assert(!occupied(mb).contains(x));
        }
    }
}

proof fn lemma_pawn_plain(
    mb: Seq<Option<(Side, Piece)>>,
    stm: Side,
    ep: Option<int>,
    s: Step,
)
    requires
        movable(mb, stm, s),
        pawn_moves(mb, stm, ep, s),
        s.kind !is EnPassant,
    ensures
        plain(mb, stm, s),
{
    assert forall|x: int| #[trigger] between(s.from, s.to, x) implies mb[x] is None by {
        if s.kind is DoublePawn {
            assert(x == s.from + forward(stm));
        } else {
            assert(king_reach(s.from, s.to));
            lemma_contact(s.from, s.to, x);
        }
    }
}

/// The step does not come between the piece on `a` and the king: a slider finds nothing
/// else in its way than what the step takes off the line, any other piece gives check.
spec fn stays_in_view(mb: Seq<Option<(Side, Piece)>>, stm: Side, s: Step, a: int) -> bool {
    let k = king_sq(mb, stm);
    if slides_along(piece_of(mb[a]), a, k) {
        &&& !between(a, k, s.to)
        &&& forall|x: int| #[trigger]
            between(a, k, x) && x != s.from ==> mb[x] is None || (s.kind is EnPassant && x
                == partner(s.to))
    } else {
        checker(mb, stm, a)
    }
}

/// A piece that stays in view of the king attacks it after the step.
proof fn lemma_still_attacks(
    mb: Seq<Option<(Side, Piece)>>,
    stm: Side,
    s: Step,
    a: int,
)
    requires
        mb.len() == 64,
        movable(mb, stm, s),
        single_king(mb, stm),
        single_king(mb, stm.other()),
        has_king(mb, stm),
        has_king(mb, stm.other()),
        piece_of(mb[s.from]) != Piece::King,
        owned(mb, stm.other(), a),
        a != s.to,
        s.kind is EnPassant ==> a != partner(s.to),
        piece_of(mb[a]) != Piece::King,
        stays_in_view(mb, stm, s, a),
    ensures
        in_check(applied(mb, s), stm),
{
    let after = applied(mb, s);
    let k = king_sq(mb, stm);
    let p = piece_of(mb[a]);
    lemma_kings_after(mb, stm, s);
    assert(after[a] == mb[a]);
    if slides_along(p, a, k) {
        assert forall|x: int| #[trigger] between(a, k, x) implies !occupied(after).contains(x) by {
            assert(x != s.to);
        }
        assert(clear(a, k, occupied(after)));
    }
    assert(attacker(after, stm.other(), a, k, occupied(after)));
}

/// A move that leaves the king safe answers every check.
proof fn lemma_must_evade(mb: Seq<Option<(Side, Piece)>>, stm: Side, s: Step, c: int)
    requires
        mb.len() == 64,
        movable(mb, stm, s),
        !s.kind.castling(),
        single_king(mb, stm),
        single_king(mb, stm.other()),
        has_king(mb, stm),
        has_king(mb, stm.other()),
        piece_of(mb[s.from]) != Piece::King,
        !in_check(applied(mb, s), stm),
        checker(mb, stm, c),
    ensures
        c == s.to || between(king_sq(mb, stm), c, s.to) || (s.kind is EnPassant && c == partner(
            s.to,
        )),
{
    let k = king_sq(mb, stm);
    if c != s.to && !between(k, c, s.to) && !(s.kind is EnPassant && c == partner(s.to)) {
        lemma_between_symmetric(k, c, s.to);
        if slides_along(piece_of(mb[c]), c, k) {
            assert(clear(c, k, occupied(mb)));
            assert forall|x: int| #[trigger] between(c, k, x) && x != s.from implies mb[x] is None by {
                assert(!occupied(mb).contains(x));
            }
        }
        lemma_still_attacks(mb, stm, s, c);
    }
}

/// A move that leaves the king safe keeps pins.
proof fn lemma_must_keep_pin(mb: Seq<Option<(Side, Piece)>>, stm: Side, s: Step)
    requires
        mb.len() == 64,
        movable(mb, stm, s),
        !s.kind.castling(),
        single_king(mb, stm),
        single_king(mb, stm.other()),
        has_king(mb, stm),
        has_king(mb, stm.other()),
        piece_of(mb[s.from]) != Piece::King,
        !in_check(applied(mb, s), stm),
    ensures
        keeps_pin(mb, stm, s),
{
    let k = king_sq(mb, stm);
    lemma_king_exists(mb, stm);
    if pinned(mb, stm, s.from) && !collinear(k, s.from, s.to) {
        let a = choose|a: int| #[trigger] pins(mb, stm, a, s.from);
        if between(a, k, s.to) || s.to == a {
            lemma_between_collinear(a, k, s.from, s.to);
        }
        lemma_still_attacks(mb, stm, s, a);
    }
}

/// Two checks cannot be answered by one piece.
proof fn lemma_one_check(mb: Seq<Option<(Side, Piece)>>, stm: Side, s: Step)
    requires
        mb.len() == 64,
        movable(mb, stm, s),
        !s.kind.castling(),
        s.kind is EnPassant ==> passed(mb, stm, s.to),
        single_king(mb, stm),
        single_king(mb, stm.other()),
        has_king(mb, stm),
        has_king(mb, stm.other()),
        piece_of(mb[s.from]) != Piece::King,
        !in_check(applied(mb, s), stm),
    ensures
        one_check(mb, stm),
        s.kind !is EnPassant ==> evades(mb, stm, s.to),
{
    let k = king_sq(mb, stm);
    let occ = occupied(mb);
    lemma_king_exists(mb, stm);
    assert forall|c: int, d: int| #[trigger]
        checker(mb, stm, c) && #[trigger] checker(mb, stm, d) implies c == d by {
        if c != d {
            lemma_must_evade(mb, stm, s, c);
            lemma_must_evade(mb, stm, s, d);
            lemma_checker_blocks(mb, stm, c, s.to);
            lemma_checker_blocks(mb, stm, d, s.to);
            lemma_checker_blocks(mb, stm, c, d);
            lemma_checker_blocks(mb, stm, d, c);
            assert(occ.contains(c) && occ.contains(d));
            if between(k, c, s.to) && between(k, d, s.to) {
                lemma_same_ray(k, c, d, s.to);
            }
        }
    }
    if s.kind !is EnPassant {
        assert forall|c: int| #[trigger] checker(mb, stm, c) implies s.to == c || between(
            k,
            c,
            s.to,
        ) by {
            lemma_must_evade(mb, stm, s, c);
        }
    }
}

/// Nothing stands between a checker and the king; and what is between them is between them
/// for a slider only.
proof fn lemma_checker_blocks(mb: Seq<Option<(Side, Piece)>>, stm: Side, c: int, x: int)
    requires
        checker(mb, stm, c),
        is_square(king_sq(mb, stm)),
    ensures
        between(king_sq(mb, stm), c, x) ==> !occupied(mb).contains(x) && slides_along(
            piece_of(mb[c]),
            c,
            king_sq(mb, stm),
        ),
{
    let k = king_sq(mb, stm);
    if between(k, c, x) {
        lemma_between_symmetric(k, c, x);
        if slides_along(piece_of(mb[c]), c, k) {
            assert(clear(c, k, occupied(mb)));
        } else {
            assert(knight_reach(c, k) || king_reach(c, k));
            lemma_contact(c, k, x);
        }
    }
}

/// Legal moves are generated.
proof fn lemma_complete(st: BoardState, s: Step)
    requires
        st.kings(),
        fair(st),
        st.ep() matches Some(e) ==> passant_live(st.mb(), st.side_to_move, e),
        legal(st, s),
    ensures
        generated(st, s),
{
    let mb = st.mb();
    let stm = st.side_to_move;
    law_generated_movable(st, s);
    lemma_king_exists(mb, stm);
    lemma_king_exists(mb, stm.other());
    if castling_step(mb, stm, st.castling_rights, s) {
        lemma_unchecked(mb, stm);
    } else if king_moves(mb, stm, s) {
        lemma_the_king(mb, stm, s.from);
        lemma_king_safe(mb, stm, s);
    } else {
        lemma_one_check(mb, stm, s);
        lemma_must_keep_pin(mb, stm, s);
        if officer_moves(mb, stm, s) {
            assert(piece_step(mb, stm, piece_of(mb[s.from]), s));
        }
    }
}

/// A king on a square that is not attacked is not in check.
pub proof fn lemma_unchecked(mb: Seq<Option<(Side, Piece)>>, stm: Side)
    requires
        !threatened(mb, stm.other(), king_sq(mb, stm)),
        is_square(king_sq(mb, stm)),
    ensures
        one_check(mb, stm),
{
    let k = king_sq(mb, stm);
    let occ = occupied(mb).remove(k);
    assert(stm.other().other() == stm);
    assert forall|c: int| !checker(mb, stm, c) by {
        if checker(mb, stm, c) {
            lemma_clear_same(c, k, occ, occupied(mb));
            assert(attacker(mb, stm.other(), c, k, occ));
        }
    }
}

/// Move generation is exact: in a fair position the generated moves are the legal ones.
pub proof fn law_generated_legal(st: BoardState, s: Step)
    requires
        st.kings(),
        fair(st),
        st.ep() matches Some(e) ==> passant_live(st.mb(), st.side_to_move, e),
    ensures
        generated(st, s) <==> legal(st, s),
{
    if generated(st, s) {
        lemma_sound(st, s);
    }
    if legal(st, s) {
        lemma_complete(st, s);
    }
}

/// A generated move leads from a fair position to a fair position: it never leaves its own
/// king in check.
pub proof fn law_fair_preserved(st: BoardState, s: Step, next: BoardState)
    requires
        st.kings(),
        fair(st),
        st.ep() matches Some(e) ==> passant_live(st.mb(), st.side_to_move, e),
        generated(st, s),
        next.mb() == applied(st.mb(), s),
        next.side_to_move == st.side_to_move.other(),
        next.ep() is Some ==> s.kind is DoublePawn && next.ep() == Some(partner(s.to)),
    ensures
        fair(next),
{
    let mb = st.mb();
    let stm = st.side_to_move;
    let after = next.mb();
    law_generated_movable(st, s);
    lemma_sound(st, s);
    lemma_kings_after(mb, stm, s);
    assert(stm.other().other() == stm);
    if let Some(e) = next.ep() {
        let q = king_sq(mb, stm.other());
        assert(partner(e) == s.to);
        assert forall|c: int| #[trigger] checker(after, stm.other(), c) implies c == partner(e)
            || slides_along(piece_of(after[c]), c, king_sq(after, stm.other())) by {
            if c != s.to && !slides_along(piece_of(after[c]), c, q) {
                assert(after[c] == mb[c]);
                assert(attacker(mb, stm, c, q, occupied(mb)));
            }
        }
    }
}

/// After a null move in a fair position where the side to move is not in check, the
/// position is fair again.
pub proof fn law_fair_null(st: BoardState, next: BoardState)
    requires
        fair(st),
        !in_check(st.mb(), st.side_to_move),
        next.mb() == st.mb(),
        next.side_to_move == st.side_to_move.other(),
        next.ep() is None,
    ensures
        fair(next),
{
    assert(st.side_to_move.other().other() == st.side_to_move);
}

} // verus!
