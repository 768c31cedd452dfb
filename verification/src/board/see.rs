//! Static exchange evaluation: who comes out ahead of the captures on one square.

use core::ops::Not;

use crate::attacks::{
    bishop_reach, collinear, king_reach, knight_reach, line_through, pawn_reach, rook_reach,
};
use crate::board::{Board, BoardState};
use crate::board::position::{king_sq, occupied, of_kind, owned, piece_of};
use crate::types::bitboard::BitBoard;
use crate::types::bits::{group_bits, is_square, lemma_bits_finite, lemma_lowest_bit};
use crate::types::moves::{Move, Step};
use crate::types::pieces::Piece;
use crate::types::sides::Side;
use crate::types::squares::{partner, Square};
use vstd::prelude::*;

verus! {

/// The worth of what a step gives up: the promoted piece, or else the moving piece.
pub open spec fn loss_of(mb: Seq<Option<(Side, Piece)>>, s: Step) -> int {
    match s.kind.promoted() {
        Some(piece) => piece.worth(),
        None => match mb[s.from] {
            Some((_, piece)) => piece.worth(),
            None => 0,
        },
    }
}

/// The worth of what a step takes, with the gain of a promotion that captures.
pub open spec fn gain_of(mb: Seq<Option<(Side, Piece)>>, s: Step) -> int {
    match mb[s.victim()] {
        Some((_, piece)) => piece.worth() + match s.kind.promoted() {
            Some(promoted) => promoted.worth() - Piece::Pawn.worth(),
            None => 0,
        },
        None => 0,
    }
}

/// The worth of what a capture takes, less that of the piece that takes it.
pub open spec fn trade_value(mb: Seq<Option<(Side, Piece)>>, s: Step) -> int {
    piece_of(mb[s.victim()]).worth() - piece_of(mb[s.from]).worth()
}

/// The piece on `a` bears on `t` when the squares in `occ` are taken. Pawns of either side
/// count on all four squares diagonally next to `t`.
pub open spec fn bears_on(
    mb: Seq<Option<(Side, Piece)>>,
    a: int,
    t: int,
    occ: Set<int>,
) -> bool {
    &&& is_square(a)
    &&& match mb[a] {
        None => false,
        Some((_, Piece::Pawn)) => pawn_reach(Side::White, t, a) || pawn_reach(Side::Black, t, a),
        Some((_, Piece::Knight)) => knight_reach(t, a),
        Some((_, Piece::Bishop)) => bishop_reach(t, a, occ),
        Some((_, Piece::Rook)) => rook_reach(t, a, occ),
        Some((_, Piece::Queen)) => bishop_reach(t, a, occ) || rook_reach(t, a, occ),
        Some((_, Piece::King)) => king_reach(t, a),
    }
}

/// A slider that moves like a bishop stands on `a` and sees `t`.
pub open spec fn diagonal_view(
    mb: Seq<Option<(Side, Piece)>>,
    a: int,
    t: int,
    occ: Set<int>,
) -> bool {
    (of_kind(mb, Piece::Bishop, a) || of_kind(mb, Piece::Queen, a)) && bishop_reach(t, a, occ)
}

/// A slider that moves like a rook stands on `a` and sees `t`.
pub open spec fn straight_view(
    mb: Seq<Option<(Side, Piece)>>,
    a: int,
    t: int,
    occ: Set<int>,
) -> bool {
    (of_kind(mb, Piece::Rook, a) || of_kind(mb, Piece::Queen, a)) && rook_reach(t, a, occ)
}

/// The attackers that `side` may use: its own, without pinned pieces that would leave the
/// line of `t` and their king.
pub open spec fn usable(st: BoardState, t: int, attackers: Set<int>, side: Side) -> Set<int> {
    Set::new(
        |a: int|
            attackers.contains(a) && owned(st.mb(), side, a) && (st.pinned_bb(side).has(a) ==> t
                != king_sq(st.mb(), side) && collinear(t, king_sq(st.mb(), side), a)),
    )
}

/// The squares in `set` that hold a piece of the given kind.
pub open spec fn of_kind_in(mb: Seq<Option<(Side, Piece)>>, set: Set<int>, piece: Piece) -> Set<
    int,
> {
    Set::new(|a: int| set.contains(a) && of_kind(mb, piece, a))
}

/// The cheapest kind among the pieces on the squares in `set`, in the order of the kinds.
pub open spec fn cheapest(mb: Seq<Option<(Side, Piece)>>, set: Set<int>) -> Piece {
    if !(of_kind_in(mb, set, Piece::Pawn) =~= Set::empty()) {
        Piece::Pawn
    } else if !(of_kind_in(mb, set, Piece::Knight) =~= Set::empty()) {
        Piece::Knight
    } else if !(of_kind_in(mb, set, Piece::Bishop) =~= Set::empty()) {
        Piece::Bishop
    } else if !(of_kind_in(mb, set, Piece::Rook) =~= Set::empty()) {
        Piece::Rook
    } else if !(of_kind_in(mb, set, Piece::Queen) =~= Set::empty()) {
        Piece::Queen
    } else {
        Piece::King
    }
}

/// The lowest number in `set`.
pub open spec fn lowest(set: Set<int>) -> int {
    choose|a: int| set.contains(a) && forall|b: int| #[trigger] set.contains(b) ==> a <= b
}

/// The attackers once the piece of kind `piece` has left the board: what stood behind it
/// comes into view.
pub open spec fn uncovered(
    mb: Seq<Option<(Side, Piece)>>,
    t: int,
    attackers: Set<int>,
    occ: Set<int>,
    piece: Piece,
) -> Set<int> {
    Set::new(
        |a: int|
            occ.contains(a) && {
                ||| attackers.contains(a)
                ||| (piece == Piece::Bishop || piece == Piece::Queen || piece == Piece::Pawn)
                    && diagonal_view(mb, a, t, occ)
                ||| (piece == Piece::Rook || piece == Piece::Queen) && straight_view(mb, a, t, occ)
            },
    )
}

/// The side that has to stop capturing on `t`: it has no attacker left that it may use, or
/// only its king and the square is defended, or the balance is already against it.
pub open spec fn exchange(
    st: BoardState,
    t: int,
    attackers: Set<int>,
    occ: Set<int>,
    side: Side,
    balance: int,
) -> Side
    decreases occ.len(),
    when occ.finite() && attackers.subset_of(occ)
{
    let mb = st.mb();
    let ours = usable(st, t, attackers, side);
    let piece = cheapest(mb, ours);
    let a = lowest(of_kind_in(mb, ours, piece));
    let defended = exists|b: int| #[trigger]
        attackers.contains(b) && owned(mb, side.other(), b);
    if ours =~= Set::empty() {
        side
    } else if piece == Piece::King && defended {
        side
    } else if !occ.contains(a) {
        side
    } else {
        let left = -balance - 1 - piece.worth();
        if left >= 0 {
            side.other()
        } else {
            let taken = occ.remove(a);
            exchange(st, t, uncovered(mb, t, attackers, taken, piece), taken, side.other(), left)
        }
    }
}

/// The squares taken once the moving piece, and a pawn taken en passant, have left.
pub open spec fn cleared(mb: Seq<Option<(Side, Piece)>>, s: Step) -> Set<int> {
    if s.kind is EnPassant {
        occupied(mb).remove(s.from).remove(partner(s.to))
    } else {
        occupied(mb).remove(s.from)
    }
}

/// The step wins at least `threshold`, if both sides capture on its target with their
/// cheapest piece for as long as that does not lose.
pub open spec fn wins_exchange(st: BoardState, s: Step, threshold: int) -> bool {
    let mb = st.mb();
    let before = gain_of(mb, s) - threshold;
    let balance = before - loss_of(mb, s);
    if s.kind.promoted() is Some && !s.kind.capturing() {
        true
    } else if before < 0 {
        false
    } else if balance >= 0 {
        true
    } else {
        let occ = cleared(mb, s);
        let attackers = Set::new(|a: int| occ.contains(a) && bears_on(mb, a, s.to, occ));
        exchange(st, s.to, attackers, occ, st.side_to_move.other(), balance) != st.side_to_move
    }
}

/// A side that has to stop still has to when the balance is better for its opponent.
proof fn lemma_exchange_monotone(
    st: BoardState,
    t: int,
    attackers: Set<int>,
    occ: Set<int>,
    side: Side,
    low: int,
    high: int,
)
    requires
        occ.finite(),
        attackers.subset_of(occ),
        low <= high,
        exchange(st, t, attackers, occ, side, low) == side,
    ensures
        exchange(st, t, attackers, occ, side, high) == side,
    decreases occ.len(),
{
    let mb = st.mb();
    let ours = usable(st, t, attackers, side);
    let piece = cheapest(mb, ours);
    let a = lowest(of_kind_in(mb, ours, piece));
    let defended = exists|b: int| #[trigger]
        attackers.contains(b) && owned(mb, side.other(), b);
    if !(ours =~= Set::empty()) && !(piece == Piece::King && defended) && occ.contains(a) {
        let rest = occ.remove(a);
        let next = uncovered(mb, t, attackers, rest, piece);
        let l = -low - 1 - piece.worth();
        let h = -high - 1 - piece.worth();
        if h < 0 && exchange(st, t, next, rest, side.other(), h) == side.other() {
            lemma_exchange_monotone(st, t, next, rest, side.other(), h, l);
        }
    }
}

/// A step that wins at least an amount also wins at least any smaller amount.
pub proof fn law_exchange_monotone(st: BoardState, s: Step, low: int, high: int)
    requires
        low <= high,
        wins_exchange(st, s, high),
    ensures
        wins_exchange(st, s, low),
{
    let mb = st.mb();
    let occ = cleared(mb, s);
    let attackers = Set::new(|a: int| occ.contains(a) && bears_on(mb, a, s.to, occ));
    let stm = st.side_to_move;
    let balance = gain_of(mb, s) - high - loss_of(mb, s);
    assert(occ.finite()) by {
        let squares = vstd::set_lib::set_int_range(0, 64);
        vstd::set_lib::lemma_int_range(0, 64);
        assert(occ.subset_of(squares));
        vstd::set_lib::lemma_len_subset(occ, squares);
    }
    if balance < 0 && gain_of(mb, s) - low - loss_of(mb, s) < 0 && exchange(
        st,
        s.to,
        attackers,
        occ,
        stm.other(),
        balance,
    ) == stm.other() {
        lemma_exchange_monotone(
            st,
            s.to,
            attackers,
            occ,
            stm.other(),
            balance,
            gain_of(mb, s) - low - loss_of(mb, s),
        );
    }
}

impl Board {
    pub fn move_loss(&self, m: Move) -> (res: i32)
        ensures
            res == loss_of(self.state.mb(), m@),
    {
        match m.get_promoted_piece() {
            Some(piece) => piece.value(),
            None => match self.get_piece_at_square(m.get_from()) {
                Some((_, piece)) => piece.value(),
                None => 0,
            },
        }
    }

    pub fn move_value(&self, m: Move) -> (res: i32)
        ensures
            res == gain_of(self.state.mb(), m@),
    {
        match self.get_piece_at_square(m.get_capture_square()) {
            Some((_, piece)) => {
                let mut value: i32 = piece.value();
                if let Some(promotion_piece) = m.get_promoted_piece() {
                    value = value + promotion_piece.value() - Piece::Pawn.value();
                }
                value
            },
            None => 0,
        }
    }

    /// The worth of the victim less the worth of the attacker.
    pub fn capture_move_value(&self, mv: Move) -> (res: i32)
        requires
            self.state.mb()[mv@.from] is Some,
            self.state.mb()[mv@.victim()] is Some,
        ensures
            res == trade_value(self.state.mb(), mv@),
    {
        let attacker: i32 = match self.get_piece_at_square(mv.get_from()) {
            Some((_, piece)) => piece.value(),
            None => 0,
        };
        let victim: i32 = match self.get_piece_at_square(mv.get_capture_square()) {
            Some((_, piece)) => piece.value(),
            None => 0,
        };
        victim - attacker
    }

    /// The cheapest kind among the pieces on `attackers`.
    pub fn least_valuable_attacker(&self, attackers: BitBoard) -> (res: Piece)
        requires
            self.state.consistent(),
            attackers.squares().subset_of(occupied(self.state.mb())),
            attackers.0 != 0,
        ensures
            res == cheapest(self.state.mb(), attackers.squares()),
            exists|a: int| attackers.has(a) && of_kind(self.state.mb(), res, a),
    {
        let ghost mb = self.state.mb();
        if self.any_of_kind(attackers, Piece::Pawn) {
            return Piece::Pawn;
        }
        if self.any_of_kind(attackers, Piece::Knight) {
            return Piece::Knight;
        }
        if self.any_of_kind(attackers, Piece::Bishop) {
            return Piece::Bishop;
        }
        if self.any_of_kind(attackers, Piece::Rook) {
            return Piece::Rook;
        }
        if self.any_of_kind(attackers, Piece::Queen) {
            return Piece::Queen;
        }
        proof {
            lemma_lowest_bit(attackers.0);
            let a = vstd::std_specs::bits::u64_trailing_zeros(attackers.0) as int;
            assert(attackers.squares().contains(a));
            assert(occupied(mb).contains(a));
            let p = piece_of(mb[a]);
            assert(of_kind(mb, p, a));
            assert(of_kind_in(mb, attackers.squares(), p).contains(a));
        }
        Piece::King
    }

    fn any_of_kind(&self, attackers: BitBoard, piece: Piece) -> (res: bool)
        requires
            self.state.consistent(),
        ensures
            res <==> !(of_kind_in(self.state.mb(), attackers.squares(), piece) =~= Set::empty()),
            res ==> exists|a: int| attackers.has(a) && of_kind(self.state.mb(), piece, a),
    {
        let kind = self.state.pieces[piece as usize];
        let common = attackers & kind;
        proof {
            broadcast use group_bits;

            let mb = self.state.mb();
            let set = of_kind_in(mb, attackers.squares(), piece);
            assert(kind == self.state.kind_bb(piece));
            lemma_lowest_bit(common.0);
            if common.0 != 0 {
                let a = vstd::std_specs::bits::u64_trailing_zeros(common.0) as int;
                assert(self.state.kind_bb(piece).has(a) <==> of_kind(mb, piece, a));
                assert(set.contains(a));
                assert(attackers.has(a) && of_kind(mb, piece, a));
            } else {
                assert forall|a: int| !set.contains(a) by {
                    if set.contains(a) {
                        assert(self.state.kind_bb(piece).has(a) <==> of_kind(mb, piece, a));
                        assert(common.has(a));
                    }
                }
            }
        }
        common.0 != 0
    }

    /// The pieces that bear on a square when the squares of `occupancies` are taken.
    pub fn attackers_to(&self, square: Square, occupancies: BitBoard) -> (res: BitBoard)
        requires
            self.state.consistent(),
        ensures
            forall|a: int| #[trigger]
                res.has(a) <==> bears_on(
                    self.state.mb(),
                    a,
                    square.idx(),
                    occupancies.squares(),
                ),
    {
        let diagonals = self.state.pieces[Piece::Bishop as usize]
            | self.state.pieces[Piece::Queen as usize];
        let orthogonals = self.state.pieces[Piece::Rook as usize]
            | self.state.pieces[Piece::Queen as usize];
        let pawns = self.state.pieces[Piece::Pawn as usize];
        let knights = self.state.pieces[Piece::Knight as usize];
        let kings = self.state.pieces[Piece::King as usize];
        let res = (self.get_bishop_attacks(square, occupancies) & diagonals) | (
        self.get_rook_attacks(square, occupancies) & orthogonals) | (self.get_pawn_attacks(
            square,
            Side::White,
        ) & pawns) | (self.get_pawn_attacks(square, Side::Black) & pawns) | (
        self.get_knight_attacks(square) & knights) | (self.get_king_attacks(square) & kings);
        proof {
            let mb = self.state.mb();
            let st = self.state;
            assert forall|a: int| #[trigger] res.has(a) <==> bears_on(
                mb,
                a,
                square.idx(),
                occupancies.squares(),
            ) by {
                broadcast use group_bits;

                assert(st.kind_bb(Piece::Pawn).has(a) <==> of_kind(mb, Piece::Pawn, a));
                assert(st.kind_bb(Piece::Knight).has(a) <==> of_kind(mb, Piece::Knight, a));
                assert(st.kind_bb(Piece::Bishop).has(a) <==> of_kind(mb, Piece::Bishop, a));
                assert(st.kind_bb(Piece::Rook).has(a) <==> of_kind(mb, Piece::Rook, a));
                assert(st.kind_bb(Piece::Queen).has(a) <==> of_kind(mb, Piece::Queen, a));
                assert(st.kind_bb(Piece::King).has(a) <==> of_kind(mb, Piece::King, a));
            }
        }
        res
    }
}

proof fn lemma_lowest(set: Set<int>, a: int)
    requires
        set.contains(a),
        forall|b: int| #[trigger] set.contains(b) ==> a <= b,
    ensures
        lowest(set) == a,
{
    let c = lowest(set);
    assert(set.contains(c) && forall|b: int| #[trigger] set.contains(b) ==> c <= b);
}

impl Board {
    /// Whether a move wins at least `threshold` on its target square.
    pub fn see(&self, m: Move, threshold: i32) -> (res: bool)
        requires
            self.state.consistent(),
            self.state.kings(),
            i32::MIN <= gain_of(self.state.mb(), m@) - threshold <= i32::MAX,
        ensures
            res == wins_exchange(self.state, m@, threshold as int),
    {
        if m.is_promotion() && !m.is_capture() {
            return true;
        }
        let mut balance: i32 = self.move_value(m) - threshold;
        if balance < 0 {
            return false;
        }
        balance = balance - self.move_loss(m);
        if balance >= 0 {
            return true;
        }
        let to = m.get_to();
        let mut occupancies = self.get_all_occupancy();
        occupancies.clear_bit(m.get_from());
        if m.is_en_passant() {
            occupancies.clear_bit(to.across());
        }
        let first = self.attackers_to(to, occupancies);
        let attackers = first & occupancies;
        proof {
            broadcast use group_bits;

            let mb = self.state.mb();
            let occ = cleared(mb, m@);
            assert(occupancies.squares() =~= occ) by {
                assert forall|i: int| occupancies.squares().contains(i) <==> occ.contains(i) by {
                    assert(occupancies.squares().contains(i) <==> occupancies.has(i));
                }
            }
            assert(attackers.squares() =~= Set::new(
                |a: int| occ.contains(a) && bears_on(mb, a, m@.to, occ),
            )) by {
                assert forall|a: int| attackers.squares().contains(a) <==> (occ.contains(a)
                    && bears_on(mb, a, m@.to, occ)) by {
                    assert(attackers.squares().contains(a) <==> attackers.has(a));
                    assert(occupancies.squares().contains(a) <==> occupancies.has(a));
                }
            }
        }
        let loser = self.exchange_loser(
            to,
            attackers,
            occupancies,
            self.state.side_to_move.other(),
            balance,
        );
        loser != self.state.side_to_move
    }

    /// Plays out the captures on `to` and gives the side that has to stop.
    fn exchange_loser(
        &self,
        to: Square,
        first_attackers: BitBoard,
        first_occupancies: BitBoard,
        first_side: Side,
        first_balance: i32,
    ) -> (res: Side)
        requires
            self.state.consistent(),
            self.state.kings(),
            first_attackers.squares().subset_of(first_occupancies.squares()),
            first_occupancies.squares().subset_of(occupied(self.state.mb())),
            -900 <= first_balance < 0,
        ensures
            res == exchange(
                self.state,
                to.idx(),
                first_attackers.squares(),
                first_occupancies.squares(),
                first_side,
                first_balance as int,
            ),
    {
        let ghost mb = self.state.mb();
        let ghost st = self.state;
        let ghost t = to.idx();
        let white_line = line_through(to, self.get_king_square(Side::White));
        let black_line = line_through(to, self.get_king_square(Side::Black));
        let diagonals = self.state.pieces[Piece::Bishop as usize]
            | self.state.pieces[Piece::Queen as usize];
        let orthogonals = self.state.pieces[Piece::Rook as usize]
            | self.state.pieces[Piece::Queen as usize];
        let mut attackers = first_attackers;
        let mut occupancies = first_occupancies;
        let mut stm = first_side;
        let mut balance: i32 = first_balance;
        proof {
            broadcast use group_bits;

            assert forall|a: int| #[trigger] diagonals.has(a) <==> of_kind(mb, Piece::Bishop, a)
                || of_kind(mb, Piece::Queen, a) by {
                assert(st.kind_bb(Piece::Bishop).has(a) <==> of_kind(mb, Piece::Bishop, a));
                assert(st.kind_bb(Piece::Queen).has(a) <==> of_kind(mb, Piece::Queen, a));
            }
            assert forall|a: int| #[trigger] orthogonals.has(a) <==> of_kind(mb, Piece::Rook, a)
                || of_kind(mb, Piece::Queen, a) by {
                assert(st.kind_bb(Piece::Rook).has(a) <==> of_kind(mb, Piece::Rook, a));
                assert(st.kind_bb(Piece::Queen).has(a) <==> of_kind(mb, Piece::Queen, a));
            }
        }
        loop
            invariant
                self.state.consistent(),
                mb == self.state.mb(),
                st == self.state,
                t == to.idx(),
                forall|x: int| #[trigger]
                    white_line.has(x) <==> is_square(x) && t != king_sq(mb, Side::White)
                        && collinear(t, king_sq(mb, Side::White), x),
                forall|x: int| #[trigger]
                    black_line.has(x) <==> is_square(x) && t != king_sq(mb, Side::Black)
                        && collinear(t, king_sq(mb, Side::Black), x),
                forall|a: int| #[trigger]
                    diagonals.has(a) <==> of_kind(mb, Piece::Bishop, a) || of_kind(
                        mb,
                        Piece::Queen,
                        a,
                    ),
                forall|a: int| #[trigger]
                    orthogonals.has(a) <==> of_kind(mb, Piece::Rook, a) || of_kind(
                        mb,
                        Piece::Queen,
                        a,
                    ),
                attackers.squares().subset_of(occupancies.squares()),
                occupancies.squares().subset_of(occupied(mb)),
                -900 <= balance < 0,
                exchange(
                    st,
                    t,
                    attackers.squares(),
                    occupancies.squares(),
                    stm,
                    balance as int,
                ) == exchange(
                    st,
                    t,
                    first_attackers.squares(),
                    first_occupancies.squares(),
                    first_side,
                    first_balance as int,
                ),
            decreases occupancies.0,
        {
            let own = self.state.occupancies[stm as usize];
            let enemies = self.state.occupancies[stm.other() as usize];
            let pinned_bb = self.state.pinned[stm as usize];
            let line = match stm {
                Side::White => white_line,
                Side::Black => black_line,
            };
            let our_attackers = attackers & own & (pinned_bb & line.not()).not();
            let defenders = attackers & enemies;
            let ghost ours = usable(st, t, attackers.squares(), stm);
            proof {
                broadcast use group_bits;

                lemma_bits_finite(occupancies.0);
                assert(own == st.side_bb(stm));
                assert(enemies == st.side_bb(stm.other()));
                assert(pinned_bb == st.pinned_bb(stm));
                assert(our_attackers.squares() =~= ours) by {
                    assert forall|a: int| our_attackers.squares().contains(a) <==> ours.contains(
                        a,
                    ) by {
                        assert(our_attackers.squares().contains(a) <==> our_attackers.has(a));
                        assert(attackers.squares().contains(a) <==> attackers.has(a));
                        assert(st.side_bb(stm).has(a) <==> owned(mb, stm, a));
                    }
                }
                lemma_lowest_bit(our_attackers.0);
                lemma_lowest_bit(defenders.0);
                if our_attackers.0 == 0 {
                    assert(ours =~= Set::empty());
                } else {
                    let a = vstd::std_specs::bits::u64_trailing_zeros(our_attackers.0) as int;
                    assert(our_attackers.squares().contains(a));
                    assert(ours.contains(a));
                }
                if defenders.0 != 0 {
                    let b = vstd::std_specs::bits::u64_trailing_zeros(defenders.0) as int;
                    assert(st.side_bb(stm.other()).has(b) <==> owned(mb, stm.other(), b));
                    assert(attackers.squares().contains(b) && owned(mb, stm.other(), b));
                } else {
                    assert forall|b: int| #[trigger]
                        attackers.squares().contains(b) implies !owned(mb, stm.other(), b) by {
                        assert(st.side_bb(stm.other()).has(b) <==> owned(mb, stm.other(), b));
                        assert(!defenders.has(b));
                    }
                }
            }
            if our_attackers.is_empty() {
                return stm;
            }
            let attacker = self.least_valuable_attacker(our_attackers);
            if attacker == Piece::King && !defenders.is_empty() {
                return stm;
            }
            let kind = self.state.pieces[attacker as usize];
            let candidates = kind & our_attackers;
            proof {
                broadcast use group_bits;

                assert(kind == st.kind_bb(attacker));
                assert forall|a: int| #[trigger] candidates.has(a) <==> of_kind_in(
                    mb,
                    ours,
                    attacker,
                ).contains(a) by {
                    assert(st.kind_bb(attacker).has(a) <==> of_kind(mb, attacker, a));
                    assert(our_attackers.squares().contains(a) <==> our_attackers.has(a));
                }
                let w = choose|a: int| our_attackers.has(a) && of_kind(mb, attacker, a);
                assert(our_attackers.squares().contains(w));
                assert(candidates.has(w));
            }
            match candidates.least_sig_bit() {
                None => {
                    return stm;
                },
                Some(square) => {
                    let ghost before = occupancies;
                    let ghost a = square.idx();
                    proof {
                        broadcast use group_bits;

                        let set = of_kind_in(mb, ours, attacker);
                        assert(candidates.has(a));
                        assert forall|b: int| #[trigger] set.contains(b) implies a <= b by {
                            assert(candidates.has(b));
                        }
                        lemma_lowest(set, a);
                        assert(our_attackers.has(a));
                        assert(attackers.has(a));
                        assert(attackers.squares().contains(a));
                        assert(occupancies.squares().contains(a));
                    }
                    occupancies.clear_bit(square);
                    balance = -balance - 1 - attacker.value();
                    if balance >= 0 {
                        return stm.other();
                    }
                    let mut seen = attackers;
                    if matches!(attacker, Piece::Bishop | Piece::Queen | Piece::Pawn) {
                        seen = seen | (self.get_bishop_attacks(to, occupancies) & diagonals);
                    }
                    if matches!(attacker, Piece::Rook | Piece::Queen) {
                        seen = seen | (self.get_rook_attacks(to, occupancies) & orthogonals);
                    }
                    let ghost previous = attackers;
                    attackers = seen & occupancies;
                    proof {
                        broadcast use group_bits;

                        let taken = before.squares().remove(a);
                        assert(occupancies.squares() =~= taken) by {
                            assert forall|i: int| occupancies.squares().contains(i)
                                <==> taken.contains(i) by {
                                assert(occupancies.squares().contains(i) <==> occupancies.has(i));
                                assert(before.squares().contains(i) <==> before.has(i));
                            }
                        }
                        let next = uncovered(mb, t, previous.squares(), taken, attacker);
                        assert(attackers.squares() =~= next) by {
                            assert forall|i: int| attackers.squares().contains(i)
                                <==> next.contains(i) by {
                                assert(attackers.squares().contains(i) <==> attackers.has(i));
                                assert(occupancies.squares().contains(i) <==> occupancies.has(i));
                                assert(previous.squares().contains(i) <==> previous.has(i));
                            }
                        }
                        assert(occupancies.0 < before.0);
                    }
                    stm = stm.other();
                },
            }
        }
    }
}

} // verus!
