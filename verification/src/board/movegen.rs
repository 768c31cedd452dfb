//! Move generation.

use core::ops::Not;

use crate::attacks::{
    between, between_squares, clear, collinear, king_reach, line_through, pawn_reach, reach, walk,
};
use crate::board::{Board, BoardState};
use crate::board::makemove::{
    forward, king_home, king_rook_home, passed, pawn_home, queen_rook_home,
};
use crate::board::position::{
    checker, holds, king_sq, occupied, owned, pinned, threatened, Position,
};
use crate::types::bitboard::BitBoard;
use crate::types::bits::{
    file_of, group_bits, is_square, lemma_bit_regions, lemma_bits_finite, lemma_lowest_bit, rank_of,
};
use crate::types::constants::{
    A, H, B_FILE, EAST, NORTH, RANK_1, RANK_4, RANK_5, RANK_8, SOUTH, WK_SIDE, WQ_SIDE,
};
use crate::types::moves::{
    added, ascending, by_squares, by_target, extends, law_ascending_once, lemma_added_join,
    lemma_added_none, lemma_added_push, lemma_ascending_join, lemma_ascending_push,
    lemma_ascending_shift, Move, MoveKind, MoveList, Step,
};
use crate::types::pieces::Piece;
use crate::types::sides::{Castling, CastlingRights, Side};
use crate::types::squares::Square;
use vstd::prelude::*;

verus! {

/// Which moves to generate.
#[derive(Clone, Copy, Debug, PartialEq, Eq, Structural)]
pub enum MoveGenKind {
    All,
    Quiet,
    Noisy,
    Captures,
    NonCapturePromotions,
}

impl MoveGenKind {
    pub open spec fn quiet(self) -> bool {
        self is Quiet || self is All
    }

    pub open spec fn noisy(self) -> bool {
        self !is Quiet
    }

    /// Moves of kind `k` are asked for.
    pub open spec fn wants(self, k: MoveKind) -> bool {
        if k.quiet() {
            self.quiet()
        } else {
            self.noisy()
        }
    }

    pub fn is_quiet(&self) -> (res: bool)
        ensures
            res == self.quiet(),
    {
        matches!(self, MoveGenKind::Quiet | MoveGenKind::All)
    }

    pub fn is_noisy(&self) -> (res: bool)
        ensures
            res == self.noisy(),
    {
        matches!(
            self,
            MoveGenKind::Noisy | MoveGenKind::Captures | MoveGenKind::NonCapturePromotions
                | MoveGenKind::All
        )
    }
}

/// A piece that goes to `t` answers every check: it takes the checker or steps between.
pub open spec fn evades(mb: Seq<Option<(Side, Piece)>>, stm: Side, t: int) -> bool {
    forall|c: int| #[trigger]
        checker(mb, stm, c) ==> t == c || between(king_sq(mb, stm), c, t)
}

/// No two pieces give check.
pub open spec fn one_check(mb: Seq<Option<(Side, Piece)>>, stm: Side) -> bool {
    forall|c: int, d: int| #[trigger] checker(mb, stm, c) && #[trigger] checker(mb, stm, d) ==> c
        == d
}

/// A pinned piece stays on the line of its pin.
pub open spec fn keeps_pin(mb: Seq<Option<(Side, Piece)>>, stm: Side, s: Step) -> bool {
    pinned(mb, stm, s.from) ==> collinear(king_sq(mb, stm), s.from, s.to)
}

/// A knight, bishop, rook or queen goes where it can.
pub open spec fn piece_step(
    mb: Seq<Option<(Side, Piece)>>,
    stm: Side,
    piece: Piece,
    s: Step,
) -> bool {
    &&& holds(mb, s.from, stm, piece)
    &&& reach(piece, stm, s.from, s.to, occupied(mb))
    &&& is_square(s.to)
    &&& {
        ||| s.kind is Capture && owned(mb, stm.other(), s.to)
        ||| s.kind is QuietMove && mb[s.to] is None
    }
    &&& evades(mb, stm, s.to)
    &&& keeps_pin(mb, stm, s)
}

/// The king goes to a square that is not attacked.
pub open spec fn king_step(mb: Seq<Option<(Side, Piece)>>, stm: Side, s: Step) -> bool {
    &&& s.from == king_sq(mb, stm)
    &&& king_reach(s.from, s.to)
    &&& {
        ||| s.kind is Capture && owned(mb, stm.other(), s.to)
        ||| s.kind is QuietMove && mb[s.to] is None
    }
    &&& !threatened(mb, stm.other(), s.to)
}

/// The rank on which pawns of a side promote.
pub open spec fn last_rank(side: Side) -> int {
    match side {
        Side::White => 7,
        Side::Black => 0,
    }
}

/// A pawn moves, captures or promotes.
pub open spec fn pawn_step(
    mb: Seq<Option<(Side, Piece)>>,
    stm: Side,
    ep: Option<int>,
    s: Step,
) -> bool {
    let promotes = rank_of(s.to) == last_rank(stm);
    &&& holds(mb, s.from, stm, Piece::Pawn)
    &&& is_square(s.to)
    &&& keeps_pin(mb, stm, s)
    &&& match s.kind {
        MoveKind::QuietMove => s.to == s.from + forward(stm) && mb[s.to] is None && !promotes
            && evades(mb, stm, s.to),
        MoveKind::DoublePawn => {
            &&& rank_of(s.from) == pawn_home(stm)
            &&& s.to == s.from + 2 * forward(stm)
            &&& mb[s.from + forward(stm)] is None
            &&& mb[s.to] is None
            &&& evades(mb, stm, s.to)
        },
        MoveKind::NPromotion
        | MoveKind::BPromotion
        | MoveKind::RPromotion
        | MoveKind::QPromotion => s.to == s.from + forward(stm) && mb[s.to] is None && promotes
            && evades(mb, stm, s.to),
        MoveKind::Capture => pawn_reach(stm, s.from, s.to) && owned(mb, stm.other(), s.to)
            && !promotes && evades(mb, stm, s.to),
        MoveKind::NPromCapture
        | MoveKind::BPromCapture
        | MoveKind::RPromCapture
        | MoveKind::QPromCapture => pawn_reach(stm, s.from, s.to) && owned(mb, stm.other(), s.to)
            && promotes && evades(mb, stm, s.to),
        MoveKind::EnPassant => pawn_reach(stm, s.from, s.to) && ep == Some(s.to),
        _ => false,
    }
}

/// Castling is possible: the right is held, king and rook are at home, nothing stands
/// between them, and the king neither is, passes nor ends in check.
pub open spec fn castling_step(
    mb: Seq<Option<(Side, Piece)>>,
    stm: Side,
    rights: CastlingRights,
    s: Step,
) -> bool {
    let h = king_home(stm);
    &&& s.from == h
    &&& king_sq(mb, stm) == h
    &&& !threatened(mb, stm.other(), h)
    &&& match s.kind {
        MoveKind::KingCastle => {
            &&& rights.holds(Castling::king_side(stm))
            &&& s.to == h + 2
            &&& holds(mb, king_rook_home(stm), stm, Piece::Rook)
            &&& mb[h + 1] is None && mb[h + 2] is None
            &&& !threatened(mb, stm.other(), h + 1) && !threatened(mb, stm.other(), h + 2)
        },
        MoveKind::QueenCastle => {
            &&& rights.holds(Castling::queen_side(stm))
            &&& s.to == h - 2
            &&& holds(mb, queen_rook_home(stm), stm, Piece::Rook)
            &&& mb[h - 1] is None && mb[h - 2] is None && mb[h - 3] is None
            &&& !threatened(mb, stm.other(), h - 1) && !threatened(mb, stm.other(), h - 2)
        },
        _ => false,
    }
}

/// What the pieces other than king and pawns may do.
pub open spec fn officer_step(mb: Seq<Option<(Side, Piece)>>, stm: Side, s: Step) -> bool {
    ||| piece_step(mb, stm, Piece::Knight, s)
    ||| piece_step(mb, stm, Piece::Bishop, s)
    ||| piece_step(mb, stm, Piece::Rook, s)
    ||| piece_step(mb, stm, Piece::Queen, s)
}

/// The moves of a position.
pub open spec fn moves_in(pos: Position, s: Step) -> bool {
    let mb = pos.mb;
    let stm = pos.stm;
    ||| king_step(mb, stm, s)
    ||| one_check(mb, stm) && (pawn_step(mb, stm, pos.ep, s) || officer_step(mb, stm, s)
        || castling_step(mb, stm, pos.rights, s))
}

/// The moves that generation gives.
pub open spec fn generated(st: BoardState, s: Step) -> bool {
    moves_in(st.position(), s)
}

/// The section of a list of moves to which a move belongs: the king's quiet moves and captures,
/// the pawns' pushes, promotions and captures, the captures and the quiet moves of knights,
/// bishops, rooks and queens, and castling.
pub open spec fn section(mb: Seq<Option<(Side, Piece)>>, stm: Side, s: Step) -> int {
    let left = s.to == s.from + pawn_offset(stm, true);
    let quiet: int = if s.kind.quiet() {
        1
    } else {
        0
    };
    match mb[s.from] {
        Some((_, Piece::King)) => match s.kind {
            MoveKind::QuietMove => 0,
            MoveKind::Capture => 1,
            MoveKind::KingCastle => 19,
            _ => 20,
        },
        Some((_, Piece::Pawn)) => match s.kind {
            MoveKind::QuietMove => 2,
            MoveKind::DoublePawn => 3,
            MoveKind::EnPassant => if left {
                9
            } else {
                10
            },
            MoveKind::Capture => if left {
                6
            } else {
                8
            },
            _ => if !s.kind.capturing() {
                4
            } else if left {
                5
            } else {
                7
            },
        },
        Some((_, Piece::Knight)) => 11 + quiet,
        Some((_, Piece::Bishop)) => 13 + quiet,
        Some((_, Piece::Rook)) => 15 + quiet,
        Some((_, Piece::Queen)) => 17 + quiet,
        None => 0,
    }
}

/// Where a move stands in its section: moves of king and pawns by their target, those of the
/// other pieces by their start and then by their target, the pinned pieces after the others.
pub open spec fn seat(mb: Seq<Option<(Side, Piece)>>, stm: Side, s: Step) -> int {
    match mb[s.from] {
        Some((_, Piece::King)) | Some((_, Piece::Pawn)) => by_target()(s),
        _ => by_squares()(s) + if pinned(mb, stm, s.from) {
            4096int
        } else {
            0
        },
    }
}

/// Where a move stands in a list of the moves of a position.
pub open spec fn place(mb: Seq<Option<(Side, Piece)>>, stm: Side, s: Step) -> int {
    16384 * section(mb, stm, s) + seat(mb, stm, s)
}

pub open spec fn by_place(mb: Seq<Option<(Side, Piece)>>, stm: Side) -> spec_fn(Step) -> int {
    |s: Step| place(mb, stm, s)
}

/// A list of moves is in the order in which they are generated.
pub open spec fn in_sequence(pos: Position, list: Seq<Step>) -> bool {
    ascending(list, by_place(pos.mb, pos.stm))
}

/// The list holds the moves of one kind, each once, in the order in which they are generated.
pub open spec fn lists(pos: Position, kind: MoveGenKind, list: Seq<Step>) -> bool {
    &&& in_sequence(pos, list)
    &&& forall|s: Step| #[trigger] list.contains(s) <==> kind.wants(s.kind) && moves_in(pos, s)
}

/// The moves of one kind in the order in which they are generated.
pub open spec fn move_order(pos: Position, kind: MoveGenKind) -> Seq<Step> {
    choose|list: Seq<Step>| #[trigger] lists(pos, kind, list)
}

/// There is one order in which moves are generated.
pub proof fn law_move_order(pos: Position, kind: MoveGenKind, list: Seq<Step>)
    requires
        lists(pos, kind, list),
    ensures
        list == move_order(pos, kind),
        list.no_duplicates(),
{
    law_ascending_once(list, move_order(pos, kind), by_place(pos.mb, pos.stm));
}

/// Steps by their squares, those from `late` squares after the others.
pub open spec fn by_squares_late(late: BitBoard) -> spec_fn(Step) -> int {
    |s: Step|
        by_squares()(s) + if late.has(s.from) {
            4096int
        } else {
            0
        }
}

/// Moves of a section stand before those of the next.
proof fn lemma_place(mb: Seq<Option<(Side, Piece)>>, stm: Side, s: Step)
    requires
        is_square(s.from),
        is_square(s.to),
    ensures
        16384 * section(mb, stm, s) <= place(mb, stm, s) < 16384 * (section(mb, stm, s) + 1),
{
}

/// Moves of a later section follow those of earlier ones.
proof fn lemma_sections_join(
    mb: Seq<Option<(Side, Piece)>>,
    stm: Side,
    a: Seq<Step>,
    b: Seq<Step>,
    c: Seq<Step>,
    n: int,
)
    requires
        extends(a, b),
        extends(b, c),
        ascending(added(a, b), by_place(mb, stm)),
        ascending(added(b, c), by_place(mb, stm)),
        forall|s: Step| #[trigger]
            added(a, b).contains(s) ==> is_square(s.from) && is_square(s.to) && section(mb, stm, s)
                < n,
        forall|s: Step| #[trigger]
            added(b, c).contains(s) ==> is_square(s.from) && is_square(s.to) && section(mb, stm, s)
                >= n,
    ensures
        ascending(added(a, c), by_place(mb, stm)),
{
    assert forall|s: Step, t: Step| #[trigger]
        added(a, b).contains(s) && #[trigger] added(b, c).contains(t) implies by_place(mb, stm)(s)
        < by_place(mb, stm)(t) by {
        lemma_place(mb, stm, s);
        lemma_place(mb, stm, t);
    }
    lemma_ascending_join(a, b, c, by_place(mb, stm));
}

/// Moves of king or pawns of one section, by their target.
proof fn lemma_section_by_target(
    mb: Seq<Option<(Side, Piece)>>,
    stm: Side,
    a: Seq<Step>,
    b: Seq<Step>,
    n: int,
)
    requires
        ascending(added(a, b), by_target()),
        forall|s: Step| #[trigger]
            added(a, b).contains(s) ==> section(mb, stm, s) == n && (mb[s.from] matches Some(x)
                && (x.1 is King || x.1 is Pawn)),
    ensures
        ascending(added(a, b), by_place(mb, stm)),
{
    lemma_ascending_shift(added(a, b), by_target(), by_place(mb, stm), 16384 * n);
}

impl Board {
    /// The squares to which a piece other than the king can go to answer a check; all
    /// squares if there is none.
    fn evasion_target(&self) -> (res: BitBoard)
        requires
            self.state.consistent(),
            self.state.kings(),
            self.state.threats_current(),
            one_check(self.state.mb(), self.state.side_to_move),
        ensures
            forall|t: int| #[trigger]
                res.has(t) <==> is_square(t) && evades(
                    self.state.mb(),
                    self.state.side_to_move,
                    t,
                ),
    {
        let stm = self.state.side_to_move;
        let king_square = self.get_king_square(stm);
        let ghost mb = self.state.mb();
        match self.state.checkers.least_sig_bit() {
            Some(checking_piece_square) => {
                let path = between_squares(king_square, checking_piece_square);
                let res = path | checking_piece_square.to_bb();
                proof {
                    broadcast use group_bits;

                    let c = checking_piece_square.idx();
                    assert(checker(mb, stm, c));
                    assert forall|t: int| #[trigger] res.has(t) <==> is_square(t) && evades(
                        mb,
                        stm,
                        t,
                    ) by {
                        assert(path.has(t) <==> between(king_square.idx(), c, t));
                    }
                }
                res
            },
            None => {
                proof {
                    broadcast use group_bits;

                    assert forall|t: int| #[trigger] BitBoard(0).has(t) <==> false by {}
                    assert forall|c: int| !checker(mb, stm, c) by {
                        assert(!self.state.checkers.has(c));
                    }
                }
                let res = BitBoard(0).not();
                proof {
                    broadcast use group_bits;

                    assert forall|t: int| #[trigger] res.has(t) <==> is_square(t) by {}
                }
                res
            },
        }
    }

    /// Appends the moves of the knights, bishops, rooks or queens on `pieces`. With
    /// `on_line` each stays on its line with the king.
    fn gen_from(
        &self,
        move_list: &mut MoveList,
        kind: MoveKind,
        pieces: BitBoard,
        piece: Piece,
        target: BitBoard,
        on_line: bool,
    )
        requires
            self.state.consistent(),
            self.state.kings(),
        ensures
            extends(old(move_list)@, final(move_list)@),
            added(old(move_list)@, final(move_list)@).no_duplicates(),
            forall|s: Step| #[trigger]
                added(old(move_list)@, final(move_list)@).contains(s) <==> {
                    &&& pieces.has(s.from)
                    &&& reach(
                        piece,
                        self.state.side_to_move,
                        s.from,
                        s.to,
                        occupied(self.state.mb()),
                    )
                    &&& target.has(s.to)
                    &&& on_line ==> s.from != king_sq(self.state.mb(), self.state.side_to_move)
                        && collinear(
                        king_sq(self.state.mb(), self.state.side_to_move),
                        s.from,
                        s.to,
                    )
                    &&& s.kind == kind
                },
            ascending(added(old(move_list)@, final(move_list)@), by_squares()),
    {
        let stm = self.state.side_to_move;
        let king_square = self.get_king_square(stm);
        let ghost mb = self.state.mb();
        let ghost k = king_square.idx();
        let ghost base = move_list@;
        let mut rest = pieces;
        proof {
            lemma_added_none(base);
        }
        while rest.0 != 0
            invariant
                self.state.consistent(),
                base == old(move_list)@,
                mb == self.state.mb(),
                stm == self.state.side_to_move,
                k == king_square.idx(),
                extends(base, move_list@),
                added(base, move_list@).no_duplicates(),
                forall|i: int| #[trigger] rest.has(i) ==> pieces.has(i),
                forall|s: Step| #[trigger]
                    added(base, move_list@).contains(s) <==> {
                        &&& pieces.has(s.from)
                        &&& !rest.has(s.from)
                        &&& reach(piece, stm, s.from, s.to, occupied(mb))
                        &&& target.has(s.to)
                        &&& on_line ==> s.from != k && collinear(k, s.from, s.to)
                        &&& s.kind == kind
                    },
                ascending(added(base, move_list@), by_squares()),
                forall|s: Step, i: int| #[trigger]
                    added(base, move_list@).contains(s) && #[trigger] rest.has(i) ==> s.from < i,
            decreases rest.0,
        {
            let ghost before = rest;
            let ghost list = move_list@;
            if let Some(from) = rest.pop_lsb() {
                let attacks = self.get_piece_attack(stm, from, piece);
                let mut targets = attacks & target;
                if on_line {
                    let line = line_through(king_square, from);
                    targets = targets & line;
                }
                proof {
                    broadcast use group_bits;

                    assert forall|t: int| #[trigger] targets.has(t) <==> reach(
                        piece,
                        stm,
                        from.idx(),
                        t,
                        occupied(mb),
                    ) && target.has(t) && (on_line ==> from.idx() != k && collinear(
                        k,
                        from.idx(),
                        t,
                    )) by {
                        assert(attacks.has(t) <==> reach(
                            piece,
                            stm,
                            from.idx(),
                            t,
                            occupied(mb),
                        ));
                    }
                }
                move_list.push_setwise(from, targets, kind);
                proof {
                    lemma_ascending_join(base, list, move_list@, by_squares());
                    lemma_added_join(base, list, move_list@);
                }
            }
        }
        proof {
            lemma_lowest_bit(rest.0);
        }
    }

    /// Appends the moves of one kind of piece: free pieces go anywhere in `target`, pinned
    /// ones stay on their line with the king.
    pub fn gen_sliding_moves(
        &self,
        move_list: &mut MoveList,
        kind: MoveKind,
        pieces: BitBoard,
        piece: Piece,
        target: BitBoard,
        pinned: BitBoard,
    )
        requires
            self.state.consistent(),
            self.state.kings(),
        ensures
            extends(old(move_list)@, final(move_list)@),
            added(old(move_list)@, final(move_list)@).no_duplicates(),
            forall|s: Step| #[trigger]
                added(old(move_list)@, final(move_list)@).contains(s) <==> {
                    &&& pieces.has(s.from)
                    &&& reach(
                        piece,
                        self.state.side_to_move,
                        s.from,
                        s.to,
                        occupied(self.state.mb()),
                    )
                    &&& target.has(s.to)
                    &&& pinned.has(s.from) ==> s.from != king_sq(
                        self.state.mb(),
                        self.state.side_to_move,
                    ) && collinear(
                        king_sq(self.state.mb(), self.state.side_to_move),
                        s.from,
                        s.to,
                    )
                    &&& s.kind == kind
                },
            ascending(added(old(move_list)@, final(move_list)@), by_squares_late(pinned)),
    {
        broadcast use group_bits;

        let ghost a = move_list@;
        self.gen_from(move_list, kind, pieces & pinned.not(), piece, target, false);
        let ghost b = move_list@;
        self.gen_from(move_list, kind, pieces & pinned, piece, target, true);
        proof {
            let key = by_squares_late(pinned);
            lemma_ascending_shift(added(a, b), by_squares(), key, 0);
            lemma_ascending_shift(added(b, move_list@), by_squares(), key, 4096);
            lemma_ascending_join(a, b, move_list@, key);
            lemma_added_join(a, b, move_list@);
        }
    }
}

/// The order of the pieces other than king and pawn.
pub open spec fn officer_rank(piece: Piece) -> int {
    match piece {
        Piece::Bishop => 1,
        Piece::Rook => 2,
        Piece::Queen => 3,
        _ => 0,
    }
}

/// Moves of one kind of piece and one section, by their squares.
proof fn lemma_officer_section(
    mb: Seq<Option<(Side, Piece)>>,
    stm: Side,
    piece: Piece,
    pinned_bb: BitBoard,
    a: Seq<Step>,
    b: Seq<Step>,
    n: int,
)
    requires
        piece !is Pawn && piece !is King,
        ascending(added(a, b), by_squares_late(pinned_bb)),
        forall|i: int| #[trigger] pinned_bb.has(i) <==> pinned(mb, stm, i),
        forall|s: Step| #[trigger]
            added(a, b).contains(s) ==> mb[s.from] == Some((stm, piece)) && section(mb, stm, s)
                == n,
    ensures
        ascending(added(a, b), by_place(mb, stm)),
{
    assert forall|s: Step| #[trigger] added(a, b).contains(s) implies by_place(mb, stm)(s) == 16384
        * n + by_squares_late(pinned_bb)(s) by {
        assert(pinned_bb.has(s.from) <==> pinned(mb, stm, s.from));
    }
    lemma_ascending_shift(
        added(a, b),
        by_squares_late(pinned_bb),
        by_place(mb, stm),
        16384 * n,
    );
}

/// A pinned piece is not the king.
pub proof fn lemma_pinned_off_king(mb: Seq<Option<(Side, Piece)>>, stm: Side, b: int)
    requires
        pinned(mb, stm, b),
        is_square(king_sq(mb, stm)),
    ensures
        b != king_sq(mb, stm),
        is_square(b),
{
    let a = choose|a: int| #[trigger] crate::board::position::pins(mb, stm, a, b);
    assert(between(a, king_sq(mb, stm), b));
}

impl Board {
    /// What the generators need to know about the position.
    pub open spec fn can_generate(self) -> bool {
        &&& self.state.consistent()
        &&& self.state.kings()
        &&& self.state.threats_current()
        &&& one_check(self.state.mb(), self.state.side_to_move)
    }

    /// Appends the moves of one kind of piece other than king and pawn.
    fn gen_officer_moves(&self, move_list: &mut MoveList, kind: MoveGenKind, piece: Piece)
        requires
            self.can_generate(),
            piece !is Pawn && piece !is King,
        ensures
            extends(old(move_list)@, final(move_list)@),
            added(old(move_list)@, final(move_list)@).no_duplicates(),
            forall|s: Step| #[trigger]
                added(old(move_list)@, final(move_list)@).contains(s) <==> kind.wants(s.kind)
                    && piece_step(self.state.mb(), self.state.side_to_move, piece, s),
            in_sequence(self.state.position(), added(old(move_list)@, final(move_list)@)),
    {
        let stm = self.state.side_to_move;
        let occupied_bb = self.get_all_occupancy();
        let pinned_bb = self.state.pinned[stm as usize];
        let target = self.evasion_target();
        let pieces = self.get_piece_bb(stm, piece);
        let enemies = self.state.occupancies[stm.other() as usize];
        let noisy_target = target & enemies;
        let quiet_target = target & occupied_bb.not();
        let ghost mb = self.state.mb();
        let ghost k = king_sq(mb, stm);
        proof {
            broadcast use group_bits;

            crate::board::position::lemma_king_exists(mb, stm);
            assert(pinned_bb == self.state.pinned_bb(stm));
            assert(enemies == self.state.side_bb(stm.other()));
            assert forall|t: int| #[trigger] noisy_target.has(t) <==> owned(mb, stm.other(), t)
                && evades(mb, stm, t) by {
                assert(self.state.side_bb(stm.other()).has(t) <==> owned(mb, stm.other(), t));
            }
            assert forall|t: int| #[trigger] quiet_target.has(t) <==> is_square(t)
                && mb[t] is None && evades(mb, stm, t) by {
                assert(occupied_bb.has(t) <==> is_square(t) && mb[t] is Some);
            }
            assert forall|i: int| #[trigger] pinned_bb.has(i) <==> pinned(mb, stm, i) by {
                assert(self.state.pinned_bb(stm).has(i) <==> pinned(mb, stm, i));
            }
            assert forall|i: int| #[trigger] pinned_bb.has(i) implies i != k by {
                lemma_pinned_off_king(mb, stm, i);
            }
            lemma_added_none(move_list@);
        }
        let ghost a = move_list@;
        if kind.is_noisy() {
            self.gen_sliding_moves(
                move_list,
                MoveKind::Capture,
                pieces,
                piece,
                noisy_target,
                pinned_bb,
            );
        }
        let ghost b = move_list@;
        proof {
            lemma_added_none(b);
        }
        if kind.is_quiet() {
            self.gen_sliding_moves(
                move_list,
                MoveKind::QuietMove,
                pieces,
                piece,
                quiet_target,
                pinned_bb,
            );
        }
        proof {
            let n = 11 + 2 * officer_rank(piece);
            assert forall|s: Step| pieces.has(s.from) implies mb[s.from] == Some((stm, piece)) by {
                assert(pieces.has(s.from) <==> holds(mb, s.from, stm, piece));
            }
            lemma_officer_section(mb, stm, piece, pinned_bb, a, b, n);
            lemma_officer_section(mb, stm, piece, pinned_bb, b, move_list@, n + 1);
            lemma_sections_join(mb, stm, a, b, move_list@, n + 1);
            lemma_added_join(a, b, move_list@);
            assert forall|s: Step| #[trigger]
                added(a, move_list@).contains(s) <==> kind.wants(s.kind) && piece_step(
                    mb,
                    stm,
                    piece,
                    s,
                ) by {
                assert(pieces.has(s.from) <==> holds(mb, s.from, stm, piece));
                assert(pinned_bb.has(s.from) <==> pinned(mb, stm, s.from));
                assert(noisy_target.has(s.to) <==> owned(mb, stm.other(), s.to) && evades(
                    mb,
                    stm,
                    s.to,
                ));
                assert(quiet_target.has(s.to) <==> is_square(s.to) && mb[s.to] is None && evades(
                    mb,
                    stm,
                    s.to,
                ));
            }
        }
    }

    pub fn gen_knight_moves(&self, move_list: &mut MoveList, kind: MoveGenKind)
        requires
            self.can_generate(),
        ensures
            extends(old(move_list)@, final(move_list)@),
            added(old(move_list)@, final(move_list)@).no_duplicates(),
            forall|s: Step| #[trigger]
                added(old(move_list)@, final(move_list)@).contains(s) <==> kind.wants(s.kind)
                    && piece_step(self.state.mb(), self.state.side_to_move, Piece::Knight, s),
            in_sequence(self.state.position(), added(old(move_list)@, final(move_list)@)),
    {
        self.gen_officer_moves(move_list, kind, Piece::Knight)
    }

    pub fn gen_bishop_moves(&self, move_list: &mut MoveList, kind: MoveGenKind)
        requires
            self.can_generate(),
        ensures
            extends(old(move_list)@, final(move_list)@),
            added(old(move_list)@, final(move_list)@).no_duplicates(),
            forall|s: Step| #[trigger]
                added(old(move_list)@, final(move_list)@).contains(s) <==> kind.wants(s.kind)
                    && piece_step(self.state.mb(), self.state.side_to_move, Piece::Bishop, s),
            in_sequence(self.state.position(), added(old(move_list)@, final(move_list)@)),
    {
        self.gen_officer_moves(move_list, kind, Piece::Bishop)
    }

    pub fn gen_rook_moves(&self, move_list: &mut MoveList, kind: MoveGenKind)
        requires
            self.can_generate(),
        ensures
            extends(old(move_list)@, final(move_list)@),
            added(old(move_list)@, final(move_list)@).no_duplicates(),
            forall|s: Step| #[trigger]
                added(old(move_list)@, final(move_list)@).contains(s) <==> kind.wants(s.kind)
                    && piece_step(self.state.mb(), self.state.side_to_move, Piece::Rook, s),
            in_sequence(self.state.position(), added(old(move_list)@, final(move_list)@)),
    {
        self.gen_officer_moves(move_list, kind, Piece::Rook)
    }

    pub fn gen_queen_moves(&self, move_list: &mut MoveList, kind: MoveGenKind)
        requires
            self.can_generate(),
        ensures
            extends(old(move_list)@, final(move_list)@),
            added(old(move_list)@, final(move_list)@).no_duplicates(),
            forall|s: Step| #[trigger]
                added(old(move_list)@, final(move_list)@).contains(s) <==> kind.wants(s.kind)
                    && piece_step(self.state.mb(), self.state.side_to_move, Piece::Queen, s),
            in_sequence(self.state.position(), added(old(move_list)@, final(move_list)@)),
    {
        self.gen_officer_moves(move_list, kind, Piece::Queen)
    }

    pub fn gen_king_moves(&self, move_list: &mut MoveList, kind: MoveGenKind)
        requires
            self.state.consistent(),
            self.state.kings(),
            self.state.threats_current(),
        ensures
            extends(old(move_list)@, final(move_list)@),
            added(old(move_list)@, final(move_list)@).no_duplicates(),
            forall|s: Step| #[trigger]
                added(old(move_list)@, final(move_list)@).contains(s) <==> kind.wants(s.kind)
                    && king_step(self.state.mb(), self.state.side_to_move, s),
            in_sequence(self.state.position(), added(old(move_list)@, final(move_list)@)),
    {
        let stm = self.state.side_to_move;
        let occupancies = self.get_all_occupancy();
        let king_square = self.get_king_square(stm);
        let attacks = self.get_king_attacks(king_square);
        let enemies = self.state.occupancies[stm.other() as usize];
        let safe = attacks & self.state.threats.not();
        let quiet_targets = occupancies.not() & safe;
        let noisy_targets = enemies & safe;
        let ghost mb = self.state.mb();
        let ghost k = king_square.idx();
        proof {
            broadcast use group_bits;

            assert(enemies == self.state.side_bb(stm.other()));
            assert forall|t: int| #[trigger] noisy_targets.has(t) <==> king_reach(k, t) && owned(
                mb,
                stm.other(),
                t,
            ) && !threatened(mb, stm.other(), t) by {
                assert(self.state.side_bb(stm.other()).has(t) <==> owned(mb, stm.other(), t));
                assert(self.state.threats.has(t) <==> threatened(mb, stm.other(), t));
            }
            assert forall|t: int| #[trigger] quiet_targets.has(t) <==> king_reach(k, t)
                && mb[t] is None && !threatened(mb, stm.other(), t) by {
                assert(occupancies.has(t) <==> is_square(t) && mb[t] is Some);
                assert(self.state.threats.has(t) <==> threatened(mb, stm.other(), t));
            }
        }
        let ghost a = move_list@;
        proof {
            lemma_added_none(a);
        }
        if kind.is_quiet() {
            move_list.push_setwise(king_square, quiet_targets, MoveKind::QuietMove);
        }
        let ghost b = move_list@;
        proof {
            lemma_added_none(b);
        }
        if kind.is_noisy() {
            move_list.push_setwise(king_square, noisy_targets, MoveKind::Capture);
        }
        proof {
            crate::board::position::lemma_king_exists(mb, stm);
            lemma_section_by_target(mb, stm, a, b, 0);
            lemma_section_by_target(mb, stm, b, move_list@, 1);
            lemma_sections_join(mb, stm, a, b, move_list@, 1);
            lemma_added_join(a, b, move_list@);
        }
    }

    /// Whether all squares of `path` are free and no square of `safe` is attacked.
    fn path_free(&self, path: BitBoard, safe: BitBoard) -> (res: bool)
        requires
            self.state.consistent(),
            self.state.threats_current(),
        ensures
            res <==> (forall|i: int| #[trigger] path.has(i) ==> self.state.mb()[i] is None) && (
            forall|i: int| #[trigger]
                safe.has(i) ==> !threatened(
                    self.state.mb(),
                    self.state.side_to_move.other(),
                    i,
                )),
    {
        let occupancies = self.get_all_occupancy();
        let blocked = path & occupancies;
        let attacked = safe & self.state.threats;
        proof {
            broadcast use group_bits;

            let mb = self.state.mb();
            lemma_lowest_bit(blocked.0);
            lemma_lowest_bit(attacked.0);
            let x = vstd::std_specs::bits::u64_trailing_zeros(blocked.0) as int;
            let y = vstd::std_specs::bits::u64_trailing_zeros(attacked.0) as int;
            if blocked.0 != 0 {
                assert(path.has(x) && occupancies.has(x));
            } else {
                assert forall|i: int| #[trigger] path.has(i) implies mb[i] is None by {
                    assert(!blocked.has(i));
                }
            }
            if attacked.0 != 0 {
                assert(safe.has(y) && self.state.threats.has(y));
            } else {
                assert forall|i: int| #[trigger] safe.has(i) implies !threatened(
                    mb,
                    self.state.side_to_move.other(),
                    i,
                ) by {
                    assert(!attacked.has(i));
                    assert(!self.state.threats.has(i));
                }
            }
        }
        blocked.0 == 0 && attacked.0 == 0
    }

    /// Whether the king and a rook of the side to move stand on the given squares.
    fn at_home(&self, king_square: Square, king_home_square: Square, rook: Square) -> (res: bool)
        ensures
            res <==> king_square.idx() == king_home_square.idx() && holds(
                self.state.mb(),
                rook.idx(),
                self.state.side_to_move,
                Piece::Rook,
            ),
    {
        let rook_there: bool = match self.get_piece_at_square(rook) {
            Some((s, p)) => s == self.state.side_to_move && p == Piece::Rook,
            None => false,
        };
        king_square as usize == king_home_square as usize && rook_there
    }

    pub fn gen_castling_moves(&self, move_list: &mut MoveList)
        requires
            self.state.consistent(),
            self.state.kings(),
            self.state.threats_current(),
        ensures
            extends(old(move_list)@, final(move_list)@),
            added(old(move_list)@, final(move_list)@).no_duplicates(),
            forall|s: Step| #[trigger]
                added(old(move_list)@, final(move_list)@).contains(s) <==> castling_step(
                    self.state.mb(),
                    self.state.side_to_move,
                    self.state.castling_rights,
                    s,
                ),
            in_sequence(self.state.position(), added(old(move_list)@, final(move_list)@)),
    {
        let side = self.state.side_to_move;
        let king_square = self.get_king_square(side);
        let king = king_square.to_bb();
        let mut king_side_occ = BitBoard(WK_SIDE);
        let mut queen_side_occ = BitBoard(WQ_SIDE);
        if side == Side::Black {
            king_side_occ = king_side_occ.shift(NORTH * 7);
            queen_side_occ = queen_side_occ.shift(NORTH * 7);
        }
        let need_to_be_safe = (queen_side_occ ^ BitBoard(B_FILE)) & queen_side_occ;
        let king_side_safe = king_side_occ | king;
        let queen_side_safe = need_to_be_safe | king;
        let ghost mb = self.state.mb();
        let ghost h = king_home(side);
        let (home, king_rook, queen_rook) = match side {
            Side::White => (Square::E1, Square::H1, Square::A1),
            Side::Black => (Square::E8, Square::H8, Square::A8),
        };
        proof {
            broadcast use group_bits;

            assert forall|i: int| #[trigger] king_side_occ.has(i) <==> i == h + 1 || i == h + 2 by {
                lemma_bit_regions(WK_SIDE, i);
                lemma_bit_regions(WK_SIDE, i - 56);
            }
            assert forall|i: int| #[trigger] queen_side_occ.has(i) <==> i == h - 1 || i == h - 2
                || i == h - 3 by {
                lemma_bit_regions(WQ_SIDE, i);
                lemma_bit_regions(WQ_SIDE, i - 56);
            }
            assert forall|i: int| #[trigger] need_to_be_safe.has(i) <==> i == h - 1 || i == h
                - 2 by {
                lemma_bit_regions(B_FILE, i);
            }
            assert(king_side_occ.has(h + 1) && king_side_occ.has(h + 2));
            assert(queen_side_occ.has(h - 1) && queen_side_occ.has(h - 2) && queen_side_occ.has(
                h - 3,
            ));
            assert(need_to_be_safe.has(h - 1) && need_to_be_safe.has(h - 2));
            assert(king.has(king_square.idx()));
            assert(king_side_safe.has(h + 1) && king_side_safe.has(h + 2) && king_side_safe.has(
                king_square.idx(),
            ));
            assert(queen_side_safe.has(h - 1) && queen_side_safe.has(h - 2) && queen_side_safe.has(
                king_square.idx(),
            ));
        }
        let ghost a = move_list@;
        proof {
            lemma_added_none(a);
            crate::board::position::lemma_king_exists(mb, side);
        }
        if self.state.castling_rights.can_king_side(side) && self.at_home(
            king_square,
            home,
            king_rook,
        ) && self.path_free(king_side_occ, king_side_safe) {
            let target = match side {
                Side::White => Castling::WhiteKing.king_landing_square(),
                Side::Black => Castling::BlackKing.king_landing_square(),
            };
            let m = Move::new(king_square, target, MoveKind::KingCastle);
            proof {
                lemma_ascending_push(a, move_list@, m@, by_place(mb, side));
                lemma_added_push(a, move_list@, m@);
            }
            move_list.push(m);
        }
        let ghost b = move_list@;
        if self.state.castling_rights.can_queen_side(side) && self.at_home(
            king_square,
            home,
            queen_rook,
        ) && self.path_free(queen_side_occ, queen_side_safe) {
            let target = match side {
                Side::White => Castling::WhiteQueen.king_landing_square(),
                Side::Black => Castling::BlackQueen.king_landing_square(),
            };
            let m = Move::new(king_square, target, MoveKind::QueenCastle);
            proof {
                lemma_ascending_push(a, move_list@, m@, by_place(mb, side));
                lemma_added_push(a, move_list@, m@);
            }
            move_list.push(m);
        }
        proof {
            broadcast use group_bits;

            assert forall|s: Step| #[trigger] added(a, move_list@).contains(s) <==> castling_step(
                mb,
                side,
                self.state.castling_rights,
                s,
            ) by {}
        }
    }
}

/// The squares of one file.
pub fn to_file_bb(square: Square) -> (res: BitBoard)
    ensures
        forall|i: int| #[trigger]
            res.has(i) <==> is_square(i) && file_of(i) == file_of(square.idx()),
{
    let file: i8 = square.to_file() as i8;
    let res = BitBoard(A).shift(EAST * file);
    proof {
        assert forall|i: int| #[trigger] res.has(i) <==> is_square(i) && file_of(i) == file_of(
            square.idx(),
        ) by {
            lemma_bit_regions(A, i - file);
            broadcast use group_bits;

        }
    }
    res
}

/// The squares on the rising and on the falling diagonal of a square, the square itself
/// left out.
fn diagonals(square: Square) -> (res: (BitBoard, BitBoard))
    ensures
        forall|i: int| #[trigger]
            res.0.has(i) <==> is_square(i) && i != square.idx() && rank_of(i) - file_of(i)
                == rank_of(square.idx()) - file_of(square.idx()),
        forall|i: int| #[trigger]
            res.1.has(i) <==> is_square(i) && i != square.idx() && rank_of(i) + file_of(i)
                == rank_of(square.idx()) + file_of(square.idx()),
{
    let none = BitBoard(0);
    let rising = walk(square, 1, 1, none) | walk(square, -1, -1, none);
    let falling = walk(square, 1, -1, none) | walk(square, -1, 1, none);
    proof {
        let a = square.idx();
        assert forall|i: int| #[trigger] rising.has(i) <==> is_square(i) && i != a && rank_of(i)
            - file_of(i) == rank_of(a) - file_of(a) by {
            broadcast use group_bits;

            assert(clear(a, i, none.squares()));
        }
        assert forall|i: int| #[trigger] falling.has(i) <==> is_square(i) && i != a && rank_of(i)
            + file_of(i) == rank_of(a) + file_of(a) by {
            broadcast use group_bits;

            assert(clear(a, i, none.squares()));
        }
    }
    (rising, falling)
}

/// How far a pawn goes when it captures along the falling diagonal, or along the rising one.
pub open spec fn pawn_offset(stm: Side, left: bool) -> int {
    match stm {
        Side::White => if left {
            7
        } else {
            9
        },
        Side::Black => if left {
            -7
        } else {
            -9
        },
    }
}

/// The file from which a pawn cannot capture that way.
pub open spec fn pawn_edge(stm: Side, left: bool) -> int {
    if left == (stm == Side::White) {
        0
    } else {
        7
    }
}

/// The two directions in which a pawn captures.
proof fn lemma_pawn_offsets(stm: Side, from: int, to: int)
    requires
        is_square(from),
        is_square(to),
    ensures
        pawn_reach(stm, from, to) <==> (file_of(from) != pawn_edge(stm, true) && to == from
            + pawn_offset(stm, true)) || (file_of(from) != pawn_edge(stm, false) && to == from
            + pawn_offset(stm, false)),
{
}

/// A capture stays on the line with the king if the pawn is on the king's diagonal of that
/// direction.
proof fn lemma_capture_line(stm: Side, k: int, from: int, to: int, left: bool)
    requires
        is_square(k),
        is_square(from),
        k != from,
        to == from + pawn_offset(stm, left),
        file_of(from) != pawn_edge(stm, left),
    ensures
        collinear(k, from, to) <==> if left {
            rank_of(from) + file_of(from) == rank_of(k) + file_of(k)
        } else {
            rank_of(from) - file_of(from) == rank_of(k) - file_of(k)
        },
{
}

/// A push stays on the line with the king if the pawn is on the king's file.
proof fn lemma_push_line(k: int, from: int, to: int)
    requires
        is_square(k),
        is_square(from),
        is_square(to),
        k != from,
        to == from + 8 || to == from - 8 || to == from + 16 || to == from - 16,
    ensures
        collinear(k, from, to) <==> file_of(from) == file_of(k),
{
}

impl Board {
    /// The pawns of the side to move that may capture along one diagonal: those not on
    /// the edge there, and of the pinned ones only those on the king's diagonal.
    fn capture_pawns(&self, left: bool) -> (res: BitBoard)
        requires
            self.can_generate(),
        ensures
            forall|i: int| #[trigger]
                res.has(i) <==> {
                    &&& holds(self.state.mb(), i, self.state.side_to_move, Piece::Pawn)
                    &&& file_of(i) != pawn_edge(self.state.side_to_move, left)
                    &&& keeps_pin(
                        self.state.mb(),
                        self.state.side_to_move,
                        Step {
                            from: i,
                            to: i + pawn_offset(self.state.side_to_move, left),
                            kind: MoveKind::Capture,
                        },
                    )
                },
    {
        let stm = self.state.side_to_move;
        let king_square = self.get_king_square(stm);
        let pinned_bb = self.state.pinned[stm as usize];
        let pawns = self.get_piece_bb(stm, Piece::Pawn);
        let (rising, falling) = diagonals(king_square);
        let white: bool = stm == Side::White;
        let diagonal = if left { falling } else { rising };
        let edge = if left == white { BitBoard(A) } else { BitBoard(H) };
        let res = pawns & (pinned_bb.not() | diagonal) & edge.not();
        proof {
            let mb = self.state.mb();
            let k = king_square.idx();
            assert(pinned_bb == self.state.pinned_bb(stm));
            assert forall|i: int| #[trigger] res.has(i) <==> {
                &&& holds(mb, i, stm, Piece::Pawn)
                &&& file_of(i) != pawn_edge(stm, left)
                &&& keeps_pin(
                    mb,
                    stm,
                    Step {
                        from: i,
                        to: i + pawn_offset(stm, left),
                        kind: MoveKind::Capture,
                    },
                )
            } by {
                broadcast use group_bits;

                lemma_bit_regions(A, i);
                lemma_bit_regions(H, i);
                assert(pawns.has(i) <==> holds(mb, i, stm, Piece::Pawn));
                assert(self.state.pinned_bb(stm).has(i) <==> pinned(mb, stm, i));
                if pinned(mb, stm, i) && file_of(i) != pawn_edge(stm, left) {
                    lemma_pinned_off_king(mb, stm, i);
                    lemma_capture_line(stm, k, i, i + pawn_offset(stm, left), left);
                }
            }
        }
        res
    }
}

impl Board {
    /// Appends the captures of pawns along one diagonal, en passant left out.
    fn gen_pawn_captures(&self, move_list: &mut MoveList, left: bool)
        requires
            self.can_generate(),
        ensures
            extends(old(move_list)@, final(move_list)@),
            added(old(move_list)@, final(move_list)@).no_duplicates(),
            forall|s: Step| #[trigger]
                added(old(move_list)@, final(move_list)@).contains(s) <==> {
                    &&& s.kind.capturing() && s.kind !is EnPassant
                    &&& s.to == s.from + pawn_offset(self.state.side_to_move, left)
                    &&& pawn_step(
                        self.state.mb(),
                        self.state.side_to_move,
                        self.state.ep(),
                        s,
                    )
                },
            in_sequence(self.state.position(), added(old(move_list)@, final(move_list)@)),
    {
        let stm = self.state.side_to_move;
        let offset: i8 = match stm {
            Side::White => if left { 7 } else { 9 },
            Side::Black => if left { -7 } else { -9 },
        };
        let promotion_rank = match stm {
            Side::White => BitBoard(RANK_8),
            Side::Black => BitBoard(RANK_1),
        };
        let enemies = self.state.occupancies[stm.other() as usize];
        let evasion = self.evasion_target();
        let target = evasion & enemies;
        let pawns = self.capture_pawns(left);
        let captures = pawns.shift(offset) & target;
        let promos = captures & promotion_rank;
        let plain = captures ^ promos;
        let ghost mb = self.state.mb();
        proof {
            broadcast use group_bits;

            assert(enemies == self.state.side_bb(stm.other()));
            assert forall|t: int| #[trigger] captures.has(t) <==> is_square(t) && pawns.has(
                t - offset,
            ) && owned(mb, stm.other(), t) && evades(mb, stm, t) by {
                assert(self.state.side_bb(stm.other()).has(t) <==> owned(mb, stm.other(), t));
            }
            assert forall|t: int| #[trigger] promos.has(t) <==> captures.has(t) && rank_of(t)
                == last_rank(stm) by {
                lemma_bit_regions(RANK_8, t);
                lemma_bit_regions(RANK_1, t);
            }
            assert forall|t: int| #[trigger] plain.has(t) <==> captures.has(t) && rank_of(t)
                != last_rank(stm) by {
                assert(promos.has(t) <==> captures.has(t) && rank_of(t) == last_rank(stm));
            }
            assert forall|t: int| captures.has(t) implies 0 <= t - offset < 64 by {
                assert(pawns.has(t - offset));
            }
        }
        let ghost a = move_list@;
        move_list.push_promotion_captures_setwise(offset, promos);
        let ghost b = move_list@;
        move_list.push_pawn_moves_setwise(offset, plain, MoveKind::Capture);
        proof {
            let n: int = if left {
                5
            } else {
                7
            };
            assert forall|t: int| captures.has(t) implies holds(
                mb,
                t - offset,
                stm,
                Piece::Pawn,
            ) by {
                assert(pawns.has(t - offset));
            }
            lemma_section_by_target(mb, stm, a, b, n);
            lemma_section_by_target(mb, stm, b, move_list@, n + 1);
            lemma_sections_join(mb, stm, a, b, move_list@, n + 1);
            lemma_added_join(a, b, move_list@);
            assert forall|s: Step| #[trigger] added(a, move_list@).contains(s) <==> {
                &&& s.kind.capturing() && s.kind !is EnPassant
                &&& s.to == s.from + pawn_offset(stm, left)
                &&& pawn_step(mb, stm, self.state.ep(), s)
            } by {
                assert(captures.has(s.to) <==> is_square(s.to) && pawns.has(s.to - offset) && owned(
                    mb,
                    stm.other(),
                    s.to,
                ) && evades(mb, stm, s.to));
                assert(promos.has(s.to) <==> captures.has(s.to) && rank_of(s.to) == last_rank(
                    stm,
                ));
                assert(plain.has(s.to) <==> captures.has(s.to) && rank_of(s.to) != last_rank(stm));
                let probe = Step { from: s.from, to: s.to, kind: MoveKind::Capture };
                assert(keeps_pin(mb, stm, s) == keeps_pin(mb, stm, probe));
                if is_square(s.from) && is_square(s.to) {
                    lemma_pawn_offsets(stm, s.from, s.to);
                }
                if s.to == s.from + offset {
                    assert(pawns.has(s.from) <==> {
                        &&& holds(mb, s.from, stm, Piece::Pawn)
                        &&& file_of(s.from) != pawn_edge(stm, left)
                        &&& keeps_pin(mb, stm, probe)
                    });
                }
            }
        }
    }

    /// Appends the pushes of pawns.
    fn gen_pawn_pushes(&self, move_list: &mut MoveList, kind: MoveGenKind)
        requires
            self.can_generate(),
        ensures
            extends(old(move_list)@, final(move_list)@),
            added(old(move_list)@, final(move_list)@).no_duplicates(),
            forall|s: Step| #[trigger]
                added(old(move_list)@, final(move_list)@).contains(s) <==> {
                    &&& kind.wants(s.kind)
                    &&& !s.kind.capturing()
                    &&& pawn_step(
                        self.state.mb(),
                        self.state.side_to_move,
                        self.state.ep(),
                        s,
                    )
                },
            in_sequence(self.state.position(), added(old(move_list)@, final(move_list)@)),
    {
        let stm = self.state.side_to_move;
        let offset: i8 = match stm {
            Side::White => NORTH,
            Side::Black => SOUTH,
        };
        let promotion_rank = match stm {
            Side::White => BitBoard(RANK_8),
            Side::Black => BitBoard(RANK_1),
        };
        let third_rank = match stm {
            Side::White => BitBoard(RANK_4).shift(SOUTH),
            Side::Black => BitBoard(RANK_5).shift(NORTH),
        };
        let pinned_bb = self.state.pinned[stm as usize];
        let king_square = self.get_king_square(stm);
        let pawns = self.get_piece_bb(stm, Piece::Pawn);
        let occupied_bb = self.get_all_occupancy();
        let target = self.evasion_target();
        let file = to_file_bb(king_square);
        let free = pawns & (pinned_bb.not() | file);
        let pushes = free.shift(offset) & occupied_bb.not();
        let promotions = pushes & promotion_rank & target;
        let single_pushes = pushes ^ promotions;
        let double_pushes = (single_pushes & third_rank).shift(offset) & occupied_bb.not();
        let singles = single_pushes & target;
        let doubles = double_pushes & target;
        let ghost mb = self.state.mb();
        let ghost f = forward(stm);
        proof {
            broadcast use group_bits;

            let k = king_square.idx();
            assert(pinned_bb == self.state.pinned_bb(stm));
            assert forall|i: int| #[trigger] free.has(i) <==> holds(mb, i, stm, Piece::Pawn) && (
            pinned(mb, stm, i) ==> file_of(i) == file_of(k)) by {
                assert(pawns.has(i) <==> holds(mb, i, stm, Piece::Pawn));
                assert(self.state.pinned_bb(stm).has(i) <==> pinned(mb, stm, i));
            }
            assert forall|t: int| #[trigger] pushes.has(t) <==> is_square(t) && free.has(t - f)
                && mb[t] is None by {
                assert(occupied_bb.has(t) <==> is_square(t) && mb[t] is Some);
            }
            assert forall|t: int| #[trigger] promotions.has(t) <==> pushes.has(t) && rank_of(t)
                == last_rank(stm) && evades(mb, stm, t) by {
                lemma_bit_regions(RANK_8, t);
                lemma_bit_regions(RANK_1, t);
            }
            assert forall|t: int| #[trigger] singles.has(t) <==> pushes.has(t) && rank_of(t)
                != last_rank(stm) && evades(mb, stm, t) by {
                assert(promotions.has(t) <==> pushes.has(t) && rank_of(t) == last_rank(stm)
                    && evades(mb, stm, t));
            }
            assert forall|t: int| #[trigger] third_rank.has(t) <==> is_square(t) && rank_of(t)
                == pawn_home(stm) + (if stm == Side::White {
                1int
            } else {
                -1
            }) by {
                lemma_bit_regions(RANK_4, t + 8);
                lemma_bit_regions(RANK_5, t - 8);
            }
            assert forall|t: int| #[trigger] doubles.has(t) <==> is_square(t) && pushes.has(t - f)
                && third_rank.has(t - f) && mb[t] is None && evades(mb, stm, t) by {
                assert(occupied_bb.has(t) <==> is_square(t) && mb[t] is Some);
                assert(promotions.has(t - f) ==> rank_of(t - f) == last_rank(stm));
            }
            assert forall|t: int| #[trigger] pushes.has(t) implies 0 <= t - f < 64 by {
                assert(free.has(t - f));
            }
            assert forall|t: int| #[trigger] doubles.has(t) implies 0 <= t - 2 * f < 64 by {
                assert(pushes.has(t - f));
            }
        }
        let ghost a = move_list@;
        proof {
            lemma_added_none(a);
            assert forall|t: int| #[trigger] pushes.has(t) implies holds(
                mb,
                t - f,
                stm,
                Piece::Pawn,
            ) by {
                assert(free.has(t - f));
            }
            assert forall|t: int| #[trigger] doubles.has(t) implies holds(
                mb,
                t - 2 * f,
                stm,
                Piece::Pawn,
            ) by {
                assert(pushes.has(t - f));
            }
        }
        if kind.is_quiet() {
            move_list.push_pawn_moves_setwise(offset, singles, MoveKind::QuietMove);
            let ghost b = move_list@;
            move_list.push_pawn_moves_setwise(offset * 2, doubles, MoveKind::DoublePawn);
            proof {
                lemma_section_by_target(mb, stm, a, b, 2);
                lemma_section_by_target(mb, stm, b, move_list@, 3);
                lemma_sections_join(mb, stm, a, b, move_list@, 3);
                lemma_added_join(a, b, move_list@);
            }
        }
        let ghost c = move_list@;
        proof {
            lemma_added_none(c);
        }
        if kind.is_noisy() {
            move_list.push_promotions_setwise(offset, promotions);
        }
        proof {
            lemma_section_by_target(mb, stm, c, move_list@, 4);
            lemma_sections_join(mb, stm, a, c, move_list@, 4);
            lemma_added_join(a, c, move_list@);
            let k = king_square.idx();
            assert forall|s: Step| #[trigger] added(a, move_list@).contains(s) <==> {
                &&& kind.wants(s.kind)
                &&& !s.kind.capturing()
                &&& pawn_step(mb, stm, self.state.ep(), s)
            } by {
                assert(singles.has(s.to) <==> pushes.has(s.to) && rank_of(s.to) != last_rank(stm)
                    && evades(mb, stm, s.to));
                assert(promotions.has(s.to) <==> pushes.has(s.to) && rank_of(s.to) == last_rank(
                    stm,
                ) && evades(mb, stm, s.to));
                assert(pushes.has(s.to) <==> is_square(s.to) && free.has(s.to - f)
                    && mb[s.to] is None);
                assert(doubles.has(s.to) <==> is_square(s.to) && pushes.has(s.to - f)
                    && third_rank.has(s.to - f) && mb[s.to] is None && evades(mb, stm, s.to));
                assert(pushes.has(s.to - f) <==> is_square(s.to - f) && free.has(s.to - f - f)
                    && mb[s.to - f] is None);
                assert(free.has(s.from) <==> holds(mb, s.from, stm, Piece::Pawn) && (pinned(
                    mb,
                    stm,
                    s.from,
                ) ==> file_of(s.from) == file_of(k)));
                if pinned(mb, stm, s.from) {
                    lemma_pinned_off_king(mb, stm, s.from);
                    if is_square(s.to) && (s.to == s.from + f || s.to == s.from + 2 * f) {
                        lemma_push_line(k, s.from, s.to);
                    }
                }
            }
        }
    }

    /// Appends the captures en passant.
    fn gen_en_passant(&self, move_list: &mut MoveList)
        requires
            self.can_generate(),
            self.state.ep() matches Some(e) ==> passed(
                self.state.mb(),
                self.state.side_to_move,
                e,
            ),
        ensures
            extends(old(move_list)@, final(move_list)@),
            added(old(move_list)@, final(move_list)@).no_duplicates(),
            forall|s: Step| #[trigger]
                added(old(move_list)@, final(move_list)@).contains(s) <==> s.kind is EnPassant
                    && pawn_step(
                    self.state.mb(),
                    self.state.side_to_move,
                    self.state.ep(),
                    s,
                ),
            in_sequence(self.state.position(), added(old(move_list)@, final(move_list)@)),
    {
        let stm = self.state.side_to_move;
        let ghost a = move_list@;
        proof {
            lemma_added_none(a);
        }
        if let Some(en_passant) = self.state.enpassant {
            let (left, right): (i8, i8) = match stm {
                Side::White => (7, 9),
                Side::Black => (-7, -9),
            };
            let left_pawns = self.capture_pawns(true);
            let right_pawns = self.capture_pawns(false);
            let ghost mb = self.state.mb();
            let ghost e = en_passant.idx();
            if let Some(from) = en_passant.shift(-left) {
                if left_pawns.contains(from) {
                    let m = Move::new(from, en_passant, MoveKind::EnPassant);
                    proof {
                        lemma_ascending_push(a, move_list@, m@, by_place(mb, stm));
                        lemma_added_push(a, move_list@, m@);
                    }
                    move_list.push(m);
                }
            }
            if let Some(from) = en_passant.shift(-right) {
                if right_pawns.contains(from) {
                    let m = Move::new(from, en_passant, MoveKind::EnPassant);
                    proof {
                        lemma_ascending_push(a, move_list@, m@, by_place(mb, stm));
                        lemma_added_push(a, move_list@, m@);
                    }
                    move_list.push(m);
                }
            }
            proof {
                assert forall|s: Step| #[trigger]
                    added(a, move_list@).contains(s) <==> s.kind is EnPassant && pawn_step(
                        mb,
                        stm,
                        self.state.ep(),
                        s,
                    ) by {
                    let probe = Step { from: s.from, to: s.to, kind: MoveKind::Capture };
                    assert(keeps_pin(mb, stm, s) == keeps_pin(mb, stm, probe));
                    if is_square(s.from) && s.to == e {
                        lemma_pawn_offsets(stm, s.from, e);
                    }
                    assert(left_pawns.has(e - left) <==> {
                        &&& holds(mb, e - left, stm, Piece::Pawn)
                        &&& file_of(e - left) != pawn_edge(stm, true)
                        &&& keeps_pin(
                            mb,
                            stm,
                            Step { from: e - left, to: e, kind: MoveKind::Capture },
                        )
                    });
                    assert(right_pawns.has(e - right) <==> {
                        &&& holds(mb, e - right, stm, Piece::Pawn)
                        &&& file_of(e - right) != pawn_edge(stm, false)
                        &&& keeps_pin(
                            mb,
                            stm,
                            Step { from: e - right, to: e, kind: MoveKind::Capture },
                        )
                    });
                }
            }
        }
    }

    pub fn gen_pawn_moves(&self, move_list: &mut MoveList, kind: MoveGenKind)
        requires
            self.can_generate(),
            self.state.ep() matches Some(e) ==> passed(
                self.state.mb(),
                self.state.side_to_move,
                e,
            ),
        ensures
            extends(old(move_list)@, final(move_list)@),
            added(old(move_list)@, final(move_list)@).no_duplicates(),
            forall|s: Step| #[trigger]
                added(old(move_list)@, final(move_list)@).contains(s) <==> kind.wants(s.kind)
                    && pawn_step(
                    self.state.mb(),
                    self.state.side_to_move,
                    self.state.ep(),
                    s,
                ),
            in_sequence(self.state.position(), added(old(move_list)@, final(move_list)@)),
    {
        let ghost mb = self.state.mb();
        let ghost stm = self.state.side_to_move;
        let ghost a = move_list@;
        self.gen_pawn_pushes(move_list, kind);
        if kind.is_noisy() {
            let ghost b = move_list@;
            self.gen_pawn_captures(move_list, true);
            let ghost c = move_list@;
            self.gen_pawn_captures(move_list, false);
            let ghost d = move_list@;
            self.gen_en_passant(move_list);
            proof {
                assert forall|s: Step| #[trigger]
                    pawn_step(mb, stm, self.state.ep(), s) implies mb[s.from] == Some(
                    (stm, Piece::Pawn),
                ) && is_square(s.from) && is_square(s.to) by {}
                lemma_sections_join(mb, stm, a, b, c, 5);
                lemma_added_join(a, b, c);
                lemma_sections_join(mb, stm, a, c, d, 7);
                lemma_added_join(a, c, d);
                lemma_sections_join(mb, stm, a, d, move_list@, 9);
                lemma_added_join(a, d, move_list@);
                assert forall|s: Step| pawn_step(mb, stm, self.state.ep(), s) && s.kind.capturing()
                    && s.kind !is EnPassant implies s.to == s.from + pawn_offset(stm, true) || s.to
                    == s.from + pawn_offset(stm, false) by {
                    lemma_pawn_offsets(stm, s.from, s.to);
                }
            }
        }
    }

    /// Appends the moves of the position.
    pub fn append_moves(&self, kind: MoveGenKind, move_list: &mut MoveList)
        requires
            self.wf(),
        ensures
            extends(old(move_list)@, final(move_list)@),
            added(old(move_list)@, final(move_list)@).no_duplicates(),
            forall|s: Step| #[trigger]
                added(old(move_list)@, final(move_list)@).contains(s) <==> kind.wants(s.kind)
                    && generated(self.state, s),
            added(old(move_list)@, final(move_list)@) == move_order(self.state.position(), kind),
    {
        let ghost mb = self.state.mb();
        let ghost stm = self.state.side_to_move;
        let ghost a = move_list@;
        self.gen_king_moves(move_list, kind);
        let ghost b = move_list@;
        proof {
            lemma_several(self.state);
            crate::board::position::lemma_king_exists(mb, stm);
        }
        if self.state.checkers.count_bits() > 1 {
            proof {
                law_move_order(self.state.position(), kind, added(a, b));
            }
            return;
        }
        self.gen_pawn_moves(move_list, kind);
        let ghost c = move_list@;
        self.gen_knight_moves(move_list, kind);
        let ghost d = move_list@;
        self.gen_bishop_moves(move_list, kind);
        let ghost e = move_list@;
        self.gen_rook_moves(move_list, kind);
        let ghost f = move_list@;
        self.gen_queen_moves(move_list, kind);
        let ghost g = move_list@;
        proof {
            lemma_added_none(g);
        }
        if kind.is_quiet() {
            self.gen_castling_moves(move_list);
        }
        proof {
            assert forall|s: Step| #[trigger] king_step(mb, stm, s) implies is_square(s.from)
                && is_square(s.to) && section(mb, stm, s) < 2 by {}
            assert forall|s: Step| #[trigger] pawn_step(mb, stm, self.state.ep(), s) implies
                is_square(s.from) && is_square(s.to) && 2 <= section(mb, stm, s) < 11 by {}
            assert forall|s: Step, x: Piece| #[trigger] piece_step(mb, stm, x, s) implies is_square(
                s.from,
            ) && is_square(s.to) && mb[s.from] == Some((stm, x)) by {}
            assert forall|s: Step| #[trigger]
                castling_step(mb, stm, self.state.castling_rights, s) implies is_square(s.from)
                && is_square(s.to) && 19 <= section(mb, stm, s) by {}
            lemma_sections_join(mb, stm, a, b, c, 2);
            lemma_added_join(a, b, c);
            lemma_sections_join(mb, stm, a, c, d, 11);
            lemma_added_join(a, c, d);
            lemma_sections_join(mb, stm, a, d, e, 13);
            lemma_added_join(a, d, e);
            lemma_sections_join(mb, stm, a, e, f, 15);
            lemma_added_join(a, e, f);
            lemma_sections_join(mb, stm, a, f, g, 17);
            lemma_added_join(a, f, g);
            lemma_sections_join(mb, stm, a, g, move_list@, 19);
            lemma_added_join(a, g, move_list@);
            law_move_order(self.state.position(), kind, added(a, move_list@));
        }
    }

    /// The moves of the position.
    pub fn generate_moves(&self, kind: MoveGenKind) -> (res: MoveList)
        requires
            self.wf(),
        ensures
            res@.no_duplicates(),
            forall|s: Step| #[trigger]
                res@.contains(s) <==> kind.wants(s.kind) && generated(self.state, s),
            res@ == move_order(self.state.position(), kind),
    {
        let mut move_list = MoveList::new();
        let ghost a = move_list@;
        self.append_moves(kind, &mut move_list);
        proof {
            assert(added(a, move_list@) =~= move_list@);
        }
        move_list
    }
}

/// More than one bit in the word of checkers means more than one checker.
pub proof fn lemma_several(st: BoardState)
    requires
        st.threats_current(),
    ensures
        st.checkers.squares().len() > 1 <==> !one_check(st.mb(), st.side_to_move),
{
    let w = st.checkers.squares();
    let mb = st.mb();
    let stm = st.side_to_move;
    lemma_bits_finite(st.checkers.0);
    assert forall|c: int| w.contains(c) <==> checker(mb, stm, c) by {
        assert(st.checkers.has(c) <==> checker(mb, stm, c));
    }
    if one_check(mb, stm) {
        if w.len() > 0 {
            let c = w.choose();
            assert(w.contains(c));
            assert(checker(mb, stm, c));
            assert(w.remove(c) =~= Set::<int>::empty()) by {
                assert forall|d: int| !w.remove(c).contains(d) by {
                    if w.contains(d) {
                        assert(checker(mb, stm, d));
                    }
                }
            }
            assert(w.remove(c).len() == 0);
        }
    } else {
        let (c, d) = choose|c: int, d: int| #[trigger]
            checker(mb, stm, c) && #[trigger] checker(mb, stm, d) && c != d;
        assert(w.contains(c) && w.contains(d));
        assert(w.remove(c).contains(d));
        assert(w.remove(c).len() > 0) by {
            if w.remove(c).len() == 0 {
                assert(w.remove(c) =~= Set::<int>::empty());
            }
        }
    }
}

} // verus!
