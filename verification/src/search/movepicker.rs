//! The order in which the moves of a position are searched.

use crate::board::BoardState;
use crate::board::movegen::{generated, move_order, MoveGenKind};
use crate::board::see::{gain_of, wins_exchange};
use crate::board::status::checks_directly;
use crate::search::data::SearchData;
use crate::types::bits::is_square;
use crate::types::constants::MAX_HISTORY;
use crate::types::history::{noisy_place, pawn_place, quiet_place, quotient};
use crate::types::moves::{added, Move, MoveEntry, MoveList, Step};
use crate::types::pieces::Piece;
use vstd::prelude::*;

verus! {

#[derive(Debug, Clone, Copy, PartialEq, Eq, Structural)]
pub enum Stage {
    HashMove,
    FirstNoisy,
    GoodNoisy,
    Quiet,
    BadNoisy,
}

/// The kind of the piece that a step takes.
pub open spec fn victim_kind(st: BoardState, s: Step) -> Option<Piece> {
    match st.mb()[s.victim()] {
        Some((_, piece)) => Some(piece),
        None => None,
    }
}

/// How well a noisy move has done.
pub open spec fn noisy_history_of(d: SearchData, s: Step) -> int {
    let st = d.board.state;
    d.noisy_history.table()[noisy_place(
        st.mb()[s.from],
        s.to,
        victim_kind(st, s),
        st.threats,
    )] as int
}

/// How well a quiet move has done.
pub open spec fn quiet_history_of(d: SearchData, s: Step) -> int {
    let st = d.board.state;
    d.quiet_history.table()[quiet_place(st.threats, st.side_to_move, s)] as int
}

/// The score of a noisy move: for a queen, for what it takes and for its history.
pub open spec fn noisy_score(d: SearchData, s: Step) -> int {
    (if s.kind.promoted() == Some(Piece::Queen) {
        4885int
    } else {
        0
    }) + (match victim_kind(d.board.state, s) {
        Some(piece) => piece.worth(),
        None => 0,
    }) + quotient(noisy_history_of(d, s), 8)
}

/// The score of a quiet move: for its histories and for a direct check.
pub open spec fn quiet_score(d: SearchData, s: Step, ply: int) -> int {
    let st = d.board.state;
    let pawn = d.pawn_history.table()[pawn_place(d.pawn_key_spec(), st.mb()[s.from], s.to)];
    quiet_history_of(d, s) + quotient(1006 * pawn, 1024) + quotient(
        1602 * d.conthistory_of(s, ply, 1),
        1024,
    ) + quotient(1059 * d.conthistory_of(s, ply, 2), 1024) + quotient(
        1066 * d.conthistory_of(s, ply, 4),
        1024,
    ) + if checks_directly(st.mb(), s) {
        9779int
    } else {
        0
    }
}

/// Divides a product of a weight and a history value by 1024.
fn weighted(weight: i32, value: i32) -> (res: i32)
    requires
        0 <= weight <= 2000,
        -MAX_HISTORY <= value <= MAX_HISTORY,
    ensures
        res == quotient(weight * value, 1024),
        -16000 <= res <= 16000,
{
    assert(-16000000 <= weight * value <= 16000000) by (nonlinear_arith)
        requires
            0 <= weight <= 2000,
            -8000 <= value <= 8000,
    ;
    let product: i32 = weight * value;
    if product >= 0 {
        product / 1024
    } else {
        -((-product) / 1024)
    }
}

/// Gives the moves of a position one after another: a move from the table of positions,
/// captures and promotions that do not lose, quiet moves, then the other captures.
#[derive(Debug)]
pub struct MovePicker {
    moves: MoveList,
    tt_move: Option<Move>,
    status: Stage,
    bad_noisy: Vec<Move>,
    bad_index: usize,
}

/// What a picker is about to give: the list that it takes moves from, each with its score, and
/// the noisy moves that it has set aside.
pub struct Picking {
    pub stage: Stage,
    pub list: Seq<(Step, int)>,
    pub aside: Seq<Step>,
}

/// The entry at `i` has the greatest score, and those behind it have smaller ones.
pub open spec fn is_last_best(list: Seq<(Step, int)>, i: int) -> bool {
    &&& 0 <= i < list.len()
    &&& forall|j: int| 0 <= j < list.len() ==> (#[trigger] list[j]).1 <= list[i].1
    &&& forall|j: int| i < j < list.len() ==> (#[trigger] list[j]).1 < list[i].1
}

/// The place of the last of the entries with the greatest score.
pub open spec fn last_best(list: Seq<(Step, int)>) -> int {
    choose|i: int| is_last_best(list, i)
}

/// The list without the entry at `i`, whose place the last one takes.
pub open spec fn taken<T>(list: Seq<T>, i: int) -> Seq<T> {
    Seq::new(
        (list.len() - 1) as nat,
        |j: int|
            if j == i {
                list.last()
            } else {
                list[j]
            },
    )
}

/// The list without the move from the table of positions.
pub open spec fn without(list: Seq<Step>, tt_move: Option<Move>) -> Seq<Step> {
    match tt_move {
        Some(m) => if list.contains(m@) {
            taken(list, list.index_of(m@))
        } else {
            list
        },
        None => list,
    }
}

/// The noisy moves to pick from, with their scores.
pub open spec fn noisy_list(d: SearchData, tt_move: Option<Move>) -> Seq<(Step, int)> {
    without(move_order(d.board.state.position(), MoveGenKind::Noisy), tt_move).map_values(
        |s: Step| (s, noisy_score(d, s)),
    )
}

/// The quiet moves to pick from, with their scores.
pub open spec fn quiet_list(d: SearchData, tt_move: Option<Move>, ply: int) -> Seq<(Step, int)> {
    without(move_order(d.board.state.position(), MoveGenKind::Quiet), tt_move).map_values(
        |s: Step| (s, quiet_score(d, s, ply)),
    )
}

/// What is left of a list when moves are taken from it, the best first, up to one that does
/// not lose too much; which moves do; and the one that does not, if there is one.
pub struct Sifting {
    pub list: Seq<(Step, int)>,
    pub aside: Seq<Step>,
    pub good: Option<Step>,
}

pub open spec fn sifted(st: BoardState, list: Seq<(Step, int)>) -> Sifting
    decreases list.len(),
{
    if list.len() == 0 {
        Sifting { list, aside: Seq::empty(), good: None }
    } else {
        let (s, score) = list[last_best(list)];
        let rest = taken(list, last_best(list));
        if holds_up(st, s, score) {
            Sifting { list: rest, aside: Seq::empty(), good: Some(s) }
        } else {
            let more = sifted(st, rest);
            Sifting { aside: seq![s] + more.aside, ..more }
        }
    }
}

/// The next of the noisy moves that were set aside.
pub open spec fn picked_aside(a: Picking) -> (Picking, Option<Step>) {
    if a.aside.len() > 0 {
        (Picking { aside: a.aside.drop_first(), ..a }, Some(a.aside[0]))
    } else {
        (a, None)
    }
}

/// The best quiet move, or else one that was set aside.
pub open spec fn picked_quiet(a: Picking, skip: bool) -> (Picking, Option<Step>) {
    if a.stage is Quiet && !skip {
        if a.list.len() > 0 {
            (
                Picking { list: taken(a.list, last_best(a.list)), ..a },
                Some(a.list[last_best(a.list)].0),
            )
        } else {
            picked_aside(Picking { stage: Stage::BadNoisy, ..a })
        }
    } else {
        picked_aside(a)
    }
}

/// What a picker gives next, and what it is about to give then.
pub open spec fn picked(
    a: Picking,
    tt_move: Option<Move>,
    d: SearchData,
    skip: bool,
    ply: int,
) -> (Picking, Option<Step>) {
    if a.stage is HashMove && (tt_move matches Some(m) && !(skip && m@.kind.quiet())) {
        (Picking { stage: Stage::FirstNoisy, ..a }, Some(tt_move->0@))
    } else {
        let b = if a.stage is HashMove || a.stage is FirstNoisy {
            Picking { stage: Stage::GoodNoisy, list: noisy_list(d, tt_move), ..a }
        } else {
            a
        };
        if b.stage is GoodNoisy {
            let f = sifted(d.board.state, b.list);
            let aside = b.aside + f.aside;
            if f.good is Some {
                (Picking { list: f.list, aside, ..b }, f.good)
            } else if !skip {
                picked_quiet(
                    Picking { stage: Stage::Quiet, list: quiet_list(d, tt_move, ply), aside },
                    skip,
                )
            } else {
                picked_quiet(Picking { stage: Stage::BadNoisy, list: f.list, aside }, skip)
            }
        } else {
            picked_quiet(b, skip)
        }
    }
}

/// A list has one last entry with the greatest score.
proof fn lemma_last_best(list: Seq<(Step, int)>, i: int)
    requires
        is_last_best(list, i),
    ensures
        last_best(list) == i,
{
    let k = last_best(list);
    assert(is_last_best(list, k));
    if k < i {
        assert(list[i].1 < list[k].1);
    }
    if i < k {
        assert(list[k].1 < list[i].1);
    }
}

impl MovePicker {
    /// The list that moves are taken from, each with its score.
    pub closed spec fn listed(self) -> Seq<(Step, int)> {
        self.moves.entries().map_values(|e: MoveEntry| (e.mv@, e.score as int))
    }

    /// What the picker is about to give.
    pub closed spec fn picking(self) -> Picking {
        Picking { stage: self.status, list: self.listed(), aside: self.aside() }
    }

    pub closed spec fn tt_spec(self) -> Option<Move> {
        self.tt_move
    }

    /// The step is the move from the table of positions.
    pub open spec fn is_tt(self, s: Step) -> bool {
        self.tt_spec() matches Some(m) && m@ == s
    }

    spec fn set_aside(self, s: Step, start: int) -> bool {
        exists|i: int| start <= i < self.bad_noisy@.len() && (#[trigger] self.bad_noisy@[i])@ == s
    }

    /// The moves that are still to come if none is skipped.
    pub closed spec fn pending(self, st: BoardState) -> Set<Step> {
        match self.status {
            Stage::HashMove => Set::new(|s: Step| generated(st, s)),
            Stage::FirstNoisy => Set::new(|s: Step| generated(st, s) && !self.is_tt(s)),
            Stage::GoodNoisy => Set::new(
                |s: Step|
                    self.moves@.contains(s) || self.set_aside(s, self.bad_index as int)
                        || generated(st, s) && s.kind.quiet() && !self.is_tt(s),
            ),
            Stage::Quiet => Set::new(
                |s: Step| self.moves@.contains(s) || self.set_aside(s, self.bad_index as int),
            ),
            Stage::BadNoisy => Set::new(|s: Step| self.set_aside(s, self.bad_index as int)),
        }
    }

    /// The score with which a move is held in the list.
    spec fn held(self, s: Step) -> int {
        let k = choose|k: int| 0 <= k < self.moves@.len() && self.moves@[k] == s;
        self.moves.entries()[k].score as int
    }

    /// A noisy move of which it is not known yet whether it loses too much.
    pub closed spec fn untested(self, st: BoardState, s: Step) -> bool {
        match self.status {
            Stage::HashMove => generated(st, s) && !s.kind.quiet() && !self.is_tt(s),
            Stage::FirstNoisy => generated(st, s) && !s.kind.quiet() && !self.is_tt(s),
            Stage::GoodNoisy => self.moves@.contains(s),
            _ => false,
        }
    }

    /// By what noisy moves are ordered: their scores when the first of them is asked for.
    pub closed spec fn noisy_rank(self, d: SearchData, s: Step) -> int {
        if self.status is GoodNoisy {
            self.held(s)
        } else {
            noisy_score(d, s)
        }
    }

    /// By what quiet moves are ordered: their scores when the first of them is asked for.
    pub closed spec fn quiet_rank(self, d: SearchData, s: Step, ply: int) -> int {
        if self.status is Quiet {
            self.held(s)
        } else {
            quiet_score(d, s, ply)
        }
    }

    /// The noisy moves that lose too much and are still to come, in their order.
    pub closed spec fn aside(self) -> Seq<Step> {
        Seq::new(
            (self.bad_noisy@.len() - self.bad_index) as nat,
            |i: int| self.bad_noisy@[self.bad_index + i]@,
        )
    }

    /// The noisy moves that do not lose too much are being given.
    pub closed spec fn is_sorting(self) -> bool {
        self.status is GoodNoisy
    }

    spec fn parts_ok(self, st: BoardState) -> bool {
        &&& self.bad_index <= self.bad_noisy@.len()
        &&& self.moves@.no_duplicates()
        &&& forall|i: int|
            0 <= i < self.bad_noisy@.len() ==> generated(st, (#[trigger] self.bad_noisy@[i])@)
                && !self.bad_noisy@[i]@.kind.quiet() && !self.is_tt(self.bad_noisy@[i]@)
                && !self.moves@.contains(self.bad_noisy@[i]@)
        &&& forall|i: int, j: int|
            0 <= i < j < self.bad_noisy@.len() ==> (#[trigger] self.bad_noisy@[i])@ != (
            #[trigger] self.bad_noisy@[j])@
    }

    pub closed spec fn wf(self, st: BoardState) -> bool {
        &&& self.tt_move matches Some(m) ==> generated(st, m@)
        &&& self.parts_ok(st)
        &&& match self.status {
            Stage::HashMove => self.tt_move is Some && self.moves@.len() == 0
                && self.bad_noisy@.len() == 0,
            Stage::FirstNoisy => self.moves@.len() == 0 && self.bad_noisy@.len() == 0,
            Stage::GoodNoisy => {
                &&& forall|s: Step| #[trigger]
                    self.moves@.contains(s) ==> generated(st, s) && !s.kind.quiet() && !self.is_tt(
                        s,
                    )
                &&& forall|i: int|
                    0 <= i < self.moves.entries().len() ==> -10000 <= (
                    #[trigger] self.moves.entries()[i]).score <= 10000
            },
            Stage::Quiet => forall|s: Step| #[trigger]
                self.moves@.contains(s) ==> generated(st, s) && s.kind.quiet() && !self.is_tt(s),
            Stage::BadNoisy => self.moves@.len() == 0,
        }
    }

    /// No move has been given yet, and one from the table of positions comes first.
    pub closed spec fn is_fresh(self) -> bool {
        self.status is HashMove
    }

    /// No move has been given yet but the one from the table of positions.
    pub closed spec fn is_unsorted(self) -> bool {
        self.status is FirstNoisy
    }

    /// The move from the table of positions comes next.
    pub open spec fn gives_tt(self, skip_quiets: bool) -> bool {
        self.is_fresh() && (self.tt_spec() matches Some(m) && !(skip_quiets && m@.kind.quiet()))
    }

    /// All moves are to come. The given one comes first; it is a move of the position.
    pub fn new(tt_move: Option<Move>) -> (res: MovePicker)
        ensures
            is_new(res, tt_move),
            res.picking() == (Picking {
                stage: if tt_move is Some {
                    Stage::HashMove
                } else {
                    Stage::FirstNoisy
                },
                list: Seq::empty(),
                aside: Seq::empty(),
            }),
            forall|st: BoardState|
                (tt_move matches Some(m) ==> generated(st, m@)) ==> #[trigger] res.wf(st),
    {
        let res = MovePicker {
            moves: MoveList::new(),
            tt_move,
            status: if tt_move.is_some() { Stage::HashMove } else { Stage::FirstNoisy },
            bad_noisy: Vec::new(),
            bad_index: 0,
        };
        assert(res.listed() =~= Seq::empty());
        assert(res.aside() =~= Seq::empty());
        res
    }

    /// Gives each noisy move its score.
    fn score_noisy_moves(&mut self, data: &SearchData)
        requires
            data.wf(),
        ensures
            final(self).moves@ == old(self).moves@,
            *final(self) == (MovePicker { moves: final(self).moves, ..*old(self) }),
            forall|i: int|
                0 <= i < old(self).moves@.len() ==> (
                #[trigger] final(self).moves.entries()[i]).score == noisy_score(
                    *data,
                    old(self).moves@[i],
                ),
    {
        broadcast use MoveList::lemma_entries;

        let mut i: usize = 0;
        let ghost start = *self;
        while i < self.moves.len()
            invariant
                i <= start.moves@.len(),
                data.wf(),
                self.moves@ == start.moves@,
                self.moves.entries().len() == start.moves@.len(),
                *self == (MovePicker { moves: self.moves, ..start }),
                forall|j: int|
                    0 <= j < i ==> (#[trigger] self.moves.entries()[j]).score == noisy_score(
                        *data,
                        start.moves@[j],
                    ),
            decreases start.moves@.len() - i,
        {
            let mv = self.moves.get(i).mv;
            let mut score: i32 = 0;
            if mv.get_kind().is_queen_promotion() {
                score = score + 4885;
            }
            let piece = data.board.get_piece_at_square(mv.get_from());
            let captured: Option<Piece> = match data.board.get_piece_at_square(
                mv.get_capture_square(),
            ) {
                Some((_, p)) => Some(p),
                None => None,
            };
            if let Some(p) = captured {
                score = score + p.value();
            }
            let history: i32 = data.noisy_history.get(
                piece,
                mv.get_to(),
                captured,
                data.board.state.threats,
            );
            let share: i32 = if history >= 0 { history / 8 } else { -((-history) / 8) };
            self.moves.set_score(i, score + share);
            i += 1;
        }
    }

    /// Gives each quiet move its score.
    fn score_quiet_moves(&mut self, data: &SearchData, ply: i32)
        requires
            data.wf(),
            0 <= ply <= 128,
        ensures
            final(self).moves@ == old(self).moves@,
            *final(self) == (MovePicker { moves: final(self).moves, ..*old(self) }),
            forall|i: int|
                0 <= i < old(self).moves@.len() ==> (
                #[trigger] final(self).moves.entries()[i]).score == quiet_score(
                    *data,
                    old(self).moves@[i],
                    ply as int,
                ),
    {
        broadcast use MoveList::lemma_entries;

        let side = data.board.state.side_to_move;
        let threats = data.board.state.threats;
        let key = data.board.pawn_key();
        let mut i: usize = 0;
        let ghost start = *self;
        while i < self.moves.len()
            invariant
                i <= start.moves@.len(),
                data.wf(),
                0 <= ply <= 128,
                side == data.board.state.side_to_move,
                threats == data.board.state.threats,
                key == data.pawn_key_spec(),
                self.moves@ == start.moves@,
                self.moves.entries().len() == start.moves@.len(),
                *self == (MovePicker { moves: self.moves, ..start }),
                forall|j: int|
                    0 <= j < i ==> (#[trigger] self.moves.entries()[j]).score == quiet_score(
                        *data,
                        start.moves@[j],
                        ply as int,
                    ),
            decreases start.moves@.len() - i,
        {
            let mv = self.moves.get(i).mv;
            let piece = data.board.get_piece_at_square(mv.get_from());
            let to = mv.get_to();
            let pawn: i32 = weighted(1006, data.pawn_history.get(key, piece, to));
            let one: i32 = weighted(1602, data.conthistory(mv, ply, 1));
            let two: i32 = weighted(1059, data.conthistory(mv, ply, 2));
            let four: i32 = weighted(1066, data.conthistory(mv, ply, 4));
            let check: i32 = if data.board.is_direct_check(mv) { 9779 } else { 0 };
            let score: i32 = data.quiet_history.get(threats, side, mv) + pawn + one + two + four
                + check;
            self.moves.set_score(i, score);
            i += 1;
        }
    }

    /// Takes out the last of the entries with the greatest score.
    fn best_entry(&mut self) -> (res: MoveEntry)
        requires
            old(self).moves@.len() > 0,
        ensures
            *final(self) == (MovePicker { moves: final(self).moves, ..*old(self) }),
            exists|i: int|
                {
                    &&& 0 <= i < old(self).moves@.len()
                    &&& #[trigger] best_at(old(self).moves.entries(), i)
                    &&& res == old(self).moves.entries()[i]
                    &&& res.mv@ == old(self).moves@[i]
                    &&& final(self).moves.entries() == old(self).moves.entries().update(
                        i,
                        old(self).moves.entries().last(),
                    ).drop_last()
                    &&& final(self).moves@ == old(self).moves@.update(
                        i,
                        old(self).moves@.last(),
                    ).drop_last()
                },
            final(self).listed() == taken(old(self).listed(), last_best(old(self).listed())),
            (res.mv@, res.score as int) == old(self).listed()[last_best(old(self).listed())],
    {
        broadcast use MoveList::lemma_entries;

        let mut best_index: usize = 0;
        let mut best_score: i32 = i32::MIN;
        let mut index: usize = 0;
        while index < self.moves.len()
            invariant
                index <= self.moves@.len(),
                self.moves@.len() > 0,
                self.moves.entries().len() == self.moves@.len(),
                *self == *old(self),
                index == 0 ==> best_score == i32::MIN && best_index == 0,
                index > 0 ==> best_index < index && best_score
                    == self.moves.entries()[best_index as int].score,
                forall|j: int|
                    0 <= j < index ==> (#[trigger] self.moves.entries()[j]).score <= best_score,
                forall|j: int|
                    best_index < j < index ==> (#[trigger] self.moves.entries()[j]).score
                        < best_score,
            decreases self.moves@.len() - index,
        {
            let score: i32 = self.moves.get(index).score;
            if score >= best_score {
                best_score = score;
                best_index = index;
            }
            index += 1;
        }
        assert(best_at(self.moves.entries(), best_index as int));
        let ghost list = self.listed();
        proof {
            let k = best_index as int;
            assert(self.moves.entries().len() > 0);
            assert(is_last_best(list, k)) by {
                assert forall|j: int| 0 <= j < list.len() implies (#[trigger] list[j]).1
                    == self.moves.entries()[j].score by {}
            }
            lemma_last_best(list, k);
        }
        let res = self.moves.swap_remove(best_index);
        assert(self.listed() =~= taken(list, best_index as int));
        res
    }

    /// Takes the move from the table of positions out of the list.
    fn remove_tt_move(&mut self)
        requires
            old(self).moves@.no_duplicates(),
        ensures
            *final(self) == (MovePicker { moves: final(self).moves, ..*old(self) }),
            final(self).moves@.no_duplicates(),
            forall|s: Step| #[trigger]
                final(self).moves@.contains(s) <==> old(self).moves@.contains(s) && !old(self).is_tt(s),
            final(self).moves@ == without(old(self).moves@, old(self).tt_move),
    {
        if let Some(tt_mv) = self.tt_move {
            let mut i: usize = 0;
            while i < self.moves.len()
                invariant
                    i <= self.moves@.len(),
                    *self == *old(self),
                    self.moves@.no_duplicates(),
                    self.tt_move == Some(tt_mv),
                    forall|j: int| 0 <= j < i ==> #[trigger] self.moves@[j] != tt_mv@,
                decreases self.moves@.len() - i,
            {
                let mv = self.moves.get(i).mv;
                if mv.same(&tt_mv) {
                    proof {
                        lemma_swap_remove(self.moves@, i as int);
                        assert(self.moves@[i as int] == tt_mv@);
                        assert(self.moves@.contains(tt_mv@));
                        assert(self.moves@.index_of(tt_mv@) == i);
                    }
                    let ghost list = self.moves@;
                    let _ = self.moves.swap_remove(i);
                    assert(self.moves@ =~= taken(list, i as int));
                    return ;
                }
                i += 1;
            }
        }
    }
}

/// The entry at `i` has the greatest score, and those behind it have smaller ones.
pub open spec fn best_at(entries: Seq<MoveEntry>, i: int) -> bool {
    &&& 0 <= i < entries.len()
    &&& forall|j: int| 0 <= j < entries.len() ==> (#[trigger] entries[j]).score <= entries[i].score
    &&& forall|j: int| i < j < entries.len() ==> (#[trigger] entries[j]).score < entries[i].score
}

/// Taking an element out and closing the gap with the last one.
proof fn lemma_swap_remove(a: Seq<Step>, i: int)
    requires
        a.no_duplicates(),
        0 <= i < a.len(),
    ensures
        a.update(i, a.last()).drop_last().no_duplicates(),
        forall|s: Step| #[trigger]
            a.update(i, a.last()).drop_last().contains(s) <==> a.contains(s) && s != a[i],
{
    let b = a.update(i, a.last()).drop_last();
    assert forall|s: Step| #[trigger] b.contains(s) <==> a.contains(s) && s != a[i] by {
        if b.contains(s) {
            let k = choose|k: int| 0 <= k < b.len() && b[k] == s;
            if k == i {
                assert(a[a.len() - 1] == s);
            } else {
                assert(a[k] == s);
            }
        }
        if a.contains(s) && s != a[i] {
            let k = choose|k: int| 0 <= k < a.len() && a[k] == s;
            if k == a.len() - 1 {
                assert(b[i] == s);
            } else {
                assert(b[k] == s);
            }
        }
    }
}

/// The entry does not lose too much: the better its score, the more it may lose.
pub open spec fn passes(st: BoardState, e: MoveEntry) -> bool {
    holds_up(st, e.mv@, e.score as int)
}

/// Which moves are still to come once a picker has given one.
pub open spec fn leaves(
    a: MovePicker,
    b: MovePicker,
    st: BoardState,
    skip: bool,
    res: Option<Move>,
) -> bool {
    match res {
        Some(m) => {
            &&& a.pending(st).contains(m@)
            &&& !b.pending(st).contains(m@)
            &&& skip ==> !m@.kind.quiet()
            &&& forall|s: Step| #[trigger]
                b.pending(st).contains(s) ==> a.pending(st).contains(s)
            &&& forall|s: Step| #[trigger]
                a.pending(st).contains(s) && s != m@ && !b.pending(st).contains(s) ==> skip
                    && s.kind.quiet()
        },
        None => {
            &&& forall|s: Step| #[trigger] a.pending(st).contains(s) ==> skip && s.kind.quiet()
            &&& forall|s: Step| #[trigger] b.pending(st).contains(s) ==> skip && s.kind.quiet()
        },
    }
}

/// A picker keeps its order: the move from the table of positions, the noisy moves that do
/// not lose too much with the best first, the quiet moves with the best first, then the other
/// noisy moves in the order in which they were set aside.
#[verifier::opaque]
pub open spec fn in_order(
    a: MovePicker,
    d: SearchData,
    skip: bool,
    ply: int,
    b: MovePicker,
    res: Option<Move>,
) -> bool {
    let st = d.board.state;
    &&& res is None ==> b.aside().len() == 0
    &&& !a.gives_tt(skip) ==> match res {
        Some(m) => if b.is_sorting() {
            &&& best_noisy(a, d, m@)
            &&& a.aside().is_prefix_of(b.aside())
        } else if m@.kind.quiet() {
            &&& best_quiet_move(a, d, m@, ply)
            &&& none_holds_up(a, d)
            &&& a.aside().is_prefix_of(b.aside())
        } else {
            &&& none_holds_up(a, d)
            &&& !skip ==> forall|s: Step| #[trigger]
                a.pending(st).contains(s) ==> !s.kind.quiet()
            &&& a.aside().is_prefix_of(seq![m@] + b.aside())
        },
        None => none_holds_up(a, d) && a.aside().len() == 0,
    }
    &&& a.is_fresh() ==> (a.tt_spec() matches Some(m) && (!(skip && m@.kind.quiet()) ==> res
        == Some(m) && b.is_unsorted()))
    &&& a.is_unsorted() && (exists|s: Step| #[trigger]
        a.pending(st).contains(s) && is_good(d, s)) ==> {
        &&& res matches Some(m)
        &&& is_good(d, m@)
        &&& forall|s: Step| #[trigger]
            a.pending(st).contains(s) && is_good(d, s) ==> noisy_score(d, s) <= noisy_score(
                d,
                m@,
            )
    }
}

/// A picker gives the move that is next, and is then about to give what follows it.
#[verifier::opaque]
pub open spec fn picks(
    a: MovePicker,
    d: SearchData,
    skip: bool,
    ply: int,
    b: MovePicker,
    res: Option<Move>,
) -> bool {
    let step = match res {
        Some(m) => Some(m@),
        None => None,
    };
    (b.picking(), step) == picked(a.picking(), a.tt_spec(), d, skip, ply)
}

/// What a picker gives next, and the picker after it.
pub open spec fn gave(
    a: MovePicker,
    d: SearchData,
    skip: bool,
    ply: int,
    b: MovePicker,
    res: Option<Move>,
) -> bool {
    &&& b.tt_spec() == a.tt_spec()
    &&& picks(a, d, skip, ply, b, res)
    &&& leaves(a, b, d.board.state, skip, res)
    &&& in_order(a, d, skip, ply, b, res)
}

/// A picker that has not given any move yet. The given move comes first.
pub open spec fn is_new(p: MovePicker, tt_move: Option<Move>) -> bool {
    &&& p.tt_spec() == tt_move
    &&& p.is_fresh() <==> tt_move is Some
    &&& p.is_unsorted() <==> tt_move is None
    &&& forall|st: BoardState, s: Step| #[trigger]
        p.pending(st).contains(s) <==> generated(st, s)
}

/// Of the noisy moves that do not lose too much, the move has the greatest score.
pub open spec fn best_noisy(a: MovePicker, d: SearchData, m: Step) -> bool {
    let st = d.board.state;
    &&& a.untested(st, m)
    &&& holds_up(st, m, a.noisy_rank(d, m))
    &&& forall|s: Step| #[trigger]
        a.untested(st, s) && holds_up(st, s, a.noisy_rank(d, s)) ==> a.noisy_rank(d, s)
            <= a.noisy_rank(d, m)
}

/// No noisy move that is to come does not lose too much.
pub open spec fn none_holds_up(a: MovePicker, d: SearchData) -> bool {
    forall|s: Step| #[trigger]
        a.untested(d.board.state, s) ==> !holds_up(d.board.state, s, a.noisy_rank(d, s))
}

/// Of the quiet moves that are to come, the move has the greatest score.
pub open spec fn best_quiet_move(a: MovePicker, d: SearchData, m: Step, ply: int) -> bool {
    let st = d.board.state;
    forall|s: Step| #[trigger]
        a.pending(st).contains(s) && s.kind.quiet() ==> a.quiet_rank(d, s, ply) <= a.quiet_rank(
            d,
            m,
            ply,
        )
}

/// A move with a score does not lose too much.
pub open spec fn holds_up(st: BoardState, s: Step, score: int) -> bool {
    wins_exchange(st, s, quotient(-score, 4) + 64)
}

/// A noisy move that comes before the quiet ones.
pub open spec fn is_good(d: SearchData, s: Step) -> bool {
    !s.kind.quiet() && holds_up(d.board.state, s, noisy_score(d, s))
}

proof fn lemma_entry_removed(a: Seq<MoveEntry>, i: int)
    requires
        0 <= i < a.len(),
    ensures
        forall|x: MoveEntry| #[trigger]
            a.update(i, a.last()).drop_last().contains(x) ==> a.contains(x),
        forall|x: MoveEntry| #[trigger]
            a.contains(x) ==> x == a[i] || a.update(i, a.last()).drop_last().contains(x),
{
    let b = a.update(i, a.last()).drop_last();
    assert forall|x: MoveEntry| #[trigger] b.contains(x) implies a.contains(x) by {
        let k = choose|k: int| 0 <= k < b.len() && b[k] == x;
        if k == i {
            assert(a[a.len() - 1] == x);
        } else {
            assert(a[k] == x);
        }
    }
    assert forall|x: MoveEntry| #[trigger] a.contains(x) implies x == a[i] || b.contains(x) by {
        let k = choose|k: int| 0 <= k < a.len() && a[k] == x;
        if k != i {
            if k == a.len() - 1 {
                assert(b[i] == x);
            } else {
                assert(b[k] == x);
            }
        }
    }
}

impl MovePicker {
    /// Generates the noisy moves and gives them their scores.
    fn start_noisy(&mut self, data: &SearchData)
        requires
            data.wf(),
            old(self).wf(data.board.state),
            old(self).status is FirstNoisy,
        ensures
            final(self).wf(data.board.state),
            final(self).tt_move == old(self).tt_move,
            final(self).status is GoodNoisy,
            final(self).bad_noisy@.len() == 0,
            final(self).pending(data.board.state) =~= old(self).pending(data.board.state),
            forall|s: Step| #[trigger]
                final(self).moves@.contains(s) <==> generated(data.board.state, s)
                    && !s.kind.quiet() && !old(self).is_tt(s),
            forall|i: int|
                0 <= i < final(self).moves@.len() ==> (#[trigger] final(
                    self).moves.entries()[i]).score == noisy_score(*data, final(self).moves@[i]),
            final(self).listed() == noisy_list(*data, old(self).tt_move),
            final(self).bad_noisy == old(self).bad_noisy,
            final(self).bad_index == old(self).bad_index,
    {
        broadcast use MoveList::lemma_entries;

        let ghost st = data.board.state;
        data.board.append_moves(MoveGenKind::Noisy, &mut self.moves);
        proof {
            assert(added(old(self).moves@, self.moves@) =~= self.moves@);
        }
        self.remove_tt_move();
        self.score_noisy_moves(data);
        self.status = Stage::GoodNoisy;
        proof {
            assert(self.listed() =~= noisy_list(*data, self.tt_move));
            assert forall|i: int| 0 <= i < self.moves.entries().len() implies -10000 <= (
            #[trigger] self.moves.entries()[i]).score <= 10000 by {
                let s = self.moves@[i];
                let place = noisy_place(
                    st.mb()[s.from],
                    s.to,
                    victim_kind(st, s),
                    st.threats,
                );
                let mv = self.moves.entries()[i].mv;
                mv.lemma_squares();
                assert(mv@ == s);
                assert(is_square(s.victim()));
                assert(0 <= place < 11648);
                assert(-8000 <= data.noisy_history.table()[place] <= 8000);
            }
        }
    }

    /// The best noisy move that does not lose too much; those that do are set aside.
    fn good_noisy(&mut self, data: &SearchData) -> (res: Option<Move>)
        requires
            data.wf(),
            old(self).wf(data.board.state),
            old(self).status is GoodNoisy,
        ensures
            final(self).wf(data.board.state),
            final(self).tt_move == old(self).tt_move,
            final(self).status is GoodNoisy,
            final(self).bad_index == old(self).bad_index,
            old(self).bad_noisy@.is_prefix_of(final(self).bad_noisy@),
            ({
                let f = sifted(data.board.state, old(self).listed());
                &&& final(self).listed() == f.list
                &&& final(self).aside() == old(self).aside() + f.aside
                &&& f.good == match res {
                    Some(m) => Some(m@),
                    None => None,
                }
            }),
            res matches Some(m) ==> {
                &&& old(self).moves@.contains(m@)
                &&& final(self).pending(data.board.state) =~= old(self).pending(
                    data.board.state,
                ).remove(m@)
                &&& exists|e: MoveEntry| #[trigger]
                    old(self).moves.entries().contains(e) && e.mv == m && passes(
                        data.board.state,
                        e,
                    ) && forall|x: MoveEntry|
                        old(self).moves.entries().contains(x) && #[trigger] passes(
                            data.board.state,
                            x,
                        ) ==> x.score <= e.score
            },
            res is None ==> {
                &&& final(self).moves@.len() == 0
                &&& final(self).pending(data.board.state) =~= old(self).pending(data.board.state)
                &&& forall|x: MoveEntry| #[trigger]
                    old(self).moves.entries().contains(x) ==> !passes(data.board.state, x)
            },
    {
        let ghost st = data.board.state;
        let ghost start = *self;
        let ghost all = self.moves.entries();
        let ghost mut gone: Seq<Step> = Seq::empty();
        proof {
            assert(self.aside() =~= start.aside() + gone);
            let f = sifted(st, self.listed());
            assert(gone + f.aside =~= f.aside);
        }
        while !self.moves.is_empty()
            invariant
                self.aside() == start.aside() + gone,
                ({
                    let f = sifted(st, self.listed());
                    sifted(st, start.listed()) == (Sifting { aside: gone + f.aside, ..f })
                }),
                data.wf(),
                st == data.board.state,
                start == *old(self),
                all == start.moves.entries(),
                self.wf(st),
                start.wf(st),
                self.tt_move == start.tt_move,
                self.status is GoodNoisy,
                self.bad_index == start.bad_index,
                start.bad_noisy@.is_prefix_of(self.bad_noisy@),
                self.pending(st) =~= start.pending(st),
                forall|s: Step| #[trigger] self.moves@.contains(s) ==> start.moves@.contains(s),
                forall|x: MoveEntry| #[trigger] self.moves.entries().contains(x) ==> all.contains(x),
                forall|x: MoveEntry| #[trigger]
                    all.contains(x) ==> self.moves.entries().contains(x) || !passes(st, x),
            decreases self.moves@.len(),
        {
            broadcast use MoveList::lemma_entries;

            let ghost before = *self;
            assert(before.listed().len() > 0) by {
                assert(before.moves.entries().len() == before.moves@.len());
            }
            let best_entry = self.best_entry();
            let ghost k = choose|k: int|
                {
                    &&& 0 <= k < before.moves@.len()
                    &&& #[trigger] best_at(before.moves.entries(), k)
                    &&& best_entry == before.moves.entries()[k]
                    &&& best_entry.mv@ == before.moves@[k]
                    &&& self.moves.entries() == before.moves.entries().update(
                        k,
                        before.moves.entries().last(),
                    ).drop_last()
                    &&& self.moves@ == before.moves@.update(k, before.moves@.last()).drop_last()
                };
            let ghost s = best_entry.mv@;
            proof {
                lemma_swap_remove(before.moves@, k);
                lemma_entry_removed(before.moves.entries(), k);
                assert(before.moves@.contains(s));
                assert(before.moves.entries().contains(best_entry));
                assert forall|i: int| 0 <= i < self.moves.entries().len() implies -10000 <= (
                #[trigger] self.moves.entries()[i]).score <= 10000 by {
                    assert(self.moves.entries().contains(self.moves.entries()[i]));
                    let x = self.moves.entries()[i];
                    let j = choose|j: int|
                        0 <= j < before.moves.entries().len() && before.moves.entries()[j] == x;
                    assert(-10000 <= before.moves.entries()[j].score <= 10000);
                }
            }
            let score: i32 = best_entry.score;
            let share: i32 = if score <= 0 { (-score) / 4 } else { -(score / 4) };
            let threshold: i32 = share + 64;
            proof {
                assert(threshold == quotient(-score as int, 4) + 64);
                lemma_gain_bound(st, s);
            }
            if !data.board.see(best_entry.mv, threshold) {
                self.bad_noisy.push(best_entry.mv);
                proof {
                    let f = sifted(st, self.listed());
                    assert(gone.push(s) + f.aside =~= gone + (seq![s] + f.aside));
                    gone = gone.push(s);
                    assert(self.aside() =~= start.aside() + gone) by {
                        assert(self.aside() =~= before.aside().push(s));
                    }
                    lemma_set_aside(before, *self, best_entry.mv);
                    assert(self.pending(st) =~= before.pending(st));
                }
                continue;
            }
            proof {
                assert forall|x: MoveEntry|
                    all.contains(x) && #[trigger] passes(st, x) implies x.score
                    <= best_entry.score by {
                    let j = choose|j: int|
                        0 <= j < before.moves.entries().len() && before.moves.entries()[j] == x;
                    assert(before.moves.entries()[j].score <= best_entry.score);
                }
                assert(passes(st, best_entry));
                assert(self.aside() =~= before.aside());
                assert(gone + Seq::<Step>::empty() =~= gone);
                assert(all.contains(best_entry) && best_entry.mv == best_entry.mv);
                assert(self.pending(st) =~= before.pending(st).remove(s)) by {
                    assert(self.bad_noisy@ == before.bad_noisy@);
                    assert forall|x: Step| self.pending(st).contains(x) <==> before.pending(
                        st,
                    ).remove(s).contains(x) by {
                        assert(!before.set_aside(s, before.bad_index as int));
                        assert(self.set_aside(x, self.bad_index as int) <==> before.set_aside(
                            x,
                            before.bad_index as int,
                        ));
                    }
                }
            }
            return Some(best_entry.mv);
        }
        proof {
            broadcast use MoveList::lemma_entries;

            assert(self.moves@.len() == 0);
            assert(self.moves.entries().len() == 0);
            assert(self.listed().len() == 0);
            assert(gone + Seq::<Step>::empty() =~= gone);
        }
        None
    }
}

/// Setting a noisy move aside does not lose it.
proof fn lemma_set_aside(a: MovePicker, b: MovePicker, m: Move)
    requires
        a.bad_index <= a.bad_noisy@.len(),
        b.bad_noisy@ == a.bad_noisy@.push(m),
        b.bad_index == a.bad_index,
    ensures
        forall|s: Step| #[trigger]
            b.set_aside(s, b.bad_index as int) <==> a.set_aside(s, a.bad_index as int) || s == m@,
{
    assert forall|s: Step| #[trigger] b.set_aside(s, b.bad_index as int) <==> a.set_aside(
        s,
        a.bad_index as int,
    ) || s == m@ by {
        let n = a.bad_noisy@.len() as int;
        assert(b.bad_noisy@[n] == m);
        if a.set_aside(s, a.bad_index as int) {
            let i = choose|i: int|
                a.bad_index <= i < n && (#[trigger] a.bad_noisy@[i])@ == s;
            assert(b.bad_noisy@[i]@ == s);
        }
        if b.set_aside(s, b.bad_index as int) {
            let i = choose|i: int|
                b.bad_index <= i < b.bad_noisy@.len() && (#[trigger] b.bad_noisy@[i])@ == s;
            if i < n {
                assert(a.bad_noisy@[i]@ == s);
            }
        }
    }
}

/// What a step takes is worth little.
proof fn lemma_gain_bound(st: BoardState, s: Step)
    ensures
        -2000 <= gain_of(st.mb(), s) <= 2000,
{
}

impl MovePicker {
    /// Generates the quiet moves and gives them their scores.
    fn start_quiet(&mut self, data: &SearchData, ply: i32)
        requires
            data.wf(),
            0 <= ply <= 128,
            old(self).wf(data.board.state),
            old(self).status is GoodNoisy,
            old(self).moves@.len() == 0,
        ensures
            final(self).wf(data.board.state),
            final(self).tt_move == old(self).tt_move,
            final(self).status is Quiet,
            final(self).pending(data.board.state) =~= old(self).pending(data.board.state),
            final(self).bad_noisy == old(self).bad_noisy,
            final(self).bad_index == old(self).bad_index,
            final(self).listed() == quiet_list(*data, old(self).tt_move, ply as int),
            forall|s: Step| #[trigger]
                final(self).moves@.contains(s) <==> generated(data.board.state, s)
                    && s.kind.quiet() && !old(self).is_tt(s),
            forall|s: Step| #[trigger]
                final(self).moves@.contains(s) ==> final(self).held(s) == quiet_score(
                    *data,
                    s,
                    ply as int,
                ),
    {
        let ghost st = data.board.state;
        self.status = Stage::Quiet;
        data.board.append_moves(MoveGenKind::Quiet, &mut self.moves);
        proof {
            assert(added(old(self).moves@, self.moves@) =~= self.moves@);
        }
        self.remove_tt_move();
        self.score_quiet_moves(data, ply);
        proof {
            assert(self.listed() =~= quiet_list(*data, self.tt_move, ply as int)) by {
                broadcast use MoveList::lemma_entries;

            }
            assert(self.bad_noisy@ == old(self).bad_noisy@);
            assert forall|s: Step| #[trigger] self.pending(st).contains(s) <==> old(self).pending(
                st,
            ).contains(s) by {
                assert(self.set_aside(s, self.bad_index as int) <==> old(self).set_aside(
                    s,
                    old(self).bad_index as int,
                ));
                assert(!old(self).moves@.contains(s));
            }
        }
    }

    /// The best quiet move.
    fn best_quiet(&mut self, Ghost(st): Ghost<BoardState>) -> (res: Move)
        requires
            old(self).wf(st),
            old(self).status is Quiet,
            old(self).moves@.len() > 0,
        ensures
            final(self).wf(st),
            final(self).tt_move == old(self).tt_move,
            final(self).status is Quiet,
            final(self).bad_noisy == old(self).bad_noisy,
            final(self).bad_index == old(self).bad_index,
            final(self).listed() == taken(old(self).listed(), last_best(old(self).listed())),
            res@ == old(self).listed()[last_best(old(self).listed())].0,
            res@.kind.quiet(),
            old(self).pending(st).contains(res@),
            final(self).pending(st) =~= old(self).pending(st).remove(res@),
            forall|s: Step| #[trigger]
                old(self).moves@.contains(s) ==> old(self).held(s) <= old(self).held(res@),
    {
        let best_entry = self.best_entry();
        proof {
            broadcast use MoveList::lemma_entries;

            let k = choose|k: int|
                {
                    &&& 0 <= k < old(self).moves@.len()
                    &&& #[trigger] best_at(old(self).moves.entries(), k)
                    &&& best_entry == old(self).moves.entries()[k]
                    &&& best_entry.mv@ == old(self).moves@[k]
                    &&& self.moves@ == old(self).moves@.update(
                        k,
                        old(self).moves@.last(),
                    ).drop_last()
                };
            lemma_swap_remove(old(self).moves@, k);
            assert forall|x: Step| #[trigger] old(self).moves@.contains(x) implies old(self).held(x)
                <= best_entry.score by {
                let j = choose|j: int| 0 <= j < old(self).moves@.len() && old(self).moves@[j] == x;
                assert(old(self).moves.entries()[j].score <= best_entry.score);
            }
            assert(old(self).moves@.contains(best_entry.mv@));
            assert(old(self).held(best_entry.mv@) == best_entry.score);
            let s = best_entry.mv@;
            assert(old(self).moves@.contains(s));
            assert(self.bad_noisy@ == old(self).bad_noisy@);
            assert(self.pending(st) =~= old(self).pending(st).remove(s)) by {
                assert forall|x: Step| self.pending(st).contains(x) <==> old(self).pending(
                    st,
                ).remove(s).contains(x) by {
                    assert(!old(self).set_aside(s, old(self).bad_index as int));
                    assert(self.set_aside(x, self.bad_index as int) <==> old(self).set_aside(
                        x,
                        old(self).bad_index as int,
                    ));
                }
            }
        }
        best_entry.mv
    }

    /// The next of the moves that were set aside.
    fn next_bad(&mut self, Ghost(st): Ghost<BoardState>) -> (res: Option<Move>)
        requires
            old(self).wf(st),
            old(self).status is Quiet || old(self).status is BadNoisy,
        ensures
            final(self).wf(st),
            final(self).tt_move == old(self).tt_move,
            res matches Some(m) ==> {
                &&& !m@.kind.quiet()
                &&& old(self).pending(st).contains(m@)
                &&& final(self).pending(st) =~= old(self).pending(st).remove(m@)
                &&& final(self).status == old(self).status
                &&& final(self).moves == old(self).moves
                &&& old(self).aside() == seq![m@] + final(self).aside()
            },
            res is None ==> {
                &&& *final(self) == *old(self)
                &&& forall|s: Step| #[trigger]
                    old(self).pending(st).contains(s) ==> s.kind.quiet() && old(self).status is Quiet
                &&& old(self).aside().len() == 0
            },
    {
        if self.bad_index < self.bad_noisy.len() {
            let at: usize = self.bad_index;
            let m = self.bad_noisy[at];
            self.bad_index = self.bad_index + 1;
            proof {
                let s = m@;
                assert(old(self).bad_noisy@[at as int]@ == s);
                assert(old(self).set_aside(s, at as int));
                assert forall|x: Step| #[trigger]
                    self.set_aside(x, at + 1) <==> old(self).set_aside(x, at as int) && x != s by {
                    if self.set_aside(x, at + 1) {
                        let i = choose|i: int|
                            at + 1 <= i < self.bad_noisy@.len() && (
                            #[trigger] self.bad_noisy@[i])@ == x;
                        assert(old(self).bad_noisy@[i]@ == x);
                    }
                    if old(self).set_aside(x, at as int) && x != s {
                        let i = choose|i: int|
                            at <= i < self.bad_noisy@.len() && (
                            #[trigger] old(self).bad_noisy@[i])@ == x;
                        assert(self.bad_noisy@[i]@ == x);
                    }
                }
                assert(self.pending(st) =~= old(self).pending(st).remove(s));
                assert(old(self).aside() =~= seq![s] + self.aside());
            }
            return Some(m);
        }
        None
    }

    /// The next move, or none if all have been given. Quiet moves may be skipped; the
    /// quiet moves that are passed over are then lost.
    #[verifier::rlimit(40)]
    pub fn next(&mut self, data: &SearchData, skip_quiets: bool, ply: i32) -> (res: Option<Move>)
        requires
            data.wf(),
            0 <= ply <= 128,
            old(self).wf(data.board.state),
        ensures
            final(self).wf(data.board.state),
            gave(*old(self), *data, skip_quiets, ply as int, *final(self), res),
    {
        reveal(in_order);
        let ghost st = data.board.state;
        let ghost first = *self;
        let ghost tt = self.tt_move;
        let ghost goal = picked(self.picking(), tt, *data, skip_quiets, ply as int);
        if self.status == Stage::HashMove {
            self.status = Stage::FirstNoisy;
            if let Some(tt_move) = self.tt_move {
                proof {
                    assert(self.pending(st) =~= first.pending(st).remove(tt_move@));
                }
                if !skip_quiets || !tt_move.get_kind().is_quiet() {
                    assert(picks(first, *data, skip_quiets, ply as int, *self, Some(tt_move))) by {
                        reveal(picks);
                        assert(self.listed() == first.listed() && self.aside() =~= first.aside());
                    }
                    return Some(tt_move);
                }
            }
        }
        let ghost second = *self;
        if self.status == Stage::FirstNoisy {
            self.start_noisy(data);
        }
        let ghost third = *self;
        let ghost p = third.picking();
        assert(third.aside() =~= first.aside());
        assert(p == if first.status is HashMove || first.status is FirstNoisy {
            Picking {
                stage: Stage::GoodNoisy,
                list: noisy_list(*data, tt),
                aside: first.aside(),
            }
        } else {
            first.picking()
        });
        let ghost mut after = *self;
        if self.status == Stage::GoodNoisy {
            let good = self.good_noisy(data);
            proof {
                after = *self;
                if second.status is FirstNoisy {
                    lemma_first_good(*data, second, third, good);
                }
                lemma_tested(first, *data, third, good);
                lemma_aside(third, *self);
            }
            if let Some(m) = good {
                proof {
                    assert(third.pending(st).contains(m@));
                    assert(picks(first, *data, skip_quiets, ply as int, *self, Some(m))) by {
                        reveal(picks);
                    }
                }
                return Some(m);
            }
            if !skip_quiets {
                self.start_quiet(data, ply);
                proof {
                    lemma_aside(after, *self);
                }
            } else {
                self.status = Stage::BadNoisy;
            }
            assert(self.aside() =~= after.aside());
        }
        let ghost quiet = self.picking();
        assert(goal == picked_quiet(quiet, skip_quiets));
        if self.status == Stage::Quiet && !skip_quiets {
            if !self.moves.is_empty() {
                let ghost before = *self;
                let m = self.best_quiet(Ghost(st));
                proof {
                    lemma_aside(before, *self);
                    assert forall|s: Step| #[trigger]
                        first.pending(st).contains(s) && s.kind.quiet() implies first.quiet_rank(
                        *data,
                        s,
                        ply as int,
                    ) <= first.quiet_rank(*data, m@, ply as int) by {
                        assert(before.moves@.contains(s));
                    }
                    assert(self.aside() =~= before.aside());
                    assert(before.listed().len() == before.moves@.len()) by {
                        broadcast use MoveList::lemma_entries;

                    }
                    assert(picks(first, *data, skip_quiets, ply as int, *self, Some(m))) by {
                        reveal(picks);
                    }
                }
                return Some(m);
            }
            let ghost before = *self;
            self.status = Stage::BadNoisy;
            proof {
                assert forall|s: Step| !before.moves@.contains(s) by {}
                assert(self.bad_noisy@ == before.bad_noisy@ && self.bad_index == before.bad_index);
                assert forall|s: Step| #[trigger] self.pending(st).contains(s) <==> before.pending(
                    st,
                ).contains(s) by {
                    assert(self.set_aside(s, self.bad_index as int) <==> before.set_aside(
                        s,
                        before.bad_index as int,
                    ));
                }
                assert(self.pending(st) =~= before.pending(st));
            }
        }
        proof {
            assert forall|s: Step| #[trigger] first.pending(st).contains(s) implies self.pending(
                st,
            ).contains(s) || skip_quiets && s.kind.quiet() by {
                assert(second.pending(st).contains(s) || skip_quiets && s.kind.quiet());
                assert(second.pending(st).contains(s) ==> third.pending(st).contains(s));
                if third.status is GoodNoisy && third.pending(st).contains(s) {
                    assert(after.pending(st).contains(s));
                    assert(!after.moves@.contains(s));
                    assert(self.pending(st).contains(s) || skip_quiets && s.kind.quiet());
                }
            }
        }
        let ghost last = *self;
        proof {
            assert(goal == picked_aside(last.picking())) by {
                broadcast use MoveList::lemma_entries;

                assert(last.aside() =~= quiet.aside);
                assert(last.listed() == quiet.list);
                assert(quiet.list.len() == last.moves@.len());
            }
            lemma_aside(first, last);
            if !skip_quiets {
                assert forall|s: Step| #[trigger] first.pending(st).contains(s) implies
                    !s.kind.quiet() by {
                    assert(last.pending(st).contains(s));
                    assert(last.set_aside(s, last.bad_index as int));
                }
            }
        }
        let res = self.next_bad(Ghost(st));
        proof {
            assert(picks(first, *data, skip_quiets, ply as int, *self, res)) by {
                reveal(picks);
                if let Some(m) = res {
                    assert(last.aside()[0] == m@);
                    assert(last.aside().drop_first() =~= self.aside());
                    assert(self.listed() == last.listed());
                }
            }
        }
        res
    }
}

/// Of the noisy moves, the best one that does not lose too much has been found, or there is
/// none.
proof fn lemma_tested(a: MovePicker, d: SearchData, b: MovePicker, res: Option<Move>)
    requires
        b.wf(d.board.state),
        b.status is GoodNoisy,
        a == b || (a.status is HashMove || a.status is FirstNoisy) && (forall|s: Step| #[trigger]
            b.moves@.contains(s) <==> generated(d.board.state, s) && !s.kind.quiet() && !a.is_tt(s))
            && (forall|i: int|
            0 <= i < b.moves@.len() ==> (#[trigger] b.moves.entries()[i]).score == noisy_score(
                d,
                b.moves@[i],
            )),
        res matches Some(m) ==> exists|e: MoveEntry| #[trigger]
            b.moves.entries().contains(e) && e.mv == m && passes(d.board.state, e) && forall|
                x: MoveEntry,
            |
                b.moves.entries().contains(x) && #[trigger] passes(d.board.state, x) ==> x.score
                    <= e.score,
        res is None ==> forall|x: MoveEntry| #[trigger]
            b.moves.entries().contains(x) ==> !passes(d.board.state, x),
    ensures
        res matches Some(m) ==> best_noisy(a, d, m@),
        res is None ==> none_holds_up(a, d),
{
    broadcast use MoveList::lemma_entries;

    let st = d.board.state;
    assert forall|s: Step| #[trigger] a.untested(st, s) implies exists|x: MoveEntry| #[trigger]
        b.moves.entries().contains(x) && x.mv@ == s && x.score == a.noisy_rank(d, s) by {
        assert(b.moves@.contains(s));
        let k = choose|k: int| 0 <= k < b.moves@.len() && b.moves@[k] == s;
        let x = b.moves.entries()[k];
        assert(b.moves.entries().contains(x));
    }
    if let Some(m) = res {
        let e = choose|e: MoveEntry| #[trigger]
            b.moves.entries().contains(e) && e.mv == m && passes(st, e) && forall|x: MoveEntry|
                b.moves.entries().contains(x) && #[trigger] passes(st, x) ==> x.score <= e.score;
        let k = choose|k: int| 0 <= k < b.moves.entries().len() && b.moves.entries()[k] == e;
        assert(b.moves@[k] == m@);
        assert(b.moves@.contains(m@));
        let j = choose|j: int| 0 <= j < b.moves@.len() && b.moves@[j] == m@;
        assert(j == k);
        assert(a.noisy_rank(d, m@) == e.score);
        assert forall|s: Step| #[trigger]
            a.untested(st, s) && holds_up(st, s, a.noisy_rank(d, s)) implies a.noisy_rank(d, s)
            <= a.noisy_rank(d, m@) by {
            let x = choose|x: MoveEntry| #[trigger]
                b.moves.entries().contains(x) && x.mv@ == s && x.score == a.noisy_rank(d, s);
            assert(passes(st, x));
        }
    } else {
        assert forall|s: Step| #[trigger] a.untested(st, s) implies !holds_up(
            st,
            s,
            a.noisy_rank(d, s),
        ) by {
            let x = choose|x: MoveEntry| #[trigger]
                b.moves.entries().contains(x) && x.mv@ == s && x.score == a.noisy_rank(d, s);
            assert(!passes(st, x));
        }
    }
}

/// What is set aside stays there in its order.
proof fn lemma_aside(a: MovePicker, b: MovePicker)
    requires
        a.bad_index <= a.bad_noisy@.len(),
        a.bad_noisy@.is_prefix_of(b.bad_noisy@),
        b.bad_index == a.bad_index,
    ensures
        a.aside().is_prefix_of(b.aside()),
{
    let n = a.aside().len() as int;
    assert(a.aside() =~= b.aside().subrange(0, n)) by {
        assert forall|i: int| 0 <= i < n implies a.aside()[i] == b.aside()[i] by {
            assert(a.bad_noisy@[a.bad_index + i] == b.bad_noisy@[a.bad_index + i]);
        }
    }
}

/// When the noisy moves have just been sorted, the first good one has the greatest score
/// of all good ones.
proof fn lemma_first_good(d: SearchData, a: MovePicker, b: MovePicker, res: Option<Move>)
    requires
        a.status is FirstNoisy,
        b.status is GoodNoisy,
        b.bad_noisy@.len() == 0,
        forall|s: Step| #[trigger]
            b.moves@.contains(s) <==> generated(d.board.state, s) && !s.kind.quiet() && !a.is_tt(s),
        forall|i: int|
            0 <= i < b.moves@.len() ==> (#[trigger] b.moves.entries()[i]).score == noisy_score(
                d,
                b.moves@[i],
            ),
        res matches Some(m) ==> exists|e: MoveEntry| #[trigger]
            b.moves.entries().contains(e) && e.mv == m && passes(d.board.state, e) && forall|
                x: MoveEntry,
            |
                b.moves.entries().contains(x) && #[trigger] passes(d.board.state, x) ==> x.score
                    <= e.score,
        res is None ==> forall|x: MoveEntry| #[trigger]
            b.moves.entries().contains(x) ==> !passes(d.board.state, x),
    ensures
        res matches Some(m) ==> is_good(d, m@) && forall|s: Step| #[trigger]
            a.pending(d.board.state).contains(s) && is_good(d, s) ==> noisy_score(d, s)
                <= noisy_score(d, m@),
        res is None ==> forall|s: Step| #[trigger]
            a.pending(d.board.state).contains(s) ==> !is_good(d, s),
{
    broadcast use MoveList::lemma_entries;

    let st = d.board.state;
    assert forall|s: Step| #[trigger]
        a.pending(st).contains(s) && is_good(d, s) implies exists|x: MoveEntry| #[trigger]
        b.moves.entries().contains(x) && x.mv@ == s && x.score == noisy_score(d, s) && passes(
            st,
            x,
        ) by {
        assert(b.moves@.contains(s));
        let k = choose|k: int| 0 <= k < b.moves@.len() && b.moves@[k] == s;
        let x = b.moves.entries()[k];
        assert(b.moves.entries().contains(x));
        assert(x.score == noisy_score(d, s));
    }
    if let Some(m) = res {
        let e = choose|e: MoveEntry| #[trigger]
            b.moves.entries().contains(e) && e.mv == m && passes(st, e) && forall|x: MoveEntry|
                b.moves.entries().contains(x) && #[trigger] passes(st, x) ==> x.score <= e.score;
        let k = choose|k: int| 0 <= k < b.moves.entries().len() && b.moves.entries()[k] == e;
        assert(b.moves.entries()[k].score == noisy_score(d, b.moves@[k]));
        assert(b.moves@.contains(m@));
    }
}

} // verus!
