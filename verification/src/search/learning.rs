//! What a search learns about moves.

use crate::search::{kept, LAST_PLY};
use crate::search::data::{cont_updated, SearchData};
use crate::search::movepicker::{noisy_history_of, quiet_history_of, victim_kind};
use crate::search::pruning::{depth_bonus, lesser};
use crate::types::history::{gravity, noisy_place, pawn_place, quiet_place};
use crate::types::moves::{Move, Step};
use crate::types::stackvec::StackVec;
use vstd::prelude::*;

verus! {

/// The values of the histories of moves.
pub struct Lessons {
    pub quiet: Seq<i16>,
    pub noisy: Seq<i16>,
    pub pawn: Seq<i16>,
    pub cont: (Seq<i16>, Seq<i16>),
}

pub open spec fn lessons(d: SearchData) -> Lessons {
    Lessons {
        quiet: d.quiet_history.table(),
        noisy: d.noisy_history.table(),
        pawn: d.pawn_history.table(),
        cont: (d.conthistory.table(), d.stack.spare()),
    }
}

/// A table after a bonus for the value at a place.
pub open spec fn bumped(table: Seq<i16>, place: int, bonus: int) -> Seq<i16> {
    table.update(place, gravity(table[place] as int, bonus) as i16)
}

/// The histories after a bonus for a noisy move of the position.
pub open spec fn noisy_taught(l: Lessons, d: SearchData, s: Step, bonus: int) -> Lessons {
    let st = d.board.state;
    let place = noisy_place(st.mb()[s.from], s.to, victim_kind(st, s), st.threats);
    Lessons { noisy: bumped(l.noisy, place, bonus), ..l }
}

/// The histories after a bonus for a quiet move of the position, as such, with the pawns as
/// they stand, and as an answer to the moves before.
pub open spec fn quiet_taught(
    l: Lessons,
    d: SearchData,
    s: Step,
    bonus: int,
    cont_bonus: int,
    ply: int,
) -> Lessons {
    let st = d.board.state;
    let place = d.place_of(s);
    let one = cont_updated(l.cont, d.stack.at(ply - 1).conthistory, place, cont_bonus);
    let two = cont_updated(one, d.stack.at(ply - 2).conthistory, place, cont_bonus);
    Lessons {
        quiet: bumped(l.quiet, quiet_place(st.threats, st.side_to_move, s), bonus),
        pawn: bumped(l.pawn, pawn_place(d.pawn_key_spec(), st.mb()[s.from], s.to), bonus),
        cont: cont_updated(two, d.stack.at(ply - 4).conthistory, place, cont_bonus),
        ..l
    }
}

/// The histories after a bonus for each of the first `n` moves, all noisy.
pub open spec fn noisies_taught(
    l: Lessons,
    d: SearchData,
    moves: Seq<Move>,
    n: int,
    bonus: int,
) -> Lessons
    decreases n,
{
    if n <= 0 {
        l
    } else {
        noisy_taught(noisies_taught(l, d, moves, n - 1, bonus), d, moves[n - 1]@, bonus)
    }
}

/// The histories after a bonus for each of the first `n` moves, all quiet.
pub open spec fn quiets_taught(
    l: Lessons,
    d: SearchData,
    moves: Seq<Move>,
    n: int,
    bonus: int,
    cont_bonus: int,
    ply: int,
) -> Lessons
    decreases n,
{
    if n <= 0 {
        l
    } else {
        quiet_taught(
            quiets_taught(l, d, moves, n - 1, bonus, cont_bonus, ply),
            d,
            moves[n - 1]@,
            bonus,
            cont_bonus,
            ply,
        )
    }
}

/// The histories after a node: a bonus for the best move, and negative ones for the moves
/// that were tried before it in vain, for quiet ones only if the best move is quiet.
pub open spec fn taught(
    d: SearchData,
    best: Step,
    depth: int,
    ply: int,
    quiets: Seq<Move>,
    noisies: Seq<Move>,
) -> Lessons {
    let quiet_bonus = lesser(325 * depth, 947) - 225;
    let quiet_malus = lesser(289 * depth, 948) - 235;
    let noisy_bonus = lesser(253 * depth, 1060) - 190;
    let noisy_malus = lesser(298 * depth, 938) - 271;
    let cont_bonus = lesser(315 * depth, 1056) - 194;
    let cont_malus = lesser(305 * depth, 1082) - 270;
    let after_best = if best.kind.quiet() {
        quiets_taught(
            quiet_taught(lessons(d), d, best, quiet_bonus, cont_bonus, ply),
            d,
            quiets,
            quiets.len() as int,
            -quiet_malus,
            -cont_malus,
            ply,
        )
    } else {
        noisy_taught(lessons(d), d, best, noisy_bonus)
    };
    noisies_taught(after_best, d, noisies, noisies.len() as int, -noisy_malus)
}

/// Only the histories of moves differ.
pub open spec fn only_lessons(a: SearchData, b: SearchData) -> bool {
    &&& kept(a, b)
    &&& b == (SearchData {
        quiet_history: b.quiet_history,
        noisy_history: b.noisy_history,
        pawn_history: b.pawn_history,
        conthistory: b.conthistory,
        stack: b.stack,
        ..a
    })
    &&& b.stack.data_spec() == a.stack.data_spec()
}

/// Gives a noisy move a bonus.
pub fn reward_noisy(data: &mut SearchData, m: Move, bonus: i32)
    requires
        old(data).wf(),
    ensures
        only_lessons(*old(data), *final(data)),
        lessons(*final(data)) == noisy_taught(lessons(*old(data)), *old(data), m@, bonus as int),
{
    let piece = data.board.get_piece_at_square(m.get_from());
    let captured = match data.board.get_piece_at_square(m.get_capture_square()) {
        Some((_, p)) => Some(p),
        None => None,
    };
    let threats = data.board.state.threats;
    data.noisy_history.update(piece, m.get_to(), captured, threats, bonus);
}

/// Gives a quiet move a bonus in all its histories.
pub fn reward_quiet(data: &mut SearchData, m: Move, bonus: i32, cont_bonus: i32, ply: i32)
    requires
        old(data).wf(),
        0 <= ply <= LAST_PLY,
    ensures
        only_lessons(*old(data), *final(data)),
        lessons(*final(data)) == quiet_taught(
            lessons(*old(data)),
            *old(data),
            m@,
            bonus as int,
            cont_bonus as int,
            ply as int,
        ),
{
    let piece = data.board.get_piece_at_square(m.get_from());
    let key = data.board.pawn_key();
    let threats = data.board.state.threats;
    let stm = data.board.state.side_to_move;
    data.pawn_history.update(key, piece, m.get_to(), bonus);
    data.quiet_history.update(threats, stm, m, bonus);
    data.update_conthistories(m, ply, cont_bonus);
}

/// Gives the moves that were searched their bonuses: one for the best move, and negative
/// ones for those that were tried before it in vain.
pub fn update_histories(
    data: &mut SearchData,
    best: Move,
    depth: i32,
    ply: i32,
    quiets: &StackVec<Move, 32>,
    noisies: &StackVec<Move, 32>,
)
    requires
        old(data).wf(),
        0 <= depth <= 130,
        0 <= ply <= LAST_PLY,
    ensures
        only_lessons(*old(data), *final(data)),
        lessons(*final(data)) == taught(
            *old(data),
            best@,
            depth as int,
            ply as int,
            quiets@,
            noisies@,
        ),
{
    let quiet_bonus: i32 = depth_bonus(325, depth, 947, 225);
    let quiet_malus: i32 = depth_bonus(289, depth, 948, 235);
    let noisy_bonus: i32 = depth_bonus(253, depth, 1060, 190);
    let noisy_malus: i32 = depth_bonus(298, depth, 938, 271);
    let cont_bonus: i32 = depth_bonus(315, depth, 1056, 194);
    let cont_malus: i32 = depth_bonus(305, depth, 1082, 270);
    let ghost start = *data;
    if best.get_kind().is_quiet() {
        reward_quiet(data, best, quiet_bonus, cont_bonus, ply);
        let ghost first = lessons(*data);
        let mut i: usize = 0;
        while i < quiets.len()
            invariant
                i <= quiets@.len(),
                start.wf(),
                data.wf(),
                only_lessons(start, *data),
                0 <= ply <= LAST_PLY,
                -1000 <= quiet_malus <= 2000,
                -1000 <= cont_malus <= 2000,
                lessons(*data) == quiets_taught(
                    first,
                    start,
                    quiets@,
                    i as int,
                    -quiet_malus as int,
                    -cont_malus as int,
                    ply as int,
                ),
            decreases quiets@.len() - i,
        {
            reward_quiet(data, quiets.get(i), -quiet_malus, -cont_malus, ply);
            i += 1;
        }
    } else {
        reward_noisy(data, best, noisy_bonus);
    }
    let ghost second = lessons(*data);
    let mut i: usize = 0;
    while i < noisies.len()
        invariant
            i <= noisies@.len(),
            start.wf(),
            data.wf(),
            only_lessons(start, *data),
            -1000 <= noisy_malus <= 2000,
            lessons(*data) == noisies_taught(
                second,
                start,
                noisies@,
                i as int,
                -noisy_malus as int,
            ),
        decreases noisies@.len() - i,
    {
        reward_noisy(data, noisies.get(i), -noisy_malus);
        i += 1;
    }
}

/// How well a move has done so far.
pub open spec fn standing_of(d: SearchData, s: Step, ply: int) -> int {
    if s.kind.quiet() {
        quiet_history_of(d, s) + d.conthistory_of(s, ply, 1) + d.conthistory_of(s, ply, 2)
    } else {
        noisy_history_of(d, s)
    }
}

pub fn history_of(data: &SearchData, m: Move, ply: i32) -> (res: i32)
    requires
        data.wf(),
        0 <= ply <= LAST_PLY,
    ensures
        res == standing_of(*data, m@, ply as int),
        -30000 <= res <= 30000,
{
    if m.get_kind().is_quiet() {
        let stm = data.board.state.side_to_move;
        data.quiet_history.get(data.board.state.threats, stm, m) + data.conthistory(m, ply, 1)
            + data.conthistory(m, ply, 2)
    } else {
        let captured = match data.board.get_piece_at_square(m.get_capture_square()) {
            Some((_, p)) => Some(p),
            None => None,
        };
        data.noisy_history.get(
            data.board.get_piece_at_square(m.get_from()),
            m.get_to(),
            captured,
            data.board.state.threats,
        )
    }
}

} // verus!
