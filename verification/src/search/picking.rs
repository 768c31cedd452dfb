//! Laws of the moves that a picker gives one after another.

use crate::board::BoardState;
use crate::board::movegen::generated;
use crate::search::data::SearchData;
use crate::search::movepicker::{gave, in_order, is_new, MovePicker};
use crate::types::moves::{Move, Step};
use vstd::prelude::*;

verus! {

/// One move that a picker has given.
pub struct Giving {
    pub picker: MovePicker,
    pub at: SearchData,
    pub skip: bool,
    pub m: Move,
    pub left: MovePicker,
}

/// Moves that a picker gives one after another in a position.
pub open spec fn giving(first: MovePicker, gs: Seq<Giving>, st: BoardState, ply: int) -> bool {
    forall|i: int|
        #![trigger gs[i]]
        0 <= i < gs.len() ==> {
            &&& gave(gs[i].picker, gs[i].at, gs[i].skip, ply, gs[i].left, Some(gs[i].m))
            &&& gs[i].at.board.state == st
            &&& gs[i].picker == picker_at(first, gs, i)
        }
}

/// The picker after so many moves.
pub open spec fn picker_at(first: MovePicker, gs: Seq<Giving>, i: int) -> MovePicker {
    if i <= 0 {
        first
    } else {
        gs[i - 1].left
    }
}

/// Quiet moves were skipped at some time.
pub open spec fn skipped(gs: Seq<Giving>) -> bool {
    exists|i: int| 0 <= i < gs.len() && (#[trigger] gs[i]).skip
}

/// A move has been given.
pub open spec fn was_given(gs: Seq<Giving>, s: Step) -> bool {
    exists|i: int| 0 <= i < gs.len() && (#[trigger] gs[i]).m@ == s
}

proof fn lemma_giving(
    first: MovePicker,
    gs: Seq<Giving>,
    st: BoardState,
    ply: int,
    tt_move: Option<Move>,
    n: int,
)
    requires
        is_new(first, tt_move),
        giving(first, gs, st, ply),
        0 <= n <= gs.len(),
    ensures
        forall|s: Step| #[trigger]
            picker_at(first, gs, n).pending(st).contains(s) ==> generated(st, s) && !was_given(
                gs.take(n),
                s,
            ),
        forall|s: Step| #[trigger]
            generated(st, s) ==> picker_at(first, gs, n).pending(st).contains(s) || was_given(
                gs.take(n),
                s,
            ) || s.kind.quiet() && skipped(gs.take(n)),
        forall|i: int| 0 <= i < n ==> generated(st, (#[trigger] gs[i]).m@),
        forall|i: int, j: int|
            0 <= i < j < n ==> (#[trigger] gs[i]).m@ != (#[trigger] gs[j]).m@,
    decreases n,
{
    if n > 0 {
        lemma_giving(first, gs, st, ply, tt_move, n - 1);
        let a = gs.take(n - 1);
        let b = gs.take(n);
        let g = gs[n - 1];
        assert(b[n - 1] == g);
        assert forall|s: Step| #[trigger] was_given(a, s) implies was_given(b, s) by {
            let i = choose|i: int| 0 <= i < a.len() && (#[trigger] a[i]).m@ == s;
            assert(b[i].m@ == s);
        }
        if skipped(a) {
            let i = choose|i: int| 0 <= i < a.len() && (#[trigger] a[i]).skip;
            assert(b[i].skip);
        }
        assert forall|s: Step| #[trigger] was_given(b, s) implies was_given(a, s) || s == g.m@ by {
            let i = choose|i: int| 0 <= i < b.len() && (#[trigger] b[i]).m@ == s;
            if i < n - 1 {
                assert(a[i].m@ == s);
            }
        }
        assert(gave(g.picker, g.at, g.skip, ply, g.left, Some(g.m)));
        assert forall|i: int| 0 <= i < n - 1 implies (#[trigger] gs[i]).m@ != g.m@ by {
            assert(a[i].m@ == gs[i].m@);
            assert(was_given(a, gs[i].m@));
        }
    }
}

/// A picker that is asked until it gives none has given moves of the position, each at most
/// once, and all of them but quiet ones, if it was told to skip those.
pub proof fn law_drained(
    first: MovePicker,
    gs: Seq<Giving>,
    st: BoardState,
    ply: int,
    tt_move: Option<Move>,
    d: SearchData,
    skip: bool,
    end: MovePicker,
)
    requires
        is_new(first, tt_move),
        giving(first, gs, st, ply),
        d.board.state == st,
        gave(picker_at(first, gs, gs.len() as int), d, skip, ply, end, None),
    ensures
        forall|i: int| 0 <= i < gs.len() ==> generated(st, (#[trigger] gs[i]).m@),
        forall|i: int, j: int|
            0 <= i < j < gs.len() ==> (#[trigger] gs[i]).m@ != (#[trigger] gs[j]).m@,
        forall|s: Step| #[trigger]
            generated(st, s) ==> was_given(gs, s) || s.kind.quiet() && (skip || skipped(gs)),
{
    lemma_giving(first, gs, st, ply, tt_move, gs.len() as int);
    assert(gs.take(gs.len() as int) =~= gs);
}

/// A picker that is always asked in the same way until it gives none gives each move of the
/// position exactly once, the one from the table of positions first; if quiet moves are
/// skipped, each noisy move exactly once and no quiet one.
pub proof fn law_picks_each_once(
    first: MovePicker,
    gs: Seq<Giving>,
    st: BoardState,
    ply: int,
    tt_move: Option<Move>,
    d: SearchData,
    skip: bool,
    end: MovePicker,
)
    requires
        is_new(first, tt_move),
        giving(first, gs, st, ply),
        d.board.state == st,
        forall|i: int| 0 <= i < gs.len() ==> (#[trigger] gs[i]).skip == skip,
        gave(picker_at(first, gs, gs.len() as int), d, skip, ply, end, None),
        tt_move matches Some(m) ==> generated(st, m@),
    ensures
        forall|i: int, j: int|
            0 <= i < j < gs.len() ==> (#[trigger] gs[i]).m@ != (#[trigger] gs[j]).m@,
        forall|s: Step| #[trigger]
            was_given(gs, s) <==> generated(st, s) && (skip ==> !s.kind.quiet()),
        tt_move matches Some(m) && !(skip && m@.kind.quiet()) ==> gs.len() > 0 && gs[0].m
            == tt_move->0,
{
    reveal(in_order);
    law_drained(first, gs, st, ply, tt_move, d, skip, end);
    assert forall|s: Step| #[trigger] was_given(gs, s) implies generated(st, s) && (skip
        ==> !s.kind.quiet()) by {
        let i = choose|i: int| 0 <= i < gs.len() && (#[trigger] gs[i]).m@ == s;
        assert(gave(gs[i].picker, gs[i].at, gs[i].skip, ply, gs[i].left, Some(gs[i].m)));
    }
    if gs.len() > 0 {
        assert(gave(gs[0].picker, gs[0].at, gs[0].skip, ply, gs[0].left, Some(gs[0].m)));
    }
}

/// A picker that has given none gives none again.
pub proof fn law_stays_drained(
    a: MovePicker,
    b: MovePicker,
    c: MovePicker,
    d: SearchData,
    skip: bool,
    ply: int,
    res: Option<Move>,
)
    requires
        gave(a, d, skip, ply, b, None),
        gave(b, d, skip, ply, c, res),
    ensures
        res is None,
{
}

} // verus!
