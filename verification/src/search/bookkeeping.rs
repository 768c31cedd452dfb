//! What searches keep and note, whatever they find.

use crate::board::BoardState;
use crate::board::makemove::{next_position, taken_back};
use crate::board::movegen::{generated, moves_in};
use crate::nnue::EVAL_LIMIT;
use crate::perft::lemma_moves_finite;
use crate::search::{
    kept, known, lemma_table_says, plays, probe_of, read_entry, scorable, Node, Probe, LAST_PLY,
};
use crate::search::account::{stands_for, told};
use crate::search::data::SearchData;
use crate::search::movepicker::MovePicker;
use crate::types::moves::{Move, Step};
use crate::types::score::{INFINITE, NO_SCORE};
use crate::types::transposition::Bound;
use vstd::prelude::*;

verus! {

/// What one search keeps and the next keeps, both keep.
pub proof fn lemma_kept(a: SearchData, b: SearchData, c: SearchData)
    requires
        kept(a, b),
        kept(b, c),
    ensures
        kept(a, c),
{
    assert forall|p: int| -8 <= p < 136 implies (#[trigger] c.stack.at(p)).excluded == a.stack.at(
        p,
    ).excluded by {
        assert(b.stack.at(p).excluded == a.stack.at(p).excluded);
    }
    assert forall|i: int| 0 <= i < a.root_moves@.len() implies (#[trigger] c.root_moves@[i]).m
        == a.root_moves@[i].m by {
        assert(b.root_moves@[i].m == a.root_moves@[i].m);
    }
}

/// The moves of a picker that are still to come are finitely many.
pub proof fn lemma_pending_finite(p: MovePicker, st: BoardState)
    requires
        forall|s: Step| #[trigger] p.pending(st).contains(s) ==> generated(st, s),
    ensures
        p.pending(st).finite(),
        p.pending(st).len() <= 66560,
{
    let all = Set::new(|s: Step| moves_in(st.position(), s));
    lemma_moves_finite(st.position());
    assert(p.pending(st).subset_of(all));
    vstd::set_lib::lemma_len_subset(p.pending(st), all);
}

/// With every move that is given, fewer are to come.
pub proof fn lemma_fewer(a: MovePicker, b: MovePicker, st: BoardState, s: Step)
    requires
        a.pending(st).finite(),
        a.pending(st).contains(s),
        !b.pending(st).contains(s),
        forall|x: Step| #[trigger] b.pending(st).contains(x) ==> a.pending(st).contains(x),
    ensures
        b.pending(st).finite(),
        b.pending(st).len() < a.pending(st).len(),
{
    assert(b.pending(st).subset_of(a.pending(st).remove(s)));
    vstd::set_lib::lemma_len_subset(b.pending(st), a.pending(st).remove(s));
}

/// After a move, a search that keeps everything, and taking the move back, everything is
/// kept.
pub proof fn lemma_taken_back(a: SearchData, made: SearchData, below: SearchData, b: SearchData)
    requires
        a.wf(),
        kept(made, below),
        made.board.state_stack@ == a.board.state_stack@.push(a.board.state),
        made.board.zobrist == a.board.zobrist,
        made.board.game_history@.len() > 0,
        made.board.game_history@.drop_last() == a.board.game_history@,
        made.network.params() == a.network.params(),
        made.network.boards() == a.network.boards().push(made.board.state.mb()),
        made.id == a.id,
        made.time == a.time,
        made.report == a.report,
        made.best_move == a.best_move,
        made.root_depth == a.root_depth,
        made.prev_score == a.prev_score,
        made.nmp_min_ply == a.nmp_min_ply,
        made.completed_depth == a.completed_depth,
        made.lmr == a.lmr,
        made.shared.status == a.shared.status,
        made.root_moves == a.root_moves,
        forall|p: int|
            -8 <= p < 136 ==> (#[trigger] made.stack.at(p)).excluded == a.stack.at(p).excluded,
        b == (SearchData { board: b.board, network: b.network, ..below }),
        b.network.wf(),
        b.network.params() == below.network.params(),
        b.network.boards() == below.network.boards().drop_last(),
        b.board.wf(),
        taken_back(below.board, b.board),
    ensures
        kept(a, b),
{
    assert(b.board.state_stack@ =~= a.board.state_stack@);
    assert(b.network.boards() =~= a.network.boards());
    assert forall|p: int| -8 <= p < 136 implies (#[trigger] b.stack.at(p)).excluded == a.stack.at(
        p,
    ).excluded by {
        assert(below.stack.at(p).excluded == made.stack.at(p).excluded);
        assert(made.stack.at(p).excluded == a.stack.at(p).excluded);
    }
    assert forall|i: int| 0 <= i < a.root_moves@.len() implies (#[trigger] b.root_moves@[i]).m
        == a.root_moves@[i].m by {
        assert(below.root_moves@[i].m == made.root_moves@[i].m);
    }
}

/// After a passed turn, a search that keeps everything, and taking the turn back, everything
/// is kept.
pub proof fn lemma_given_back(a: SearchData, passed: SearchData, below: SearchData, b: SearchData)
    requires
        a.wf(),
        kept(passed, below),
        passed == (SearchData { board: passed.board, stack: passed.stack, ..a }),
        passed.board.state_stack@ == a.board.state_stack@.push(a.board.state),
        passed.board.zobrist == a.board.zobrist,
        passed.board.state.mb() == a.board.state.mb(),
        passed.board.game_history@.len() > 0,
        passed.board.game_history@.drop_last() == a.board.game_history@,
        forall|p: int|
            -8 <= p < 136 ==> (#[trigger] passed.stack.at(p)).excluded == a.stack.at(p).excluded,
        b == (SearchData { board: b.board, ..below }),
        b.board.wf(),
        taken_back(below.board, b.board),
    ensures
        kept(a, b),
{
    assert(b.board.state_stack@ =~= a.board.state_stack@);
    assert forall|p: int| -8 <= p < 136 implies (#[trigger] b.stack.at(p)).excluded == a.stack.at(
        p,
    ).excluded by {
        assert(below.stack.at(p).excluded == passed.stack.at(p).excluded);
        assert(passed.stack.at(p).excluded == a.stack.at(p).excluded);
    }
    assert forall|i: int| 0 <= i < a.root_moves@.len() implies (#[trigger] b.root_moves@[i]).m
        == a.root_moves@[i].m by {
        assert(below.root_moves@[i].m == passed.root_moves@[i].m);
    }
}

/// Looks the position up in the table.
pub(crate) fn probe(data: &SearchData, ply: i32) -> (res: Probe)
    requires
        data.wf(),
        0 <= ply <= LAST_PLY,
    ensures
        res == probe_of(*data, ply as int),
        res.best_move matches Some(m) ==> generated(data.board.state, m@),
        res.score matches Some(s) ==> -INFINITE <= s <= INFINITE,
        res.eval matches Some(e) ==> -EVAL_LIMIT <= e <= EVAL_LIMIT,
        res.depth matches Some(d) ==> 0 <= d <= 255,
{
    let entry = data.shared.tt.entry(data.board.state.hash, ply as u8);
    let res = read_entry(&entry, &data.board);
    proof {
        let tt = data.shared.tt;
        let st = data.board.state;
        assert(known(tt, st, ply as int, entry));
        lemma_table_says(tt, st, ply as int, res);
    }
    res
}

/// Notes what was found out about the position.
pub(crate) fn record(
    data: &mut SearchData,
    best_move: Option<Move>,
    score: i32,
    eval: i32,
    bound: Bound,
    depth: i32,
    ply: i32,
    pv: bool,
)
    requires
        old(data).wf(),
        0 <= ply <= LAST_PLY,
        scorable(score as int),
        eval == NO_SCORE || -EVAL_LIMIT <= eval <= EVAL_LIMIT,
        0 <= depth <= 255,
    ensures
        kept(*old(data), *final(data)),
        told(
            *old(data),
            *final(data),
            best_move,
            score as int,
            eval as int,
            bound,
            depth as int,
            ply as int,
            pv,
        ),
{
    let m = match best_move {
        Some(m) => m,
        None => Move::none(),
    };
    let hash = data.board.state.hash;
    data.shared.tt.add_entry(m, score, eval, bound, hash, depth, ply as u8, pv);
    assert(stands_for(best_move, m));
}

/// The lines up to a ply are as before. Off the expected line all lines are; on it the line
/// of the next ply can be played after the move.
pub open spec fn followed(a: SearchData, b: SearchData, m: Move, pv: bool, ply: int) -> bool {
    &&& b.root_moves == a.root_moves
    &&& forall|p: int| 0 <= p <= ply ==> #[trigger] b.pv.line_spec(p) == a.pv.line_spec(p)
    &&& if pv {
        plays(next_position(a.board.state.position(), m@), b.pv.line_spec(ply + 1))
    } else {
        b.pv == a.pv
    }
}

/// A line that can be played at a ply stays one.
pub open spec fn traced_on(a: SearchData, b: SearchData, node: Node, ply: int) -> bool {
    &&& b.root_moves == a.root_moves
    &&& forall|p: int| 0 <= p < ply ==> #[trigger] b.pv.line_spec(p) == a.pv.line_spec(p)
    &&& node is PV && plays(a.board.state.position(), a.pv.line_spec(ply)) ==> plays(
        a.board.state.position(),
        b.pv.line_spec(ply),
    )
    &&& node is NonPV ==> b.pv == a.pv
}

} // verus!
