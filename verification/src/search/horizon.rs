//! The search of captures at the horizon of the tree.

use crate::board::movegen::generated;
use crate::nnue::EVAL_LIMIT;
use crate::search::{
    checked, endable, kept, lemma_plays_after, no_moves, notes_before, plays, quiesced, ready,
    traced, undisturbed, window, Node, Probe, LAST_PLY,
};
use crate::search::account::{
    afterwards, broken_off, ended, gone_through, lemma_broken_off, lemma_outcome,
    lemma_quiet_at_sight, lemma_quiet_moves, lemma_quiet_pat, lemma_searched, lemma_unvisited,
    lemma_visit, outcome, picker_after, plan_of, played, quiet_setting, quieted, ranked_quietly,
    replied, rewarded, set_up, state_after, stood_pat, tally, visited, whole_call, Halt, Plan,
    Reply, Setting, Trial, Visit, Walk,
};
use crate::search::bookkeeping::{
    followed, lemma_fewer, lemma_kept, lemma_pending_finite, lemma_taken_back, probe, record,
};
use crate::search::data::{SearchData, STOPPED};
use crate::search::learning::reward_noisy;
use crate::search::movepicker::{is_new, MovePicker};
use crate::search::pruning::{is_conclusive, larger, max};
use crate::types::moves::{Move, Step};
use crate::types::score::{is_loss, DRAW, INFINITE, MATE, NO_SCORE, TIMEOUT};
use crate::types::transposition::Bound;
use vstd::prelude::*;

verus! {

/// Makes a move, searches captures below it and takes it back.
pub(crate) fn play_noisy(
    data: &mut SearchData,
    node: Node,
    m: Move,
    alpha: i32,
    beta: i32,
    ply: i32,
    Ghost(cutnode): Ghost<bool>,
    Ghost(first): Ghost<bool>,
) -> (res: i32)
    requires
        ready(*old(data), Node::NonPV, ply as int),
        ply < LAST_PLY,
        old(data).board.state.half_move_clock < 255,
        generated(old(data).board.state, m@),
        window(alpha as int, beta as int),
    ensures
        kept(*old(data), *final(data)),
        -TIMEOUT <= res < TIMEOUT,
        gone_through(
            Plan {
                horizon: true,
                node,
                depth: 0,
                reduction: None,
                alpha: alpha as int,
                beta: beta as int,
                ply: ply as int,
                cutnode,
                first,
            },
            *old(data),
            m,
            *final(data),
            res as int,
        ),
        followed(*old(data), *final(data), m, node.pv(), ply as int),
        notes_before(*old(data), *final(data), ply as int),
    decreases 128 - ply, 0int, 0int,
{
    data.make_move(m, ply);
    let ghost made = *data;
    let score: i32 = -quiesce(data, node, -beta, -alpha, ply + 1);
    let ghost below = *data;
    data.unmake_move();
    proof {
        let plan = Plan {
            horizon: true,
            node,
            depth: 0,
            reduction: None,
            alpha: alpha as int,
            beta: beta as int,
            ply: ply as int,
            cutnode,
            first,
        };
        let call = whole_call(plan);
        let tr = Trial {
            made,
            reduced: None,
            reset: made,
            narrow: None,
            whole: Some(Reply { from: made, call, score: score as int, to: below }),
            back: *data,
            score: score as int,
        };
        lemma_outcome(
            made,
            below,
            node,
            0,
            call.alpha,
            call.beta,
            call.ply,
            call.cutnode,
            -score as int,
        );
        assert(replied(made, below, call, -score as int)) by {
            reveal(outcome);
        }
        assert(played(plan, *old(data), m, tr)) by {
            reveal(played);
        }
        lemma_taken_back(*old(data), made, below, *data);
    }
    score
}

/// What a quiet search knows before it looks at moves.
pub open spec fn horizon_of(
    node: Node,
    probe: Probe,
    raw_eval: int,
    pat: int,
    in_check: bool,
    alpha: int,
    beta: int,
    ply: int,
    left_out: Move,
) -> Setting {
    Setting {
        horizon: true,
        node,
        depth: 0,
        floor: pat,
        alpha: larger(alpha, pat),
        beta,
        ply,
        cutnode: false,
        in_check,
        probe,
        improving: false,
        static_eval: pat,
        raw_eval,
        extension: 0,
        left_out,
    }
}

/// Searches the captures of a position that is not quiet yet, and all its moves when in
/// check.
#[verifier::rlimit(20)]
pub(crate) fn quiesce_moves(
    data: &mut SearchData,
    node: Node,
    tt: &Probe,
    raw_eval: i32,
    pat: i32,
    in_check: bool,
    alpha: i32,
    beta: i32,
    ply: i32,
) -> (res: i32)
    requires
        ready(*old(data), Node::NonPV, ply as int),
        ply < LAST_PLY,
        old(data).board.state.half_move_clock < 255,
        tt.best_move matches Some(m) ==> generated(old(data).board.state, m@),
        in_check == checked(old(data).board.state),
        raw_eval == NO_SCORE || -EVAL_LIMIT <= raw_eval <= EVAL_LIMIT,
        -INFINITE <= pat < TIMEOUT,
        pat < beta,
        window(alpha as int, beta as int),
        node.pv() ==> plays(old(data).board.state.position(), old(data).pv.line_spec(ply as int)),
    ensures
        kept(*old(data), *final(data)),
        endable(res as int),
        undisturbed(*old(data)) ==> res != TIMEOUT,
        res >= pat || in_check && no_moves(old(data).board.state),
        in_check && no_moves(old(data).board.state) ==> res == -MATE + ply,
        ({
            let n = horizon_of(
                node,
                *tt,
                raw_eval as int,
                pat as int,
                in_check,
                alpha as int,
                beta as int,
                ply as int,
                old(data).stack.at(ply as int).excluded,
            );
            if res == TIMEOUT {
                broken_off(n, *old(data), *final(data))
            } else {
                ranked_quietly(n, *old(data), *final(data), res as int)
            }
        }),
        traced(*old(data), *final(data), node.pv(), ply as int),
        notes_before(*old(data), *final(data), ply as int),
    decreases 128 - ply, 0int, 1int,
{
    let ghost pos = data.board.state.position();
    let ghost n = horizon_of(
        node,
        *tt,
        raw_eval as int,
        pat as int,
        in_check,
        alpha as int,
        beta as int,
        ply as int,
        data.stack.at(ply as int).excluded,
    );
    let mut best_score: i32 = pat;
    let mut low: i32 = alpha;
    if best_score > low {
        low = best_score;
    }
    let ghost start = *data;
    let ghost st = data.board.state;
    let ghost mut visits: Seq<Visit> = Seq::empty();
    let mut move_picker = MovePicker::new(tt.best_move);
    let ghost first = move_picker;
    let mut move_count: i32 = 0;
    let mut bound: Bound = Bound::Upper;
    let mut best_move: Option<Move> = None;
    let skip_quiets: bool = !in_check;
    proof {
        lemma_pending_finite(move_picker, st);
        lemma_unvisited(n, start, first);
    }
    loop
        invariant_except_break
            ready(*data, Node::NonPV, ply as int),
            0 <= move_count,
            move_count + move_picker.pending(st).len() <= 66560,
            window(low as int, beta as int),
            move_picker.wf(st),
            move_picker.pending(st).finite(),
            forall|s: Step| #[trigger] move_picker.pending(st).contains(s) ==> generated(st, s),
            move_count == 0 ==> forall|s: Step| #[trigger]
                generated(st, s) ==> move_picker.pending(st).contains(s),
            best_score < beta,
            picker_after(first, visits) == move_picker,
            tally(n, visits).alpha == low,
            !tally(n, visits).cut,
            !tally(n, visits).over,
        invariant
            start.wf(),
            kept(start, *data),
            start == *old(data),
            in_check == checked(st),
            n == horizon_of(
                node,
                *tt,
                raw_eval as int,
                pat as int,
                in_check,
                alpha as int,
                beta as int,
                ply as int,
                start.stack.at(ply as int).excluded,
            ),
            is_new(first, tt.best_move),
            visited(n, start, first, visits),
            state_after(start, visits) == *data,
            tally(n, visits).count == move_count,
            tally(n, visits).best == best_score,
            tally(n, visits).best_move == best_move,
            tally(n, visits).skip == skip_quiets,
            tally(n, visits).cut == (best_score >= beta),
            -INFINITE <= best_score < TIMEOUT,
            bound == if tally(n, visits).cut {
                Bound::Lower
            } else {
                Bound::Upper
            },
            st == start.board.state,
            0 <= ply < LAST_PLY,
            st.half_move_clock < 255,
            start.network.boards().len() <= ply + 1,
            st.full_move + (LAST_PLY + 1 - ply) <= usize::MAX,
            best_score >= pat,
            no_moves(st) ==> move_count == 0,
            best_move matches Some(m) ==> generated(st, m@),
            pos == st.position(),
            traced(start, *data, node.pv(), ply as int),
            notes_before(start, *data, ply as int),
            skip_quiets == !in_check,
        ensures
            in_check && move_count == 0 ==> no_moves(st),
            ended(n, start, Walk { first, visits, end: move_picker }),
        decreases move_picker.pending(st).len(),
    {
        let ghost before = move_picker;
        let m = match move_picker.next(data, skip_quiets, ply) {
            None => {
                break ;
            },
            Some(m) => m,
        };
        proof {
            lemma_fewer(before, move_picker, st, m@);
            assert(generated(st, m@));
        }
        move_count = move_count + 1;
        let ghost mid = *data;
        let ghost v = Visit {
            picker: before,
            m,
            left: move_picker,
            before: mid,
            trial: None,
            after: mid,
        };
        if !is_loss(best_score) {
            if move_count >= 3 && !data.board.is_direct_check(m) {
                proof {
                    lemma_visit(n, start, first, visits, v);
                    visits = visits.push(v);
                }
                break ;
            }
            if !data.board.see(m, -112) {
                proof {
                    lemma_visit(n, start, first, visits, v);
                    visits = visits.push(v);
                }
                continue ;
            }
        }
        let score: i32 = play_noisy(
            data,
            node,
            m,
            low,
            beta,
            ply,
            Ghost(false),
            Ghost(move_count == 1),
        );
        proof {
            lemma_kept(start, mid, *data);
        }
        assert(gone_through(
            plan_of(n, tally(n, visits), mid, m@),
            mid,
            m,
            *data,
            score as int,
        ));
        let ghost tr = choose|tr: Trial| #[trigger]
            played(plan_of(n, tally(n, visits), mid, m@), mid, m, tr) && tr.back == *data
                && tr.score == score;
        if data.shared.status.get() == STOPPED {
            proof {
                let h = Halt { first, visits, m, left: move_picker, trial: tr };
                lemma_broken_off(n, start, h, *data);
            }
            return TIMEOUT;
        }
        let raised: bool = score > best_score && score > low;
        if raised {
            best_move = Some(m);
            if node.is_pv() {
                proof {
                    lemma_plays_after(pos, m, data.pv.line_spec(ply + 1));
                }
                data.pv.add(m, ply as usize);
            }
        }
        proof {
            let v = Visit { trial: Some(tr), after: *data, ..v };
            let t = tally(n, visits);
            assert(afterwards(n, t, v.m, v.before, tr, v.after));
            lemma_searched(n, t, v, tr);
            lemma_visit(n, start, first, visits, v);
            visits = visits.push(v);
        }
        if score > best_score {
            best_score = score;
        }
        if raised {
            if score >= beta {
                bound = Bound::Lower;
                break ;
            }
            low = score;
        }
    }
    if in_check && move_count == 0 {
        assert(ranked_quietly(n, start, *data, -MATE + ply)) by {
            reveal(ranked_quietly);
            assert(ended(n, start, Walk { first, visits, end: move_picker }));
        }
        return -MATE + ply;
    }
    let ghost last = *data;
    if best_score >= beta {
        if let Some(m) = best_move {
            if !m.get_kind().is_quiet() {
                reward_noisy(data, m, 106);
            }
        }
    }
    let ghost learned = *data;
    record(data, best_move, best_score, raw_eval, bound, 0, ply, node.is_pv() || tt.was_pv);
    proof {
        lemma_kept(start, learned, *data);
        assert(ranked_quietly(n, start, *data, best_score as int)) by {
            reveal(ranked_quietly);
            assert(rewarded(tally(n, visits), last, learned));
            assert(ended(n, start, Walk { first, visits, end: move_picker }));
        }
    }
    best_score
}

/// Searches captures, and all moves when in check, until the position is quiet. The score
/// is that of the side to move.
#[verifier::rlimit(30)]
pub fn quiesce(data: &mut SearchData, node: Node, alpha: i32, beta: i32, ply: i32) -> (res: i32)
    requires
        ready(*old(data), Node::NonPV, ply as int),
        window(alpha as int, beta as int),
    ensures
        kept(*old(data), *final(data)),
        quiesced(*old(data), node, alpha as int, beta as int, ply as int, res as int),
        quieted(
            *old(data),
            *final(data),
            node,
            alpha as int,
            beta as int,
            ply as int,
            res as int,
        ),
        traced(*old(data), *final(data), node.pv(), ply as int),
        notes_before(*old(data), *final(data), ply as int),
    decreases 128 - ply, 0int, 2int,
{
    let ghost start = *data;
    if node.is_pv() {
        data.pv.clear(ply as usize);
        data.sel_depth = max(data.sel_depth, ply);
    }
    if data.board.is_draw() {
        proof {
            lemma_quiet_at_sight(start, *data, node, alpha as int, beta as int, ply as int, 0);
        }
        return DRAW;
    }
    if data.id == 0 && data.time.hard_limit(data.id, data.root_depth, data.nodes()) {
        data.shared.status.stop();
        proof {
            lemma_quiet_at_sight(
                start,
                *data,
                node,
                alpha as int,
                beta as int,
                ply as int,
                TIMEOUT as int,
            );
        }
        return TIMEOUT;
    }
    let tt = probe(data, ply);
    let tt_pv: bool = node.is_pv() || tt.was_pv;
    if !node.is_pv() {
        if let Some(tt_score) = tt.score {
            if is_conclusive(tt.bound, tt_score, alpha, beta) {
                proof {
                    lemma_quiet_at_sight(
                        start,
                        *data,
                        node,
                        alpha as int,
                        beta as int,
                        ply as int,
                        tt_score as int,
                    );
                }
                return tt_score;
            }
        }
    }
    let in_check: bool = data.board.king_in_check(data.board.state.side_to_move);
    if ply >= LAST_PLY {
        let score: i32 = if in_check {
            DRAW
        } else {
            data.network.evaluate(&data.board)
        };
        proof {
            lemma_quiet_at_sight(
                start,
                *data,
                node,
                alpha as int,
                beta as int,
                ply as int,
                score as int,
            );
        }
        return score;
    }
    let mut raw_eval: i32 = NO_SCORE;
    let mut best_score: i32 = -INFINITE;
    if !in_check {
        raw_eval = match tt.eval {
            Some(e) => e,
            None => data.network.evaluate(&data.board),
        };
        best_score = raw_eval + data.correction(ply);
    }
    if !tt.found {
        record(data, None, NO_SCORE, raw_eval, Bound::Unset, 0, ply, tt_pv);
    }
    let ghost mid = *data;
    proof {
        assert(set_up(start, mid, node, ply as int));
    }
    if best_score >= beta {
        if !tt.found {
            record(data, None, best_score, raw_eval, Bound::Lower, 0, ply, tt_pv);
        }
        proof {
            assert(stood_pat(start, mid, *data, node, ply as int));
            lemma_quiet_pat(
                start,
                mid,
                *data,
                node,
                alpha as int,
                beta as int,
                ply as int,
                best_score as int,
            );
        }
        return best_score;
    }
    let score: i32 = quiesce_moves(
        data,
        node,
        &tt,
        raw_eval,
        best_score,
        in_check,
        alpha,
        beta,
        ply,
    );
    proof {
        lemma_kept(start, mid, *data);
        assert(quiet_setting(start, node, alpha as int, beta as int, ply as int)
            == horizon_of(
            node,
            tt,
            raw_eval as int,
            best_score as int,
            in_check,
            alpha as int,
            beta as int,
            ply as int,
            mid.stack.at(ply as int).excluded,
        ));
        lemma_quiet_moves(
            start,
            mid,
            *data,
            node,
            alpha as int,
            beta as int,
            ply as int,
            score as int,
        );
    }
    score
}

} // verus!
