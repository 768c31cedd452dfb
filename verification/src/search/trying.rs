//! The searches below a node: after a passed turn, without a move, and after a move.

use crate::board::legality::law_fair_null;
use crate::board::makemove::next_position;
use crate::board::movegen::generated;
use crate::search::{
    checked, endable, kept, lemma_safe_king, lined, notes_before, plays, ready, scorable, settled,
    undisturbed, window, Node, LAST_PLY,
};
use crate::search::account::{
    confirms, gone_through, leaves_out, narrow_call, number, pass_answered, pass_followed,
    passed_over, passes, passing_note, played, reduced_first, replied, root_noted, single_out,
    singled, whole_call, Call, Plan, Reply, Trial,
};
use crate::search::bookkeeping::{followed, lemma_given_back, lemma_kept, lemma_taken_back};
use crate::search::data::{SearchData, STOPPED};
use crate::search::pruning::{
    confirmation, confirmation_of, pass_answer, pass_reduction, passing_depth, reduce,
    singular_answer, Passing,
};
use crate::search::tree::search;
use crate::types::moves::Move;
use crate::types::plytable::PlyData;
use crate::types::score::{INFINITE, TIMEOUT};
use vstd::prelude::*;

verus! {

/// Lets the opponent move twice. A score that is still above the window is returned, at
/// great depth only if a search without passing confirms it.
#[verifier::rlimit(40)]
pub(crate) fn null_move(
    data: &mut SearchData,
    depth: i32,
    Ghost(entry_depth): Ghost<int>,
    beta: i32,
    ply: i32,
) -> (res: Option<i32>)
    requires
        ready(*old(data), Node::NonPV, ply as int),
        ply < LAST_PLY,
        !checked(old(data).board.state),
        3 <= depth <= 128,
        1 <= entry_depth,
        depth <= entry_depth + 1,
        -TIMEOUT < beta <= TIMEOUT,
    ensures
        kept(*old(data), *final(data)),
        final(data).pv == old(data).pv,
        final(data).root_moves == old(data).root_moves,
        res matches Some(s) ==> endable(s as int) && (s == TIMEOUT || s >= beta),
        undisturbed(*old(data)) ==> res != Some(TIMEOUT),
        pass_answered(
            *old(data),
            depth as int,
            beta as int,
            ply as int,
            *final(data),
            number(res),
        ),
        depth <= 14 || old(data).nmp_min_ply > 0 ==> passing_note(
            old(data).stack.at(ply as int),
            final(data).stack.at(ply as int),
        ),
        notes_before(*old(data), *final(data), ply as int),
    decreases 128 - ply, entry_depth, 1int,
{
    let ghost start = *data;
    let r: i32 = pass_reduction(depth);
    let mut entry = data.stack.get(ply);
    entry.conthistory = None;
    entry.contcorrhistory = None;
    entry.m = Move::none();
    entry.piece = None;
    data.stack.set(ply, entry);
    proof {
        lemma_safe_king(data.board.state);
    }
    data.board.make_null_move();
    let ghost passed = *data;
    proof {
        law_fair_null(start.board.state, passed.board.state);
        assert(passed.board.game_history@.drop_last() =~= start.board.game_history@);
        assert(passes(start, passed, ply as int));
    }
    let score: i32 = -search(data, Node::NonPV, depth - r, -beta, -beta + 1, ply + 1, false);
    let ghost below = *data;
    assert(replied(
        passed,
        below,
        Call {
            node: Node::NonPV,
            depth: depth - passing_depth(depth as int),
            alpha: -beta as int,
            beta: -beta + 1,
            ply: ply + 1,
            cutnode: false,
        },
        -score as int,
    ));
    data.board.unmake_move();
    let ghost back = *data;
    proof {
        lemma_given_back(start, passed, below, *data);
        assert(passed_over(start, passed, below, back, ply as int, -score as int));
    }
    reveal(pass_answered);
    reveal(pass_followed);
    if data.shared.status.get() == STOPPED {
        return Some(TIMEOUT);
    }
    match pass_answer(score, beta, depth, data.nmp_min_ply) {
        Passing::Open => {},
        Passing::Cut => {
            return Some(score);
        },
        Passing::Confirm => {
            let ghost mid = *data;
            data.nmp_min_ply = ply + (depth - r) * 3 / 4;
            let ghost again = *data;
            let verified_score: i32 = search(
                data,
                Node::NonPV,
                depth - r,
                beta - 1,
                beta,
                ply,
                true,
            );
            let ghost after = *data;
            data.nmp_min_ply = 0;
            proof {
                lemma_kept(start, mid, *data);
            }
            let stopped: bool = data.shared.status.get() == STOPPED;
            let res = confirmation(stopped, verified_score, beta);
            proof {
                assert(confirms(back, again, after, depth as int, ply as int, *data));
                assert(replied(
                    again,
                    after,
                    Call {
                        node: Node::NonPV,
                        depth: depth - passing_depth(depth as int),
                        alpha: beta - 1,
                        beta: beta as int,
                        ply: ply as int,
                        cutnode: true,
                    },
                    verified_score as int,
                ));
                assert(number(res) == confirmation_of(
                    stopped,
                    verified_score as int,
                    beta as int,
                ));
            }
            return res;
        },
    }
    None
}

/// Searches all moves but the one from the table, to see how much the position depends on
/// it. The answer is by how much that move is extended, or nothing if the time is up.
pub(crate) fn singular(
    data: &mut SearchData,
    node: Node,
    depth: i32,
    Ghost(entry_depth): Ghost<int>,
    tt_move: Move,
    tt_score: i32,
    was_pv: bool,
    beta: i32,
    ply: i32,
    cutnode: bool,
) -> (res: Option<i32>)
    requires
        ready(*old(data), Node::NonPV, ply as int),
        5 <= depth <= 128,
        1 <= entry_depth,
        depth <= entry_depth + 1,
        -31000 <= tt_score <= 31000,
    ensures
        kept(*old(data), *final(data)),
        final(data).pv == old(data).pv,
        final(data).root_moves == old(data).root_moves,
        res matches Some(e) ==> -3 <= e <= 3,
        undisturbed(*old(data)) ==> res is Some,
        singled(
            node,
            depth as int,
            tt_move,
            tt_score as int,
            was_pv,
            beta as int,
            ply as int,
            cutnode,
            *old(data),
            *final(data),
            number(res),
        ),
        settled(
            *old(data),
            Node::NonPV,
            (depth - 1) / 2,
            tt_score - 2 * depth - 1,
            tt_score - 2 * depth,
            ply as int,
        ) is Some ==> {
            let note = final(data).stack.at(ply as int);
            note.m.null() && note == (PlyData { m: note.m, ..old(data).stack.at(ply as int) })
        },
        notes_before(*old(data), *final(data), ply as int),
    decreases 128 - ply, entry_depth, 1int,
{
    let ghost start = *data;
    let singular_depth: i32 = (depth - 1) / 2;
    let singular_beta: i32 = tt_score - (depth + depth);
    let mut entry = data.stack.get(ply);
    let before = entry.excluded;
    entry.excluded = tt_move;
    entry.m = Move::none();
    data.stack.set(ply, entry);
    let ghost without = *data;
    let score: i32 = search(
        data,
        Node::NonPV,
        singular_depth,
        singular_beta - 1,
        singular_beta,
        ply,
        cutnode,
    );
    let ghost below = *data;
    assert(leaves_out(start, without, tt_move, ply as int));
    assert(replied(
        without,
        below,
        Call {
            node: Node::NonPV,
            depth: (depth - 1) / 2,
            alpha: tt_score - 2 * depth - 1,
            beta: tt_score - 2 * depth,
            ply: ply as int,
            cutnode,
        },
        score as int,
    ));
    let mut entry = data.stack.get(ply);
    entry.excluded = before;
    data.stack.set(ply, entry);
    proof {
        assert forall|p: int| -8 <= p < 136 implies (#[trigger] data.stack.at(p)).excluded
            == start.stack.at(p).excluded by {
            if p != ply {
                assert(below.stack.at(p).excluded == without.stack.at(p).excluded);
            }
        }
        assert(kept(start, *data));
        reveal(singled);
        assert(single_out(start, without, below, *data, tt_move, ply as int, score as int));
    }
    let stopped: bool = data.shared.status.get() == STOPPED;
    singular_answer(
        stopped,
        node.is_pv(),
        was_pv,
        cutnode,
        score,
        singular_beta,
        tt_score,
        beta,
    )
}

/// Makes a move, searches below it and takes it back. A late move is searched at a reduced
/// depth first, and a move off the expected line with a window of no width; what turns out
/// better than expected is searched again.
#[verifier::rlimit(40)]
pub(crate) fn play_move(
    data: &mut SearchData,
    node: Node,
    m: Move,
    new_depth: i32,
    reduction: Option<i32>,
    alpha: i32,
    beta: i32,
    ply: i32,
    cutnode: bool,
    first: bool,
) -> (res: i32)
    requires
        ready(*old(data), Node::NonPV, ply as int),
        ply < LAST_PLY,
        old(data).board.state.half_move_clock < 255,
        generated(old(data).board.state, m@),
        window(alpha as int, beta as int),
        -1000 <= new_depth <= 1000,
        reduction matches Some(r) ==> -1010000 <= r <= 1010000,
    ensures
        kept(*old(data), *final(data)),
        -TIMEOUT <= res < TIMEOUT,
        gone_through(
            Plan {
                horizon: false,
                node,
                depth: new_depth as int,
                reduction: number(reduction),
                alpha: alpha as int,
                beta: beta as int,
                ply: ply as int,
                cutnode,
                first,
            },
            *old(data),
            m,
            *final(data),
            res as int,
        ),
        final(data).root_moves == old(data).root_moves,
        forall|p: int|
            0 <= p <= ply ==> #[trigger] final(data).pv.line_spec(p) == old(data).pv.line_spec(p),
        !node.pv() ==> final(data).pv == old(data).pv,
        node.pv() && (first || res > alpha) ==> followed(
            *old(data),
            *final(data),
            m,
            true,
            ply as int,
        ),
        notes_before(*old(data), *final(data), ply as int),
    decreases 128 - ply, 0int, 2int,
{
    data.make_move(m, ply);
    let ghost made = *data;
    let ghost plan = Plan {
        horizon: false,
        node,
        depth: new_depth as int,
        reduction: number(reduction),
        alpha: alpha as int,
        beta: beta as int,
        ply: ply as int,
        cutnode,
        first,
    };
    let ghost mut tr = Trial {
        made,
        reduced: None,
        reset: made,
        narrow: None,
        whole: None,
        back: made,
        score: 0,
    };
    let mut score: i32 = -INFINITE;
    match reduction {
        Some(r) => {
            let deep: i32 = reduce(new_depth, r, node.is_pv());
            let mut entry = data.stack.get(ply);
            entry.reduction = r;
            data.stack.set(ply, entry);
            let ghost a = *data;
            score = -search(
                data,
                Node::NonPV,
                deep,
                -alpha - 1,
                -alpha,
                ply + 1,
                true,
            );
            let ghost b = *data;
            proof {
                lemma_kept(made, a, *data);
                let call = Call { depth: deep as int, cutnode: true, ..narrow_call(plan) };
                assert(replied(a, b, call, -score as int));
                tr = Trial {
                    reduced: Some(Reply { from: a, call, score: score as int, to: b }),
                    ..tr
                };
            }
            let mut entry = data.stack.get(ply);
            entry.reduction = 0;
            data.stack.set(ply, entry);
            proof {
                lemma_kept(made, b, *data);
                tr = Trial { reset: *data, ..tr };
                assert(reduced_first(plan, tr));
            }
            if score > alpha && deep < new_depth {
                let ghost c = *data;
                score = -search(
                    data,
                    Node::NonPV,
                    new_depth,
                    -alpha - 1,
                    -alpha,
                    ply + 1,
                    !cutnode,
                );
                proof {
                    lemma_kept(made, c, *data);
                    let call = narrow_call(plan);
                    assert(replied(c, *data, call, -score as int));
                    tr = Trial {
                        narrow: Some(Reply { from: c, call, score: score as int, to: *data }),
                        ..tr
                    };
                }
            }
        },
        None => {
            if !node.is_pv() || !first {
                score = -search(
                    data,
                    Node::NonPV,
                    new_depth,
                    -alpha - 1,
                    -alpha,
                    ply + 1,
                    !cutnode,
                );
                proof {
                    let call = narrow_call(plan);
                    assert(replied(made, *data, call, -score as int));
                    tr = Trial {
                        narrow: Some(Reply { from: made, call, score: score as int, to: *data }),
                        ..tr
                    };
                }
            }
        },
    }
    if node.is_pv() && (first || score > alpha) {
        let ghost d = *data;
        score = -search(data, Node::PV, new_depth, -beta, -alpha, ply + 1, false);
        proof {
            lemma_kept(made, d, *data);
            let call = whole_call(plan);
            assert(replied(d, *data, call, -score as int));
            tr = Trial {
                whole: Some(Reply { from: d, call, score: score as int, to: *data }),
                ..tr
            };
        }
    }
    let ghost last = *data;
    data.unmake_move();
    proof {
        lemma_taken_back(*old(data), made, last, *data);
        tr = Trial { back: *data, score: score as int, ..tr };
        assert(played(plan, *old(data), m, tr)) by {
            reveal(played);
        }
    }
    score
}

/// Notes at the root what the search of a move has given.
pub(crate) fn update_root_move(
    data: &mut SearchData,
    m: Move,
    score: i32,
    alpha: i32,
    beta: i32,
    first: bool,
    spent: u64,
)
    requires
        old(data).wf(),
        scorable(score as int),
        window(alpha as int, beta as int),
        first || score > alpha ==> plays(
            next_position(old(data).board.state.position(), m@),
            old(data).pv.line_spec(1),
        ),
    ensures
        kept(*old(data), *final(data)),
        lined(*old(data)) ==> lined(*final(data)),
        root_noted(
            *old(data),
            *final(data),
            m,
            score as int,
            alpha as int,
            beta as int,
            first,
            spent,
        ),
{
    let mut i: usize = 0;
    while i < data.root_moves.len()
        invariant
            i <= data.root_moves@.len(),
            *data == *old(data),
            data.wf(),
            scorable(score as int),
            window(alpha as int, beta as int),
            first || score > alpha ==> plays(
                next_position(data.board.state.position(), m@),
                data.pv.line_spec(1),
            ),
            forall|j: int| 0 <= j < i ==> (#[trigger] data.root_moves@[j]).m@ != m@,
        decreases data.root_moves@.len() - i,
    {
        if data.root_moves[i].m.same(&m) {
            let mut rm = data.root_moves[i].duplicate();
            rm.nodes = rm.nodes.wrapping_add(spent);
            if first || score > alpha {
                rm.score = score;
                rm.display_score = score;
                rm.searched_depth = data.root_depth;
                rm.upperbound = false;
                rm.lowerbound = false;
                if score <= alpha {
                    rm.display_score = alpha;
                    rm.upperbound = true;
                } else if score >= beta {
                    rm.display_score = beta;
                    rm.lowerbound = true;
                }
                rm.pv.commit(data.pv.line(1));
                rm.sel_depth = data.sel_depth;
            } else {
                rm.score = -INFINITE;
            }
            assert(data.root_moves@[i as int].scored());
            data.root_moves.set(i, rm);
            proof {
                let a = *old(data);
                if lined(a) {
                    assert forall|j: int| 0 <= j < data.root_moves@.len() implies plays(
                        next_position(
                            data.board.state.position(),
                            (#[trigger] data.root_moves@[j]).m@,
                        ),
                        data.root_moves@[j].pv.inner@,
                    ) by {
                        assert(plays(
                            next_position(a.board.state.position(), a.root_moves@[j].m@),
                            a.root_moves@[j].pv.inner@,
                        ));
                    }
                }
            }
            return ;
        }
        i += 1;
    }
}

} // verus!
