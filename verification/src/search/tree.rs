//! The search tree: alpha-beta search with its refinements.

use crate::board::movegen::generated;
use crate::nnue::{evaluation, EVAL_LIMIT};
use crate::search::{
    bare_score, checked, corrected_eval, endable, entered, given, kept, lined, low_end, no_moves,
    notes_before, ready, reported, root_scored, rooted_exactly, settled, traced, undisturbed,
    window, Node, Probe, LAST_PLY,
};
use crate::search::account::{
    cut_by_table, explained, extended, introduced, lemma_cut_short, lemma_explained, lemma_looked,
    lemma_outcome, lemma_passed, lemma_same_explained, lemma_same_outlook, lemma_same_quiet,
    lemma_single_broken, looked_into, may_single, outcome, prepared, setting_of, stands_for,
};
use crate::search::bookkeeping::{lemma_kept, probe, record, traced_on};
use crate::search::data::{SearchData, SharedData, STOPPED};
use crate::search::horizon::quiesce;
use crate::search::learning::bumped;
use crate::search::looping::{search_moves, Facts};
use crate::search::pruning::{
    can_pass, capped_bonus, hindsight, hindsight_depth, ilerp, improvement, is_conclusive, lesser,
    max, min, razors, reverse_futility, swing, swing_bonus,
};
use crate::search::trying::{null_move, singular};
use crate::types::history::quiet_place;
use crate::types::moves::Move;
use crate::types::plytable::PlyData;
use crate::types::score::{is_decisive, DRAW, INFINITE, MATE, NO_SCORE, TIMEOUT};
use crate::types::transposition::{written, Bound, Record};
use vstd::prelude::*;

verus! {

/// Everything but the table, the network and the notes of the plies is the same, and of
/// the notes all but those of a ply.
pub open spec fn evaluated(a: SearchData, b: SearchData, ply: int) -> bool {
    &&& kept(a, b)
    &&& b == (SearchData { shared: b.shared, network: b.network, stack: b.stack, ..a })
    &&& b.shared == (SharedData { tt: b.shared.tt, ..a.shared })
    &&& b.stack.spare() == a.stack.spare()
    &&& forall|p: int| -8 <= p < 136 && p != ply ==> #[trigger] b.stack.at(p) == a.stack.at(p)
}

/// Evaluates a position: what the network says, and that corrected by experience. In check
/// there is no evaluation; when a move is left out, the one from before is used.
pub(crate) fn evaluate_node(
    data: &mut SearchData,
    tt: &Probe,
    in_check: bool,
    excluded: bool,
    ply: i32,
    tt_pv: bool,
) -> (res: (i32, i32))
    requires
        old(data).wf(),
        0 <= ply <= LAST_PLY,
        tt.eval matches Some(e) ==> -EVAL_LIMIT <= e <= EVAL_LIMIT,
    ensures
        evaluated(*old(data), *final(data), ply as int),
        final(data).stack.at(ply as int) == (PlyData {
            eval: res.1,
            ..old(data).stack.at(ply as int)
        }),
        in_check || excluded || (match tt.eval {
            Some(e) => res.0 == e,
            None => res.0 == evaluation(
                old(data).network.params(),
                old(data).board.state.side_to_move,
                old(data).board.state.mb(),
            ),
        }),
        in_check || excluded ==> res.0 == NO_SCORE,
        excluded || tt.found ==> final(data).shared == old(data).shared,
        !excluded && !tt.found ==> exists|m: Move| #[trigger]
            stands_for(None, m) && written(
                old(data).shared.tt,
                final(data).shared.tt,
                old(data).board.state.hash,
                Record {
                    best_move: m,
                    score: NO_SCORE as int,
                    eval: res.0 as int,
                    bound: Bound::Unset,
                    depth: 0,
                    pv: tt_pv,
                },
                ply as int,
            ),
        res.0 == NO_SCORE || -EVAL_LIMIT <= res.0 <= EVAL_LIMIT,
        -40000 <= res.1 <= 40000,
        in_check ==> res.1 == NO_SCORE,
        !in_check && excluded ==> res.1 == old(data).stack.at(ply as int).eval,
        !in_check && !excluded ==> res.1 == corrected_eval(*old(data), *tt, ply as int) && -31000
            <= res.1 <= 31000,
{
    let ghost start = *data;
    let correction: i32 = data.correction(ply);
    let mut raw_eval: i32 = NO_SCORE;
    let mut static_eval: i32 = NO_SCORE;
    if !in_check {
        if excluded {
            static_eval = data.stack.get(ply).eval;
        } else {
            raw_eval = match tt.eval {
                Some(e) => e,
                None => data.network.evaluate(&data.board),
            };
            static_eval = raw_eval + correction;
        }
    }
    let mut entry = data.stack.get(ply);
    entry.eval = static_eval;
    data.stack.set(ply, entry);
    if !excluded && !tt.found {
        let ghost mid = *data;
        assert(kept(start, mid));
        record(data, None, NO_SCORE, raw_eval, Bound::Unset, 0, ply, tt_pv);
        proof {
            lemma_kept(start, mid, *data);
        }
    }
    (raw_eval, static_eval)
}

/// Looks back at the last move: gives it a bonus by how the evaluation has changed, and
/// adjusts the depth if it was reduced.
pub(crate) fn look_back(data: &mut SearchData, static_eval: i32, depth: i32, ply: i32) -> (res: i32)
    requires
        old(data).wf(),
        0 <= ply <= LAST_PLY,
        -40000 <= static_eval <= 40000,
        1 <= depth <= 127,
    ensures
        kept(*old(data), *final(data)),
        *final(data) == (SearchData { quiet_history: final(data).quiet_history, ..*old(data) }),
        ({
            let last = old(data).stack.at(ply - 1);
            let other = old(data).board.state.side_to_move.other();
            final(data).quiet_history.table() == if last.eval != NO_SCORE && last.m.null()
                && last.m@.kind.quiet() {
                bumped(
                    old(data).quiet_history.table(),
                    quiet_place(last.threats, other, last.m@),
                    swing_bonus(last.eval as int, static_eval as int, depth as int),
                )
            } else {
                old(data).quiet_history.table()
            }
        }),
        1 <= res <= depth + 1,
        res == if old(data).stack.at(ply - 1).eval == NO_SCORE {
            depth as int
        } else {
            hindsight_depth(
                depth as int,
                old(data).stack.at(ply - 1).reduction as int,
                static_eval as int,
                old(data).stack.at(ply - 1).eval as int,
            )
        },
{
    let last = data.stack.get(ply - 1);
    if last.eval == NO_SCORE {
        return depth;
    }
    if last.m.is_null() && last.m.get_kind().is_quiet() {
        let bonus: i32 = swing(last.eval, static_eval, depth);
        let other = data.board.state.side_to_move.other();
        data.quiet_history.update(last.threats, other, last.m, bonus);
    }
    hindsight(depth, last.reduction, static_eval, last.eval)
}

/// Searches a node whose score is not clear from the table or the evaluation.
#[verifier::rlimit(30)]
pub(crate) fn search_open(
    data: &mut SearchData,
    node: Node,
    tt: &Probe,
    facts: Facts,
    depth: i32,
    Ghost(entry_depth): Ghost<int>,
    alpha: i32,
    beta: i32,
    ply: i32,
    cutnode: bool,
) -> (res: i32)
    requires
        ready(*old(data), node, ply as int),
        ply < LAST_PLY,
        old(data).board.state.half_move_clock < 255,
        tt.best_move matches Some(m) ==> generated(old(data).board.state, m@),
        facts.wf(),
        facts.in_check == checked(old(data).board.state),
        facts.excluded == !old(data).stack.at(ply as int).excluded.null(),
        facts.extension == 0,
        1 <= depth <= 128,
        1 <= entry_depth,
        depth <= entry_depth + 1,
        window(alpha as int, beta as int),
    ensures
        kept(*old(data), *final(data)),
        endable(res as int),
        undisturbed(*old(data)) ==> res != TIMEOUT,
        !cutnode && no_moves(old(data).board.state) ==> res == bare_score(
            *old(data),
            ply as int,
        ),
        looked_into(
            facts.setting(
                node,
                *tt,
                depth as int,
                alpha as int,
                beta as int,
                ply as int,
                cutnode,
                old(data).stack.at(ply as int).excluded,
            ),
            *old(data),
            *final(data),
            res as int,
        ),
        node !is Root ==> traced_on(*old(data), *final(data), node, ply as int),
        node is Root && lined(*old(data)) ==> lined(*final(data)),
        node is PV && !cutnode && res != TIMEOUT && res > alpha >= -INFINITE && !facts.excluded
            && !no_moves(old(data).board.state) ==> final(data).pv.line_spec(ply as int).len() > 0,
        node is Root && !cutnode && rooted_exactly(*old(data)) && res != TIMEOUT && res > alpha
            >= -INFINITE && !facts.excluded && !no_moves(old(data).board.state) ==> root_scored(
            *final(data),
            beta as int,
            res as int,
        ),
        notes_before(*old(data), *final(data), ply as int),
    decreases 128 - ply, entry_depth, 2int,
{
    let ghost start = *data;
    let ghost n = facts.setting(
        node,
        *tt,
        depth as int,
        alpha as int,
        beta as int,
        ply as int,
        cutnode,
        data.stack.at(ply as int).excluded,
    );
    let from_below: bool = match tt.bound {
        Some(Bound::Upper) => false,
        _ => true,
    };
    if cutnode && depth >= 3 && !facts.excluded && !facts.in_check && ply >= data.nmp_min_ply
        && !data.board.only_king_and_pawns() && from_below && can_pass(
        facts.static_eval,
        beta,
        depth,
        facts.improving,
    ) && !data.stack.get(ply - 1).m.is_null() {
        let score = null_move(data, depth, Ghost(entry_depth), beta, ply);
        if let Some(score) = score {
            proof {
                lemma_passed(n, start, *data, score as int);
            }
            return score;
        }
    }
    let ghost passed = *data;
    let mut facts = facts;
    if !node.is_root() && !facts.excluded && depth >= 5 && from_below {
        if let (Some(tt_move), Some(tt_score), Some(tt_depth)) = (
            tt.best_move,
            tt.score,
            tt.depth,
        ) {
            if tt_depth >= depth - 3 && !is_decisive(tt_score) {
                let ghost mid = *data;
                let found = singular(
                    data,
                    node,
                    depth,
                    Ghost(entry_depth),
                    tt_move,
                    tt_score,
                    tt.was_pv,
                    beta,
                    ply,
                    cutnode,
                );
                proof {
                    lemma_kept(start, mid, *data);
                    assert(may_single(n));
                }
                match found {
                    None => {
                        proof {
                            lemma_single_broken(n, start, passed, *data);
                        }
                        return TIMEOUT;
                    },
                    Some(e) => {
                        facts.extension = e;
                    },
                }
            }
        }
    }
    let ghost mid = *data;
    let score: i32 = search_moves(data, node, tt, &facts, depth, alpha, beta, ply, cutnode);
    proof {
        lemma_kept(start, mid, *data);
        assert(kept(start, passed));
        assert(extended(passed, mid, facts.extension as int));
        lemma_looked(
            n,
            start,
            passed,
            mid,
            facts.extension as int,
            *data,
            score as int,
        );
    }
    score
}

/// Searches a node that is neither drawn nor too deep.
#[verifier::rlimit(30)]
pub(crate) fn search_node(
    data: &mut SearchData,
    node: Node,
    depth: i32,
    Ghost(entry_depth): Ghost<int>,
    alpha: i32,
    beta: i32,
    ply: i32,
    cutnode: bool,
) -> (res: i32)
    requires
        ready(*old(data), node, ply as int),
        ply < LAST_PLY,
        old(data).board.state.half_move_clock < 255,
        1 <= depth <= 127,
        depth <= entry_depth,
        window(alpha as int, beta as int),
        node.pv() ==> old(data).sel_depth >= ply,
        node is PV ==> old(data).pv.line_spec(ply as int).len() == 0,
    ensures
        kept(*old(data), *final(data)),
        endable(res as int),
        undisturbed(*old(data)) ==> res != TIMEOUT,
        match given(
            *old(data),
            node,
            depth as int,
            alpha as int,
            beta as int,
            ply as int,
            cutnode,
        ) {
            Some(score) => res == score,
            None => true,
        },
        explained(
            *old(data),
            *final(data),
            node,
            depth as int,
            alpha as int,
            beta as int,
            ply as int,
            cutnode,
            res as int,
        ),
        node !is Root ==> traced_on(*old(data), *final(data), node, ply as int),
        node is Root && lined(*old(data)) ==> lined(*final(data)),
        node is PV && !cutnode && res != TIMEOUT && res > alpha >= -INFINITE && old(data).stack.at(
            ply as int,
        ).excluded.null() && !no_moves(old(data).board.state) ==> final(data).pv.line_spec(
            ply as int,
        ).len() > 0,
        node is Root && !cutnode && rooted_exactly(*old(data)) && res != TIMEOUT && res > alpha
            >= -INFINITE && old(data).stack.at(ply as int).excluded.null() && !no_moves(
            old(data).board.state,
        ) ==> root_scored(*final(data), beta as int, res as int),
        notes_before(*old(data), *final(data), ply as int),
    decreases 128 - ply, entry_depth, 3int,
{
    let ghost start = *data;
    let stm = data.board.state.side_to_move;
    let in_check: bool = data.board.king_in_check(stm);
    let excluded: bool = !data.stack.get(ply).excluded.is_null();
    let tt = probe(data, ply);
    let tt_pv: bool = node.is_pv() || tt.was_pv;
    if !node.is_pv() && !excluded {
        if let (Some(tt_score), Some(tt_depth)) = (tt.score, tt.depth) {
            if tt_depth >= depth && (tt_score <= alpha || cutnode) && is_conclusive(
                tt.bound,
                tt_score,
                alpha,
                beta,
            ) {
                if let Some(tt_move) = tt.best_move {
                    if tt_score >= beta && tt_move.get_kind().is_quiet() {
                        let bonus: i32 = capped_bonus(206, depth, 50, 1201);
                        let threats = data.board.state.threats;
                        data.quiet_history.update(threats, stm, tt_move, bonus);
                    }
                }
                proof {
                    lemma_cut_short(
                        start,
                        *data,
                        node,
                        depth as int,
                        alpha as int,
                        beta as int,
                        ply as int,
                        cutnode,
                        tt_score as int,
                    );
                }
                return tt_score;
            }
        }
    }
    let (raw_eval, static_eval) = evaluate_node(data, &tt, in_check, excluded, ply, tt_pv);
    let improving: bool = improvement(
        in_check,
        static_eval,
        data.stack.get(ply - 2).eval,
        data.stack.get(ply - 4).eval,
    ) > 0;
    let ghost first_depth = depth as int;
    let mut depth: i32 = depth;
    if !node.is_root() && !in_check && !excluded {
        let ghost mid = *data;
        depth = look_back(data, static_eval, depth, ply);
        proof {
            lemma_kept(start, mid, *data);
        }
    }
    proof {
        assert(introduced(start, *data, node, ply as int));
        assert(prepared(start, *data, node, first_depth, ply as int));
        assert(!cut_by_table(
            start,
            node,
            first_depth,
            alpha as int,
            beta as int,
            ply as int,
            cutnode,
        ));
    }
    let ghost mid = *data;
    if !node.is_pv() && !in_check && razors(tt.bound, static_eval, alpha, depth) {
        let score: i32 = quiesce(data, node, alpha, beta, ply);
        proof {
            lemma_kept(start, mid, *data);
            lemma_explained(
                start,
                mid,
                *data,
                node,
                first_depth,
                alpha as int,
                beta as int,
                ply as int,
                cutnode,
                score as int,
            );
        }
        return score;
    }
    if !in_check && !node.is_pv() && !excluded && reverse_futility(
        static_eval,
        beta,
        depth,
        improving,
    ) {
        let score: i32 = ilerp(static_eval, beta, 686);
        proof {
            lemma_explained(
                start,
                mid,
                *data,
                node,
                first_depth,
                alpha as int,
                beta as int,
                ply as int,
                cutnode,
                score as int,
            );
        }
        return score;
    }
    let facts = Facts { in_check, excluded, improving, raw_eval, static_eval, extension: 0 };
    assert(facts.setting(
        node,
        tt,
        depth as int,
        alpha as int,
        beta as int,
        ply as int,
        cutnode,
        mid.stack.at(ply as int).excluded,
    ) == setting_of(
        start,
        node,
        first_depth,
        alpha as int,
        beta as int,
        ply as int,
        cutnode,
    ));
    let score: i32 = search_open(
        data,
        node,
        &tt,
        facts,
        depth,
        Ghost(entry_depth),
        alpha,
        beta,
        ply,
        cutnode,
    );
    proof {
        lemma_kept(start, mid, *data);
        lemma_explained(
            start,
            mid,
            *data,
            node,
            first_depth,
            alpha as int,
            beta as int,
            ply as int,
            cutnode,
            score as int,
        );
    }
    score
}

/// Searches a position as [`search`] does, with what the status says on entry.
#[verifier::rlimit(30)]
pub fn search_unless_stopped(
    data: &mut SearchData,
    stopped: bool,
    node: Node,
    depth: i32,
    alpha: i32,
    beta: i32,
    ply: i32,
    cutnode: bool,
) -> (res: i32)
    requires
        ready(*old(data), node, ply as int),
        window(alpha as int, beta as int),
    ensures
        kept(*old(data), *final(data)),
        stopped ==> res == TIMEOUT,
        !stopped ==> entered(
            *old(data),
            node,
            depth as int,
            alpha as int,
            beta as int,
            ply as int,
            cutnode,
            res as int,
        ),
        outcome(
            *old(data),
            *final(data),
            node,
            depth as int,
            alpha as int,
            beta as int,
            ply as int,
            cutnode,
            res as int,
        ),
        notes_before(*old(data), *final(data), ply as int),
        depth > 0 && settled(
            *old(data),
            node,
            depth as int,
            alpha as int,
            beta as int,
            ply as int,
        ) is Some ==> final(data).stack == old(data).stack,
        node !is Root ==> traced(*old(data), *final(data), node is PV, ply as int),
        node is Root && lined(*old(data)) ==> lined(*final(data)),
        depth > 0 && node is PV && !cutnode && settled(
            *old(data),
            node,
            depth as int,
            alpha as int,
            beta as int,
            ply as int,
        ) is None && old(data).stack.at(ply as int).excluded.null() && !no_moves(
            old(data).board.state,
        ) && res != TIMEOUT && res > low_end(node, alpha as int, ply as int) ==> final(
            data).pv.line_spec(ply as int).len() > 0,
        depth > 0 && node is Root && !cutnode && rooted_exactly(*old(data)) && old(data).stack.at(
            ply as int,
        ).excluded.null() && !no_moves(old(data).board.state) && res != TIMEOUT && res > alpha
            >= -INFINITE ==> root_scored(*final(data), beta as int, res as int),
    decreases
            128 - ply,
            (if depth > 0 {
                depth as int
            } else {
                0
            }),
            4int,
{
    let ghost start = *data;
    if node.is_pv() {
        data.sel_depth = max(data.sel_depth, ply);
        if !node.is_root() {
            data.pv.clear(ply as usize);
        }
    }
    if stopped {
        proof {
            lemma_outcome(
                start,
                *data,
                node,
                depth as int,
                alpha as int,
                beta as int,
                ply as int,
                cutnode,
                TIMEOUT as int,
            );
        }
        return TIMEOUT;
    }
    let ghost mid = *data;
    if depth <= 0 {
        let score: i32 = quiesce(data, node, alpha, beta, ply);
        proof {
            lemma_kept(start, mid, *data);
            lemma_same_quiet(
                start,
                mid,
                *data,
                node,
                alpha as int,
                beta as int,
                ply as int,
                score as int,
            );
            lemma_outcome(
                start,
                *data,
                node,
                depth as int,
                alpha as int,
                beta as int,
                ply as int,
                cutnode,
                score as int,
            );
        }
        return score;
    }
    let mut low: i32 = alpha;
    let mut high: i32 = beta;
    if !node.is_root() {
        if data.board.is_draw() {
            proof {
                lemma_outcome(
                    start,
                    *data,
                    node,
                    depth as int,
                    alpha as int,
                    beta as int,
                    ply as int,
                    cutnode,
                    DRAW as int,
                );
            }
            return DRAW;
        }
        if ply >= LAST_PLY {
            let score: i32 = if data.board.king_in_check(data.board.state.side_to_move) {
                DRAW
            } else {
                data.network.evaluate(&data.board)
            };
            proof {
                lemma_outcome(
                    start,
                    *data,
                    node,
                    depth as int,
                    alpha as int,
                    beta as int,
                    ply as int,
                    cutnode,
                    score as int,
                );
            }
            return score;
        }
        low = max(alpha, -MATE + ply);
        high = min(beta, MATE - ply + 1);
        if low >= high {
            proof {
                lemma_outcome(
                    start,
                    *data,
                    node,
                    depth as int,
                    alpha as int,
                    beta as int,
                    ply as int,
                    cutnode,
                    low as int,
                );
            }
            return low;
        }
    }
    if data.id == 0 && data.time.hard_limit(data.id, data.root_depth, data.nodes()) {
        data.shared.status.stop();
        proof {
            lemma_outcome(
                start,
                *data,
                node,
                depth as int,
                alpha as int,
                beta as int,
                ply as int,
                cutnode,
                TIMEOUT as int,
            );
        }
        return TIMEOUT;
    }
    let score: i32 = search_node(
        data,
        node,
        min(depth, 127),
        Ghost(depth as int),
        low,
        high,
        ply,
        cutnode,
    );
    proof {
        lemma_kept(start, mid, *data);
        let deep = lesser(depth as int, 127);
        lemma_same_outlook(
            start,
            mid,
            node,
            deep,
            low as int,
            high as int,
            ply as int,
            cutnode,
        );
        lemma_same_explained(
            start,
            mid,
            *data,
            node,
            deep,
            low as int,
            high as int,
            ply as int,
            cutnode,
            score as int,
        );
        lemma_outcome(
            start,
            *data,
            node,
            depth as int,
            alpha as int,
            beta as int,
            ply as int,
            cutnode,
            score as int,
        );
    }
    score
}

/// Searches a position to a depth and gives its score for the side to move, within the
/// window. A score at the lower end of the window or below is an upper bound, one at the
/// upper end or above a lower bound. If the time is up, the score says so.
pub fn search(
    data: &mut SearchData,
    node: Node,
    depth: i32,
    alpha: i32,
    beta: i32,
    ply: i32,
    cutnode: bool,
) -> (res: i32)
    requires
        ready(*old(data), node, ply as int),
        window(alpha as int, beta as int),
    ensures
        kept(*old(data), *final(data)),
        reported(
            *old(data),
            node,
            depth as int,
            alpha as int,
            beta as int,
            ply as int,
            cutnode,
            res as int,
        ),
        outcome(
            *old(data),
            *final(data),
            node,
            depth as int,
            alpha as int,
            beta as int,
            ply as int,
            cutnode,
            res as int,
        ),
        notes_before(*old(data), *final(data), ply as int),
        depth > 0 && settled(
            *old(data),
            node,
            depth as int,
            alpha as int,
            beta as int,
            ply as int,
        ) is Some ==> final(data).stack == old(data).stack,
        node !is Root ==> traced(*old(data), *final(data), node is PV, ply as int),
        node is Root && lined(*old(data)) ==> lined(*final(data)),
        depth > 0 && node is PV && !cutnode && settled(
            *old(data),
            node,
            depth as int,
            alpha as int,
            beta as int,
            ply as int,
        ) is None && old(data).stack.at(ply as int).excluded.null() && !no_moves(
            old(data).board.state,
        ) && res != TIMEOUT && res > low_end(node, alpha as int, ply as int) ==> final(
            data).pv.line_spec(ply as int).len() > 0,
        depth > 0 && node is Root && !cutnode && rooted_exactly(*old(data)) && old(data).stack.at(
            ply as int,
        ).excluded.null() && !no_moves(old(data).board.state) && res != TIMEOUT && res > alpha
            >= -INFINITE ==> root_scored(*final(data), beta as int, res as int),
    decreases
            128 - ply,
            (if depth > 0 {
                depth as int
            } else {
                0
            }),
            5int,
{
    let stopped: bool = data.shared.status.get() == STOPPED;
    search_unless_stopped(data, stopped, node, depth, alpha, beta, ply, cutnode)
}

} // verus!
