//! Iterative deepening: the root position is searched to ever greater depth.

use crate::board::Board;
use crate::board::legality::fair;
use crate::board::makemove::next_position;
use crate::board::movegen::{generated, move_order, MoveGenKind};
use crate::search::{
    kept, lemma_plays_after, lined, plays, ready, reported, root_scored, rooted_exactly, same_moves,
    scorable, undisturbed, Node,
};
use crate::search::account::{
    closed, ended, line_cleared, outcome, prepared, setting_of, tally, visited, Walk,
};
use crate::search::coverage::{best_of, law_root_accounted, was_searched};
use crate::search::data::{Report, RootMove, SearchData, STOPPED};
use crate::search::pruning::{larger, lesser, max, min};
use crate::search::time::{hard_reached, TimeManager};
use crate::search::tree::search;
use crate::types::history::magnitude;
use crate::types::moves::Step;
use crate::types::plytable::PlyTable;
use crate::types::score::{INFINITE, MATE, TIMEOUT};
use vstd::prelude::*;

verus! {

/// The iterations cannot be counted any further.
pub const MAX_ITERATION: i32 = 0x7fffffff;

/// The moves of a position, with nothing known about them.
pub fn root_moves_of(board: &Board) -> (res: Vec<RootMove>)
    requires
        board.wf(),
    ensures
        res@.len() == move_order(board.state.position(), MoveGenKind::All).len(),
        forall|i: int|
            0 <= i < res@.len() ==> (#[trigger] res@[i]).m@ == move_order(
                board.state.position(),
                MoveGenKind::All,
            )[i],
        forall|i: int|
            0 <= i < res@.len() ==> (#[trigger] res@[i]).is_fresh() && generated(
                board.state,
                res@[i].m@,
            ),
        forall|s: Step| #[trigger]
            generated(board.state, s) ==> exists|i: int|
                0 <= i < res@.len() && (#[trigger] res@[i]).m@ == s,
        forall|i: int, j: int|
            0 <= i < j < res@.len() ==> (#[trigger] res@[i]).m@ != (#[trigger] res@[j]).m@,
{
    let list = board.generate_moves(MoveGenKind::All);
    let mut res: Vec<RootMove> = Vec::new();
    let mut i: usize = 0;
    while i < list.len()
        invariant
            i <= list@.len(),
            res@.len() == i,
            forall|j: int|
                0 <= j < i ==> (#[trigger] res@[j]).is_fresh() && res@[j].m@ == list@[j],
        decreases list@.len() - i,
    {
        res.push(RootMove::new(list.get(i).mv));
        i += 1;
    }
    proof {
        assert forall|s: Step| #[trigger] generated(board.state, s) implies exists|i: int|
            0 <= i < res@.len() && (#[trigger] res@[i]).m@ == s by {
            assert(list@.contains(s));
            let k = choose|k: int| 0 <= k < list@.len() && list@[k] == s;
            assert(res@[k].m@ == s);
        }
        assert forall|i: int| 0 <= i < res@.len() implies generated(
            board.state,
            (#[trigger] res@[i]).m@,
        ) by {
            assert(list@.contains(list@[i]));
        }
    }
    res
}

impl SearchData {
    /// Sets a position up for a search.
    pub fn prepare(&mut self, board: Board, time: TimeManager, report: Report)
        requires
            old(self).wf(),
            old(self).network.boards().len() == 1,
            board.wf(),
            fair(board.state),
        ensures
            final(self).wf(),
            *final(self) == (SearchData {
                board,
                time,
                report,
                root_moves: final(self).root_moves,
                network: final(self).network,
                ..*old(self)
            }),
            final(self).network.boards() == seq![board.state.mb()],
            final(self).network.params() == old(self).network.params(),
            rooted_exactly(*final(self)),
            lined(*final(self)),
            forall|i: int|
                0 <= i < final(self).root_moves@.len() ==> (
                #[trigger] final(self).root_moves@[i]).m@ == move_order(
                    board.state.position(),
                    MoveGenKind::All,
                )[i],
            forall|i: int|
                0 <= i < final(self).root_moves@.len() ==> (
                #[trigger] final(self).root_moves@[i]).is_fresh(),
    {
        self.root_moves = root_moves_of(&board);
        self.network.full_refresh(&board);
        self.board = board;
        self.time = time;
        self.report = report;
        assert(self.network.boards() =~= seq![self.board.state.mb()]);
    }
}

/// The state of an iterated search.
#[derive(Debug, Clone, Copy, PartialEq)]
pub struct Runner {
    /// How far the window reaches around the last score.
    pub delta: i32,
    pub alpha: i32,
    pub beta: i32,
    /// The depth of the next iteration.
    pub depth: i32,
    pub best_score: i32,
    /// For how many iterations the best move has stayed the same.
    pub move_stability: i32,
}

/// What has come of an iteration.
#[derive(Debug, Clone, Copy, PartialEq, Eq, Structural)]
pub enum Outcome {
    /// The search was stopped.
    Halted,
    /// The score lay outside the window, which has been widened.
    Again,
    /// The iteration is complete, with this score.
    Complete { score: i32 },
}

/// A window after a score at its lower end or below.
pub open spec fn lowered(r: Runner, score: int) -> (int, int, int) {
    let alpha = larger(score - r.delta, -INFINITE as int);
    (alpha, lesser(alpha + r.delta, r.beta as int), widened(r.delta as int, 24))
}

/// A window after a score at its upper end or above.
pub open spec fn raised(r: Runner, score: int) -> (int, int, int) {
    (
        larger(r.beta - r.delta, r.alpha as int),
        lesser(score + r.delta, INFINITE as int),
        widened(r.delta as int, 25),
    )
}

/// A greater reach, as long as it is smaller than all scores together.
pub open spec fn widened(delta: int, factor: int) -> int {
    lesser(delta + factor * delta / 128, 2 * TIMEOUT as int)
}

/// A search starts at depth one, with a window that holds all scores.
pub open spec fn outset(r: Runner) -> bool {
    &&& r.alpha == -INFINITE
    &&& r == (Runner {
        delta: 24,
        alpha: r.alpha,
        beta: INFINITE,
        depth: 1,
        best_score: 0,
        move_stability: 0,
    })
}

/// The window around the score of a complete iteration.
pub open spec fn around(score: int) -> (int, int, int) {
    (larger(score - 25, -INFINITE as int), lesser(score + 25, INFINITE as int), 25)
}

/// A score tells of a mate in as few moves as are asked for.
pub open spec fn mate_shown(score: int, moves: int) -> bool {
    MATE - magnitude(score) <= 2 * moves
}

/// The first worker has found a mate in as few moves as its limits ask for.
pub open spec fn mate_in_hand(r: Runner, d: SearchData) -> bool {
    d.id == 0 && (d.time.limits.mate matches Some(moves) && mate_shown(
        r.best_score as int,
        moves as int,
    ))
}

/// The next iteration of the first worker is beyond the limit on the depth.
pub open spec fn beyond_depth(r: Runner, d: SearchData) -> bool {
    d.id == 0 && (d.time.limits.depth matches Some(limit) && r.depth > limit)
}

/// A root move once an iteration is complete.
pub open spec fn settled_move(rm: RootMove) -> RootMove {
    RootMove { previous_score: rm.score, ..rm }
}

/// The move at `k` has the greatest score, and those before it have smaller ones.
pub open spec fn first_best(moves: Seq<RootMove>, k: int) -> bool {
    &&& 0 <= k < moves.len()
    &&& forall|j: int| 0 <= j < moves.len() ==> (#[trigger] moves[j]).score <= moves[k].score
    &&& forall|j: int| 0 <= j < k ==> (#[trigger] moves[j]).score < moves[k].score
}

/// The moves in the order of their scores, the best first; their scores become their
/// previous scores.
fn sort_root_moves(moves: &mut Vec<RootMove>)
    requires
        forall|i: int|
            0 <= i < old(moves)@.len() ==> (#[trigger] old(moves)@[i]).scored(),
    ensures
        final(moves)@.len() == old(moves)@.len(),
        final(moves)@.to_multiset() == old(moves)@.map_values(
            |rm: RootMove| settled_move(rm),
        ).to_multiset(),
        forall|i: int, j: int|
            0 <= i < j < final(moves)@.len() ==> (#[trigger] final(moves)@[i]).score >= (
            #[trigger] final(moves)@[j]).score,
        forall|i: int| 0 <= i < final(moves)@.len() ==> (#[trigger] final(moves)@[i]).scored(),
        old(moves)@.len() > 0 ==> exists|k: int| #[trigger]
            first_best(old(moves)@, k) && final(moves)@[0] == settled_move(old(moves)@[k]),
{
    let ghost f = |rm: RootMove| settled_move(rm);
    let ghost all = moves@;
    let mut sorted: Vec<RootMove> = Vec::new();
    proof {
        assert(sorted@.to_multiset().add(moves@.map_values(f).to_multiset())
            =~= all.map_values(f).to_multiset()) by {
            broadcast use vstd::seq_lib::group_to_multiset_ensures;

        }
    }
    while moves.len() > 0
        invariant
            f == (|rm: RootMove| settled_move(rm)),
            sorted@.len() == 0 ==> moves@ == all,
            sorted@.len() > 0 ==> exists|k: int| #[trigger]
                first_best(all, k) && sorted@[0] == settled_move(all[k]),
            sorted@.len() + moves@.len() == all.len(),
            sorted@.to_multiset().add(moves@.map_values(f).to_multiset()) == all.map_values(
                f,
            ).to_multiset(),
            forall|i: int|
                0 <= i < moves@.len() ==> (#[trigger] moves@[i]).scored(),
            forall|i: int| 0 <= i < sorted@.len() ==> (#[trigger] sorted@[i]).scored(),
            forall|i: int, j: int|
                0 <= i < j < sorted@.len() ==> (#[trigger] sorted@[i]).score >= (
                #[trigger] sorted@[j]).score,
            forall|i: int, j: int|
                0 <= i < sorted@.len() && 0 <= j < moves@.len() ==> (
                #[trigger] sorted@[i]).score >= (#[trigger] moves@[j]).score,
        decreases moves@.len(),
    {
        let mut best: usize = 0;
        let mut i: usize = 1;
        while i < moves.len()
            invariant
                best < i <= moves@.len(),
                forall|j: int|
                    0 <= j < i ==> (#[trigger] moves@[j]).score <= moves@[best as int].score,
                forall|j: int|
                    0 <= j < best ==> (#[trigger] moves@[j]).score < moves@[best as int].score,
            decreases moves@.len() - i,
        {
            if moves[i].score > moves[best].score {
                best = i;
            }
            i += 1;
        }
        let ghost before = moves@;
        let ghost sorted_before = sorted@;
        let mut rm = moves.remove(best);
        proof {
            assert(before[best as int] == rm);
            assert(rm.scored());
        }
        rm.previous_score = rm.score;
        sorted.push(rm);
        proof {
            broadcast use vstd::seq_lib::group_to_multiset_ensures;

            let a = before.map_values(f);
            assert(moves@.map_values(f) =~= a.remove(best as int));
            assert(a[best as int] == rm);
            assert(a.contains(a[best as int]));
            assert(sorted@ =~= sorted_before.push(rm));
            if sorted_before.len() == 0 {
                assert(first_best(all, best as int));
                assert(sorted@[0] == settled_move(all[best as int]));
            } else {
                assert(sorted@[0] == sorted_before[0]);
            }
            assert(a.remove(best as int).to_multiset() =~= a.to_multiset().remove(rm));
            assert(a.to_multiset().contains(rm));
            assert(sorted@.to_multiset().add(moves@.map_values(f).to_multiset())
                =~= sorted_before.to_multiset().add(a.to_multiset()));
            assert forall|i: int, j: int|
                0 <= i < sorted@.len() && 0 <= j < moves@.len() implies (
            #[trigger] sorted@[i]).score >= (#[trigger] moves@[j]).score by {
                let k = if j < best {
                    j
                } else {
                    j + 1
                };
                assert(moves@[j] == before[k]);
                assert(before[k].score <= before[best as int].score);
                if i < sorted_before.len() {
                    assert(sorted_before[i].score >= before[k].score);
                }
            }
            assert forall|i: int|
                0 <= i < moves@.len() implies (#[trigger] moves@[i]).scored() by {
                let k = if i < best {
                    i
                } else {
                    i + 1
                };
                assert(moves@[i] == before[k]);
            }
        }
    }
    proof {
        broadcast use vstd::seq_lib::group_to_multiset_ensures;

        assert(moves@.map_values(f) =~= Seq::<RootMove>::empty());
        assert(sorted@.to_multiset() =~= sorted@.to_multiset().add(
            moves@.map_values(f).to_multiset(),
        ));
    }
    *moves = sorted;
}

impl Runner {
    pub open spec fn wf(self) -> bool {
        &&& 1 <= self.depth <= MAX_ITERATION
        &&& 24 <= self.delta <= 2 * TIMEOUT
        &&& -INFINITE <= self.alpha < self.beta <= INFINITE
        &&& -100000 <= self.best_score <= 100000
        &&& 0 <= self.move_stability <= MAX_ITERATION
    }

    /// Starts a search of the position that has been set up.
    pub fn begin(data: &mut SearchData) -> (res: Self)
        requires
            old(data).wf(),
        ensures
            final(data).wf(),
            res.wf(),
            outset(res),
            final(data).best_move is None,
            final(data).completed_depth == 0,
            final(data).root_depth == 0,
            final(data).sel_depth == 0,
            final(data).time.limits == old(data).time.limits,
            *final(data) == (SearchData {
                best_move: final(data).best_move,
                completed_depth: 0,
                root_depth: 0,
                sel_depth: 0,
                pv: final(data).pv,
                time: final(data).time,
                ..*old(data)
            }),
            line_cleared(*old(data), *final(data), 0),
    {
        data.pv.clear(0);
        data.time.start_clock();
        data.best_move = None;
        data.completed_depth = 0;
        data.root_depth = 0;
        data.sel_depth = 0;
        Runner {
            delta: 24,
            alpha: -INFINITE,
            beta: INFINITE,
            depth: 1,
            best_score: 0,
            move_stability: 0,
        }
    }

    /// Widens the window downwards after a score at its lower end or below.
    fn lower(&mut self, score: i32)
        requires
            old(self).wf(),
            scorable(score as int),
            score <= old(self).alpha,
        ensures
            final(self).wf(),
            (final(self).alpha as int, final(self).beta as int, final(self).delta as int)
                == lowered(*old(self), score as int),
            *final(self) == (Runner {
                alpha: final(self).alpha,
                beta: final(self).beta,
                delta: final(self).delta,
                ..*old(self)
            }),
    {
        self.alpha = max(score - self.delta, -INFINITE);
        self.beta = min(self.alpha + self.delta, self.beta);
        self.delta = min(self.delta + 24 * self.delta / 128, 2 * TIMEOUT);
    }

    /// Widens the window upwards after a score at its upper end or above.
    fn raise(&mut self, score: i32)
        requires
            old(self).wf(),
            scorable(score as int),
            score >= old(self).beta,
        ensures
            final(self).wf(),
            (final(self).alpha as int, final(self).beta as int, final(self).delta as int)
                == raised(*old(self), score as int),
            *final(self) == (Runner {
                alpha: final(self).alpha,
                beta: final(self).beta,
                delta: final(self).delta,
                ..*old(self)
            }),
    {
        self.alpha = max(self.beta - self.delta, self.alpha);
        self.beta = min(score + self.delta, INFINITE);
        self.delta = min(self.delta + 25 * self.delta / 128, 2 * TIMEOUT);
    }

    /// Puts the window around the score of a complete iteration.
    pub fn narrow(&mut self, score: i32)
        requires
            old(self).wf(),
            -INFINITE < score < INFINITE,
        ensures
            final(self).wf(),
            (final(self).alpha as int, final(self).beta as int, final(self).delta as int) == around(
                score as int,
            ),
            *final(self) == (Runner {
                alpha: final(self).alpha,
                beta: final(self).beta,
                delta: 25,
                ..*old(self)
            }),
    {
        self.delta = 25;
        self.alpha = max(score - self.delta, -INFINITE);
        self.beta = min(score + self.delta, INFINITE);
    }
}

/// A worker that stands at the root of a search with at least one move.
pub open spec fn at_root(d: SearchData) -> bool {
    &&& ready(d, Node::Root, 0)
    &&& rooted_exactly(d)
    &&& lined(d)
    &&& d.root_moves@.len() > 0
}

/// The position, the limits and the place of the worker are the same.
pub open spec fn same_task(a: SearchData, b: SearchData) -> bool {
    &&& crate::board::makemove::restored(a.board, b.board)
    &&& b.id == a.id
    &&& b.time == a.time
    &&& b.report == a.report
    &&& b.prev_score == a.prev_score
    &&& b.shared.status == a.shared.status
    &&& b.network.boards() == a.network.boards()
    &&& b.network.params() == a.network.params()
    &&& b.root_moves@.len() == a.root_moves@.len()
}

/// The window is widened to the side on which the score lies.
pub open spec fn widens(a: Runner, b: Runner, score: int) -> bool {
    let window = (b.alpha as int, b.beta as int, b.delta as int);
    ||| score <= a.alpha && window == lowered(a, score)
    ||| score >= a.beta && window == raised(a, score)
}

/// The worker as it starts an iteration: the notes of the plies are blank, and the depth is
/// noted.
pub open spec fn set_out(a: SearchData, depth: i32, b: SearchData) -> bool {
    &&& b == (SearchData { stack: b.stack, root_depth: depth, ..a })
    &&& b.stack.wf()
    &&& forall|p: int| -8 <= p < 136 ==> (#[trigger] b.stack.at(p)).is_blank()
    &&& forall|i: int| 0 <= i < b.stack.spare().len() ==> #[trigger] b.stack.spare()[i] == 0
}

/// The score, and the state in which the worker is left, come of the search of an iteration.
pub open spec fn scores(r: Runner, before: SearchData, searched: SearchData, score: i32) -> bool {
    exists|start: SearchData|
        {
            &&& set_out(before, r.depth, start)
            &&& reported(
                start,
                Node::Root,
                r.depth as int,
                r.alpha as int,
                r.beta as int,
                0,
                false,
                score as int,
            )
            &&& #[trigger] outcome(
                start,
                searched,
                Node::Root,
                r.depth as int,
                r.alpha as int,
                r.beta as int,
                0,
                false,
                score as int,
            )
        }
}

/// What an iteration comes to: it does not begin or is cut short, and changes nothing that is
/// reported; its score lies outside the window, which is then widened to that side; or it is
/// complete, and the first of the root moves with the best score is the best move.
pub open spec fn iterated(
    a: Runner,
    b: Runner,
    before: SearchData,
    after: SearchData,
    outcome: Outcome,
) -> bool {
    match outcome {
        Outcome::Halted => {
            &&& b == a
            &&& after.best_move == before.best_move
            &&& after.completed_depth == before.completed_depth
            &&& same_moves(before.root_moves@, after.root_moves@)
            &&& set_out(before, a.depth, after) || exists|score: i32| #[trigger]
                scores(a, before, after, score)
        },
        Outcome::Again => {
            &&& after.best_move == before.best_move
            &&& after.completed_depth == before.completed_depth
            &&& b.depth == a.depth
            &&& b.best_score == a.best_score
            &&& b.move_stability == a.move_stability
            &&& same_moves(before.root_moves@, after.root_moves@)
            &&& exists|score: i32| #[trigger]
                widens(a, b, score as int) && scores(a, before, after, score)
        },
        Outcome::Complete { score } => {
            &&& a.alpha < score < a.beta
            &&& b.best_score == score
            &&& exists|searched: SearchData| #[trigger]
                completed(a, b, searched, after) && scores(a, before, searched, score)
        },
    }
}

/// An iteration is complete: the root moves are put in the order of their scores, and the
/// first of those that had the greatest score is the best move. It and the moves of its line
/// can be played. Nothing else changes.
pub open spec fn completed(a: Runner, b: Runner, before: SearchData, after: SearchData) -> bool {
    &&& after == (SearchData {
        root_moves: after.root_moves,
        best_move: after.best_move,
        completed_depth: a.depth,
        sel_depth: 0,
        ..before
    })
    &&& after.root_moves@.to_multiset() == before.root_moves@.map_values(
        |rm: RootMove| settled_move(rm),
    ).to_multiset()
    &&& exists|k: int| #[trigger]
        first_best(before.root_moves@, k) && after.root_moves@[0] == settled_move(
            before.root_moves@[k],
        )
    &&& b.depth == lesser(a.depth + 1, MAX_ITERATION as int)
    &&& (b.alpha, b.beta, b.delta) == (a.alpha, a.beta, a.delta)
    &&& after.root_moves@.len() > 0
    &&& after.best_move matches Some(rm) && {
        &&& rm.same(after.root_moves@[0])
        &&& plays(after.board.state.position(), seq![rm.m] + rm.pv.inner@)
        &&& b.best_score == rm.score
        &&& b.move_stability == if before.best_move matches Some(last) && last.m@ == rm.m@ {
            lesser(a.move_stability + 1, MAX_ITERATION as int)
        } else {
            0
        }
    }
    &&& forall|i: int, j: int|
        0 <= i < j < after.root_moves@.len() ==> (#[trigger] after.root_moves@[i]).score >= (
        #[trigger] after.root_moves@[j]).score
    &&& forall|i: int|
        0 <= i < after.root_moves@.len() ==> (#[trigger] after.root_moves@[i]).previous_score
            == after.root_moves@[i].score
}

impl Runner {
    /// Whether the limit on the depth, or else the clock, forbids another iteration of the
    /// first worker.
    fn exhausted(&self, data: &SearchData) -> (res: bool)
        requires
            data.wf(),
        ensures
            data.id != 0 ==> !res,
            data.id == 0 ==> match data.time.limits.depth {
                Some(_) => res == beyond_depth(*self, *data),
                None => exists|elapsed: u128| #[trigger]
                    hard_reached(
                        data.time.limits,
                        data.id,
                        data.root_depth,
                        data.shared.nodes@[data.id as int],
                        elapsed,
                    ) == res,
            },
    {
        if data.id != 0 {
            return false;
        }
        match data.time.limits.depth {
            Some(limit) => self.depth > limit,
            None => data.time.hard_limit(data.id, data.root_depth, data.nodes()),
        }
    }

    /// Brings the results of a complete iteration into order.
    fn complete(&mut self, data: &mut SearchData, Ghost(score): Ghost<int>)
        requires
            old(self).wf(),
            at_root(*old(data)),
            root_scored(*old(data), score + 1, score),
        ensures
            final(self).wf(),
            at_root(*final(data)),
            same_task(*old(data), *final(data)),
            completed(*old(self), *final(self), *old(data), *final(data)),
            final(self).best_score == score,
            final(data).root_depth == old(data).root_depth,
            final(data).shared == old(data).shared,
    {
        data.completed_depth = self.depth;
        data.sel_depth = 0;
        if self.depth < MAX_ITERATION {
            self.depth = self.depth + 1;
        }
        sort_root_moves(&mut data.root_moves);
        let best = data.root_moves[0].duplicate();
        let stable: bool = match &data.best_move {
            Some(last) => last.m.same(&best.m),
            None => false,
        };
        self.move_stability = if !stable {
            0
        } else if self.move_stability < MAX_ITERATION {
            self.move_stability + 1
        } else {
            MAX_ITERATION
        };
        self.best_score = best.score;
        data.best_move = Some(best);
        proof {
            lemma_sorted_rooted(*old(data), *data);
            lemma_plays_after(
                data.board.state.position(),
                data.root_moves@[0].m,
                data.root_moves@[0].pv.inner@,
            );
        }
    }

    /// Draws the conclusion from the score of a search of the root position: nothing if the
    /// search was stopped, a wider window if the score lies outside it, and otherwise the
    /// end of the iteration.
    pub fn conclude(&mut self, data: &mut SearchData, score: i32, stopped: bool) -> (res: Outcome)
        requires
            old(self).wf(),
            at_root(*old(data)),
            scorable(score as int),
            !stopped && old(self).alpha < score < old(self).beta ==> root_scored(
                *old(data),
                old(self).beta as int,
                score as int,
            ),
        ensures
            final(self).wf(),
            at_root(*final(data)),
            same_task(*old(data), *final(data)),
            if stopped {
                res is Halted && *final(self) == *old(self) && *final(data) == *old(data)
            } else if score <= old(self).alpha || score >= old(self).beta {
                &&& res is Again
                &&& widens(*old(self), *final(self), score as int)
                &&& *final(self) == (Runner {
                    alpha: final(self).alpha,
                    beta: final(self).beta,
                    delta: final(self).delta,
                    ..*old(self)
                })
                &&& *final(data) == *old(data)
            } else {
                &&& res == (Outcome::Complete { score })
                &&& completed(*old(self), *final(self), *old(data), *final(data))
                &&& final(self).best_score == score
                &&& final(data).root_depth == old(data).root_depth
                &&& final(data).shared == old(data).shared
            },
    {
        if stopped {
            return Outcome::Halted;
        }
        if score <= self.alpha {
            self.lower(score);
            return Outcome::Again;
        }
        if score >= self.beta {
            self.raise(score);
            return Outcome::Again;
        }
        self.complete(data, Ghost(score as int));
        Outcome::Complete { score }
    }

    /// Searches the root position to the next depth.
    pub fn iterate(&mut self, data: &mut SearchData) -> (res: Outcome)
        requires
            old(self).wf(),
            at_root(*old(data)),
        ensures
            final(self).wf(),
            at_root(*final(data)),
            same_task(*old(data), *final(data)),
            final(data).root_depth == old(self).depth,
            iterated(*old(self), *final(self), *old(data), *final(data), res),
            beyond_depth(*old(self), *old(data)) ==> res is Halted && set_out(
                *old(data),
                old(self).depth,
                *final(data),
            ),
            undisturbed(SearchData { root_depth: old(self).depth, ..*old(data) }) && !beyond_depth(
                *old(self),
                *old(data),
            ) ==> res !is Halted,
    {
        data.stack = PlyTable::new();
        data.root_depth = self.depth;
        let ghost start = *data;
        proof {
            assert(set_out(*old(data), self.depth, start));
            lemma_set_out(*old(data), self.depth, start);
        }
        if self.exhausted(data) {
            data.shared.status.stop();
            return Outcome::Halted;
        }
        let score: i32 = search(data, Node::Root, self.depth, self.alpha, self.beta, 0, false);
        let ghost searched = *data;
        proof {
            lemma_kept_rooted(start, searched);
            assert(generated(start.board.state, start.root_moves@[0].m@));
        }
        let stopped: bool = data.shared.status.get() == STOPPED;
        let res = self.conclude(data, score, stopped);
        proof {
            assert(outcome(
                start,
                searched,
                Node::Root,
                old(self).depth as int,
                old(self).alpha as int,
                old(self).beta as int,
                0,
                false,
                score as int,
            ));
            assert(scores(*old(self), *old(data), searched, score));
            assert(res is Complete ==> completed(*old(self), *self, searched, *data));
            assert(widens(*old(self), *self, score as int) || res !is Again);
        }
        res
    }

    /// Whether a mate has been found in as few moves as was asked for.
    pub fn mate_found(&self, data: &SearchData) -> (res: bool)
        requires
            self.wf(),
        ensures
            res == mate_in_hand(*self, *data),
    {
        if data.id != 0 {
            return false;
        }
        match data.time.limits.mate {
            Some(moves) => {
                let size: i32 = if self.best_score < 0 { -self.best_score } else {
                    self.best_score
                };
                let left: i128 = (MATE - size) as i128;
                left <= 2 * (moves as i128)
            },
            None => false,
        }
    }

    /// Whether the search goes on after a complete iteration with this score. It ends if a
    /// mate was found in as few moves as was asked for, or, for the first worker, if the time
    /// to use is spent. If it goes on, the window is put around the score.
    pub fn proceed(&mut self, data: &SearchData, score: i32, spent: bool) -> (res: bool)
        requires
            old(self).wf(),
            -INFINITE < score < INFINITE,
        ensures
            final(self).wf(),
            res == !(data.id == 0 && spent || mate_in_hand(*old(self), *data)),
            if res {
                &&& (final(self).alpha as int, final(self).beta as int, final(self).delta as int)
                    == around(score as int)
                &&& *final(self) == (Runner {
                    alpha: final(self).alpha,
                    beta: final(self).beta,
                    delta: 25,
                    ..*old(self)
                })
            } else {
                *final(self) == *old(self)
            },
    {
        if self.mate_found(data) || data.id == 0 && spent {
            return false;
        }
        self.narrow(score);
        true
    }

    /// Ends a search: its score is remembered for the next one.
    pub fn finish(&self, data: &mut SearchData)
        ensures
            *final(data) == (SearchData { prev_score: self.best_score, ..*old(data) }),
    {
        data.prev_score = self.best_score;
    }
}

/// A worker that starts an iteration stands at the root.
proof fn lemma_set_out(a: SearchData, depth: i32, b: SearchData)
    requires
        at_root(a),
        set_out(a, depth, b),
        b.wf(),
    ensures
        at_root(b),
{
    assert forall|s: Step| #[trigger] generated(b.board.state, s) implies exists|i: int|
        0 <= i < b.root_moves@.len() && (#[trigger] b.root_moves@[i]).m@ == s by {
        let k = choose|k: int|
            0 <= k < a.root_moves@.len() && (#[trigger] a.root_moves@[k]).m@ == s;
        assert(b.root_moves@[k].m@ == s);
    }
}

/// The root moves of a search that keeps them are those of the position.
proof fn lemma_kept_rooted(a: SearchData, b: SearchData)
    requires
        kept(a, b),
        rooted_exactly(a),
    ensures
        rooted_exactly(b),
{
    assert forall|i: int| 0 <= i < b.root_moves@.len() implies (#[trigger] b.root_moves@[i]).m
        == a.root_moves@[i].m by {}
    assert forall|s: Step| #[trigger] generated(b.board.state, s) implies exists|i: int|
        0 <= i < b.root_moves@.len() && (#[trigger] b.root_moves@[i]).m@ == s by {
        let k = choose|k: int|
            0 <= k < a.root_moves@.len() && (#[trigger] a.root_moves@[k]).m@ == s;
        assert(b.root_moves@[k].m@ == s);
    }
    assert forall|i: int, j: int| 0 <= i < j < b.root_moves@.len() implies (
    #[trigger] b.root_moves@[i]).m@ != (#[trigger] b.root_moves@[j]).m@ by {
        assert(a.root_moves@[i].m@ != a.root_moves@[j].m@);
    }
}

/// Bringing the root moves into another order keeps them the moves of the position, and
/// their lines.
proof fn lemma_sorted_rooted(a: SearchData, b: SearchData)
    requires
        rooted_exactly(a),
        lined(a),
        b.board == a.board,
        b.root_moves@.len() == a.root_moves@.len(),
        b.root_moves@.to_multiset() == a.root_moves@.map_values(
            |rm: RootMove| settled_move(rm),
        ).to_multiset(),
    ensures
        rooted_exactly(b),
        lined(b),
        forall|i: int|
            0 <= i < b.root_moves@.len() ==> (#[trigger] b.root_moves@[i]).previous_score
                == b.root_moves@[i].score,
{
    broadcast use vstd::seq_lib::group_to_multiset_ensures;

    let f = |rm: RootMove| settled_move(rm);
    let image = a.root_moves@.map_values(f);
    let sorted = b.root_moves@;
    assert(image.no_duplicates()) by {
        assert forall|i: int, j: int| 0 <= i < j < image.len() implies image[i] != image[j] by {
            assert(a.root_moves@[i].m@ != a.root_moves@[j].m@);
        }
    }
    image.lemma_multiset_has_no_duplicates();
    assert forall|x: RootMove| sorted.to_multiset().contains(x) implies sorted.to_multiset().count(
        x,
    ) == 1 by {
        assert(image.to_multiset().contains(x));
    }
    sorted.lemma_multiset_has_no_duplicates_conv();
    assert forall|i: int| 0 <= i < sorted.len() implies image.contains(#[trigger] sorted[i]) by {
        assert(sorted.contains(sorted[i]));
        assert(sorted.to_multiset().count(sorted[i]) > 0);
        assert(image.to_multiset().count(sorted[i]) > 0);
    }
    assert forall|i: int| 0 <= i < sorted.len() implies generated(
        b.board.state,
        (#[trigger] sorted[i]).m@,
    ) && sorted[i].previous_score == sorted[i].score && plays(
        next_position(b.board.state.position(), sorted[i].m@),
        sorted[i].pv.inner@,
    ) by {
        assert(image.contains(sorted[i]));
        let k = choose|k: int| 0 <= k < image.len() && image[k] == sorted[i];
        assert(generated(a.board.state, a.root_moves@[k].m@));
    }
    assert forall|s: Step| #[trigger] generated(b.board.state, s) implies exists|i: int|
        0 <= i < sorted.len() && (#[trigger] sorted[i]).m@ == s by {
        let k = choose|k: int|
            0 <= k < a.root_moves@.len() && (#[trigger] a.root_moves@[k]).m@ == s;
        assert(image.contains(image[k]));
        assert(image.to_multiset().count(image[k]) > 0);
        assert(sorted.to_multiset().count(image[k]) > 0);
        assert(sorted.contains(image[k]));
        let i = choose|i: int| 0 <= i < sorted.len() && sorted[i] == image[k];
        assert(sorted[i].m@ == s);
    }
    assert forall|i: int, j: int| 0 <= i < j < sorted.len() implies (#[trigger] sorted[i]).m@ != (
    #[trigger] sorted[j]).m@ by {
        assert(image.contains(sorted[i]) && image.contains(sorted[j]));
        let k = choose|k: int| 0 <= k < image.len() && image[k] == sorted[i];
        let l = choose|l: int| 0 <= l < image.len() && image[l] == sorted[j];
        assert(sorted[i] != sorted[j]);
        assert(k != l);
        if k < l {
            assert(a.root_moves@[k].m@ != a.root_moves@[l].m@);
        } else {
            assert(a.root_moves@[l].m@ != a.root_moves@[k].m@);
        }
    }
}

/// The score of an iteration that was not stopped is the greatest over the root moves, all of
/// which were searched unless it reaches the upper end of the window.
pub proof fn law_iteration_accounted(
    r: Runner,
    before: SearchData,
    searched: SearchData,
    score: i32,
) -> (found: (SearchData, SearchData, Walk))
    requires
        r.wf(),
        at_root(before),
        scores(r, before, searched, score),
        score != TIMEOUT,
    ensures
        ({
            let (start, mid, w) = found;
            let deep = lesser(r.depth as int, 127);
            let n = setting_of(
                start,
                Node::Root,
                deep,
                r.alpha as int,
                r.beta as int,
                0,
                false,
            );
            &&& set_out(before, r.depth, start)
            &&& prepared(start, mid, Node::Root, deep, 0)
            &&& visited(n, mid, w.first, w.visits)
            &&& ended(n, mid, w)
            &&& closed(n, mid, w.visits, searched, score as int)
            &&& best_of(n, w.visits, tally(n, w.visits).best)
            &&& score < r.beta ==> forall|s: Step| #[trigger]
                generated(before.board.state, s) ==> was_searched(w.visits, s)
        }),
{
    let start = choose|start: SearchData|
        {
            &&& set_out(before, r.depth, start)
            &&& reported(
                start,
                Node::Root,
                r.depth as int,
                r.alpha as int,
                r.beta as int,
                0,
                false,
                score as int,
            )
            &&& #[trigger] outcome(
                start,
                searched,
                Node::Root,
                r.depth as int,
                r.alpha as int,
                r.beta as int,
                0,
                false,
                score as int,
            )
        };
    assert(generated(start.board.state, before.root_moves@[0].m@));
    assert(start.stack.at(0).is_blank());
    let (mid, w) = law_root_accounted(
        start,
        searched,
        r.depth as int,
        r.alpha as int,
        r.beta as int,
        score as int,
    );
    (start, mid, w)
}

} // verus!
