//! Counting move sequences.

use crate::board::Board;
use crate::board::legality::{fair, law_fair_preserved, law_generated_movable};
use crate::board::makemove::{next_position, restored};
use crate::board::movegen::{generated, move_order, moves_in, MoveGenKind};
use crate::board::position::{king_sq, Position};
use crate::types::bits::is_square;
use crate::types::moves::{Move, MoveKind, Step};
use vstd::arithmetic::power::{lemma_pow0, lemma_pow_positive, pow};
use vstd::prelude::*;

verus! {

/// The moves of `line` can be played one after the other from `pos`.
pub open spec fn playable(pos: Position, line: Seq<Step>) -> bool
    decreases line.len(),
{
    line.len() == 0 || (moves_in(pos, line[0]) && playable(
        next_position(pos, line[0]),
        line.drop_first(),
    ))
}

/// The sequences of `depth` moves from `pos`.
pub open spec fn lines(pos: Position, depth: nat) -> Set<Seq<Step>> {
    Set::new(|l: Seq<Step>| l.len() == depth && playable(pos, l))
}

/// The sequences in `rest` with `s` before each.
spec fn prefixed(rest: Set<Seq<Step>>, s: Step) -> Set<Seq<Step>> {
    Set::new(|l: Seq<Step>| l.len() > 0 && l[0] == s && rest.contains(l.drop_first()))
}

proof fn lemma_prefixed_len(rest: Set<Seq<Step>>, s: Step)
    requires
        rest.finite(),
    ensures
        prefixed(rest, s).finite(),
        prefixed(rest, s).len() == rest.len(),
    decreases rest.len(),
{
    if rest.len() == 0 {
        assert(rest =~= Set::<Seq<Step>>::empty());
        assert(prefixed(rest, s) =~= Set::<Seq<Step>>::empty());
    } else {
        let x = rest.choose();
        let smaller = rest.remove(x);
        lemma_prefixed_len(smaller, s);
        let l = seq![s] + x;
        assert(l.drop_first() =~= x);
        assert forall|m: Seq<Step>| prefixed(rest, s).contains(m) <==> prefixed(
            smaller,
            s,
        ).insert(l).contains(m) by {
            if prefixed(rest, s).contains(m) && m.drop_first() == x {
                assert(m =~= seq![m[0]] + m.drop_first());
            }
        }
        assert(prefixed(rest, s) =~= prefixed(smaller, s).insert(l));
        assert(!prefixed(smaller, s).contains(l));
    }
}

/// The sequences of `depth` moves from `pos` that begin with one of the first `n` moves of
/// `moves`.
spec fn started(pos: Position, depth: nat, moves: Seq<Step>, n: int) -> Set<Seq<Step>> {
    Set::new(
        |l: Seq<Step>| lines(pos, depth).contains(l) && exists|i: int|
            0 <= i < n && #[trigger] moves[i] == l[0],
    )
}

/// Taking one more first move into account adds the sequences that go on from it.
proof fn lemma_started_step(pos: Position, depth: nat, moves: Seq<Step>, n: int)
    requires
        depth > 0,
        0 <= n < moves.len(),
        moves.no_duplicates(),
        moves_in(pos, moves[n]),
        started(pos, depth, moves, n).finite(),
        lines(next_position(pos, moves[n]), (depth - 1) as nat).finite(),
    ensures
        started(pos, depth, moves, n + 1).finite(),
        started(pos, depth, moves, n + 1).len() == started(pos, depth, moves, n).len() + lines(
            next_position(pos, moves[n]),
            (depth - 1) as nat,
        ).len(),
{
    let a = started(pos, depth, moves, n);
    let rest = lines(next_position(pos, moves[n]), (depth - 1) as nat);
    let b = prefixed(rest, moves[n]);
    lemma_prefixed_len(rest, moves[n]);
    assert forall|l: Seq<Step>| started(pos, depth, moves, n + 1).contains(l) <==> a.union(
        b,
    ).contains(l) by {
        if started(pos, depth, moves, n + 1).contains(l) {
            let i = choose|i: int| 0 <= i < n + 1 && #[trigger] moves[i] == l[0];
            if i == n {
                assert(b.contains(l));
            } else {
                assert(a.contains(l));
            }
        }
        if b.contains(l) {
            assert(moves[n] == l[0]);
        }
        if a.contains(l) {
            let i = choose|i: int| 0 <= i < n && #[trigger] moves[i] == l[0];
            assert(0 <= i < n + 1 && moves[i] == l[0]);
        }
    }
    assert(started(pos, depth, moves, n + 1) =~= a.union(b));
    assert(a.disjoint(b));
    vstd::set_lib::lemma_set_disjoint_lens(a, b);
}

/// All first moves together start all sequences.
proof fn lemma_started_all(pos: Position, depth: nat, moves: Seq<Step>)
    requires
        depth > 0,
        forall|s: Step| moves.contains(s) <==> moves_in(pos, s),
    ensures
        started(pos, depth, moves, moves.len() as int) == lines(pos, depth),
{
    assert forall|l: Seq<Step>| lines(pos, depth).contains(l) implies started(
        pos,
        depth,
        moves,
        moves.len() as int,
    ).contains(l) by {
        assert(moves_in(pos, l[0]));
        assert(moves.contains(l[0]));
        let i = choose|i: int| 0 <= i < moves.len() && moves[i] == l[0];
        assert(0 <= i < moves.len() && moves[i] == l[0]);
    }
    assert(started(pos, depth, moves, moves.len() as int) =~= lines(pos, depth));
}

/// There is one sequence of no moves.
pub proof fn law_lines_zero(pos: Position)
    ensures
        lines(pos, 0).finite(),
        lines(pos, 0).len() == 1,
{
    let e = Seq::<Step>::empty();
    assert forall|l: Seq<Step>| lines(pos, 0).contains(l) <==> set![e].contains(l) by {
        if l.len() == 0 {
            assert(l =~= e);
        }
    }
    assert(lines(pos, 0) =~= set![e]);
}

/// One sequence for each move.
proof fn lemma_lines_one(pos: Position, moves: Seq<Step>, n: int)
    requires
        0 <= n <= moves.len(),
        moves.no_duplicates(),
        forall|s: Step| moves.contains(s) <==> moves_in(pos, s),
    ensures
        started(pos, 1, moves, n).finite(),
        started(pos, 1, moves, n).len() == n,
    decreases n,
{
    if n == 0 {
        assert(started(pos, 1, moves, 0) =~= Set::<Seq<Step>>::empty());
    } else {
        lemma_lines_one(pos, moves, n - 1);
        assert(moves.contains(moves[n - 1]));
        law_lines_zero(next_position(pos, moves[n - 1]));
        lemma_started_step(pos, 1, moves, n - 1);
    }
}

/// Part of the sequences is not more than all of them.
proof fn lemma_started_bound(pos: Position, depth: nat, moves: Seq<Step>, n: int)
    requires
        lines(pos, depth).finite(),
    ensures
        started(pos, depth, moves, n).len() <= lines(pos, depth).len(),
{
    vstd::set_lib::lemma_len_subset(started(pos, depth, moves, n), lines(pos, depth));
}

/// The step with number `n`; a start off the board is taken for the square `home`.
spec fn step_numbered(home: int, n: int) -> Step {
    let f = (n / 16) / 64;
    Step {
        from: if f == 64 {
            home
        } else {
            f
        },
        to: (n / 16) % 64,
        kind: MoveKind::coded((n % 16) as u8),
    }
}

/// A position has finitely many moves: no more than there are ways to name two squares and
/// a kind.
pub proof fn lemma_moves_finite(pos: Position)
    ensures
        Set::new(|s: Step| moves_in(pos, s)).finite(),
        Set::new(|s: Step| moves_in(pos, s)).len() <= 66560,
{
    let home = king_sq(pos.mb, pos.stm);
    let numbers = vstd::set_lib::set_int_range(0, 66560);
    let all = numbers.map(|n: int| step_numbered(home, n));
    let moves = Set::new(|s: Step| moves_in(pos, s));
    vstd::set_lib::lemma_int_range(0, 66560);
    numbers.lemma_map_finite(|n: int| step_numbered(home, n));
    assert forall|s: Step| moves.contains(s) implies all.contains(s) by {
        let f = if is_square(s.from) {
            s.from
        } else {
            64
        };
        let k = s.kind.code() as int;
        let n = (f * 64 + s.to) * 16 + k;
        assert(is_square(s.to));
        assert(is_square(s.from) || s.from == home);
        assert(n / 16 == f * 64 + s.to && n % 16 == k);
        assert(MoveKind::coded(s.kind.code()).code() == s.kind.code());
        assert(MoveKind::coded(s.kind.code()) == s.kind);
        assert(step_numbered(home, n) == s);
        assert(numbers.contains(n));
    }
    vstd::set_lib::lemma_set_subset_finite(all, moves);
    vstd::set_lib::lemma_len_subset(moves, all);
    vstd::set_lib::lemma_map_size_bound(numbers, all, |n: int| step_numbered(home, n));
}

/// The sequences of `depth` moves from `pos` that begin with a move in `first`.
spec fn begun(pos: Position, depth: nat, first: Set<Step>) -> Set<Seq<Step>> {
    Set::new(|l: Seq<Step>| lines(pos, depth).contains(l) && first.contains(l[0]))
}

proof fn lemma_begun_finite(pos: Position, depth: nat, first: Set<Step>)
    requires
        depth > 0,
        first.finite(),
    ensures
        begun(pos, depth, first).finite(),
        begun(pos, depth, first).len() <= first.len() * pow(66560, (depth - 1) as nat),
    decreases depth, 0nat, first.len(),
{
    if first.len() == 0 {
        assert(first =~= Set::<Step>::empty());
        assert(begun(pos, depth, first) =~= Set::<Seq<Step>>::empty());
        assert(0 * pow(66560, (depth - 1) as nat) == 0) by (nonlinear_arith);
    } else {
        let s = first.choose();
        let fewer = first.remove(s);
        lemma_begun_finite(pos, depth, fewer);
        let rest = lines(next_position(pos, s), (depth - 1) as nat);
        lemma_lines_finite(next_position(pos, s), (depth - 1) as nat);
        lemma_prefixed_len(rest, s);
        let both = begun(pos, depth, fewer).union(prefixed(rest, s));
        assert forall|l: Seq<Step>| begun(pos, depth, first).contains(l) implies both.contains(
            l,
        ) by {}
        vstd::set_lib::lemma_set_subset_finite(both, begun(pos, depth, first));
        vstd::set_lib::lemma_len_subset(begun(pos, depth, first), both);
        vstd::set_lib::lemma_len_union(begun(pos, depth, fewer), prefixed(rest, s));
        let n = fewer.len() as int;
        let p = pow(66560, (depth - 1) as nat);
        assert((n + 1) * p == n * p + p) by (nonlinear_arith);
    }
}

/// There are finitely many sequences of a given length.
pub proof fn lemma_lines_finite(pos: Position, depth: nat)
    ensures
        lines(pos, depth).finite(),
        lines(pos, depth).len() <= pow(66560, depth),
    decreases depth, 1nat, 0nat,
{
    if depth == 0 {
        law_lines_zero(pos);
        lemma_pow0(66560);
    } else {
        let moves = Set::new(|s: Step| moves_in(pos, s));
        lemma_moves_finite(pos);
        lemma_begun_finite(pos, depth, moves);
        assert(begun(pos, depth, moves) =~= lines(pos, depth));
        let n = moves.len() as int;
        let p = pow(66560, (depth - 1) as nat);
        lemma_pow_positive(66560, (depth - 1) as nat);
        assert(n * p <= 66560 * p) by (nonlinear_arith)
            requires
                n <= 66560,
                0 < p,
        ;
        reveal(pow);
    }
}

/// The number of sequences of `depth` moves after each of the first `n` moves of a list, all
/// together.
pub open spec fn tally(pos: Position, depth: nat, moves: Seq<Step>, n: int) -> nat
    decreases n,
{
    if n <= 0 {
        0
    } else {
        tally(pos, depth, moves, n - 1) + lines(next_position(pos, moves[n - 1]), depth).len()
    }
}

proof fn lemma_tally(pos: Position, depth: nat, moves: Seq<Step>, n: int)
    requires
        0 <= n <= moves.len(),
        moves.no_duplicates(),
        forall|s: Step| moves.contains(s) <==> moves_in(pos, s),
    ensures
        started(pos, depth + 1, moves, n).finite(),
        started(pos, depth + 1, moves, n).len() == tally(pos, depth, moves, n),
    decreases n,
{
    if n == 0 {
        assert(started(pos, depth + 1, moves, 0) =~= Set::<Seq<Step>>::empty());
    } else {
        lemma_tally(pos, depth, moves, n - 1);
        assert(moves.contains(moves[n - 1]));
        lemma_lines_finite(next_position(pos, moves[n - 1]), depth);
        lemma_started_step(pos, depth + 1, moves, n - 1);
    }
}

/// The number of sequences of one move more is the sum, over the moves of the position, of
/// the numbers of sequences after each.
pub proof fn law_lines_sum(pos: Position, depth: nat, moves: Seq<Step>)
    requires
        moves.no_duplicates(),
        forall|s: Step| moves.contains(s) <==> moves_in(pos, s),
    ensures
        lines(pos, depth + 1).finite(),
        lines(pos, depth + 1).len() == tally(pos, depth, moves, moves.len() as int),
{
    lemma_tally(pos, depth, moves, moves.len() as int);
    lemma_started_all(pos, depth + 1, moves);
}

/// There are as many sequences of one move as moves.
pub proof fn law_lines_one(pos: Position, moves: Seq<Step>)
    requires
        moves.no_duplicates(),
        forall|s: Step| moves.contains(s) <==> moves_in(pos, s),
    ensures
        lines(pos, 1).finite(),
        lines(pos, 1).len() == moves.len(),
{
    lemma_lines_one(pos, moves, moves.len() as int);
    lemma_started_all(pos, 1, moves);
}

/// From a position without moves there are no sequences but the empty one.
pub proof fn law_lines_none(pos: Position, depth: nat)
    requires
        depth > 0,
        forall|s: Step| !moves_in(pos, s),
    ensures
        lines(pos, depth).finite(),
        lines(pos, depth).len() == 0,
{
    assert(lines(pos, depth) =~= Set::<Seq<Step>>::empty()) by {
        assert forall|l: Seq<Step>| !lines(pos, depth).contains(l) by {
            if lines(pos, depth).contains(l) {
                assert(moves_in(pos, l[0]));
            }
        }
    }
}

/// The room that the counters of a board have for `depth` more moves.
pub open spec fn has_room(board: Board, depth: int) -> bool {
    &&& board.state.half_move_clock + depth <= 255
    &&& board.state.full_move + depth <= usize::MAX
}

/// The number of sequences of `depth` moves from the position. The board is left as it was.
pub fn perft_divide(depth: usize, board: &mut Board) -> (res: usize)
    requires
        old(board).wf(),
        fair(old(board).state),
        has_room(*old(board), depth as int),
        lines(old(board).state.position(), depth as nat).len() <= usize::MAX,
    ensures
        res == lines(old(board).state.position(), depth as nat).len(),
        restored(*old(board), *final(board)),
    decreases depth,
{
    let ghost pos = board.state.position();
    let ghost start = *board;
    if depth == 0 {
        proof {
            law_lines_zero(pos);
        }
        return 1;
    }
    let moves = board.generate_moves(MoveGenKind::All);
    let ghost list = moves@;
    proof {
        assert forall|s: Step| list.contains(s) <==> moves_in(pos, s) by {}
        lemma_started_all(pos, depth as nat, list);
        lemma_lines_finite(pos, depth as nat);
    }
    if depth == 1 {
        proof {
            lemma_lines_one(pos, list, list.len() as int);
        }
        return moves.len();
    }
    let mut nodes: usize = 0;
    let mut i: usize = 0;
    proof {
        assert(started(pos, depth as nat, list, 0) =~= Set::<Seq<Step>>::empty());
    }
    while i < moves.len()
        invariant
            depth > 1,
            list == moves@,
            i <= list.len(),
            list.no_duplicates(),
            forall|s: Step| list.contains(s) <==> moves_in(pos, s),
            pos == start.state.position(),
            start.wf(),
            fair(start.state),
            has_room(start, depth as int),
            restored(start, *board),
            lines(pos, depth as nat).finite(),
            lines(pos, depth as nat).len() <= usize::MAX,
            started(pos, depth as nat, list, i as int).finite(),
            nodes == started(pos, depth as nat, list, i as int).len(),
        decreases list.len() - i,
    {
        let m = moves.get(i).mv;
        proof {
            assert(list.contains(m@));
            assert(generated(start.state, m@));
            law_generated_movable(start.state, m@);
            assert(board.wf());
        }
        board.make_move(m);
        proof {
            law_fair_preserved(start.state, m@, board.state);
            let next = next_position(pos, m@);
            lemma_lines_finite(next, (depth - 1) as nat);
            lemma_started_step(pos, depth as nat, list, i as int);
            lemma_started_bound(pos, depth as nat, list, i + 1);
        }
        nodes = nodes + perft_divide(depth - 1, board);
        board.unmake_move();
        proof {
            assert(board.state_stack@ =~= start.state_stack@);
            assert(board.game_history@ =~= start.game_history@);
        }
        i += 1;
    }
    nodes
}

/// The number of sequences of `depth` moves from the position, if it fits into a word. The
/// board is left as it was.
pub fn perft_checked(depth: usize, board: &mut Board) -> (res: Option<usize>)
    requires
        old(board).wf(),
        fair(old(board).state),
        has_room(*old(board), depth as int),
    ensures
        match res {
            Some(n) => n == lines(old(board).state.position(), depth as nat).len(),
            None => lines(old(board).state.position(), depth as nat).len() > usize::MAX,
        },
        restored(*old(board), *final(board)),
    decreases depth, 1nat,
{
    if depth == 0 {
        proof {
            law_lines_zero(board.state.position());
        }
        return Some(1);
    }
    match perft_moves(depth, board) {
        None => None,
        Some((_, nodes)) => Some(nodes),
    }
}

/// The moves from the position, each with the number of sequences of `depth` moves that
/// begin with it, and the number of all of them, if that fits into a word. The board is left
/// as it was.
pub fn perft_moves(depth: usize, board: &mut Board) -> (res: Option<(Vec<(Move, usize)>, usize)>)
    requires
        depth >= 1,
        old(board).wf(),
        fair(old(board).state),
        has_room(*old(board), depth as int),
    ensures
        restored(*old(board), *final(board)),
        res is None <==> lines(old(board).state.position(), depth as nat).len() > usize::MAX,
        res matches Some((parts, nodes)) ==> {
            let pos = old(board).state.position();
            let list = move_order(pos, MoveGenKind::All);
            &&& nodes == lines(pos, depth as nat).len()
            &&& parts@.len() == list.len()
            &&& forall|i: int| 0 <= i < parts@.len() ==> (#[trigger] parts@[i]).0@ == list[i]
            &&& forall|i: int|
                0 <= i < parts@.len() ==> moves_in(pos, (#[trigger] parts@[i]).0@) && parts@[i].1
                    == lines(next_position(pos, parts@[i].0@), (depth - 1) as nat).len()
            &&& forall|s: Step|
                moves_in(pos, s) ==> exists|i: int|
                    0 <= i < parts@.len() && (#[trigger] parts@[i]).0@ == s
            &&& forall|i: int, j: int|
                0 <= i < j < parts@.len() ==> (#[trigger] parts@[i]).0@ != (
                #[trigger] parts@[j]).0@
        },
    decreases depth, 0nat,
{
    let ghost pos = board.state.position();
    let ghost start = *board;
    let moves = board.generate_moves(MoveGenKind::All);
    let ghost list = moves@;
    proof {
        assert forall|s: Step| list.contains(s) <==> moves_in(pos, s) by {}
        lemma_started_all(pos, depth as nat, list);
        lemma_lines_finite(pos, depth as nat);
    }
    let mut parts: Vec<(Move, usize)> = Vec::new();
    let mut total: usize = 0;
    let mut i: usize = 0;
    proof {
        assert(started(pos, depth as nat, list, 0) =~= Set::<Seq<Step>>::empty());
    }
    while i < moves.len()
        invariant
            depth >= 1,
            list == moves@,
            list == move_order(pos, MoveGenKind::All),
            i <= list.len(),
            list.no_duplicates(),
            forall|s: Step| list.contains(s) <==> moves_in(pos, s),
            start == *old(board),
            pos == start.state.position(),
            start.wf(),
            fair(start.state),
            has_room(start, depth as int),
            restored(start, *board),
            lines(pos, depth as nat).finite(),
            lines(pos, depth as nat) == started(pos, depth as nat, list, list.len() as int),
            started(pos, depth as nat, list, i as int).finite(),
            total == started(pos, depth as nat, list, i as int).len(),
            parts@.len() == i,
            forall|j: int|
                0 <= j < i ==> (#[trigger] parts@[j]).0@ == list[j] && parts@[j].1 == lines(
                    next_position(pos, list[j]),
                    (depth - 1) as nat,
                ).len(),
        decreases list.len() - i,
    {
        let m = moves.get(i).mv;
        proof {
            assert(list.contains(m@));
            assert(generated(start.state, m@));
            law_generated_movable(start.state, m@);
            assert(board.wf());
        }
        board.make_move(m);
        proof {
            law_fair_preserved(start.state, m@, board.state);
            let next = next_position(pos, m@);
            lemma_lines_finite(next, (depth - 1) as nat);
            lemma_started_step(pos, depth as nat, list, i as int);
            lemma_started_bound(pos, depth as nat, list, i + 1);
        }
        let found = perft_checked(depth - 1, board);
        board.unmake_move();
        proof {
            assert(board.state_stack@ =~= start.state_stack@);
            assert(board.game_history@ =~= start.game_history@);
        }
        let nodes: usize = match found {
            None => {
                return None;
            },
            Some(nodes) => nodes,
        };
        total = match total.checked_add(nodes) {
            None => {
                return None;
            },
            Some(sum) => sum,
        };
        parts.push((m, nodes));
        i += 1;
    }
    proof {
        assert forall|s: Step| moves_in(pos, s) implies exists|i: int|
            0 <= i < parts@.len() && (#[trigger] parts@[i]).0@ == s by {
            assert(list.contains(s));
            let k = choose|k: int| 0 <= k < list.len() && list[k] == s;
            assert(parts@[k].0@ == s);
        }
    }
    Some((parts, total))
}

/// The number of sequences of `depth` moves from the position, for at least one move. The
/// board is left as it was.
pub fn perft(depth: usize, board: &mut Board) -> (res: usize)
    requires
        depth >= 1,
        old(board).wf(),
        fair(old(board).state),
        has_room(*old(board), depth as int),
        lines(old(board).state.position(), depth as nat).len() <= usize::MAX,
    ensures
        res == lines(old(board).state.position(), depth as nat).len(),
        restored(*old(board), *final(board)),
{
    perft_divide(depth, board)
}

} // verus!
