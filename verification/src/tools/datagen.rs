//! Random openings.

use crate::board::movegen::{generated, move_order, MoveGenKind};
use crate::board::position::Position;
use crate::nnue::evaluation;
use crate::random::{pseudo_rand, shuffled};
use crate::search::no_moves;
use crate::search::data::{moved, SearchData};
use crate::types::history::magnitude;
use crate::types::moves::{Move, Step};
use vstd::prelude::*;

verus! {

/// An opening that is of no use: the game is over, or one side is far ahead.
#[derive(Debug, Clone, Copy, PartialEq, Eq, Structural)]
pub struct BadRandomBoard;

/// An opening with a greater evaluation is of no use.
pub const EVEN_LIMIT: i32 = 1000;

/// `rand::random`: a random number. Nothing is claimed of it.
#[verifier::external_body]
fn fresh_seed() -> u64 {
    rand::random()
}

/// The seed that was given, or a random one in the place of zero.
pub fn opening_seed(seed: u64) -> (res: u64)
    ensures
        seed != 0 ==> res == seed,
{
    if seed != 0 {
        seed
    } else {
        fresh_seed()
    }
}

/// The length of an opening: the given one, or one ply more.
pub open spec fn plies_of(plies: int, shorter: bool) -> int {
    if shorter {
        plies
    } else {
        plies + 1
    }
}

/// The length of an opening: the given one, or one ply more.
pub fn opening_length(plies: usize, shorter: bool) -> (res: usize)
    requires
        plies < usize::MAX,
    ensures
        res == plies_of(plies as int, shorter),
{
    if shorter {
        plies
    } else {
        plies + 1
    }
}

/// The number that the generator gives after `n` others.
pub open spec fn nth_number(seed: u64, n: nat) -> u64
    decreases n,
{
    if n == 0 {
        shuffled(seed)
    } else {
        shuffled(nth_number(seed, (n - 1) as nat))
    }
}

/// The step is the one at the place of a number, modulo their count, among the moves of a
/// position in the order in which they are generated.
pub open spec fn drawn_by(pos: Position, number: u64, s: Step) -> bool {
    let list = move_order(pos, MoveGenKind::All);
    list.len() > 0 && s == list[number as int % list.len() as int]
}

/// The moves are made one after another, each drawn by the next number.
pub open spec fn played_out(states: Seq<SearchData>, line: Seq<Move>, seed: u64) -> bool {
    &&& states.len() == line.len() + 1
    &&& forall|i: int|
        #![trigger line[i]]
        0 <= i < line.len() ==> {
            &&& drawn_by(states[i].board.state.position(), nth_number(seed, i as nat), line[i]@)
            &&& moved(states[i], line[i], i, states[i + 1])
        }
}

/// Only what the network remembers of its last evaluation may differ.
pub open spec fn evaluated(a: SearchData, b: SearchData) -> bool {
    &&& b == (SearchData { network: b.network, ..a })
    &&& b.network.params() == a.network.params()
    &&& b.network.boards() == a.network.boards()
}

/// Where an opening has led: to an even position after all its moves, or to a position of
/// no use, without moves before the end or uneven at the end.
pub open spec fn opened(
    before: SearchData,
    after: SearchData,
    seed: u64,
    plies: int,
    good: bool,
) -> bool {
    exists|states: Seq<SearchData>, line: Seq<Move>| #[trigger]
        played_out(states, line, seed) && states[0] == before && line.len() <= plies && evaluated(
            states.last(),
            after,
        ) && {
            let eval = evaluation(
                before.network.params(),
                after.board.state.side_to_move,
                after.board.state.mb(),
            );
            if good {
                line.len() == plies && magnitude(eval) <= EVEN_LIMIT
            } else {
                ||| line.len() < plies && no_moves(after.board.state)
                ||| line.len() == plies && magnitude(eval) > EVEN_LIMIT
            }
        }
}

/// Makes random moves from the position of a worker. There are notes for 128 plies.
pub fn randomize_from_startpos(
    data: &mut SearchData,
    plies: usize,
    random_number: u64,
) -> (res: Result<(), BadRandomBoard>)
    requires
        old(data).wf(),
        plies <= 128,
        old(data).network.boards().len() == 1,
        old(data).board.state.half_move_clock + plies < 255,
        old(data).board.state.full_move + plies < usize::MAX,
    ensures
        final(data).wf(),
        opened(*old(data), *final(data), random_number, plies as int, res is Ok),
{
    let ghost mut line: Seq<Move> = Seq::empty();
    let ghost mut states: Seq<SearchData> = seq![*data];
    let mut state: u64 = random_number;
    let mut ply: usize = 0;
    while ply < plies
        invariant
            ply <= plies <= 128,
            data.wf(),
            data.network.params() == old(data).network.params(),
            data.network.boards().len() == ply + 1,
            data.board.state.half_move_clock + (plies - ply) < 255,
            data.board.state.full_move + (plies - ply) < usize::MAX,
            line.len() == ply,
            played_out(states, line, random_number),
            states[0] == *old(data),
            states.last() == *data,
            state == if ply == 0 {
                random_number
            } else {
                nth_number(random_number, (ply - 1) as nat)
            },
        decreases plies - ply,
    {
        let move_list = data.board.generate_moves(MoveGenKind::All);
        if move_list.is_empty() {
            proof {
                assert forall|s: Step| !#[trigger] generated(data.board.state, s) by {
                    assert(!move_list@.contains(s));
                }
                assert(played_out(states, line, random_number));
            }
            return Err(BadRandomBoard);
        }
        let index: usize = (pseudo_rand(&mut state) % (move_list.len() as u64)) as usize;
        let m = move_list.get(index).mv;
        proof {
            assert(move_list@[index as int] == m@);
            assert(drawn_by(data.board.state.position(), state, m@));
            assert(move_list@.contains(move_list@[index as int]));
            assert(generated(data.board.state, m@));
        }
        let ghost before = *data;
        data.make_move(m, ply as i32);
        proof {
            let next = line.push(m);
            let more = states.push(*data);
            assert forall|i: int|
                #![trigger next[i]]
                0 <= i < next.len() implies {
                &&& drawn_by(
                    more[i].board.state.position(),
                    nth_number(random_number, i as nat),
                    next[i]@,
                )
                &&& moved(more[i], next[i], i, more[i + 1])
            } by {
                if i < line.len() {
                    assert(next[i] == line[i]);
                    assert(more[i] == states[i] && more[i + 1] == states[i + 1]);
                } else {
                    assert(more[i] == before);
                }
            }
            line = next;
            states = more;
        }
        ply += 1;
    }
    let eval: i32 = data.network.evaluate(&data.board);
    assert(played_out(states, line, random_number));
    if eval > EVEN_LIMIT || eval < -EVEN_LIMIT {
        return Err(BadRandomBoard);
    }
    Ok(())
}

} // verus!
