//! Setting a position up by a command.

use crate::board::Board;
use crate::board::legality::{fair, law_fair_preserved, law_generated_movable};
use crate::board::makemove::{made, next_position, passant_live};
use crate::board::movegen::{generated, moves_in, MoveGenKind};
use crate::board::parser::{fen_fields, rights_read};
use crate::board::position::{has_king, Position};
use crate::board::start::law_start_text;
use crate::types::constants::STARTING_FEN;
use crate::types::moves::{Move, Step};
use crate::types::sides::Side;
use crate::types::text::{
    all_space, chars_of, cut, is_space, same_text, split_once, string_of, texts, trim,
    trim_blank_end, trimmed, without_blanks, words, words_of,
};
use vstd::prelude::*;

verus! {

/// What was wrong with a position command.
#[derive(Debug, Clone, Copy, PartialEq, Eq, Structural)]
pub enum Complaint {
    NoArgument,
    NoFen,
    InvalidFen,
    UnknownArgument,
    IllegalMove,
}

/// The board shows the position that a text describes.
pub open spec fn shows(b: Board, text: Seq<char>) -> bool {
    fen_fields(text) matches Some(f) && {
        &&& has_king(f.mb, Side::White) && has_king(f.mb, Side::Black)
        &&& b.state.mb() == f.mb
        &&& b.state.side_to_move == f.stm
        &&& rights_read(f.castling, b.state.castling_rights)
        &&& b.state.ep() == match f.ep {
            Some(e) => if passant_live(f.mb, f.stm, e) {
                Some(e)
            } else {
                None
            },
            None => None,
        }
        &&& b.state.half_move_clock == f.half_move
        &&& b.state.full_move == f.full_move
        &&& b.state.pinned_bb(f.stm.other()).0 == 0
        &&& b.state_stack@.len() == 0
        &&& b.game_history@.len() == 0
        &&& b.zobrist.as_drawn()
    }
}

/// The text describes a position that can arise in a game.
pub open spec fn readable(text: Seq<char>) -> bool {
    exists|b: Board| #[trigger] shows(b, text) && fair(b.state)
}

/// Puts the position that a text describes on a board, if it can arise in a game.
pub fn read_position(text: &str, board: &mut Board) -> (res: bool)
    requires
        old(board).wf(),
        fair(old(board).state),
    ensures
        final(board).wf(),
        fair(final(board).state),
        res == readable(text@),
        res ==> shows(*final(board), text@),
        !res ==> *final(board) == *old(board),
{
    match Board::from_fen(text) {
        Err(_) => false,
        Ok(b) => {
            assert(shows(b, text@));
            if b.is_fair() {
                *board = b;
                true
            } else {
                proof {
                    assert forall|c: Board| #[trigger] shows(c, text@) implies !fair(c.state) by {
                        assert(c.state.mb() == b.state.mb());
                        assert(c.state.ep() == b.state.ep());
                        assert(c.state.side_to_move == b.state.side_to_move);
                    }
                }
                false
            }
        },
    }
}

/// The position after a line of moves.
pub open spec fn advanced(pos: Position, line: Seq<Step>) -> Position
    decreases line.len(),
{
    if line.len() == 0 {
        pos
    } else {
        next_position(advanced(pos, line.drop_last()), line.last())
    }
}

/// The line consists of moves, each with the notation of its text.
pub open spec fn spells(pos: Position, list: Seq<Seq<char>>, line: Seq<Step>) -> bool {
    line.len() <= list.len() && forall|i: int|
        0 <= i < line.len() ==> moves_in(advanced(pos, line.take(i)), #[trigger] line[i])
            && Move::notation(line[i]) == list[i]
}

/// The counters of the board leave room for a move.
pub open spec fn can_count(b: Board) -> bool {
    b.state.half_move_clock < 255 && b.state.full_move < usize::MAX
}

/// The boards come about one after another by the moves of a line.
pub open spec fn trail(boards: Seq<Board>, line: Seq<Step>) -> bool {
    &&& boards.len() == line.len() + 1
    &&& forall|i: int| 0 <= i < line.len() ==> made(boards[i], #[trigger] line[i], boards[i + 1])
}

/// The moves of a line have been made on a board, one after another.
pub open spec fn walked(base: Board, line: Seq<Step>, after: Board) -> bool {
    exists|boards: Seq<Board>| #[trigger]
        trail(boards, line) && boards[0] == base && boards.last() == after
}

proof fn lemma_walked_on(base: Board, line: Seq<Step>, mid: Board, s: Step, after: Board)
    requires
        walked(base, line, mid),
        made(mid, s, after),
    ensures
        walked(base, line.push(s), after),
{
    let boards = choose|boards: Seq<Board>| #[trigger]
        trail(boards, line) && boards[0] == base && boards.last() == mid;
    let more = boards.push(after);
    let next = line.push(s);
    assert forall|i: int| 0 <= i < next.len() implies made(more[i], #[trigger] next[i], more[
        i + 1
    ]) by {
        if i < line.len() {
            assert(made(boards[i], line[i], boards[i + 1]));
        }
    }
    assert(trail(more, next));
}

/// The moves that the texts name have been made, up to the first text that names none or
/// the first move for which the counters have no room.
pub open spec fn replayed(
    base: Board,
    list: Seq<Seq<char>>,
    after: Board,
    complete: bool,
) -> bool {
    exists|line: Seq<Step>| #[trigger]
        spells(base.state.position(), list, line) && walked(base, line, after) && if complete {
            line.len() == list.len()
        } else {
            &&& line.len() < list.len()
            &&& can_count(after) ==> forall|s: Step| #[trigger]
                moves_in(after.state.position(), s) ==> Move::notation(s) != list[line.len() as int]
        }
}

/// Making the moves of a line leads to the position of the rules, and leaves as many states
/// on the stack and keys in the history as there are moves.
pub proof fn law_walked(base: Board, line: Seq<Step>, after: Board)
    requires
        walked(base, line, after),
    ensures
        after.state.position() == advanced(base.state.position(), line),
        after.state_stack@.len() == base.state_stack@.len() + line.len(),
        after.game_history@.len() == base.game_history@.len() + line.len(),
    decreases line.len(),
{
    if line.len() > 0 {
        let boards = choose|boards: Seq<Board>| #[trigger]
            trail(boards, line) && boards[0] == base && boards.last() == after;
        let n = line.len() - 1;
        let less = boards.drop_last();
        assert(made(boards[n], line[n], boards[n + 1]));
        assert(trail(less, line.drop_last())) by {
            assert forall|i: int| 0 <= i < line.drop_last().len() implies made(
                less[i],
                #[trigger] line.drop_last()[i],
                less[i + 1],
            ) by {
                assert(made(boards[i], line[i], boards[i + 1]));
            }
        }
        law_walked(base, line.drop_last(), boards[n]);
    }
}

/// The move of the position with a notation.
fn find_move(board: &Board, text: &Vec<char>) -> (res: Option<Move>)
    requires
        board.wf(),
    ensures
        match res {
            Some(m) => generated(board.state, m@) && Move::notation(m@) == text@,
            None => forall|s: Step| #[trigger]
                generated(board.state, s) ==> Move::notation(s) != text@,
        },
{
    let moves = board.generate_moves(MoveGenKind::All);
    let mut i: usize = 0;
    while i < moves.len()
        invariant
            i <= moves@.len(),
            forall|s: Step| #[trigger] moves@.contains(s) <==> generated(board.state, s),
            forall|j: int| 0 <= j < i ==> Move::notation(#[trigger] moves@[j]) != text@,
        decreases moves@.len() - i,
    {
        let m = moves.get(i).mv;
        let name = m.to_string();
        if same_text(text, name.as_str()) {
            assert(moves@.contains(m@));
            return Some(m);
        }
        i += 1;
    }
    proof {
        assert forall|s: Step| #[trigger] generated(board.state, s) implies Move::notation(s)
            != text@ by {
            assert(moves@.contains(s));
        }
    }
    None
}

/// Makes the moves that some texts name, up to the first that cannot be made.
pub fn replay(list: &Vec<Vec<char>>, board: &mut Board) -> (res: bool)
    requires
        old(board).wf(),
        fair(old(board).state),
    ensures
        final(board).wf(),
        fair(final(board).state),
        replayed(*old(board), texts(list@), *final(board), res),
{
    let ghost base = *board;
    let ghost pos = board.state.position();
    let ghost names = texts(list@);
    let ghost mut line: Seq<Step> = Seq::empty();
    assert(trail(seq![base], line));
    let mut i: usize = 0;
    while i < list.len()
        invariant
            i <= list@.len(),
            names == texts(list@),
            board.wf(),
            fair(board.state),
            line.len() == i,
            spells(pos, names, line),
            base == *old(board),
            pos == base.state.position(),
            walked(base, line, *board),
            board.state.position() == advanced(pos, line),
        decreases list@.len() - i,
    {
        let found = find_move(board, &list[i]);
        let m = match found {
            None => {
                proof {
                    assert(names[i as int] == list@[i as int]@);
                    assert forall|s: Step| #[trigger]
                        moves_in(board.state.position(), s) implies Move::notation(s)
                        != names[i as int] by {
                        assert(generated(board.state, s) ==> Move::notation(s) != list@[i as int]@);
                    }
                    assert(spells(pos, names, line));
                }
                return false;
            },
            Some(m) => m,
        };
        if board.state.half_move_clock == 255 || board.state.full_move == usize::MAX {
            assert(spells(pos, names, line));
            return false;
        }
        let ghost mid = *board;
        let ghost before = board.state;
        proof {
            law_generated_movable(before, m@);
        }
        board.make_move(m);
        proof {
            law_fair_preserved(before, m@, board.state);
            let next = line.push(m@);
            assert(next.drop_last() =~= line);
            lemma_walked_on(base, line, mid, m@, *board);
            assert forall|k: int| 0 <= k < next.len() implies moves_in(
                advanced(pos, next.take(k)),
                #[trigger] next[k],
            ) && Move::notation(next[k]) == names[k] by {
                if k < line.len() {
                    assert(next.take(k) =~= line.take(k));
                    assert(next[k] == line[k]);
                } else {
                    assert(next.take(k) =~= line);
                }
            }
            line = next;
        }
        i += 1;
    }
    assert(spells(pos, names, line));
    true
}

fn only_space(s: &Vec<char>) -> (res: bool)
    ensures
        res == all_space(s@),
{
    let mut i: usize = 0;
    while i < s.len()
        invariant
            i <= s@.len(),
            forall|j: int| 0 <= j < i ==> crate::types::text::space(#[trigger] s@[j]),
        decreases s@.len() - i,
    {
        if !is_space(s[i]) {
            return false;
        }
        i += 1;
    }
    true
}

/// The text of a position without separators at its end.
pub open spec fn fen_part(setup: Seq<char>) -> Seq<char> {
    setup.take(without_blanks(setup))
}

/// The position that the first part of a command sets up, from which the moves are made,
/// and what is wrong with it. `None` if nothing more is done.
pub open spec fn base_of(
    before: Board,
    name: Seq<char>,
    setup: Seq<char>,
    base: Board,
    wrong: Option<Complaint>,
) -> bool {
    if name == "startpos"@ {
        wrong is None && shows(base, STARTING_FEN@)
    } else if name == "fen"@ {
        if readable(fen_part(setup)) {
            wrong is None && shows(base, fen_part(setup))
        } else {
            wrong == Some(Complaint::InvalidFen) && base == before
        }
    } else {
        wrong == Some(Complaint::UnknownArgument) && base == before
    }
}

/// What a position command does: it sets a position up and makes moves from there. What is
/// wrong with the first part does not keep the moves from being made, unless there is no
/// argument or no position at all.
pub open spec fn positioned(
    args: Seq<char>,
    before: Board,
    after: Board,
    complaints: Seq<Complaint>,
) -> bool {
    if all_space(args) {
        after == before && complaints == seq![Complaint::NoArgument]
    } else {
        exists|name: Seq<char>, rest: Seq<char>, setup: Seq<char>, moves: Seq<char>|
            {
                &&& #[trigger] cut(args, " "@, name, rest)
                &&& #[trigger] cut(rest, "moves"@, setup, moves)
                &&& carried_out(before, after, complaints, trimmed(name), setup, moves)
            }
    }
}

/// What a position command does once it is cut into its parts.
pub open spec fn carried_out(
    before: Board,
    after: Board,
    complaints: Seq<Complaint>,
    name: Seq<char>,
    setup: Seq<char>,
    moves: Seq<char>,
) -> bool {
    if name == "fen"@ && all_space(setup) {
        after == before && complaints == seq![Complaint::NoFen]
    } else {
        exists|base: Board, wrong: Option<Complaint>, complete: bool|
            {
                &&& #[trigger] base_of(before, name, setup, base, wrong)
                &&& #[trigger] replayed(base, words_of(moves), after, complete)
                &&& complaints == listed(wrong) + listed(unfinished(complete))
            }
    }
}

/// What is wrong with the moves of a command.
pub open spec fn unfinished(complete: bool) -> Option<Complaint> {
    if complete {
        None
    } else {
        Some(Complaint::IllegalMove)
    }
}

pub open spec fn listed(c: Option<Complaint>) -> Seq<Complaint> {
    match c {
        Some(x) => seq![x],
        None => Seq::empty(),
    }
}

/// Carries a position command out.
pub fn position(args: &str, board: &mut Board) -> (res: Vec<Complaint>)
    requires
        old(board).wf(),
        fair(old(board).state),
    ensures
        final(board).wf(),
        fair(final(board).state),
        positioned(args@, *old(board), *final(board), res@),
{
    let mut complaints: Vec<Complaint> = Vec::new();
    let chars = chars_of(args);
    if only_space(&chars) {
        complaints.push(Complaint::NoArgument);
        assert(complaints@ =~= seq![Complaint::NoArgument]);
        return complaints;
    }
    let (first, rest) = split_once(&chars, " ");
    let (setup, moves) = split_once(&rest, "moves");
    let name = trim(&first);
    let ghost mut wrong: Option<Complaint> = None;
    if same_text(&name, "startpos") {
        *board = Board::start();
        proof {
            law_start_text();
            assert(shows(*board, STARTING_FEN@));
        }
    } else if same_text(&name, "fen") {
        if only_space(&setup) {
            complaints.push(Complaint::NoFen);
            assert(complaints@ =~= seq![Complaint::NoFen]);
            assert(cut(args@, " "@, first@, rest@));
            assert(cut(rest@, "moves"@, setup@, moves@));
            return complaints;
        }
        let text = string_of(&trim_blank_end(&setup));
        if !read_position(text.as_str(), board) {
            complaints.push(Complaint::InvalidFen);
            proof {
                wrong = Some(Complaint::InvalidFen);
            }
        }
    } else {
        complaints.push(Complaint::UnknownArgument);
        proof {
            wrong = Some(Complaint::UnknownArgument);
        }
    }
    let ghost base = *board;
    assert(complaints@ =~= listed(wrong));
    proof {
        reveal_strlit("startpos");
        reveal_strlit("fen");
    }
    let list = words(&moves);
    let complete = replay(&list, board);
    if !complete {
        complaints.push(Complaint::IllegalMove);
    }
    proof {
        assert(base_of(*old(board), trimmed(first@), setup@, base, wrong));
        assert(replayed(base, words_of(moves@), *board, complete));
        assert(complaints@ =~= listed(wrong) + listed(unfinished(complete)));
        assert("startpos"@.len() == 8 && "fen"@.len() == 3);
        assert(!(trimmed(first@) == "fen"@ && all_space(setup@)));
        assert(exists|b: Board, w: Option<Complaint>, c: bool| #[trigger]
            base_of(*old(board), trimmed(first@), setup@, b, w) && #[trigger] replayed(
                b,
                words_of(moves@),
                *board,
                c,
            ) && complaints@ == listed(w) + listed(unfinished(c)));
        assert(carried_out(
            *old(board),
            *board,
            complaints@,
            trimmed(first@),
            setup@,
            moves@,
        ));
        assert(cut(args@, " "@, first@, rest@));
        assert(cut(rest@, "moves"@, setup@, moves@));
    }
    complaints
}

} // verus!
