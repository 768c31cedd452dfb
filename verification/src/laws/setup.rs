//! What is set up for a search: positions by commands and by lot, clocks and options.

use crate::board::makemove::next_position;
use crate::board::movegen::{move_order, MoveGenKind};
use crate::board::position::Position;
use crate::laws::commands::lemma_decimal_numeral;
use crate::search::data::{moved, Report, SearchData};
use crate::tools::datagen::{drawn_by, nth_number, opened, played_out, plies_of};
use crate::tools::position::{
    advanced, base_of, carried_out, listed, replayed, shows, spells, unfinished, walked, Complaint,
};
use crate::tools::uci::{Setting, UCISettings};
use crate::types::constants::STARTING_FEN;
use crate::types::moves::{Move, Step};
use crate::types::text::{decimal, lemma_decimal_number, space, trimmed, words_of};
use crate::uci::{number_or, read_from, ClockSettings};
use vstd::prelude::*;

verus! {

/// Openings from the same position with the same seed are the same, move by move, as far as
/// both go.
pub proof fn law_openings_repeat(
    first: Seq<SearchData>,
    line: Seq<Move>,
    second: Seq<SearchData>,
    other: Seq<Move>,
    seed: u64,
    n: int,
)
    requires
        played_out(first, line, seed),
        played_out(second, other, seed),
        first[0].board.state.position() == second[0].board.state.position(),
        0 <= n <= line.len(),
        n <= other.len(),
    ensures
        first[n].board.state.position() == second[n].board.state.position(),
        forall|i: int| 0 <= i < n ==> (#[trigger] line[i])@ == other[i]@,
    decreases n,
{
    if n > 0 {
        law_openings_repeat(first, line, second, other, seed, n - 1);
        let k = n - 1;
        assert(drawn_by(first[k].board.state.position(), nth_number(seed, k as nat), line[k]@));
        assert(drawn_by(second[k].board.state.position(), nth_number(seed, k as nat), other[k]@));
        assert(moved(first[k], line[k], k, first[k + 1]));
        assert(moved(second[k], other[k], k, second[k + 1]));
    }
}

/// Every move of an opening is one of its position, and each number draws the move at its own
/// place: numbers that differ by the count of the moves draw the same.
pub proof fn law_drawn_move(pos: Position, number: u64, s: Step, k: int)
    requires
        drawn_by(pos, number, s),
    ensures
        move_order(pos, MoveGenKind::All).contains(s),
        0 <= k < move_order(pos, MoveGenKind::All).len() && number == k ==> s == move_order(
            pos,
            MoveGenKind::All,
        )[k],
        0 <= k < move_order(pos, MoveGenKind::All).len() && number == k + move_order(
            pos,
            MoveGenKind::All,
        ).len() ==> s == move_order(pos, MoveGenKind::All)[k],
{
    let list = move_order(pos, MoveGenKind::All);
    let n = list.len() as int;
    assert(list[number as int % n] == s);
    if 0 <= k < n && number == k + n {
        vstd::arithmetic::div_mod::lemma_mod_add_multiples_vanish(k, n);
        vstd::arithmetic::div_mod::lemma_small_mod(k as nat, n as nat);
    }
    if 0 <= k < n && number == k {
        vstd::arithmetic::div_mod::lemma_small_mod(k as nat, n as nat);
    }
}

/// An opening that is kept has all its moves and an evaluation between minus and plus ten pawns.
pub proof fn law_opening_even(before: SearchData, after: SearchData, seed: u64, plies: int)
    requires
        opened(before, after, seed, plies, true),
    ensures
        -1000 <= crate::nnue::evaluation(
            before.network.params(),
            after.board.state.side_to_move,
            after.board.state.mb(),
        ) <= 1000,
        exists|states: Seq<SearchData>, line: Seq<Move>| #[trigger]
            played_out(states, line, seed) && states[0] == before && line.len() == plies,
{
}

/// An opening is of the length that is asked for, or one ply longer.
pub proof fn law_opening_length(plies: int)
    ensures
        plies_of(plies, true) == plies,
        plies_of(plies, false) == plies + 1,
{
}

/// A command with the starting position and no moves sets it up without complaint.
pub proof fn law_start_command(
    before: crate::board::Board,
    after: crate::board::Board,
    complaints: Seq<Complaint>,
    setup: Seq<char>,
    moves: Seq<char>,
)
    requires
        carried_out(before, after, complaints, "startpos"@, setup, moves),
        words_of(moves).len() == 0,
    ensures
        shows(after, STARTING_FEN@),
        complaints.len() == 0,
{
    reveal_strlit("startpos");
    reveal_strlit("fen");
    assert("startpos"@.len() == 8 && "fen"@.len() == 3);
    let (base, wrong, complete) = choose|
        base: crate::board::Board,
        wrong: Option<Complaint>,
        complete: bool,
    |
        {
            &&& #[trigger] base_of(before, "startpos"@, setup, base, wrong)
            &&& #[trigger] replayed(base, words_of(moves), after, complete)
            &&& complaints == listed(wrong) + listed(unfinished(complete))
        };
    let line = choose|line: Seq<Step>| #[trigger]
        spells(base.state.position(), words_of(moves), line) && walked(base, line, after)
            && if complete {
            line.len() == words_of(moves).len()
        } else {
            line.len() < words_of(moves).len()
        };
    assert(line.len() == 0);
    let boards = choose|boards: Seq<crate::board::Board>| #[trigger]
        crate::tools::position::trail(boards, line) && boards[0] == base && boards.last() == after;
    assert(boards.len() == 1);
}

/// A command that names no way to set a position up is complained of, and so is one with a move
/// that cannot be made.
pub proof fn law_command_refused(
    before: crate::board::Board,
    after: crate::board::Board,
    complaints: Seq<Complaint>,
    name: Seq<char>,
    setup: Seq<char>,
    moves: Seq<char>,
)
    requires
        carried_out(before, after, complaints, name, setup, moves),
    ensures
        name != "startpos"@ && name != "fen"@ ==> complaints.len() > 0 && complaints[0]
            == Complaint::UnknownArgument,
        name == "startpos"@ && complaints.len() > 0 ==> complaints == seq![Complaint::IllegalMove],
        name != "fen"@ ==> !complaints.contains(Complaint::NoFen) && !complaints.contains(
            Complaint::InvalidFen,
        ),
{
    reveal_strlit("startpos");
    reveal_strlit("fen");
    assert("startpos"@.len() == 8 && "fen"@.len() == 3);
    if name != "fen"@ {
        let (base, wrong, complete) = choose|
            base: crate::board::Board,
            wrong: Option<Complaint>,
            complete: bool,
        |
            {
                &&& #[trigger] base_of(before, name, setup, base, wrong)
                &&& #[trigger] replayed(base, words_of(moves), after, complete)
                &&& complaints == listed(wrong) + listed(unfinished(complete))
            };
        if name == "startpos"@ && complaints.len() > 0 {
            assert(complaints =~= seq![Complaint::IllegalMove]);
        }
        if name != "startpos"@ {
            assert(complaints[0] == Complaint::UnknownArgument);
        }
    }
}

/// The moves of a command are made as they are named: a complete list of texts leads to the
/// position after a line of moves with these texts, each a move of the position before it.
pub proof fn law_moves_replayed(
    base: crate::board::Board,
    list: Seq<Seq<char>>,
    after: crate::board::Board,
)
    requires
        replayed(base, list, after, true),
    ensures
        exists|line: Seq<Step>|
            line.len() == list.len() && #[trigger] spells(base.state.position(), list, line)
                && after.state.position() == advanced(base.state.position(), line),
{
    let line = choose|line: Seq<Step>| #[trigger]
        spells(base.state.position(), list, line) && walked(base, line, after) && line.len()
            == list.len();
    crate::tools::position::law_walked(base, line, after);
}

/// The position after a line of moves is that after its first move and then the others.
pub proof fn law_advanced(pos: Position, s: Step, line: Seq<Step>)
    ensures
        advanced(pos, seq![s] + line) == advanced(next_position(pos, s), line),
        advanced(pos, Seq::empty()) == pos,
    decreases line.len(),
{
    let whole = seq![s] + line;
    if line.len() == 0 {
        assert(whole.drop_last() =~= Seq::<Step>::empty());
        assert(whole.last() == s);
    } else {
        law_advanced(pos, s, line.drop_last());
        assert(whole.drop_last() =~= seq![s] + line.drop_last());
    }
}

/// An option changes its own setting and no other, and the last word on it counts.
pub proof fn law_options_set(u: UCISettings, v: bool, w: bool, n: usize)
    ensures
        u.after(Setting::SoftNodes(v)).soft_nodes == v,
        u.after(Setting::SoftNodes(v)).frc == u.frc,
        u.after(Setting::SoftNodes(v)).report == u.report,
        u.after(Setting::Chess960(v)).frc == v,
        u.after(Setting::Chess960(v)).soft_nodes == u.soft_nodes,
        u.after(Setting::Chess960(v)).report == u.report,
        u.after(Setting::Minimal(true)).report == Report::Minimal,
        u.after(Setting::Minimal(false)).report == Report::Full,
        u.after(Setting::Minimal(v)).frc == u.frc,
        u.after(Setting::Minimal(v)).soft_nodes == u.soft_nodes,
        u.after(Setting::Hash(n)) == u,
        u.after(Setting::Threads(n)) == u,
        u.after(Setting::ClearHash) == u,
        u.after(Setting::Unknown) == u,
        u.after(Setting::SoftNodes(v)).after(Setting::SoftNodes(w)) == u.after(
            Setting::SoftNodes(w),
        ),
{
}

/// What is reported of an option names its value at the end.
pub proof fn law_option_notices(n: usize)
    ensures
        Setting::Threads(n).notice() == Some(
            "info string Set Threads to "@ + decimal(n as nat),
        ),
        Setting::Hash(n).notice() == Some(
            "info string Resized TT to "@ + decimal(n as nat) + " mb"@,
        ),
        Setting::SoftNodes(true).notice() == Some("info string Set SoftNodes to "@ + "true"@),
        Setting::SoftNodes(false).notice() == Some("info string Set SoftNodes to "@ + "false"@),
        Setting::Minimal(true).notice() == Some("info string Set Minimal to "@ + "true"@),
        Setting::Minimal(false).notice() == Some("info string Set Minimal to "@ + "false"@),
        Setting::Chess960(true).notice() == Some("info string Set UCI_Chess960 to "@ + "true"@),
        Setting::Chess960(false).notice() == Some("info string Set UCI_Chess960 to "@ + "false"@),
        Setting::Unknown.notice() is None,
{
}

/// A word without white space is not shortened.
proof fn lemma_trimmed(s: Seq<char>)
    requires
        s.len() > 0,
        forall|i: int| 0 <= i < s.len() ==> !space(#[trigger] s[i]),
    ensures
        trimmed(s) == s,
{
    assert(!space(s[s.len() - 1]));
    assert(!space(s[0]));
    assert(s.take(s.len() as int) =~= s);
    assert(s.skip(0) =~= s);
}

/// The decimal notation of a number names it, whatever stands for a word that names none.
proof fn lemma_number_named(n: u64, default: u64)
    ensures
        number_or(decimal(n as nat), default) == n,
{
    let d = decimal(n as nat);
    lemma_decimal_number(n as nat);
    assert forall|i: int| 0 <= i < d.len() implies !space(#[trigger] d[i]) by {
        assert('0' <= d[i] <= '9');
    }
    lemma_trimmed(d);
    lemma_decimal_numeral(n as nat, u64::MAX as int);
}

/// Each of the words of a command about the clocks sets what it names, to the number that
/// follows, and reading goes on behind that.
pub proof fn law_clocks_named(list: Seq<Seq<char>>, k: int, s: ClockSettings, n: u64)
    requires
        0 <= k,
        k + 1 < list.len(),
        list[k + 1] == decimal(n as nat),
    ensures
        list[k] == "depth"@ ==> read_from(list, k, s) == read_from(
            list,
            k + 2,
            ClockSettings { depth: Some(n), ..s },
        ),
        list[k] == "wtime"@ ==> read_from(list, k, s) == read_from(
            list,
            k + 2,
            ClockSettings { wtime: Some(n), ..s },
        ),
        list[k] == "btime"@ ==> read_from(list, k, s) == read_from(
            list,
            k + 2,
            ClockSettings { btime: Some(n), ..s },
        ),
        list[k] == "winc"@ ==> read_from(list, k, s) == read_from(
            list,
            k + 2,
            ClockSettings { winc: Some(n), ..s },
        ),
        list[k] == "binc"@ ==> read_from(list, k, s) == read_from(
            list,
            k + 2,
            ClockSettings { binc: Some(n), ..s },
        ),
        list[k] == "movestogo"@ ==> read_from(list, k, s) == read_from(
            list,
            k + 2,
            ClockSettings { movestogo: Some(n), ..s },
        ),
        list[k] == "movetime"@ ==> read_from(list, k, s) == read_from(
            list,
            k + 2,
            ClockSettings { movetime: Some(n), ..s },
        ),
{
    reveal_strlit("depth");
    reveal_strlit("wtime");
    reveal_strlit("btime");
    reveal_strlit("winc");
    reveal_strlit("binc");
    reveal_strlit("movestogo");
    reveal_strlit("movetime");
    lemma_decimal_number(n as nat);
    assert("depth"@[0] == 'd' && "wtime"@[0] == 'w' && "btime"@[0] == 'b' && "winc"@[0] == 'w'
        && "binc"@[0] == 'b');
    assert("depth"@.len() == 5 && "wtime"@.len() == 5 && "btime"@.len() == 5 && "winc"@.len() == 4
        && "binc"@.len() == 4 && "movestogo"@.len() == 9 && "movetime"@.len() == 8);
    lemma_trimmed("depth"@);
    lemma_trimmed("wtime"@);
    lemma_trimmed("btime"@);
    lemma_trimmed("winc"@);
    lemma_trimmed("binc"@);
    lemma_trimmed("movestogo"@);
    lemma_trimmed("movetime"@);
    lemma_number_named(n, crate::uci::FULL_DEPTH);
    lemma_number_named(n, 500);
    lemma_number_named(n, 0);
}

} // verus!
