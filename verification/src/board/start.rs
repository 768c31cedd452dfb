//! The starting position.

use crate::attacks::reach;
use crate::board::{Board, BoardState};
use crate::board::legality::{fair, lemma_the_king};
use crate::board::notation::{law_placement_round_trip, lemma_ranks_split, lemma_six_fields};
use crate::board::parser::{
    castling_text, fen_fields, full_rank_text, rank_text, ranks_text, rights_read, six_fields,
    FenFields,
};
use crate::board::position::{attacker, has_king, holds, occupied, piece_of, single_king, Placement};
use crate::types::bits::{file_of, rank_of};
use crate::types::constants::STARTING_FEN;
use crate::types::pieces::Piece;
use crate::types::sides::{Castling, Side};
use crate::types::text::{numeral, split};
use vstd::prelude::*;

verus! {

/// The piece behind the pawns on a file.
pub open spec fn back_piece(file: int) -> Piece {
    if file == 0 || file == 7 {
        Piece::Rook
    } else if file == 1 || file == 6 {
        Piece::Knight
    } else if file == 2 || file == 5 {
        Piece::Bishop
    } else if file == 3 {
        Piece::Queen
    } else {
        Piece::King
    }
}

/// What stands on a square at the start of a game.
pub open spec fn start_square(i: int) -> Option<(Side, Piece)> {
    if rank_of(i) == 0 {
        Some((Side::White, back_piece(file_of(i))))
    } else if rank_of(i) == 1 {
        Some((Side::White, Piece::Pawn))
    } else if rank_of(i) == 6 {
        Some((Side::Black, Piece::Pawn))
    } else if rank_of(i) == 7 {
        Some((Side::Black, back_piece(file_of(i))))
    } else {
        None
    }
}

/// The board at the start of a game.
pub open spec fn start_placement() -> Placement {
    Seq::new(64, |i: int| start_square(i))
}

proof fn lemma_start_ranks()
    ensures
        full_rank_text(start_placement(), 0) == seq!['R', 'N', 'B', 'Q', 'K', 'B', 'N', 'R'],
        full_rank_text(start_placement(), 1) == seq!['P', 'P', 'P', 'P', 'P', 'P', 'P', 'P'],
        full_rank_text(start_placement(), 6) == seq!['p', 'p', 'p', 'p', 'p', 'p', 'p', 'p'],
        full_rank_text(start_placement(), 7) == seq!['r', 'n', 'b', 'q', 'k', 'b', 'n', 'r'],
        forall|r: int| 2 <= r < 6 ==> #[trigger] full_rank_text(start_placement(), r) == seq!['8'],
{
    let mb = start_placement();
    reveal_with_fuel(rank_text, 9);
    assert(full_rank_text(mb, 0) =~= seq!['R', 'N', 'B', 'Q', 'K', 'B', 'N', 'R']);
    assert(full_rank_text(mb, 1) =~= seq!['P', 'P', 'P', 'P', 'P', 'P', 'P', 'P']);
    assert(full_rank_text(mb, 6) =~= seq!['p', 'p', 'p', 'p', 'p', 'p', 'p', 'p']);
    assert(full_rank_text(mb, 7) =~= seq!['r', 'n', 'b', 'q', 'k', 'b', 'n', 'r']);
    assert forall|r: int| 2 <= r < 6 implies #[trigger] full_rank_text(mb, r) == seq!['8'] by {
        assert(full_rank_text(mb, r) =~= seq!['8']);
    }
}

proof fn lemma_start_text()
    ensures
        STARTING_FEN@ == six_fields(
            ranks_text(start_placement(), 8),
            seq!['w'],
            seq!['K', 'Q', 'k', 'q'],
            seq!['-'],
            seq!['0'],
            seq!['1'],
        ),
{
    let mb = start_placement();
    lemma_start_ranks();
    reveal_with_fuel(ranks_text, 9);
    let ranks = ranks_text(mb, 8);
    assert(ranks =~= seq![
        'r', 'n', 'b', 'q', 'k', 'b', 'n', 'r', '/',
        'p', 'p', 'p', 'p', 'p', 'p', 'p', 'p', '/',
        '8', '/', '8', '/', '8', '/', '8', '/',
        'P', 'P', 'P', 'P', 'P', 'P', 'P', 'P', '/',
        'R', 'N', 'B', 'Q', 'K', 'B', 'N', 'R'
    ]);
    reveal_strlit("rnbqkbnr/pppppppp/8/8/8/8/PPPPPPPP/RNBQKBNR w KQkq - 0 1");
    assert(STARTING_FEN@ =~= six_fields(
        ranks,
        seq!['w'],
        seq!['K', 'Q', 'k', 'q'],
        seq!['-'],
        seq!['0'],
        seq!['1'],
    ));
}

/// What the text of the starting position says.
pub open spec fn start_fields() -> FenFields {
    FenFields {
        mb: start_placement(),
        stm: Side::White,
        castling: seq!['K', 'Q', 'k', 'q'],
        ep: None,
        half_move: 0,
        full_move: 1,
    }
}

/// The text of the starting position describes it.
pub proof fn law_start_text()
    ensures
        fen_fields(STARTING_FEN@) == Some(start_fields()),
{
    let mb = start_placement();
    let ranks = ranks_text(mb, 8);
    let turn = seq!['w'];
    let castling = seq!['K', 'Q', 'k', 'q'];
    let ep = seq!['-'];
    let half = seq!['0'];
    let full = seq!['1'];
    lemma_start_text();
    lemma_ranks_split(mb, 8);
    law_placement_round_trip(mb);
    assert(!turn.contains(' ') && !castling.contains(' ') && !ep.contains(' ') && !half.contains(
        ' ',
    ) && !full.contains(' '));
    lemma_six_fields(ranks, turn, castling, ep, half, full);
    let fields = split(STARTING_FEN@, ' ');
    assert(fields == seq![ranks, turn, castling, ep, half, full]);
    assert(turn[0] == 'w' && seq!['b'][0] == 'b');
    assert(castling_text(castling));
    reveal_with_fuel(crate::types::text::number, 2);
    assert(numeral(half, 255) == Some(0int)) by {
        assert(half.drop_last() =~= Seq::<char>::empty());
    }
    assert(numeral(full, usize::MAX as int) == Some(1int)) by {
        assert(full.drop_last() =~= Seq::<char>::empty());
    }
}

/// The starting position can arise in a game.
pub proof fn law_start_fair(st: BoardState)
    requires
        st.mb() == start_placement(),
        st.side_to_move == Side::White,
        st.ep() is None,
    ensures
        fair(st),
        has_king(st.mb(), Side::White),
        has_king(st.mb(), Side::Black),
{
    let mb = st.mb();
    assert(holds(mb, 4, Side::White, Piece::King));
    assert(holds(mb, 60, Side::Black, Piece::King));
    assert(single_king(mb, Side::White));
    assert(single_king(mb, Side::Black));
    lemma_the_king(mb, Side::White, 4);
    lemma_the_king(mb, Side::Black, 60);
    assert forall|a: int| !#[trigger] attacker(mb, Side::White, a, 60, occupied(mb)) by {
        if attacker(mb, Side::White, a, 60, occupied(mb)) {
            assert(rank_of(a) == 0 || rank_of(a) == 1);
            assert(reach(piece_of(mb[a]), Side::White, a, 60, occupied(mb)));
        }
    }
}

impl Board {
    /// A board with the starting position.
    pub fn start() -> (res: Self)
        ensures
            res.wf(),
            fair(res.state),
            res.state.mb() == start_placement(),
            res.state.side_to_move == Side::White,
            forall|c: Castling| #[trigger] res.state.castling_rights.holds(c),
            rights_read(start_fields().castling, res.state.castling_rights),
            res.state.enpassant is None,
            res.state.half_move_clock == 0,
            res.state.full_move == 1,
            res.state.pinned_bb(Side::Black).0 == 0,
            res.state_stack@.len() == 0,
            res.game_history@.len() == 0,
            res.zobrist.as_drawn(),
    {
        proof {
            law_start_text();
            assert(holds(start_placement(), 4, Side::White, Piece::King));
            assert(holds(start_placement(), 60, Side::Black, Piece::King));
        }
        match Board::from_fen(STARTING_FEN) {
            Ok(board) => {
                proof {
                    law_start_fair(board.state);
                    let letters = start_fields().castling;
                    assert(letters[0] == 'K' && letters[1] == 'Q' && letters[2] == 'k'
                        && letters[3] == 'q');
                    assert forall|c: Castling| #[trigger] board.state.castling_rights.holds(c) by {
                        assert(letters.contains(c.letter()));
                    }
                }
                board
            },
            Err(_) => {
                assert(false);
                Board::new()
            },
        }
    }
}

} // verus!
