//! What stands where in the pictures of boards and sets of squares.

use crate::board::Board;
use crate::board::display::{
    bit_cells, bit_rows, capital_letter, list_text, passant_picture, piece_cells, piece_rows,
};
use crate::types::bitboard::BitBoard;
use crate::types::moves::{Move, Step};
use crate::types::sides::{Castling, CastlingRights, Side};
use vstd::prelude::*;

verus! {

/// The sign for a square of the board.
pub open spec fn sign(b: Board, i: int) -> char {
    match b.state.mb()[i] {
        Some((side, piece)) => piece.letter(side),
        None => '.',
    }
}

proof fn lemma_piece_cells(b: Board, rank: int, n: int)
    requires
        0 <= n <= 8,
    ensures
        piece_cells(b, rank, n).len() == 3 * n,
        forall|f: int|
            0 <= f < n ==> #[trigger] piece_cells(b, rank, n)[3 * f + 1] == sign(b, rank * 8 + f),
    decreases n,
{
    if n > 0 {
        lemma_piece_cells(b, rank, n - 1);
        assert forall|f: int| 0 <= f < n implies #[trigger] piece_cells(b, rank, n)[3 * f + 1]
            == sign(b, rank * 8 + f) by {
            if f < n - 1 {
                let before = piece_cells(b, rank, n - 1);
                assert(piece_cells(b, rank, n)[3 * f + 1] == before[3 * f + 1]);
            }
        }
    }
}

proof fn lemma_piece_rows(b: Board, n: int, k: int, f: int)
    requires
        0 <= n <= 8,
        0 <= k < n,
        0 <= f < 8,
    ensures
        piece_rows(b, n).len() == 29 * n,
        piece_rows(b, n)[29 * k + 4 + 3 * f + 1] == sign(b, (7 - k) * 8 + f),
    decreases n,
{
    lemma_piece_cells(b, 8 - n, 8);
    let before = piece_rows(b, n - 1);
    if n > 1 {
        lemma_piece_rows(b, n - 1, if k < n - 1 {
            k
        } else {
            0
        }, f);
    }
    assert(before.len() == 29 * (n - 1));
    let row = piece_cells(b, 8 - n, 8);
    if k < n - 1 {
        assert(piece_rows(b, n)[29 * k + 4 + 3 * f + 1] == before[29 * k + 4 + 3 * f + 1]);
    } else {
        assert(row[3 * f + 1] == sign(b, (8 - n) * 8 + f));
        assert(piece_rows(b, n)[29 * k + 4 + 3 * f + 1] == row[3 * f + 1]);
    }
}

/// In the picture of a board each square has a place of its own, the eighth rank above the
/// first and the a-file to the left: there stands the letter of its piece, or a dot.
pub proof fn law_board_picture(b: Board, i: int)
    requires
        0 <= i < 64,
    ensures
        b.picture()[2 + 29 * (7 - i / 8) + 5 + 3 * (i % 8)] == match b.state.mb()[i] {
            Some((side, piece)) => piece.letter(side),
            None => '.',
        },
        b.picture()[283] == if b.state.side_to_move == Side::White {
            'w'
        } else {
            'b'
        },
{
    let k = 7 - i / 8;
    let f = i % 8;
    lemma_piece_rows(b, 8, k, f);
    reveal_strlit("\n\n");
    reveal_strlit("\n     A  B  C  D  E  F  G  H\n\n     Side to move: ");
    assert("\n\n"@.len() == 2);
    assert("\n     A  B  C  D  E  F  G  H\n\n     Side to move: "@.len() == 49);
    let rows = "\n\n"@ + piece_rows(b, 8);
    assert(rows.len() == 234);
    assert(rows[2 + 29 * k + 5 + 3 * f] == piece_rows(b, 8)[29 * k + 4 + 3 * f + 1]);
    assert((7 - k) * 8 + f == i);
}

proof fn lemma_bit_cells(b: BitBoard, rank: int, n: int)
    requires
        0 <= n <= 8,
    ensures
        bit_cells(b, rank, n).len() == 3 * n,
        forall|f: int|
            0 <= f < n ==> #[trigger] bit_cells(b, rank, n)[3 * f] == if b.has(rank * 8 + f) {
                '1'
            } else {
                '0'
            },
    decreases n,
{
    if n > 0 {
        lemma_bit_cells(b, rank, n - 1);
        assert forall|f: int| 0 <= f < n implies #[trigger] bit_cells(b, rank, n)[3 * f]
            == if b.has(rank * 8 + f) {
            '1'
        } else {
            '0'
        } by {
            if f < n - 1 {
                assert(bit_cells(b, rank, n)[3 * f] == bit_cells(b, rank, n - 1)[3 * f]);
            }
        }
    }
}

proof fn lemma_bit_rows(b: BitBoard, n: int, k: int, f: int)
    requires
        0 <= n <= 8,
        0 <= k < n,
        0 <= f < 8,
    ensures
        bit_rows(b, n).len() == 29 * n,
        bit_rows(b, n)[29 * k + 4 + 3 * f] == if b.has((7 - k) * 8 + f) {
            '1'
        } else {
            '0'
        },
    decreases n,
{
    lemma_bit_cells(b, 8 - n, 8);
    let before = bit_rows(b, n - 1);
    if n > 1 {
        lemma_bit_rows(b, n - 1, if k < n - 1 {
            k
        } else {
            0
        }, f);
    }
    assert(before.len() == 29 * (n - 1));
    let row = bit_cells(b, 8 - n, 8);
    if k < n - 1 {
        assert(bit_rows(b, n)[29 * k + 4 + 3 * f] == before[29 * k + 4 + 3 * f]);
    } else {
        assert(row[3 * f] == if b.has((8 - n) * 8 + f) {
            '1'
        } else {
            '0'
        });
        assert(bit_rows(b, n)[29 * k + 4 + 3 * f] == row[3 * f]);
    }
}

/// In the picture of a set of squares each square has a place of its own, with a one for a
/// member and a zero for another.
pub proof fn law_set_picture(b: BitBoard, i: int)
    requires
        0 <= i < 64,
    ensures
        b.picture()[1 + 29 * (7 - i / 8) + 4 + 3 * (i % 8)] == if b.has(i) {
            '1'
        } else {
            '0'
        },
{
    let k = 7 - i / 8;
    let f = i % 8;
    lemma_bit_rows(b, 8, k, f);
    let rows = seq!['\n'] + bit_rows(b, 8);
    assert(rows[1 + 29 * k + 4 + 3 * f] == bit_rows(b, 8)[29 * k + 4 + 3 * f]);
    assert((7 - k) * 8 + f == i);
}

/// The square that may be passed is named by the letter of its file, counted from A, and its
/// rank, counted from one.
pub proof fn law_passant_picture(i: int, digit: char, letter: char)
    requires
        0 <= i < 64,
        letter as int == 'A' as int + i % 8,
        digit as int == '1' as int + i / 8,
    ensures
        passant_picture(Some(i)) == "Some("@ + seq![letter, digit, ')'],
        passant_picture(None) == "None"@,
{
    assert(capital_letter(i % 8) == letter);
    assert(passant_picture(Some(i)) =~= "Some("@ + seq![letter, digit, ')']);
}

/// The rights to castle are written as their letters, and none as a stroke.
pub proof fn law_rights_written(r: CastlingRights)
    ensures
        r.text().contains('K') <==> r.holds(Castling::WhiteKing),
        r.text().contains('Q') <==> r.holds(Castling::WhiteQueen),
        r.text().contains('k') <==> r.holds(Castling::BlackKing),
        r.text().contains('q') <==> r.holds(Castling::BlackQueen),
        r.text().contains('-') <==> forall|c: Castling| !#[trigger] r.holds(c),
{
    let k: Seq<char> = if r.holds(Castling::WhiteKing) {
        seq!['K']
    } else {
        seq![]
    };
    let q: Seq<char> = if r.holds(Castling::WhiteQueen) {
        seq!['Q']
    } else {
        seq![]
    };
    let bk: Seq<char> = if r.holds(Castling::BlackKing) {
        seq!['k']
    } else {
        seq![]
    };
    let bq: Seq<char> = if r.holds(Castling::BlackQueen) {
        seq!['q']
    } else {
        seq![]
    };
    let letters = k + q + bk + bq;
    let t = r.text();
    if letters.len() == 0 {
        assert(t == seq!['-']);
        assert(t[0] == '-');
        assert forall|c: Castling| !#[trigger] r.holds(c) by {
            match c {
                Castling::WhiteKing => {},
                Castling::WhiteQueen => {},
                Castling::BlackKing => {},
                Castling::BlackQueen => {},
            }
        }
    } else {
        assert(t == letters);
        if r.holds(Castling::WhiteKing) {
            assert(t[0] == 'K');
        }
        if r.holds(Castling::WhiteQueen) {
            assert(t[k.len() as int] == 'Q');
        }
        if r.holds(Castling::BlackKing) {
            assert(t[(k + q).len() as int] == 'k');
        }
        if r.holds(Castling::BlackQueen) {
            assert(t[(k + q + bk).len() as int] == 'q');
        }
    }
}

/// A list of moves is written move by move, each with a comma and a blank behind it.
pub proof fn law_list_written(m: Step, moves: Seq<Step>, n: int)
    requires
        0 <= n <= moves.len(),
    ensures
        list_text(seq![m] + moves, n + 1) == Move::notation(m) + seq![',', ' '] + list_text(
            moves,
            n,
        ),
        list_text(moves, 0).len() == 0,
    decreases n,
{
    let longer = seq![m] + moves;
    if n == 0 {
        assert(list_text(longer, 0) == Seq::<char>::empty());
        assert(longer[0] == m);
        assert(list_text(longer, 1) =~= Move::notation(m) + seq![',', ' '] + list_text(moves, 0));
    } else {
        law_list_written(m, moves, n - 1);
        assert(longer[n] == moves[n - 1]);
        assert(list_text(longer, n + 1) =~= Move::notation(m) + seq![',', ' '] + list_text(
            moves,
            n,
        ));
    }
}

} // verus!
