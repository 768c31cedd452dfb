//! Pictures of boards as text.

use crate::board::Board;
use crate::types::bitboard::BitBoard;
use crate::types::bits::{file_of, rank_of};
use crate::types::moves::{Move, MoveList, Step};
use crate::types::squares::Square;
use crate::types::text::{decimal, digit_char, digit_to_char, push_decimal};
use vstd::prelude::*;

verus! {

/// The first `n` cells of a rank of bits: `1` for a member, `0` for another square.
pub open spec fn bit_cells(b: BitBoard, rank: int, n: int) -> Seq<char>
    decreases n,
{
    if n <= 0 {
        Seq::empty()
    } else {
        bit_cells(b, rank, n - 1) + seq![
            if b.has(rank * 8 + n - 1) {
                '1'
            } else {
                '0'
            },
            ' ',
            ' ',
        ]
    }
}

/// The first `n` ranks of bits, from the eighth rank down.
pub open spec fn bit_rows(b: BitBoard, n: int) -> Seq<char>
    decreases n,
{
    if n <= 0 {
        Seq::empty()
    } else {
        (bit_rows(b, n - 1) + seq![digit_char(9 - n), ' ', ' ', ' '] + bit_cells(b, 8 - n, 8)).push(
            '\n',
        )
    }
}

impl BitBoard {
    /// The picture of a set of squares: its ranks, the file letters and its number.
    pub open spec fn picture(self) -> Seq<char> {
        ((seq!['\n'] + bit_rows(self, 8)) + "\n    A  B  C  D  E  F  G  H\n\nBitboard: "@ + decimal(
            self.0 as nat,
        )).push('\n')
    }

    pub fn to_string(&self) -> (res: String)
        ensures
            res@ == self.picture(),
    {
        let mut out = String::new();
        out.push('\n');
        let ghost top = seq!['\n'];
        assert(out@ =~= top + bit_rows(*self, 0));
        let mut n: usize = 0;
        while n < 8
            invariant
                n <= 8,
                out@ == top + bit_rows(*self, n as int),
            decreases 8 - n,
        {
            let rank: usize = 7 - n;
            let ghost before = out@;
            out.push(digit_to_char((rank + 1) as u64));
            out.push_str("   ");
            proof {
                reveal_strlit("   ");
            }
            let ghost head = out@;
            assert(head =~= before + seq![digit_char(8 - n), ' ', ' ', ' ']);
            let mut file: usize = 0;
            assert(head =~= head + bit_cells(*self, rank as int, 0));
            while file < 8
                invariant
                    file <= 8,
                    rank < 8,
                    out@ == head + bit_cells(*self, rank as int, file as int),
                decreases 8 - file,
            {
                if self.get_bit(Square::from_rank_and_file(rank, file)) {
                    out.push('1');
                } else {
                    out.push('0');
                }
                out.push_str("  ");
                file += 1;
                proof {
                    reveal_strlit("  ");
                    assert(out@ =~= head + bit_cells(*self, rank as int, file as int));
                }
            }
            out.push('\n');
            n += 1;
            assert(out@ =~= top + bit_rows(*self, n as int));
        }
        out.push_str("\n    A  B  C  D  E  F  G  H\n\nBitboard: ");
        push_decimal(&mut out, self.0);
        out.push('\n');
        out
    }
}

/// The first `n` cells of a rank of the board: the letter of the piece there, or a dot.
pub open spec fn piece_cells(b: Board, rank: int, n: int) -> Seq<char>
    decreases n,
{
    if n <= 0 {
        Seq::empty()
    } else {
        piece_cells(b, rank, n - 1) + seq![
            ' ',
            match b.state.mb()[rank * 8 + n - 1] {
                Some((side, piece)) => piece.letter(side),
                None => '.',
            },
            ' ',
        ]
    }
}

/// The first `n` ranks of the board, from the eighth rank down.
pub open spec fn piece_rows(b: Board, n: int) -> Seq<char>
    decreases n,
{
    if n <= 0 {
        Seq::empty()
    } else {
        (piece_rows(b, n - 1) + seq![digit_char(9 - n), ' ', ' ', ' '] + piece_cells(
            b,
            8 - n,
            8,
        )).push('\n')
    }
}

/// The name of a square in capitals, as the variants of `Square` are written.
pub open spec fn capital_name(i: int) -> Seq<char> {
    seq![capital_letter(file_of(i)), digit_char(rank_of(i) + 1)]
}

pub open spec fn capital_letter(file: int) -> char {
    if file == 0 {
        'A'
    } else if file == 1 {
        'B'
    } else if file == 2 {
        'C'
    } else if file == 3 {
        'D'
    } else if file == 4 {
        'E'
    } else if file == 5 {
        'F'
    } else if file == 6 {
        'G'
    } else {
        'H'
    }
}

fn file_to_capital(file: usize) -> (res: char)
    requires
        file < 8,
    ensures
        res == capital_letter(file as int),
{
    match file {
        0 => 'A',
        1 => 'B',
        2 => 'C',
        3 => 'D',
        4 => 'E',
        5 => 'F',
        6 => 'G',
        _ => 'H',
    }
}

/// The en passant square, if there is one.
pub open spec fn passant_picture(ep: Option<int>) -> Seq<char> {
    match ep {
        Some(e) => ("Some("@ + capital_name(e)).push(')'),
        None => "None"@,
    }
}

impl Board {
    /// The picture of a board: its ranks, the file letters, the side to move, the castling
    /// rights and the en passant square.
    pub open spec fn picture(self) -> Seq<char> {
        ((((("\n\n"@ + piece_rows(self, 8)) + "\n     A  B  C  D  E  F  G  H\n\n     Side to move: "@)
            .push(self.state.side_to_move.letter()) + " \n     Castling: "@
            + self.state.castling_rights.text()) + "\n     Enpassant: "@) + passant_picture(
            self.state.ep(),
        )).push('\n')
    }

    fn push_row(&self, out: &mut String, rank: usize)
        requires
            rank < 8,
        ensures
            final(out)@ == (old(out)@ + seq![digit_char(rank + 1), ' ', ' ', ' '] + piece_cells(
                *self,
                rank as int,
                8,
            )).push('\n'),
    {
        let ghost before = out@;
        out.push(digit_to_char((rank + 1) as u64));
        out.push_str("   ");
        proof {
            reveal_strlit("   ");
        }
        let ghost head = out@;
        assert(head =~= before + seq![digit_char(rank + 1), ' ', ' ', ' ']);
        let mut file: usize = 0;
        assert(head =~= head + piece_cells(*self, rank as int, 0));
        while file < 8
            invariant
                file <= 8,
                rank < 8,
                out@ == head + piece_cells(*self, rank as int, file as int),
            decreases 8 - file,
        {
            out.push(' ');
            match self.get_piece_at_square(Square::from_rank_and_file(rank, file)) {
                Some((side, piece)) => out.push(piece.to_char(side)),
                None => out.push('.'),
            }
            out.push(' ');
            file += 1;
            assert(out@ =~= head + piece_cells(*self, rank as int, file as int));
        }
        out.push('\n');
    }

    pub fn to_string(&self) -> (res: String)
        ensures
            res@ == self.picture(),
    {
        let mut out = String::new();
        out.push_str("\n\n");
        let ghost top = "\n\n"@;
        assert(out@ =~= top + piece_rows(*self, 0));
        let mut n: usize = 0;
        while n < 8
            invariant
                n <= 8,
                out@ == top + piece_rows(*self, n as int),
            decreases 8 - n,
        {
            self.push_row(&mut out, 7 - n);
            n += 1;
            assert(out@ =~= top + piece_rows(*self, n as int));
        }
        out.push_str("\n     A  B  C  D  E  F  G  H\n\n     Side to move: ");
        out.push(self.state.side_to_move.to_char());
        out.push_str(" \n     Castling: ");
        let castling = self.state.castling_rights.to_string();
        out.push_str(castling.as_str());
        out.push_str("\n     Enpassant: ");
        let ghost head = out@;
        match self.state.enpassant {
            Some(square) => {
                out.push_str("Some(");
                out.push(file_to_capital(square.to_file()));
                out.push(digit_to_char((square.to_rank() + 1) as u64));
                out.push(')');
            },
            None => out.push_str("None"),
        }
        assert(out@ =~= head + passant_picture(self.state.ep()));
        out.push('\n');
        out
    }
}

/// The notations of the first `n` moves, each followed by a comma and a blank.
pub open spec fn list_text(moves: Seq<Step>, n: int) -> Seq<char>
    decreases n,
{
    if n <= 0 {
        Seq::empty()
    } else {
        list_text(moves, n - 1) + Move::notation(moves[n - 1]) + seq![',', ' ']
    }
}

impl MoveList {
    pub fn to_string(&self) -> (res: String)
        ensures
            res@ == list_text(self@, self@.len() as int),
    {
        let mut out = String::new();
        let mut i: usize = 0;
        while i < self.len()
            invariant
                i <= self@.len(),
                out@ == list_text(self@, i as int),
            decreases self@.len() - i,
        {
            let text = self.get(i).mv.to_string();
            out.push_str(text.as_str());
            out.push_str(", ");
            i += 1;
            proof {
                reveal_strlit(", ");
                assert(out@ =~= list_text(self@, i as int));
            }
        }
        out
    }
}

} // verus!
