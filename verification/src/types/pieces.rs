//! The six kinds of piece.

use crate::types::sides::Side;
use vstd::prelude::*;
use vstd::std_specs::convert::TryFromSpecImpl;

verus! {

#[derive(Clone, Copy, Debug, PartialEq, Eq, Structural)]
pub struct InvalidPiece;

#[derive(Clone, Copy, Debug, PartialEq, Eq, Structural)]
pub enum Piece {
    Pawn,
    Knight,
    Bishop,
    Rook,
    Queen,
    King,
}

impl Piece {
    /// The kind with number `n`, counted from the pawn.
    pub open spec fn numbered(n: int) -> Piece {
        if n == 0 {
            Piece::Pawn
        } else if n == 1 {
            Piece::Knight
        } else if n == 2 {
            Piece::Bishop
        } else if n == 3 {
            Piece::Rook
        } else if n == 4 {
            Piece::Queen
        } else {
            Piece::King
        }
    }

    /// The letter of the kind: upper case for White, lower case for Black.
    pub open spec fn letter(self, side: Side) -> char {
        match side {
            Side::White => match self {
                Piece::Pawn => 'P',
                Piece::Knight => 'N',
                Piece::Bishop => 'B',
                Piece::Rook => 'R',
                Piece::Queen => 'Q',
                Piece::King => 'K',
            },
            Side::Black => match self {
                Piece::Pawn => 'p',
                Piece::Knight => 'n',
                Piece::Bishop => 'b',
                Piece::Rook => 'r',
                Piece::Queen => 'q',
                Piece::King => 'k',
            },
        }
    }

    pub open spec fn worth(self) -> int {
        match self {
            Piece::Pawn => 100,
            Piece::Knight => 320,
            Piece::Bishop => 330,
            Piece::Rook => 500,
            Piece::Queen => 900,
            Piece::King => 0,
        }
    }

    pub fn from(value: usize) -> (res: Self)
        requires
            value < 6,
        ensures
            res as int == value,
            res == Piece::numbered(value as int),
    {
        match value {
            0 => Piece::Pawn,
            1 => Piece::Knight,
            2 => Piece::Bishop,
            3 => Piece::Rook,
            4 => Piece::Queen,
            _ => Piece::King,
        }
    }

    pub fn from_char(value: char) -> (res: Result<Self, InvalidPiece>)
        ensures
            res matches Ok(p) ==> value == p.letter(Side::White) || value == p.letter(Side::Black),
            res is Err ==> forall|p: Piece, s: Side| value != #[trigger] p.letter(s),
    {
        match value {
            'P' | 'p' => Ok(Piece::Pawn),
            'N' | 'n' => Ok(Piece::Knight),
            'B' | 'b' => Ok(Piece::Bishop),
            'R' | 'r' => Ok(Piece::Rook),
            'Q' | 'q' => Ok(Piece::Queen),
            'K' | 'k' => Ok(Piece::King),
            _ => Err(InvalidPiece),
        }
    }

    pub fn value(&self) -> (res: i32)
        ensures
            res == self.worth(),
    {
        match self {
            Piece::Pawn => 100,
            Piece::Knight => 320,
            Piece::Bishop => 330,
            Piece::Rook => 500,
            Piece::Queen => 900,
            Piece::King => 0,
        }
    }

    pub fn to_char(&self, side: Side) -> (res: char)
        ensures
            res == self.letter(side),
    {
        match side {
            Side::White => match self {
                Piece::Pawn => 'P',
                Piece::Knight => 'N',
                Piece::Bishop => 'B',
                Piece::Rook => 'R',
                Piece::Queen => 'Q',
                Piece::King => 'K',
            },
            Side::Black => match self {
                Piece::Pawn => 'p',
                Piece::Knight => 'n',
                Piece::Bishop => 'b',
                Piece::Rook => 'r',
                Piece::Queen => 'q',
                Piece::King => 'k',
            },
        }
    }
}

/// A letter names one side and one kind.
pub proof fn law_letter_injective(p: Piece, s: Side, q: Piece, t: Side)
    requires
        p.letter(s) == q.letter(t),
    ensures
        p == q,
        s == t,
{
}

impl TryFrom<usize> for Piece {
    type Error = InvalidPiece;

    fn try_from(value: usize) -> (res: Result<Self, InvalidPiece>) {
        if value <= 5 {
            Ok(Piece::from(value))
        } else {
            Err(InvalidPiece)
        }
    }
}

impl TryFromSpecImpl<usize> for Piece {
    open spec fn obeys_try_from_spec() -> bool {
        true
    }

    open spec fn try_from_spec(value: usize) -> Result<Self, InvalidPiece> {
        if value <= 5 {
            Ok(Piece::numbered(value as int))
        } else {
            Err(InvalidPiece)
        }
    }
}

} // verus!
