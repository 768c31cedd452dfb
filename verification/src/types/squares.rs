//! The sixty-four squares of the board, numbered rank by rank from A1.

use crate::types::bitboard::BitBoard;
use crate::types::bits::{file_of, group_bits, is_square, rank_of};
use vstd::prelude::*;
use vstd::std_specs::convert::TryFromSpecImpl;
use vstd::std_specs::ops::BitXorSpecImpl;

verus! {

#[derive(Clone, Copy, Debug, PartialEq, Eq, Structural)]
pub struct InvalidSquare;

#[derive(Clone, Copy, Debug, PartialEq, Eq, Structural)]
pub enum Square {
    A1, B1, C1, D1, E1, F1, G1, H1,
    A2, B2, C2, D2, E2, F2, G2, H2,
    A3, B3, C3, D3, E3, F3, G3, H3,
    A4, B4, C4, D4, E4, F4, G4, H4,
    A5, B5, C5, D5, E5, F5, G5, H5,
    A6, B6, C6, D6, E6, F6, G6, H6,
    A7, B7, C7, D7, E7, F7, G7, H7,
    A8, B8, C8, D8, E8, F8, G8, H8,
}

/// Squares with the same number are the same square.
pub proof fn lemma_square_injective(a: Square, b: Square)
    requires
        a as int == b as int,
    ensures
        a == b,
{
}

impl Square {
    /// The number of the square.
    pub open spec fn idx(self) -> int {
        self as int
    }

    /// The square whose number is `value`.
    pub fn from(value: usize) -> (res: Self)
        requires
            value < 64,
        ensures
            res.idx() == value,
    {
        match value {
            0 => Square::A1,
            1 => Square::B1,
            2 => Square::C1,
            3 => Square::D1,
            4 => Square::E1,
            5 => Square::F1,
            6 => Square::G1,
            7 => Square::H1,
            8 => Square::A2,
            9 => Square::B2,
            10 => Square::C2,
            11 => Square::D2,
            12 => Square::E2,
            13 => Square::F2,
            14 => Square::G2,
            15 => Square::H2,
            16 => Square::A3,
            17 => Square::B3,
            18 => Square::C3,
            19 => Square::D3,
            20 => Square::E3,
            21 => Square::F3,
            22 => Square::G3,
            23 => Square::H3,
            24 => Square::A4,
            25 => Square::B4,
            26 => Square::C4,
            27 => Square::D4,
            28 => Square::E4,
            29 => Square::F4,
            30 => Square::G4,
            31 => Square::H4,
            32 => Square::A5,
            33 => Square::B5,
            34 => Square::C5,
            35 => Square::D5,
            36 => Square::E5,
            37 => Square::F5,
            38 => Square::G5,
            39 => Square::H5,
            40 => Square::A6,
            41 => Square::B6,
            42 => Square::C6,
            43 => Square::D6,
            44 => Square::E6,
            45 => Square::F6,
            46 => Square::G6,
            47 => Square::H6,
            48 => Square::A7,
            49 => Square::B7,
            50 => Square::C7,
            51 => Square::D7,
            52 => Square::E7,
            53 => Square::F7,
            54 => Square::G7,
            55 => Square::H7,
            56 => Square::A8,
            57 => Square::B8,
            58 => Square::C8,
            59 => Square::D8,
            60 => Square::E8,
            61 => Square::F8,
            62 => Square::G8,
            _ => Square::H8,
        }
    }

    /// Rank and file, both counted from zero.
    pub fn to_rank_and_file(&self) -> (res: (usize, usize))
        ensures
            res.0 == rank_of(self.idx()),
            res.1 == file_of(self.idx()),
            res.0 < 8,
            res.1 < 8,
    {
        (*self as usize / 8, *self as usize % 8)
    }

    pub fn to_rank(&self) -> (res: usize)
        ensures
            res == rank_of(self.idx()),
            res < 8,
    {
        *self as usize / 8
    }

    pub fn to_file(&self) -> (res: usize)
        ensures
            res == file_of(self.idx()),
            res < 8,
    {
        *self as usize % 8
    }

    /// The square on the given rank and file. The file may run past the end of
    /// the rank as long as the number stays on the board.
    pub fn from_rank_and_file(rank: usize, file: usize) -> (res: Square)
        requires
            rank * 8 + file < 64,
        ensures
            res.idx() == rank * 8 + file,
    {
        Square::from((rank * 8) + file)
    }

    /// The square `offset` numbers away, if there is one.
    pub fn shift(&self, offset: i8) -> (res: Option<Square>)
        requires
            -128 <= self.idx() + offset <= 127,
        ensures
            res is Some <==> is_square(self.idx() + offset),
            res matches Some(s) ==> s.idx() == self.idx() + offset,
    {
        let target: i8 = (*self as i8) + offset;
        if 0 <= target && target <= 63 {
            Some(Square::from(target as usize))
        } else {
            None
        }
    }

    /// The bitboard that holds this square alone.
    pub fn to_bb(&self) -> (res: BitBoard)
        ensures
            forall|i: int| #[trigger] res.has(i) <==> i == self.idx(),
    {
        broadcast use group_bits;

        BitBoard(1u64 << (*self as u64))
    }
}

/// The square with number `i`.
pub open spec fn square_numbered(i: int) -> Square {
    choose|s: Square| s.idx() == i
}

/// Every number below sixty-four names a square.
pub proof fn lemma_square_numbered(s: Square)
    ensures
        square_numbered(s.idx()) == s,
{
    lemma_square_injective(square_numbered(s.idx()), s);
}

impl TryFrom<usize> for Square {
    type Error = InvalidSquare;

    fn try_from(value: usize) -> (res: Result<Self, InvalidSquare>) {
        if value <= 63 {
            let square = Square::from(value);
            proof {
                lemma_square_numbered(square);
            }
            Ok(square)
        } else {
            Err(InvalidSquare)
        }
    }
}

impl TryFromSpecImpl<usize> for Square {
    open spec fn obeys_try_from_spec() -> bool {
        true
    }

    open spec fn try_from_spec(value: usize) -> Result<Self, InvalidSquare> {
        if value <= 63 {
            Ok(square_numbered(value as int))
        } else {
            Err(InvalidSquare)
        }
    }
}

impl TryFrom<i8> for Square {
    type Error = InvalidSquare;

    fn try_from(value: i8) -> (res: Result<Self, InvalidSquare>) {
        if 0 <= value && value <= 63 {
            let square = Square::from(value as usize);
            proof {
                lemma_square_numbered(square);
            }
            Ok(square)
        } else {
            Err(InvalidSquare)
        }
    }
}

impl TryFromSpecImpl<i8> for Square {
    open spec fn obeys_try_from_spec() -> bool {
        true
    }

    open spec fn try_from_spec(value: i8) -> Result<Self, InvalidSquare> {
        if 0 <= value <= 63 {
            Ok(square_numbered(value as int))
        } else {
            Err(InvalidSquare)
        }
    }
}

/// The low byte of a character.
pub open spec fn low_byte(c: char) -> int {
    c as int % 256
}

/// The number of the square that two characters name: a file from `a` to `h`, then a
/// rank from `1` to `8`, each judged by its low byte.
pub open spec fn named_square(file: char, rank: char) -> Option<int> {
    let f = low_byte(file) - 'a' as int;
    let r = low_byte(rank) - '1' as int;
    if 0 <= f < 8 && 0 <= r < 8 {
        Some(r * 8 + f)
    } else {
        None
    }
}

/// The number of the square that the first two characters of `s` name.
pub open spec fn square_text(s: Seq<char>) -> Option<int> {
    if s.len() < 2 {
        None
    } else {
        named_square(s[0], s[1])
    }
}

fn byte_of(c: char) -> (res: u8)
    ensures
        res == low_byte(c),
{
    let code: u32 = c as u32;
    assert(code % 256 == code as u8) by (bit_vector);
    code as u8
}

impl Square {
    /// The square named by a file and a rank character.
    pub fn from_chars(file: char, rank: char) -> (res: Result<Self, InvalidSquare>)
        ensures
            res is Ok <==> named_square(file, rank) is Some,
            res matches Ok(s) ==> named_square(file, rank) == Some(s.idx()),
    {
        let f: u8 = byte_of(file);
        let r: u8 = byte_of(rank);
        if 97 <= f && f <= 104 && 49 <= r && r <= 56 {
            Ok(Square::from(((r - 49) * 8 + (f - 97)) as usize))
        } else {
            Err(InvalidSquare)
        }
    }

    /// The two characters that name the square with number `i`.
    pub open spec fn name_of(i: int) -> Seq<char> {
        seq![file_letter(file_of(i)), rank_digit(rank_of(i))]
    }

    /// The name of the square: file letter, then rank digit.
    pub fn to_string(&self) -> (res: String)
        ensures
            res@ == Square::name_of(self.idx()),
    {
        let mut out = String::new();
        out.push(file_to_char(self.to_file()));
        out.push(rank_to_char(self.to_rank()));
        assert(out@ =~= Square::name_of(self.idx()));
        out
    }
}

impl TryFrom<&str> for Square {
    type Error = InvalidSquare;

    fn try_from(value: &str) -> (res: Result<Self, InvalidSquare>) {
        if value.unicode_len() < 2 {
            return Err(InvalidSquare);
        }
        match Square::from_chars(value.get_char(0), value.get_char(1)) {
            Ok(square) => {
                proof {
                    lemma_square_numbered(square);
                }
                Ok(square)
            },
            Err(_) => Err(InvalidSquare),
        }
    }
}

impl TryFromSpecImpl<&str> for Square {
    open spec fn obeys_try_from_spec() -> bool {
        true
    }

    open spec fn try_from_spec(value: &str) -> Result<Self, InvalidSquare> {
        match square_text(value@) {
            Some(i) => Ok(square_numbered(i)),
            None => Err(InvalidSquare),
        }
    }
}

pub open spec fn file_letter(f: int) -> char {
    if f == 0 {
        'a'
    } else if f == 1 {
        'b'
    } else if f == 2 {
        'c'
    } else if f == 3 {
        'd'
    } else if f == 4 {
        'e'
    } else if f == 5 {
        'f'
    } else if f == 6 {
        'g'
    } else {
        'h'
    }
}

pub open spec fn rank_digit(r: int) -> char {
    if r == 0 {
        '1'
    } else if r == 1 {
        '2'
    } else if r == 2 {
        '3'
    } else if r == 3 {
        '4'
    } else if r == 4 {
        '5'
    } else if r == 5 {
        '6'
    } else if r == 6 {
        '7'
    } else {
        '8'
    }
}

fn file_to_char(file: usize) -> (res: char)
    requires
        file < 8,
    ensures
        res == file_letter(file as int),
{
    match file {
        0 => 'a',
        1 => 'b',
        2 => 'c',
        3 => 'd',
        4 => 'e',
        5 => 'f',
        6 => 'g',
        _ => 'h',
    }
}

fn rank_to_char(rank: usize) -> (res: char)
    requires
        rank < 8,
    ensures
        res == rank_digit(rank as int),
{
    match rank {
        0 => '1',
        1 => '2',
        2 => '3',
        3 => '4',
        4 => '5',
        5 => '6',
        6 => '7',
        _ => '8',
    }
}

/// The name of a square reads back as that square.
pub proof fn law_square_name(i: int)
    requires
        is_square(i),
    ensures
        square_text(Square::name_of(i)) == Some(i),
{
}

impl core::ops::BitXor<u8> for Square {
    type Output = Square;

    fn bitxor(self, rhs: u8) -> (res: Square) {
        let n: u8 = self as u8;
        assert(n < 64 && rhs < 64 ==> n ^ rhs < 64) by (bit_vector);
        let square = Square::from((n ^ rhs) as usize);
        proof {
            lemma_square_numbered(square);
        }
        square
    }
}

impl BitXorSpecImpl<u8> for Square {
    open spec fn obeys_bitxor_spec() -> bool {
        true
    }

    open spec fn bitxor_req(self, rhs: u8) -> bool {
        rhs < 64
    }

    open spec fn bitxor_spec(self, rhs: u8) -> Square {
        square_numbered(((self as u8) ^ rhs) as int)
    }
}

/// The square with the last bit of the rank flipped: the square behind a pawn that
/// has just advanced two ranks, and the pawn that is passed at such a square.
pub open spec fn partner(i: int) -> int {
    if rank_of(i) % 2 == 0 {
        i + 8
    } else {
        i - 8
    }
}

impl Square {
    /// The square with the last bit of the rank flipped.
    pub fn across(&self) -> (res: Square)
        ensures
            res.idx() == partner(self.idx()),
    {
        let n: u8 = *self as u8;
        assert(n < 64 ==> n ^ 8 < 64 && (if (n / 8) % 2 == 0 {
            n ^ 8 == n + 8
        } else {
            n ^ 8 == n - 8
        })) by (bit_vector);
        Square::from((n ^ 8) as usize)
    }
}

impl core::ops::BitXor for Square {
    type Output = Square;

    fn bitxor(self, rhs: Square) -> (res: Square) {
        self ^ (rhs as u8)
    }
}

impl BitXorSpecImpl for Square {
    open spec fn obeys_bitxor_spec() -> bool {
        true
    }

    open spec fn bitxor_req(self, rhs: Square) -> bool {
        true
    }

    open spec fn bitxor_spec(self, rhs: Square) -> Square {
        square_numbered(((self as u8) ^ (rhs as u8)) as int)
    }
}

} // verus!
