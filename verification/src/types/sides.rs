//! The two sides and their castling rights.

use crate::types::squares::Square;
use vstd::prelude::*;

verus! {

#[derive(Clone, Copy, Debug, PartialEq, Eq, Structural)]
pub enum Side {
    White,
    Black,
}

impl Side {
    pub open spec fn other_spec(self) -> Side {
        match self {
            Side::White => Side::Black,
            Side::Black => Side::White,
        }
    }

    /// The letter for the side in position notation.
    pub open spec fn letter(self) -> char {
        match self {
            Side::White => 'w',
            Side::Black => 'b',
        }
    }

    #[verifier::when_used_as_spec(other_spec)]
    pub fn other(self) -> (res: Side)
        ensures
            res == self.other_spec(),
    {
        match self {
            Side::White => Side::Black,
            Side::Black => Side::White,
        }
    }

    pub fn to_char(self) -> (res: char)
        ensures
            res == self.letter(),
    {
        match self {
            Side::White => 'w',
            Side::Black => 'b',
        }
    }
}

/// The opponent of the opponent is the side itself.
pub proof fn law_other_other(side: Side)
    ensures
        side.other().other() == side,
        side.other() != side,
{
}

#[derive(Clone, Copy, Debug, PartialEq, Eq, Structural)]
pub enum Castling {
    WhiteKing,
    WhiteQueen,
    BlackKing,
    BlackQueen,
}

impl Castling {
    /// The letter for the right in position notation.
    pub open spec fn letter(self) -> char {
        match self {
            Castling::WhiteKing => 'K',
            Castling::WhiteQueen => 'Q',
            Castling::BlackKing => 'k',
            Castling::BlackQueen => 'q',
        }
    }

    pub open spec fn mask_spec(self) -> u8 {
        match self {
            Castling::WhiteKing => 1u8,
            Castling::WhiteQueen => 2u8,
            Castling::BlackKing => 4u8,
            Castling::BlackQueen => 8u8,
        }
    }

    /// The bit that stands for this right.
    #[verifier::when_used_as_spec(mask_spec)]
    pub fn mask(self) -> (res: u8)
        ensures
            res == self.mask_spec(),
    {
        match self {
            Castling::WhiteKing => 1,
            Castling::WhiteQueen => 2,
            Castling::BlackKing => 4,
            Castling::BlackQueen => 8,
        }
    }

    /// The king-side right of a side.
    pub open spec fn king_side(side: Side) -> Castling {
        match side {
            Side::White => Castling::WhiteKing,
            Side::Black => Castling::BlackKing,
        }
    }

    /// The queen-side right of a side.
    pub open spec fn queen_side(side: Side) -> Castling {
        match side {
            Side::White => Castling::WhiteQueen,
            Side::Black => Castling::BlackQueen,
        }
    }

    pub fn from(c: char) -> (res: Self)
        requires
            c == 'K' || c == 'Q' || c == 'k' || c == 'q',
        ensures
            res.letter() == c,
    {
        match c {
            'K' => Castling::WhiteKing,
            'k' => Castling::BlackKing,
            'Q' => Castling::WhiteQueen,
            _ => Castling::BlackQueen,
        }
    }

    pub fn to_char(&self) -> (res: char)
        ensures
            res == self.letter(),
    {
        match self {
            Castling::WhiteKing => 'K',
            Castling::BlackKing => 'k',
            Castling::WhiteQueen => 'Q',
            Castling::BlackQueen => 'q',
        }
    }

    /// Where the king ends up: file G or C of the side's first rank.
    pub fn king_landing_square(&self) -> (res: Square)
        ensures
            res.idx() == match self {
                Castling::WhiteKing => 6int,
                Castling::WhiteQueen => 2int,
                Castling::BlackKing => 62int,
                Castling::BlackQueen => 58int,
            },
    {
        match self {
            Castling::WhiteKing => Square::G1,
            Castling::WhiteQueen => Square::C1,
            Castling::BlackKing => Square::G8,
            Castling::BlackQueen => Square::C8,
        }
    }
}

proof fn mask_raw(r: u8, m: u8, n: u8)
    by (bit_vector)
    requires
        m == 1 || m == 2 || m == 4 || m == 8,
        n == 1 || n == 2 || n == 4 || n == 8,
    ensures
        (r | m) & n != 0 <==> (r & n != 0 || n == m),
        r & m != 0 ==> ((r ^ m) & n != 0 <==> (r & n != 0 && n != m)),
        r < 16 ==> r | m < 16,
        r < 16 ==> r ^ m < 16,
        0u8 & n == 0,
        m & r == r & m,
{
}

#[derive(Clone, Copy, Debug, PartialEq, Eq, Structural)]
pub struct CastlingRights(pub u8);

impl CastlingRights {
    /// Whether the right `c` is held.
    pub open spec fn holds(self, c: Castling) -> bool {
        self.0 & c.mask() != 0
    }

    /// Only the four rights are encoded.
    pub open spec fn valid(self) -> bool {
        self.0 < 16
    }

    pub fn new() -> (res: Self)
        ensures
            res.0 == 0,
            res.valid(),
            forall|c: Castling| !res.holds(c),
    {
        proof {
            assert forall|c: Castling| !CastlingRights(0).holds(c) by {
                mask_raw(0, 1, c.mask());
            }
        }
        CastlingRights(0)
    }

    fn can(&self, c: Castling) -> (res: bool)
        ensures
            res == self.holds(c),
    {
        proof {
            mask_raw(self.0, c.mask(), 1);
        }
        (c.mask() & self.0) > 0
    }

    fn grant(&mut self, c: Castling)
        ensures
            final(self).0 == old(self).0 | c.mask(),
            forall|d: Castling| #[trigger] final(self).holds(d) <==> old(self).holds(d) || d == c,
            old(self).valid() ==> final(self).valid(),
    {
        proof {
            assert forall|d: Castling|
                CastlingRights(self.0 | c.mask()).holds(d) <==> self.holds(d) || d == c by {
                mask_raw(self.0, c.mask(), d.mask());
            }
            mask_raw(self.0, c.mask(), 1);
        }
        self.0 = self.0 | c.mask();
    }

    fn drop_right(&mut self, c: Castling)
        ensures
            forall|d: Castling| #[trigger] final(self).holds(d) <==> old(self).holds(d) && d != c,
            old(self).valid() ==> final(self).valid(),
    {
        proof {
            assert forall|d: Castling|
                self.holds(c) implies (CastlingRights(self.0 ^ c.mask()).holds(d) <==> self.holds(d)
                && d != c) by {
                mask_raw(self.0, c.mask(), d.mask());
            }
            mask_raw(self.0, c.mask(), 1);
        }
        if self.can(c) {
            self.0 = self.0 ^ c.mask();
        }
    }

    pub fn can_king_side(&self, side: Side) -> (res: bool)
        ensures
            res == self.holds(Castling::king_side(side)),
    {
        match side {
            Side::White => self.can(Castling::WhiteKing),
            Side::Black => self.can(Castling::BlackKing),
        }
    }

    pub fn can_queen_side(&self, side: Side) -> (res: bool)
        ensures
            res == self.holds(Castling::queen_side(side)),
    {
        match side {
            Side::White => self.can(Castling::WhiteQueen),
            Side::Black => self.can(Castling::BlackQueen),
        }
    }

    pub fn set_king_side(&mut self, side: Side)
        ensures
            forall|d: Castling| #[trigger]
                final(self).holds(d) <==> old(self).holds(d) || d == Castling::king_side(side),
            old(self).valid() ==> final(self).valid(),
    {
        match side {
            Side::White => self.grant(Castling::WhiteKing),
            Side::Black => self.grant(Castling::BlackKing),
        }
    }

    pub fn set_queen_side(&mut self, side: Side)
        ensures
            forall|d: Castling| #[trigger]
                final(self).holds(d) <==> old(self).holds(d) || d == Castling::queen_side(side),
            old(self).valid() ==> final(self).valid(),
    {
        match side {
            Side::White => self.grant(Castling::WhiteQueen),
            Side::Black => self.grant(Castling::BlackQueen),
        }
    }

    /// Adds every right in `mask`.
    pub fn set(&mut self, mask: u8)
        ensures
            final(self).0 == old(self).0 | mask,
            forall|c: Castling, d: Castling| #![trigger c.mask(), final(self).holds(d)]
                mask == c.mask() ==> (final(self).holds(d) <==> old(self).holds(d) || d == c),
            old(self).valid() && mask < 16 ==> final(self).valid(),
    {
        proof {
            assert forall|c: Castling, d: Castling| mask == c.mask() implies (CastlingRights(
                self.0 | mask,
            ).holds(d) <==> self.holds(d) || d == c) by {
                mask_raw(self.0, c.mask(), d.mask());
            }
            let r = self.0;
            assert(r < 16 && mask < 16 ==> r | mask < 16) by (bit_vector);
        }
        self.0 = self.0 | mask;
    }

    pub fn clear_king_side(&mut self, side: Side)
        ensures
            forall|d: Castling| #[trigger]
                final(self).holds(d) <==> old(self).holds(d) && d != Castling::king_side(side),
            old(self).valid() ==> final(self).valid(),
    {
        match side {
            Side::White => self.drop_right(Castling::WhiteKing),
            Side::Black => self.drop_right(Castling::BlackKing),
        }
    }

    pub fn clear_queen_side(&mut self, side: Side)
        ensures
            forall|d: Castling| #[trigger]
                final(self).holds(d) <==> old(self).holds(d) && d != Castling::queen_side(side),
            old(self).valid() ==> final(self).valid(),
    {
        match side {
            Side::White => self.drop_right(Castling::WhiteQueen),
            Side::Black => self.drop_right(Castling::BlackQueen),
        }
    }

    /// The letters of the rights held, in the order `KQkq`, or a dash.
    pub open spec fn text(self) -> Seq<char> {
        let k = if self.holds(Castling::WhiteKing) { seq!['K'] } else { seq![] };
        let q = if self.holds(Castling::WhiteQueen) { seq!['Q'] } else { seq![] };
        let bk = if self.holds(Castling::BlackKing) { seq!['k'] } else { seq![] };
        let bq = if self.holds(Castling::BlackQueen) { seq!['q'] } else { seq![] };
        let letters = k + q + bk + bq;
        if letters.len() == 0 { seq!['-'] } else { letters }
    }

    pub fn to_string(&self) -> (res: String)
        ensures
            res@ == self.text(),
    {
        let mut out = String::new();
        if self.can_king_side(Side::White) {
            out.push('K');
        }
        if self.can_queen_side(Side::White) {
            out.push('Q');
        }
        if self.can_king_side(Side::Black) {
            out.push('k');
        }
        if self.can_queen_side(Side::Black) {
            out.push('q');
        }
        let any: bool = self.can_king_side(Side::White) || self.can_queen_side(Side::White)
            || self.can_king_side(Side::Black) || self.can_queen_side(Side::Black);
        if !any {
            out.push('-');
        }
        assert(out@ =~= self.text());
        out
    }
}

impl Default for CastlingRights {
    fn default() -> (res: Self)
        ensures
            res.0 == 0,
    {
        CastlingRights::new()
    }
}

/// Two valid encodings with the same rights are the same.
pub proof fn law_rights_extensional(a: CastlingRights, b: CastlingRights)
    requires
        a.valid(),
        b.valid(),
        forall|c: Castling| a.holds(c) == b.holds(c),
    ensures
        a == b,
{
    let x = a.0;
    let y = b.0;
    assert(a.holds(Castling::WhiteKing) == b.holds(Castling::WhiteKing));
    assert(a.holds(Castling::WhiteQueen) == b.holds(Castling::WhiteQueen));
    assert(a.holds(Castling::BlackKing) == b.holds(Castling::BlackKing));
    assert(a.holds(Castling::BlackQueen) == b.holds(Castling::BlackQueen));
    assert(x == y) by (bit_vector)
        requires
            x < 16,
            y < 16,
            (x & 1 != 0) == (y & 1 != 0),
            (x & 2 != 0) == (y & 2 != 0),
            (x & 4 != 0) == (y & 4 != 0),
            (x & 8 != 0) == (y & 8 != 0),
    ;
}

} // verus!
