//! Moves and lists of moves.

use crate::types::bitboard::BitBoard;
use crate::types::bits::lemma_lowest_bit;
use crate::types::pieces::Piece;
use crate::types::squares::{partner, Square};
use vstd::prelude::*;

verus! {

#[derive(Clone, Copy, Debug, PartialEq, Eq, Structural)]
pub enum MoveKind {
    QuietMove,
    DoublePawn,
    KingCastle,
    QueenCastle,
    Capture,
    EnPassant,
    NPromotion,
    BPromotion,
    RPromotion,
    QPromotion,
    NPromCapture,
    BPromCapture,
    RPromCapture,
    QPromCapture,
}

impl MoveKind {
    /// The four-bit code of the kind: bit two marks a capture, bit three a promotion.
    pub open spec fn code_spec(self) -> u8 {
        match self {
            MoveKind::QuietMove => 0u8,
            MoveKind::DoublePawn => 1u8,
            MoveKind::KingCastle => 2u8,
            MoveKind::QueenCastle => 3u8,
            MoveKind::Capture => 4u8,
            MoveKind::EnPassant => 5u8,
            MoveKind::NPromotion => 8u8,
            MoveKind::BPromotion => 9u8,
            MoveKind::RPromotion => 10u8,
            MoveKind::QPromotion => 11u8,
            MoveKind::NPromCapture => 12u8,
            MoveKind::BPromCapture => 13u8,
            MoveKind::RPromCapture => 14u8,
            MoveKind::QPromCapture => 15u8,
        }
    }

    /// The kind with the given code.
    pub open spec fn coded(c: u8) -> MoveKind {
        choose|k: MoveKind| k.code_spec() == c
    }

    /// Whether some kind has the code `c`.
    pub open spec fn is_code(c: u8) -> bool {
        c <= 15 && c != 6 && c != 7
    }

    #[verifier::when_used_as_spec(code_spec)]
    pub fn code(self) -> (res: u8)
        ensures
            res == self.code_spec(),
    {
        match self {
            MoveKind::QuietMove => 0,
            MoveKind::DoublePawn => 1,
            MoveKind::KingCastle => 2,
            MoveKind::QueenCastle => 3,
            MoveKind::Capture => 4,
            MoveKind::EnPassant => 5,
            MoveKind::NPromotion => 8,
            MoveKind::BPromotion => 9,
            MoveKind::RPromotion => 10,
            MoveKind::QPromotion => 11,
            MoveKind::NPromCapture => 12,
            MoveKind::BPromCapture => 13,
            MoveKind::RPromCapture => 14,
            MoveKind::QPromCapture => 15,
        }
    }

    fn from(value: u8) -> (res: Self)
        requires
            MoveKind::is_code(value),
        ensures
            res.code() == value,
    {
        match value {
            0 => MoveKind::QuietMove,
            1 => MoveKind::DoublePawn,
            2 => MoveKind::KingCastle,
            3 => MoveKind::QueenCastle,
            4 => MoveKind::Capture,
            5 => MoveKind::EnPassant,
            8 => MoveKind::NPromotion,
            9 => MoveKind::BPromotion,
            10 => MoveKind::RPromotion,
            11 => MoveKind::QPromotion,
            12 => MoveKind::NPromCapture,
            13 => MoveKind::BPromCapture,
            14 => MoveKind::RPromCapture,
            _ => MoveKind::QPromCapture,
        }
    }

    pub open spec fn quiet(self) -> bool {
        self is QuietMove || self is DoublePawn || self is KingCastle || self is QueenCastle
    }

    pub open spec fn capturing(self) -> bool {
        self is Capture || self is EnPassant || self is NPromCapture || self is BPromCapture
            || self is RPromCapture || self is QPromCapture
    }

    pub open spec fn castling(self) -> bool {
        self is KingCastle || self is QueenCastle
    }

    /// The piece that a promotion of this kind gives.
    pub open spec fn promoted(self) -> Option<Piece> {
        match self {
            MoveKind::NPromotion | MoveKind::NPromCapture => Some(Piece::Knight),
            MoveKind::BPromotion | MoveKind::BPromCapture => Some(Piece::Bishop),
            MoveKind::RPromotion | MoveKind::RPromCapture => Some(Piece::Rook),
            MoveKind::QPromotion | MoveKind::QPromCapture => Some(Piece::Queen),
            _ => None,
        }
    }

    pub fn is_quiet(&self) -> (res: bool)
        ensures
            res == self.quiet(),
    {
        matches!(
            self,
            MoveKind::QuietMove | MoveKind::DoublePawn | MoveKind::KingCastle | MoveKind::QueenCastle
        )
    }

    pub fn is_promotion(&self) -> (res: bool)
        ensures
            res == self.promoted() is Some,
    {
        self.is_knight_promotion() || self.is_bishop_promotion() || self.is_rook_promotion()
            || self.is_queen_promotion()
    }

    pub fn is_knight_promotion(&self) -> (res: bool)
        ensures
            res == (self.promoted() == Some(Piece::Knight)),
    {
        matches!(self, MoveKind::NPromCapture | MoveKind::NPromotion)
    }

    pub fn is_bishop_promotion(&self) -> (res: bool)
        ensures
            res == (self.promoted() == Some(Piece::Bishop)),
    {
        matches!(self, MoveKind::BPromCapture | MoveKind::BPromotion)
    }

    pub fn is_rook_promotion(&self) -> (res: bool)
        ensures
            res == (self.promoted() == Some(Piece::Rook)),
    {
        matches!(self, MoveKind::RPromCapture | MoveKind::RPromotion)
    }

    pub fn is_queen_promotion(&self) -> (res: bool)
        ensures
            res == (self.promoted() == Some(Piece::Queen)),
    {
        matches!(self, MoveKind::QPromCapture | MoveKind::QPromotion)
    }

    pub fn is_capture(&self) -> (res: bool)
        ensures
            res == self.capturing(),
    {
        matches!(
            self,
            MoveKind::Capture | MoveKind::NPromCapture | MoveKind::BPromCapture
                | MoveKind::RPromCapture | MoveKind::QPromCapture | MoveKind::EnPassant
        )
    }
}

/// What a move says: a piece goes from one square to another in a certain way.
pub struct Step {
    pub from: int,
    pub to: int,
    pub kind: MoveKind,
}

impl Step {
    /// The square of the piece that a capture takes.
    pub open spec fn victim(self) -> int {
        if self.kind is EnPassant {
            partner(self.to)
        } else {
            self.to
        }
    }
}

proof fn pack_raw(f: u16, t: u16, k: u16)
    by (bit_vector)
    requires
        f < 64,
        t < 64,
        k < 16,
    ensures
        0x003F & (f | (t << 6) | (k << 12)) == f,
        (0x0FC0 & (f | (t << 6) | (k << 12))) >> 6 == t,
        (0xF000 & (f | (t << 6) | (k << 12))) >> 12 == k,
{
}

proof fn unpack_raw(x: u16)
    by (bit_vector)
    ensures
        0x003F & x < 64,
        (0x0FC0 & x) >> 6 < 64,
        (0xF000 & x) >> 12 < 16,
        x == (0x003F & x) | (((0x0FC0 & x) >> 6) << 6) | (((0xF000 & x) >> 12) << 12),
        x == 0 ==> (0x003F & x) == 0 && (0x0FC0 & x) >> 6 == 0 && (0xF000 & x) >> 12 == 0,
{
}

/// A move in sixteen bits: six each for the two squares and four for the kind.
#[derive(Clone, Copy, Debug, PartialEq, Eq, Structural)]
pub struct Move(u16);

impl View for Move {
    type V = Step;

    closed spec fn view(&self) -> Step {
        Step {
            from: (0x003F & self.0) as int,
            to: ((0x0FC0 & self.0) >> 6) as int,
            kind: MoveKind::coded(((0xF000 & self.0) >> 12) as u8),
        }
    }
}

/// Moves that say the same are equal.
pub proof fn law_move_injective(a: Move, b: Move)
    requires
        a@ == b@,
        a.valid(),
        b.valid(),
    ensures
        a == b,
{
    unpack_raw(a.0);
    unpack_raw(b.0);
    lemma_coded(((0xF000 & a.0) >> 12) as u8);
    lemma_coded(((0xF000 & b.0) >> 12) as u8);
}

proof fn lemma_coded(c: u8)
    requires
        MoveKind::is_code(c),
    ensures
        MoveKind::coded(c).code() == c,
{
    let k = if c == 0 {
        MoveKind::QuietMove
    } else if c == 1 {
        MoveKind::DoublePawn
    } else if c == 2 {
        MoveKind::KingCastle
    } else if c == 3 {
        MoveKind::QueenCastle
    } else if c == 4 {
        MoveKind::Capture
    } else if c == 5 {
        MoveKind::EnPassant
    } else if c == 8 {
        MoveKind::NPromotion
    } else if c == 9 {
        MoveKind::BPromotion
    } else if c == 10 {
        MoveKind::RPromotion
    } else if c == 11 {
        MoveKind::QPromotion
    } else if c == 12 {
        MoveKind::NPromCapture
    } else if c == 13 {
        MoveKind::BPromCapture
    } else if c == 14 {
        MoveKind::RPromCapture
    } else {
        MoveKind::QPromCapture
    };
    assert(k.code() == c);
}

impl Move {
    /// The kind bits hold the code of a kind.
    pub closed spec fn valid(self) -> bool {
        MoveKind::is_code(((0xF000 & self.0) >> 12) as u8)
    }

    #[verifier::type_invariant]
    spec fn inv(self) -> bool {
        self.valid()
    }

    /// A move names squares of the board.
    pub proof fn lemma_squares(self)
        ensures
            0 <= self@.from < 64,
            0 <= self@.to < 64,
    {
        unpack_raw(self.0);
    }

    pub fn new(from: Square, to: Square, kind: MoveKind) -> (res: Self)
        ensures
            res@ == (Step { from: from.idx(), to: to.idx(), kind }),
            res.valid(),
    {
        let f: u16 = from as u16;
        let t: u16 = to as u16;
        let k: u16 = kind.code() as u16;
        proof {
            pack_raw(f, t, k);
            lemma_coded(k as u8);
            assert(MoveKind::coded(k as u8) == kind);
        }
        Move(f | (t << 6) | (k << 12))
    }

    /// It stands for no move.
    pub open spec fn null(self) -> bool {
        self@ == (Step { from: 0, to: 0, kind: MoveKind::QuietMove })
    }

    /// The move that stands for no move.
    pub fn none() -> (res: Self)
        ensures
            res.null(),
            res.valid(),
    {
        Move::new(Square::A1, Square::A1, MoveKind::QuietMove)
    }

    pub fn is_null(&self) -> (res: bool)
        ensures
            res == self.null(),
    {
        let n: Move = Move::none();
        proof {
            use_type_invariant(self);
            if self@ == n@ {
                law_move_injective(*self, n);
            }
        }
        *self == n
    }

    /// Whether two moves say the same.
    pub fn same(&self, other: &Move) -> (res: bool)
        ensures
            res == (self@ == other@),
            res == (*self == *other),
    {
        proof {
            use_type_invariant(self);
            use_type_invariant(other);
            if self@ == other@ {
                law_move_injective(*self, *other);
            }
        }
        *self == *other
    }

    pub fn get_from(&self) -> (res: Square)
        ensures
            res.idx() == self@.from,
    {
        proof {
            unpack_raw(self.0);
        }
        Square::from((0x003F & self.0) as usize)
    }

    pub fn get_to(&self) -> (res: Square)
        ensures
            res.idx() == self@.to,
    {
        proof {
            unpack_raw(self.0);
        }
        Square::from(((0x0FC0 & self.0) >> 6) as usize)
    }

    pub fn get_kind(&self) -> (res: MoveKind)
        ensures
            res == self@.kind,
    {
        proof {
            use_type_invariant(self);
            unpack_raw(self.0);
            lemma_coded(((0xF000 & self.0) >> 12) as u8);
        }
        MoveKind::from(((0xF000 & self.0) >> 12) as u8)
    }

    pub fn get_promoted_piece(&self) -> (res: Option<Piece>)
        ensures
            res == self@.kind.promoted(),
    {
        let kind: MoveKind = self.get_kind();
        if kind.is_knight_promotion() {
            Some(Piece::Knight)
        } else if kind.is_bishop_promotion() {
            Some(Piece::Bishop)
        } else if kind.is_rook_promotion() {
            Some(Piece::Rook)
        } else if kind.is_queen_promotion() {
            Some(Piece::Queen)
        } else {
            None
        }
    }

    pub fn is_capture(&self) -> (res: bool)
        ensures
            res == self@.kind.capturing(),
    {
        self.get_kind().is_capture()
    }

    pub fn is_promotion(&self) -> (res: bool)
        ensures
            res == self@.kind.promoted() is Some,
    {
        self.get_kind().is_promotion()
    }

    pub fn is_en_passant(&self) -> (res: bool)
        ensures
            res == self@.kind is EnPassant,
    {
        matches!(self.get_kind(), MoveKind::EnPassant)
    }

    pub fn is_castling(&self) -> (res: bool)
        ensures
            res == self@.kind.castling(),
    {
        matches!(self.get_kind(), MoveKind::KingCastle | MoveKind::QueenCastle)
    }

    /// The square of the piece that the move would take.
    pub fn get_capture_square(&self) -> (res: Square)
        ensures
            res.idx() == self@.victim(),
    {
        if self.is_en_passant() {
            self.get_to().across()
        } else {
            self.get_to()
        }
    }

    /// The long algebraic notation of a move: both squares, then the lower case letter
    /// of a promotion.
    pub open spec fn notation(s: Step) -> Seq<char> {
        let squares = Square::name_of(s.from) + Square::name_of(s.to);
        match s.kind.promoted() {
            Some(Piece::Knight) => squares.push('n'),
            Some(Piece::Bishop) => squares.push('b'),
            Some(Piece::Rook) => squares.push('r'),
            Some(Piece::Queen) => squares.push('q'),
            _ => squares,
        }
    }

    pub fn to_string(&self) -> (res: String)
        ensures
            res@ == Move::notation(self@),
    {
        let mut out = self.get_from().to_string();
        let to = self.get_to().to_string();
        out.push_str(to.as_str());
        match self.get_promoted_piece() {
            Some(Piece::Knight) => out.push('n'),
            Some(Piece::Bishop) => out.push('b'),
            Some(Piece::Rook) => out.push('r'),
            Some(Piece::Queen) => out.push('q'),
            _ => {},
        }
        out
    }
}

/// `after` starts with `before`.
pub open spec fn extends(before: Seq<Step>, after: Seq<Step>) -> bool {
    before.len() <= after.len() && after.subrange(0, before.len() as int) == before
}

/// What `after` has beyond `before`.
pub open spec fn added(before: Seq<Step>, after: Seq<Step>) -> Seq<Step> {
    after.subrange(before.len() as int, after.len() as int)
}

/// Nothing has been added to a list that is still the same.
pub proof fn lemma_added_none(a: Seq<Step>)
    ensures
        extends(a, a),
        added(a, a) == Seq::<Step>::empty(),
        added(a, a).no_duplicates(),
        forall|s: Step| !added(a, a).contains(s),
{
    assert(a.subrange(0, a.len() as int) =~= a);
    assert(added(a, a) =~= Seq::<Step>::empty());
}

/// One more step at the end.
pub proof fn lemma_added_push(a: Seq<Step>, b: Seq<Step>, x: Step)
    requires
        extends(a, b),
        added(a, b).no_duplicates(),
        !added(a, b).contains(x),
    ensures
        extends(a, b.push(x)),
        added(a, b.push(x)).no_duplicates(),
        forall|s: Step|
            #![trigger added(a, b.push(x)).contains(s)]
            added(a, b.push(x)).contains(s) <==> added(a, b).contains(s) || s == x,
{
    let d = added(a, b);
    assert(b.push(x).subrange(0, a.len() as int) =~= b.subrange(0, a.len() as int));
    assert(added(a, b.push(x)) =~= d.push(x));
    assert forall|s: Step| d.push(x).contains(s) <==> d.contains(s) || s == x by {
        if d.contains(s) {
            let i = choose|i: int| 0 <= i < d.len() && d[i] == s;
            assert(d.push(x)[i] == s);
        }
        if s == x {
            assert(d.push(x)[d.len() as int] == s);
        }
        if d.push(x).contains(s) && s != x {
            let i = choose|i: int| 0 <= i < d.push(x).len() && d.push(x)[i] == s;
            assert(d[i] == s);
        }
    }
}

/// The keys of the steps grow.
pub open spec fn ascending(list: Seq<Step>, key: spec_fn(Step) -> int) -> bool {
    forall|i: int, j: int|
        #![trigger list[i], list[j]]
        0 <= i < j < list.len() ==> key(list[i]) < key(list[j])
}

/// Where a promotion stands among those to the same square: the queen comes first.
pub open spec fn promotion_seat(kind: MoveKind) -> int {
    match kind.promoted() {
        Some(Piece::Rook) => 1,
        Some(Piece::Bishop) => 2,
        Some(Piece::Knight) => 3,
        _ => 0,
    }
}

/// Steps by their target, promotions to the same square in their order.
pub open spec fn by_target() -> spec_fn(Step) -> int {
    |s: Step| 4 * s.to + promotion_seat(s.kind)
}

/// Steps by their start, then by their target.
pub open spec fn by_squares() -> spec_fn(Step) -> int {
    |s: Step| 64 * s.from + s.to
}

/// One more step at the end, with a greater key.
pub proof fn lemma_ascending_push(
    a: Seq<Step>,
    b: Seq<Step>,
    x: Step,
    key: spec_fn(Step) -> int,
)
    requires
        extends(a, b),
        ascending(added(a, b), key),
        forall|s: Step| #[trigger] added(a, b).contains(s) ==> key(s) < key(x),
    ensures
        ascending(added(a, b.push(x)), key),
{
    let d = added(a, b);
    let e = added(a, b.push(x));
    assert(e =~= d.push(x));
    assert forall|i: int, j: int|
        #![trigger e[i], e[j]]
        0 <= i < j < e.len() implies key(e[i]) < key(e[j]) by {
        assert(e[i] == d[i]);
        if j < d.len() {
            assert(e[j] == d[j]);
        } else {
            assert(d.contains(d[i]));
        }
    }
}

/// Two extensions one after the other, the keys of the second greater than those of the first.
pub proof fn lemma_ascending_join(
    a: Seq<Step>,
    b: Seq<Step>,
    c: Seq<Step>,
    key: spec_fn(Step) -> int,
)
    requires
        extends(a, b),
        extends(b, c),
        ascending(added(a, b), key),
        ascending(added(b, c), key),
        forall|s: Step, t: Step| #[trigger]
            added(a, b).contains(s) && #[trigger] added(b, c).contains(t) ==> key(s) < key(t),
    ensures
        ascending(added(a, c), key),
{
    let p = added(a, b);
    let q = added(b, c);
    let r = added(a, c);
    assert(r =~= p + q) by {
        assert forall|i: int| 0 <= i < p.len() implies r[i] == p[i] by {
            assert(c.subrange(0, b.len() as int)[a.len() + i] == b[a.len() + i]);
        }
    }
    assert forall|i: int, j: int|
        #![trigger r[i], r[j]]
        0 <= i < j < r.len() implies key(r[i]) < key(r[j]) by {
        if j < p.len() {
            assert(r[i] == p[i] && r[j] == p[j]);
        } else if i >= p.len() {
            assert(r[i] == q[i - p.len()] && r[j] == q[j - p.len()]);
        } else {
            assert(r[i] == p[i] && r[j] == q[j - p.len()]);
            assert(p.contains(p[i]) && q.contains(q[j - p.len()]));
        }
    }
}

/// Keys that differ by the same number on all steps give the same order.
pub proof fn lemma_ascending_shift(
    list: Seq<Step>,
    key: spec_fn(Step) -> int,
    other: spec_fn(Step) -> int,
    gap: int,
)
    requires
        ascending(list, key),
        forall|s: Step| #[trigger] list.contains(s) ==> other(s) == gap + key(s),
    ensures
        ascending(list, other),
{
    assert forall|i: int, j: int|
        #![trigger list[i], list[j]]
        0 <= i < j < list.len() implies other(list[i]) < other(list[j]) by {
        assert(list.contains(list[i]) && list.contains(list[j]));
    }
}

/// A list is known by its steps and their order.
pub proof fn law_ascending_once(a: Seq<Step>, b: Seq<Step>, key: spec_fn(Step) -> int)
    requires
        ascending(a, key),
        ascending(b, key),
        forall|s: Step| a.contains(s) <==> b.contains(s),
    ensures
        a == b,
    decreases a.len(),
{
    if a.len() == 0 {
        if b.len() > 0 {
            assert(b.contains(b[0]));
        }
        assert(a =~= b);
    } else {
        assert(a.contains(a.last()));
        let x = a.last();
        let k = choose|k: int| 0 <= k < b.len() && b[k] == x;
        if k < b.len() - 1 {
            assert(b.contains(b.last()));
            let i = choose|i: int| 0 <= i < a.len() && a[i] == b.last();
            assert(key(b[k]) < key(b[b.len() - 1]));
            if i < a.len() - 1 {
                assert(key(a[i]) < key(a[a.len() - 1]));
            }
        }
        let p = a.drop_last();
        let q = b.drop_last();
        assert forall|s: Step| p.contains(s) <==> q.contains(s) by {
            if p.contains(s) {
                let i = choose|i: int| 0 <= i < p.len() && p[i] == s;
                assert(a[i] == s);
                assert(key(a[i]) < key(a[a.len() - 1]));
                assert(a.contains(s));
                let j = choose|j: int| 0 <= j < b.len() && b[j] == s;
                assert(q[j] == s);
            }
            if q.contains(s) {
                let j = choose|j: int| 0 <= j < q.len() && q[j] == s;
                assert(b[j] == s);
                assert(key(b[j]) < key(b[b.len() - 1]));
                assert(b.contains(s));
                let i = choose|i: int| 0 <= i < a.len() && a[i] == s;
                assert(p[i] == s);
            }
        }
        law_ascending_once(p, q, key);
        assert(a =~= p.push(x));
        assert(b =~= q.push(x));
    }
}

/// Two extensions one after the other.
pub proof fn lemma_added_join(a: Seq<Step>, b: Seq<Step>, c: Seq<Step>)
    requires
        extends(a, b),
        extends(b, c),
        added(a, b).no_duplicates(),
        added(b, c).no_duplicates(),
        forall|s: Step| added(a, b).contains(s) ==> !added(b, c).contains(s),
    ensures
        extends(a, c),
        added(a, c).no_duplicates(),
        forall|s: Step|
            #![trigger added(a, c).contains(s)]
            added(a, c).contains(s) <==> added(a, b).contains(s) || added(b, c).contains(s),
{
    let p = added(a, b);
    let q = added(b, c);
    assert(c.subrange(0, a.len() as int) =~= b.subrange(0, a.len() as int)) by {
        assert forall|i: int| 0 <= i < a.len() implies c[i] == b[i] by {
            assert(c.subrange(0, b.len() as int)[i] == b[i]);
        }
    }
    assert(added(a, c) =~= p + q) by {
        assert forall|i: int| 0 <= i < p.len() implies added(a, c)[i] == p[i] by {
            assert(c.subrange(0, b.len() as int)[a.len() + i] == b[a.len() + i]);
        }
    }
    assert forall|s: Step| (p + q).contains(s) <==> p.contains(s) || q.contains(s) by {
        if p.contains(s) {
            let i = choose|i: int| 0 <= i < p.len() && p[i] == s;
            assert((p + q)[i] == s);
        }
        if q.contains(s) {
            let i = choose|i: int| 0 <= i < q.len() && q[i] == s;
            assert((p + q)[p.len() + i] == s);
        }
        if (p + q).contains(s) {
            let i = choose|i: int| 0 <= i < (p + q).len() && (p + q)[i] == s;
            if i < p.len() {
                assert(p[i] == s);
            } else {
                assert(q[i - p.len()] == s);
            }
        }
    }
    assert((p + q).no_duplicates()) by {
        assert forall|i: int, j: int|
            0 <= i < (p + q).len() && 0 <= j < (p + q).len() && i != j implies (p + q)[i] != (p
            + q)[j] by {
            if i < p.len() && j >= p.len() {
                assert(p.contains(p[i]));
                assert(q.contains(q[j - p.len()]));
            }
            if j < p.len() && i >= p.len() {
                assert(p.contains(p[j]));
                assert(q.contains(q[i - p.len()]));
            }
        }
    }
}

/// A move with the score that orders it.
#[derive(Clone, Copy, Debug, PartialEq, Eq)]
pub struct MoveEntry {
    pub mv: Move,
    pub score: i32,
}

/// A growable list of moves, each with a score.
#[derive(Clone, Debug)]
pub struct MoveList {
    inner: Vec<MoveEntry>,
}

impl View for MoveList {
    type V = Seq<Step>;

    closed spec fn view(&self) -> Seq<Step> {
        self.inner@.map_values(|e: MoveEntry| e.mv@)
    }
}

impl MoveList {
    /// The entries, scores included.
    pub closed spec fn entries(self) -> Seq<MoveEntry> {
        self.inner@
    }

    /// The list of steps is what the entries say.
    pub broadcast proof fn lemma_entries(self)
        ensures
            (#[trigger] self@) == self.entries().map_values(|e: MoveEntry| e.mv@),
            self@.len() == self.entries().len(),
    {
    }

    pub fn new() -> (res: Self)
        ensures
            res@ == Seq::<Step>::empty(),
            res.entries() == Seq::<MoveEntry>::empty(),
    {
        let list = MoveList { inner: Vec::new() };
        assert(list@ =~= Seq::<Step>::empty());
        list
    }

    /// Appends a move with score zero.
    pub fn push(&mut self, m: Move)
        ensures
            final(self)@ == old(self)@.push(m@),
            final(self).entries() == old(self).entries().push(MoveEntry { mv: m, score: 0 }),
    {
        self.inner.push(MoveEntry { mv: m, score: 0 });
        assert(self@ =~= old(self)@.push(m@));
    }

    pub fn add(&mut self, m: Move)
        ensures
            final(self)@ == old(self)@.push(m@),
            final(self).entries() == old(self).entries().push(MoveEntry { mv: m, score: 0 }),
    {
        self.push(m)
    }

    /// Removes the last move.
    pub fn pop(&mut self) -> (res: Option<Move>)
        ensures
            old(self)@.len() == 0 ==> res is None && final(self).entries() == old(
                self,
            ).entries(),
            old(self)@.len() > 0 ==> {
                &&& res matches Some(m)
                &&& m@ == old(self)@.last()
                &&& final(self)@ == old(self)@.drop_last()
                &&& final(self).entries() == old(self).entries().drop_last()
            },
    {
        match self.inner.pop() {
            Some(e) => {
                assert(self@ =~= old(self)@.drop_last());
                Some(e.mv)
            },
            None => None,
        }
    }

    pub fn len(&self) -> (res: usize)
        ensures
            res == self@.len(),
    {
        self.inner.len()
    }

    pub fn is_empty(&self) -> (res: bool)
        ensures
            res <==> self@.len() == 0,
    {
        self.inner.len() == 0
    }

    /// The entry at position `i`.
    pub fn get(&self, i: usize) -> (res: MoveEntry)
        requires
            i < self@.len(),
        ensures
            res == self.entries()[i as int],
            res.mv@ == self@[i as int],
    {
        self.inner[i]
    }

    /// Replaces the score at position `i`.
    pub fn set_score(&mut self, i: usize, score: i32)
        requires
            i < old(self)@.len(),
        ensures
            final(self)@ == old(self)@,
            final(self).entries() == old(self).entries().update(
                i as int,
                (MoveEntry { mv: old(self).entries()[i as int].mv, score }),
            ),
    {
        let mv = self.inner[i].mv;
        self.inner.set(i, MoveEntry { mv, score });
        assert(self@ =~= old(self)@);
    }

    /// Takes out the entry at position `i`, moving the last entry into its place.
    pub fn swap_remove(&mut self, i: usize) -> (res: MoveEntry)
        requires
            i < old(self)@.len(),
        ensures
            res == old(self).entries()[i as int],
            final(self).entries() == old(self).entries().update(
                i as int,
                old(self).entries().last(),
            ).drop_last(),
            final(self)@ == old(self)@.update(i as int, old(self)@.last()).drop_last(),
    {
        let e = self.inner.swap_remove(i);
        assert(self@ =~= old(self)@.update(i as int, old(self)@.last()).drop_last());
        e
    }

    /// The moves in order.
    pub fn iter(&self) -> (res: Vec<Move>)
        ensures
            res@.len() == self@.len(),
            forall|i: int| 0 <= i < res@.len() ==> (#[trigger] res@[i])@ == self@[i],
    {
        let mut moves: Vec<Move> = Vec::new();
        let mut i: usize = 0;
        while i < self.inner.len()
            invariant
                i <= self.inner@.len(),
                moves@.len() == i,
                forall|j: int| 0 <= j < i ==> (#[trigger] moves@[j])@ == self@[j],
            decreases self.inner@.len() - i,
        {
            moves.push(self.inner[i].mv);
            i += 1;
        }
        moves
    }

    /// Whether a move is in the list.
    pub fn holds_move(&self, m: Move) -> (res: bool)
        ensures
            res == self@.contains(m@),
    {
        let mut i: usize = 0;
        while i < self.len()
            invariant
                i <= self@.len(),
                forall|j: int| 0 <= j < i ==> #[trigger] self@[j] != m@,
            decreases self@.len() - i,
        {
            let other = self.get(i).mv;
            if other.same(&m) {
                assert(self@[i as int] == m@);
                return true;
            }
            i += 1;
        }
        false
    }

    /// Appends a move of the given kind from `from` to each square of `targets`.
    pub fn push_setwise(&mut self, from: Square, targets: BitBoard, kind: MoveKind)
        ensures
            extends(old(self)@, final(self)@),
            added(old(self)@, final(self)@).no_duplicates(),
            forall|s: Step| #[trigger]
                added(old(self)@, final(self)@).contains(s) <==> s.from == from.idx()
                    && targets.has(s.to) && s.kind == kind,
            ascending(added(old(self)@, final(self)@), by_target()),
            ascending(added(old(self)@, final(self)@), by_squares()),
    {
        let ghost base = self@;
        let mut rest: BitBoard = targets;
        proof {
            lemma_added_none(base);
        }
        while rest.0 != 0
            invariant
                base == old(self)@,
                extends(base, self@),
                added(base, self@).no_duplicates(),
                forall|i: int| #[trigger] rest.has(i) ==> targets.has(i),
                forall|s: Step| #[trigger]
                    added(base, self@).contains(s) <==> s.from == from.idx() && targets.has(s.to)
                        && !rest.has(s.to) && s.kind == kind,
                ascending(added(base, self@), by_target()),
                ascending(added(base, self@), by_squares()),
                forall|s: Step, i: int| #[trigger]
                    added(base, self@).contains(s) && #[trigger] rest.has(i) ==> s.to < i,
            decreases rest.0,
        {
            if let Some(to) = rest.pop_lsb() {
                let m = Move::new(from, to, kind);
                proof {
                    lemma_ascending_push(base, self@, m@, by_target());
                    lemma_ascending_push(base, self@, m@, by_squares());
                    lemma_added_push(base, self@, m@);
                }
                self.push(m);
            }
        }
        proof {
            lemma_lowest_bit(rest.0);
        }
    }

    /// Appends a move of the given kind to each square of `targets`, each coming from the
    /// square `offset` numbers before it.
    pub fn push_pawn_moves_setwise(&mut self, offset: i8, targets: BitBoard, kind: MoveKind)
        requires
            -63 <= offset <= 63,
            forall|t: int| #[trigger] targets.has(t) ==> 0 <= t - offset < 64,
        ensures
            extends(old(self)@, final(self)@),
            added(old(self)@, final(self)@).no_duplicates(),
            forall|s: Step| #[trigger]
                added(old(self)@, final(self)@).contains(s) <==> s.from == s.to - offset
                    && targets.has(s.to) && s.kind == kind,
            ascending(added(old(self)@, final(self)@), by_target()),
    {
        let ghost base = self@;
        let mut rest: BitBoard = targets;
        proof {
            lemma_added_none(base);
        }
        while rest.0 != 0
            invariant
                base == old(self)@,
                -63 <= offset <= 63,
                forall|t: int| #[trigger] targets.has(t) ==> 0 <= t - offset < 64,
                extends(base, self@),
                added(base, self@).no_duplicates(),
                forall|i: int| #[trigger] rest.has(i) ==> targets.has(i),
                forall|s: Step| #[trigger]
                    added(base, self@).contains(s) <==> s.from == s.to - offset && targets.has(s.to)
                        && !rest.has(s.to) && s.kind == kind,
                ascending(added(base, self@), by_target()),
                forall|s: Step, i: int| #[trigger]
                    added(base, self@).contains(s) && #[trigger] rest.has(i) ==> s.to < i,
            decreases rest.0,
        {
            if let Some(to) = rest.pop_lsb() {
                assert(targets.has(to.idx()));
                let from = Square::from((to as i8 - offset) as usize);
                let m = Move::new(from, to, kind);
                proof {
                    lemma_ascending_push(base, self@, m@, by_target());
                    lemma_added_push(base, self@, m@);
                }
                self.push(m);
            }
        }
        proof {
            lemma_lowest_bit(rest.0);
        }
    }

    /// Appends four moves to each square of `targets`, each coming from the square `offset`
    /// numbers before it: the promotions to a queen, a rook, a bishop and a knight.
    fn push_four_setwise(&mut self, offset: i8, targets: BitBoard, kinds: [MoveKind; 4])
        requires
            -63 <= offset <= 63,
            forall|t: int| #[trigger] targets.has(t) ==> 0 <= t - offset < 64,
            forall|i: int| 0 <= i < 4 ==> promotion_seat(#[trigger] kinds@[i]) == i,
        ensures
            extends(old(self)@, final(self)@),
            added(old(self)@, final(self)@).no_duplicates(),
            forall|s: Step| #[trigger]
                added(old(self)@, final(self)@).contains(s) <==> s.from == s.to - offset
                    && targets.has(s.to) && kinds@.contains(s.kind),
            ascending(added(old(self)@, final(self)@), by_target()),
    {
        let ghost base = self@;
        let mut rest: BitBoard = targets;
        proof {
            lemma_added_none(base);
        }
        while rest.0 != 0
            invariant
                base == old(self)@,
                -63 <= offset <= 63,
                forall|t: int| #[trigger] targets.has(t) ==> 0 <= t - offset < 64,
                forall|i: int| 0 <= i < 4 ==> promotion_seat(#[trigger] kinds@[i]) == i,
                kinds@.len() == 4,
                extends(base, self@),
                added(base, self@).no_duplicates(),
                forall|i: int| #[trigger] rest.has(i) ==> targets.has(i),
                forall|s: Step| #[trigger]
                    added(base, self@).contains(s) <==> s.from == s.to - offset && targets.has(s.to)
                        && !rest.has(s.to) && kinds@.contains(s.kind),
                ascending(added(base, self@), by_target()),
                forall|s: Step, i: int| #[trigger]
                    added(base, self@).contains(s) && #[trigger] rest.has(i) ==> s.to < i,
            decreases rest.0,
        {
            if let Some(to) = rest.pop_lsb() {
                assert(targets.has(to.idx()));
                let from = Square::from((to as i8 - offset) as usize);
                let ghost list = self@;
                let mut i: usize = 0;
                while i < 4
                    invariant
                        i <= 4,
                        kinds@.len() == 4,
                        forall|k: int| 0 <= k < 4 ==> promotion_seat(#[trigger] kinds@[k]) == k,
                        from.idx() == to.idx() - offset,
                        extends(base, self@),
                        added(base, self@).no_duplicates(),
                        forall|s: Step| #[trigger]
                            added(base, list).contains(s) ==> s.to < to.idx(),
                        forall|s: Step| #[trigger]
                            added(base, self@).contains(s) <==> added(base, list).contains(s) || (
                            s.from == from.idx() && s.to == to.idx() && exists|k: int|
                                0 <= k < i && #[trigger] kinds@[k] == s.kind),
                        ascending(added(base, self@), by_target()),
                    decreases 4 - i,
                {
                    let m = Move::new(from, to, kinds[i]);
                    proof {
                        assert(m@.kind == kinds@[i as int]);
                        lemma_ascending_push(base, self@, m@, by_target());
                        lemma_added_push(base, self@, m@);
                    }
                    self.push(m);
                    i += 1;
                }
                proof {
                    assert forall|k: MoveKind| kinds@.contains(k) <==> exists|x: int|
                        0 <= x < 4 && #[trigger] kinds@[x] == k by {
                        if exists|x: int| 0 <= x < 4 && #[trigger] kinds@[x] == k {
                            let x = choose|x: int| 0 <= x < 4 && #[trigger] kinds@[x] == k;
                            assert(kinds@.contains(kinds@[x]));
                        }
                    }
                }
            }
        }
        proof {
            lemma_lowest_bit(rest.0);
        }
    }

    /// Appends the four promotions to each square of `targets`, each coming from the square
    /// `offset` numbers before it.
    pub fn push_promotions_setwise(&mut self, offset: i8, targets: BitBoard)
        requires
            -63 <= offset <= 63,
            forall|t: int| #[trigger] targets.has(t) ==> 0 <= t - offset < 64,
        ensures
            extends(old(self)@, final(self)@),
            added(old(self)@, final(self)@).no_duplicates(),
            forall|s: Step| #[trigger]
                added(old(self)@, final(self)@).contains(s) <==> s.from == s.to - offset
                    && targets.has(s.to) && s.kind.promoted() is Some && !s.kind.capturing(),
            ascending(added(old(self)@, final(self)@), by_target()),
    {
        let kinds = [
            MoveKind::QPromotion,
            MoveKind::RPromotion,
            MoveKind::BPromotion,
            MoveKind::NPromotion,
        ];
        proof {
            assert forall|k: MoveKind| kinds@.contains(k) <==> k.promoted() is Some
                && !k.capturing() by {
                assert(kinds@.contains(kinds@[0]) && kinds@.contains(kinds@[1]) && kinds@.contains(
                    kinds@[2],
                ) && kinds@.contains(kinds@[3]));
            }
        }
        self.push_four_setwise(offset, targets, kinds);
    }

    /// Appends the four capturing promotions to each square of `targets`, each coming from
    /// the square `offset` numbers before it.
    pub fn push_promotion_captures_setwise(&mut self, offset: i8, targets: BitBoard)
        requires
            -63 <= offset <= 63,
            forall|t: int| #[trigger] targets.has(t) ==> 0 <= t - offset < 64,
        ensures
            extends(old(self)@, final(self)@),
            added(old(self)@, final(self)@).no_duplicates(),
            forall|s: Step| #[trigger]
                added(old(self)@, final(self)@).contains(s) <==> s.from == s.to - offset
                    && targets.has(s.to) && s.kind.promoted() is Some && s.kind.capturing(),
            ascending(added(old(self)@, final(self)@), by_target()),
    {
        let kinds = [
            MoveKind::QPromCapture,
            MoveKind::RPromCapture,
            MoveKind::BPromCapture,
            MoveKind::NPromCapture,
        ];
        proof {
            assert forall|k: MoveKind| kinds@.contains(k) <==> k.promoted() is Some
                && k.capturing() by {
                assert(kinds@.contains(kinds@[0]) && kinds@.contains(kinds@[1]) && kinds@.contains(
                    kinds@[2],
                ) && kinds@.contains(kinds@[3]));
            }
        }
        self.push_four_setwise(offset, targets, kinds);
    }
}

impl Default for MoveList {
    fn default() -> (res: Self)
        ensures
            res@ == Seq::<Step>::empty(),
    {
        MoveList::new()
    }
}

} // verus!
