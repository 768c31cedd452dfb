//! Histories: how well moves have done so far.

use crate::types::bitboard::BitBoard;
use crate::types::constants::MAX_HISTORY;
use crate::types::moves::{Move, Step};
use crate::types::pieces::Piece;
use crate::types::sides::Side;
use crate::types::squares::Square;
use vstd::prelude::*;

verus! {

pub open spec fn clamped(x: int, low: int, high: int) -> int {
    if x < low {
        low
    } else if x > high {
        high
    } else {
        x
    }
}

/// Division that rounds towards zero.
pub open spec fn quotient(a: int, b: int) -> int {
    if a >= 0 {
        a / b
    } else {
        -((-a) / b)
    }
}

pub open spec fn magnitude(x: int) -> int {
    if x < 0 {
        -x
    } else {
        x
    }
}

/// A history value after a bonus: it moves towards the bonus, the less the nearer it is to
/// the limit.
pub open spec fn gravity(entry: int, bonus: int) -> int {
    let b = clamped(bonus, -MAX_HISTORY as int, MAX_HISTORY as int);
    entry + b - quotient(entry * magnitude(b), MAX_HISTORY as int)
}

/// A history value stays within the limit.
pub proof fn law_history_bounded(entry: int, bonus: int)
    requires
        -MAX_HISTORY <= entry <= MAX_HISTORY,
    ensures
        -MAX_HISTORY <= gravity(entry, bonus) <= MAX_HISTORY,
        -MAX_HISTORY * MAX_HISTORY <= entry * magnitude(
            clamped(bonus, -MAX_HISTORY as int, MAX_HISTORY as int),
        ) <= MAX_HISTORY * MAX_HISTORY,
{
    let b = clamped(bonus, -8000, 8000);
    let c = magnitude(b);
    let p = entry * c;
    let e = magnitude(entry);
    let q = e * c;
    assert(0 <= q <= 64000000 && q <= 8000 * e && q <= 8000 * c && q >= 8000 * (e + c - 8000))
        by (nonlinear_arith)
        requires
            q == e * c,
            0 <= e <= 8000,
            0 <= c <= 8000,
    ;
    assert(entry >= 0 ==> p == q);
    assert(entry < 0 ==> p == -q) by (nonlinear_arith)
        requires
            p == entry * c,
            q == e * c,
            entry < 0 ==> e == -entry,
    ;
    assert(quotient(p, 8000) == if entry >= 0 {
        q / 8000
    } else {
        -(q / 8000)
    });
}

/// Moves a history value towards a bonus.
pub fn update_entry(bonus: i32, entry: &mut i16)
    requires
        -MAX_HISTORY <= *old(entry) <= MAX_HISTORY,
    ensures
        *final(entry) == gravity(*old(entry) as int, bonus as int),
        -MAX_HISTORY <= *final(entry) <= MAX_HISTORY,
{
    let clamped_bonus: i32 = if bonus < -MAX_HISTORY {
        -MAX_HISTORY
    } else if bonus > MAX_HISTORY {
        MAX_HISTORY
    } else {
        bonus
    };
    let size: i32 = if clamped_bonus < 0 { -clamped_bonus } else { clamped_bonus };
    let value: i32 = *entry as i32;
    proof {
        law_history_bounded(value as int, bonus as int);
    }
    let product: i32 = value * size;
    let share: i32 = if product >= 0 {
        product / MAX_HISTORY
    } else {
        -((-product) / MAX_HISTORY)
    };
    *entry = (value + clamped_bonus - share) as i16;
}

/// A table of history values, all within the limit.
pub open spec fn bounded(table: Seq<i16>) -> bool {
    forall|i: int| 0 <= i < table.len() ==> -MAX_HISTORY <= #[trigger] table[i] <= MAX_HISTORY
}

/// A table of `n` zeros.
pub fn allocate_empty_history(n: usize) -> (res: Vec<i16>)
    ensures
        res@.len() == n,
        forall|i: int| 0 <= i < n ==> #[trigger] res@[i] == 0,
        bounded(res@),
{
    let mut table: Vec<i16> = Vec::new();
    let mut i: usize = 0;
    while i < n
        invariant
            i <= n,
            table@.len() == i,
            forall|j: int| 0 <= j < i ==> #[trigger] table@[j] == 0,
        decreases n - i,
    {
        table.push(0);
        i += 1;
    }
    table
}

/// Moves the value at a place of a table towards a bonus.
pub fn update_at(table: &mut Vec<i16>, index: usize, bonus: i32)
    requires
        bounded(old(table)@),
        index < old(table)@.len(),
    ensures
        final(table)@ == old(table)@.update(
            index as int,
            gravity(old(table)@[index as int] as int, bonus as int) as i16,
        ),
        final(table)@[index as int] == gravity(old(table)@[index as int] as int, bonus as int),
        bounded(final(table)@),
{
    let mut value: i16 = table[index];
    update_entry(bonus, &mut value);
    table.set(index, value);
}

/// Values for quiet moves, by side to move, whether the two squares are attacked, and the
/// two squares.
#[derive(Debug)]
pub struct QuietHistory(Vec<i16>);

/// The place of a quiet move in its table.
pub open spec fn quiet_place(threats: BitBoard, side: Side, s: Step) -> int {
    let f = if threats.has(s.from) {
        1int
    } else {
        0
    };
    let t = if threats.has(s.to) {
        1int
    } else {
        0
    };
    (((side as int * 2 + f) * 2 + t) * 64 + s.from) * 64 + s.to
}

impl QuietHistory {
    pub closed spec fn table(self) -> Seq<i16> {
        self.0@
    }

    pub open spec fn wf(self) -> bool {
        self.table().len() == 32768 && bounded(self.table())
    }

    pub fn new() -> (res: Self)
        ensures
            res.wf(),
            forall|i: int| 0 <= i < 32768 ==> #[trigger] res.table()[i] == 0,
    {
        QuietHistory(allocate_empty_history(32768))
    }

    fn place(threats: BitBoard, side: Side, m: Move) -> (res: usize)
        ensures
            res == quiet_place(threats, side, m@),
            res < 32768,
    {
        let from = m.get_from();
        let to = m.get_to();
        let f: usize = if threats.contains(from) { 1 } else { 0 };
        let t: usize = if threats.contains(to) { 1 } else { 0 };
        (((side as usize * 2 + f) * 2 + t) * 64 + from as usize) * 64 + to as usize
    }

    pub fn update(&mut self, threats: BitBoard, side: Side, m: Move, bonus: i32)
        requires
            old(self).wf(),
        ensures
            final(self).wf(),
            final(self).table() == old(self).table().update(
                quiet_place(threats, side, m@),
                gravity(
                    old(self).table()[quiet_place(threats, side, m@)] as int,
                    bonus as int,
                ) as i16,
            ),
            final(self).table()[quiet_place(threats, side, m@)] == gravity(
                old(self).table()[quiet_place(threats, side, m@)] as int,
                bonus as int,
            ),
    {
        let index = QuietHistory::place(threats, side, m);
        update_at(&mut self.0, index, bonus);
    }

    pub fn get(&self, threats: BitBoard, side: Side, m: Move) -> (res: i32)
        requires
            self.wf(),
        ensures
            res == self.table()[quiet_place(threats, side, m@)],
            -MAX_HISTORY <= res <= MAX_HISTORY,
    {
        let index = QuietHistory::place(threats, side, m);
        let value: i16 = self.0[index];
        assert(-MAX_HISTORY <= self.table()[index as int] <= MAX_HISTORY);
        value as i32
    }
}

/// The number of a piece of a side, twelve for none.
pub open spec fn piece_number(piece: Option<(Side, Piece)>) -> int {
    match piece {
        Some((s, p)) => s as int * 6 + p as int,
        None => 12,
    }
}

pub fn to_piece_index(piece: Option<(Side, Piece)>) -> (res: usize)
    ensures
        res == piece_number(piece),
        res < 13,
{
    match piece {
        Some((s, p)) => (s as usize * 6) + p as usize,
        None => 12,
    }
}

/// Values for captures and promotions, by piece, target square, captured kind and whether
/// the target is attacked.
#[derive(Debug)]
pub struct NoisyHistory(Vec<i16>);

/// The place of a noisy move in its table.
pub open spec fn noisy_place(
    piece: Option<(Side, Piece)>,
    to: int,
    captured: Option<Piece>,
    threats: BitBoard,
) -> int {
    let c = match captured {
        Some(p) => p as int,
        None => 6,
    };
    let t = if threats.has(to) {
        1int
    } else {
        0
    };
    ((piece_number(piece) * 64 + to) * 7 + c) * 2 + t
}

impl NoisyHistory {
    pub closed spec fn table(self) -> Seq<i16> {
        self.0@
    }

    pub open spec fn wf(self) -> bool {
        self.table().len() == 11648 && bounded(self.table())
    }

    pub fn new() -> (res: Self)
        ensures
            res.wf(),
            forall|i: int| 0 <= i < 11648 ==> #[trigger] res.table()[i] == 0,
    {
        NoisyHistory(allocate_empty_history(11648))
    }

    fn place(
        piece: Option<(Side, Piece)>,
        to: Square,
        captured: Option<Piece>,
        threats: BitBoard,
    ) -> (res: usize)
        ensures
            res == noisy_place(piece, to.idx(), captured, threats),
            res < 11648,
    {
        let captured_index: usize = match captured {
            Some(p) => p as usize,
            None => 6,
        };
        let t: usize = if threats.contains(to) { 1 } else { 0 };
        ((to_piece_index(piece) * 64 + to as usize) * 7 + captured_index) * 2 + t
    }

    pub fn update(
        &mut self,
        piece: Option<(Side, Piece)>,
        to: Square,
        captured: Option<Piece>,
        threats: BitBoard,
        bonus: i32,
    )
        requires
            old(self).wf(),
        ensures
            final(self).wf(),
            final(self).table() == old(self).table().update(
                noisy_place(piece, to.idx(), captured, threats),
                gravity(
                    old(self).table()[noisy_place(piece, to.idx(), captured, threats)] as int,
                    bonus as int,
                ) as i16,
            ),
            final(self).table()[noisy_place(piece, to.idx(), captured, threats)] == gravity(
                old(self).table()[noisy_place(piece, to.idx(), captured, threats)] as int,
                bonus as int,
            ),
    {
        let index = NoisyHistory::place(piece, to, captured, threats);
        update_at(&mut self.0, index, bonus);
    }

    pub fn get(
        &self,
        piece: Option<(Side, Piece)>,
        to: Square,
        captured: Option<Piece>,
        threats: BitBoard,
    ) -> (res: i32)
        requires
            self.wf(),
        ensures
            res == self.table()[noisy_place(piece, to.idx(), captured, threats)],
            -MAX_HISTORY <= res <= MAX_HISTORY,
    {
        let index = NoisyHistory::place(piece, to, captured, threats);
        let value: i16 = self.0[index];
        assert(-MAX_HISTORY <= self.table()[index as int] <= MAX_HISTORY);
        value as i32
    }
}

impl Default for QuietHistory {
    fn default() -> (res: Self)
        ensures
            res.wf(),
            forall|i: int| 0 <= i < 32768 ==> #[trigger] res.table()[i] == 0,
    {
        QuietHistory::new()
    }
}

impl Default for NoisyHistory {
    fn default() -> (res: Self)
        ensures
            res.wf(),
            forall|i: int| 0 <= i < 11648 ==> #[trigger] res.table()[i] == 0,
    {
        NoisyHistory::new()
    }
}

/// The number of pawn structures that pawn histories tell apart.
pub const PAWN_STRUCTURES: usize = 1024;

/// The size of a table by piece and target square.
pub const PIECE_TO_SIZE: usize = 832;

/// The place of a piece and a target square in a table by both.
pub open spec fn piece_to_place(piece: Option<(Side, Piece)>, to: int) -> int {
    piece_number(piece) * 64 + to
}

pub fn piece_to_index(piece: Option<(Side, Piece)>, to: Square) -> (res: usize)
    ensures
        res == piece_to_place(piece, to.idx()),
        res < PIECE_TO_SIZE,
{
    to_piece_index(piece) * 64 + to as usize
}

/// Values for quiet moves, by pawn structure, piece and target square.
#[derive(Debug)]
pub struct PawnHistory(Vec<i16>);

/// The place of a move in the table of pawn structures.
pub open spec fn pawn_place(key: u64, piece: Option<(Side, Piece)>, to: int) -> int {
    (key as int % PAWN_STRUCTURES as int) * PIECE_TO_SIZE + piece_to_place(piece, to)
}

impl PawnHistory {
    pub closed spec fn table(self) -> Seq<i16> {
        self.0@
    }

    pub open spec fn wf(self) -> bool {
        self.table().len() == PAWN_STRUCTURES * PIECE_TO_SIZE && bounded(self.table())
    }

    pub fn new() -> (res: Self)
        ensures
            res.wf(),
            forall|i: int| 0 <= i < res.table().len() ==> #[trigger] res.table()[i] == 0,
    {
        PawnHistory(allocate_empty_history(PAWN_STRUCTURES * PIECE_TO_SIZE))
    }

    fn place(key: u64, piece: Option<(Side, Piece)>, to: Square) -> (res: usize)
        ensures
            res == pawn_place(key, piece, to.idx()),
            res < PAWN_STRUCTURES * PIECE_TO_SIZE,
    {
        (key % PAWN_STRUCTURES as u64) as usize * PIECE_TO_SIZE + piece_to_index(piece, to)
    }

    pub fn update(&mut self, key: u64, piece: Option<(Side, Piece)>, to: Square, bonus: i32)
        requires
            old(self).wf(),
        ensures
            final(self).wf(),
            final(self).table() == old(self).table().update(
                pawn_place(key, piece, to.idx()),
                gravity(
                    old(self).table()[pawn_place(key, piece, to.idx())] as int,
                    bonus as int,
                ) as i16,
            ),
            final(self).table()[pawn_place(key, piece, to.idx())] == gravity(
                old(self).table()[pawn_place(key, piece, to.idx())] as int,
                bonus as int,
            ),
    {
        let index = PawnHistory::place(key, piece, to);
        update_at(&mut self.0, index, bonus);
    }

    pub fn get(&self, key: u64, piece: Option<(Side, Piece)>, to: Square) -> (res: i32)
        requires
            self.wf(),
        ensures
            res == self.table()[pawn_place(key, piece, to.idx())],
            -MAX_HISTORY <= res <= MAX_HISTORY,
    {
        let index = PawnHistory::place(key, piece, to);
        let value: i16 = self.0[index];
        assert(-MAX_HISTORY <= self.table()[index as int] <= MAX_HISTORY);
        value as i32
    }
}

/// A table by an earlier move and a later one: for each piece and target square of the
/// earlier move a table by piece and target square of the later one.
#[derive(Debug)]
pub struct ContinuationHistory(Vec<i16>);

impl ContinuationHistory {
    pub closed spec fn table(self) -> Seq<i16> {
        self.0@
    }

    pub open spec fn wf(self) -> bool {
        self.table().len() == PIECE_TO_SIZE * PIECE_TO_SIZE && bounded(self.table())
    }

    pub fn new() -> (res: Self)
        ensures
            res.wf(),
            forall|i: int| 0 <= i < res.table().len() ==> #[trigger] res.table()[i] == 0,
    {
        ContinuationHistory(allocate_empty_history(PIECE_TO_SIZE * PIECE_TO_SIZE))
    }

    /// The number of the table that belongs to an earlier move.
    pub fn subtable(&self, piece: Option<(Side, Piece)>, to: Square) -> (res: usize)
        ensures
            res == piece_to_place(piece, to.idx()),
            res < PIECE_TO_SIZE,
    {
        piece_to_index(piece, to)
    }

    pub fn update(
        &mut self,
        subtable: usize,
        piece: Option<(Side, Piece)>,
        to: Square,
        bonus: i32,
    )
        requires
            old(self).wf(),
            subtable < PIECE_TO_SIZE,
        ensures
            final(self).wf(),
            final(self).table() == old(self).table().update(
                subtable * PIECE_TO_SIZE + piece_to_place(piece, to.idx()),
                gravity(
                    old(self).table()[subtable * PIECE_TO_SIZE + piece_to_place(
                        piece,
                        to.idx(),
                    )] as int,
                    bonus as int,
                ) as i16,
            ),
    {
        let index = subtable * PIECE_TO_SIZE + piece_to_index(piece, to);
        update_at(&mut self.0, index, bonus);
    }

    pub fn get(&self, subtable: usize, piece: Option<(Side, Piece)>, to: Square) -> (res: i32)
        requires
            self.wf(),
            subtable < PIECE_TO_SIZE,
        ensures
            res == self.table()[subtable * PIECE_TO_SIZE + piece_to_place(piece, to.idx())],
            -MAX_HISTORY <= res <= MAX_HISTORY,
    {
        let index = subtable * PIECE_TO_SIZE + piece_to_index(piece, to);
        let value: i16 = self.0[index];
        assert(-MAX_HISTORY <= self.table()[index as int] <= MAX_HISTORY);
        value as i32
    }
}

/// The number of positions that a correction history tells apart for each side.
pub const CORRECTION_SIZE: usize = 16384;

/// How far the evaluation of positions with a key was off, by side to move.
#[derive(Debug)]
pub struct CorrectionHistory(Vec<i16>);

/// The place of a key in a correction history.
pub open spec fn correction_place(stm: Side, key: u64) -> int {
    stm as int * CORRECTION_SIZE + key as int % CORRECTION_SIZE as int
}

impl CorrectionHistory {
    pub closed spec fn table(self) -> Seq<i16> {
        self.0@
    }

    pub open spec fn wf(self) -> bool {
        self.table().len() == 2 * CORRECTION_SIZE && bounded(self.table())
    }

    pub open spec fn is_clear(self) -> bool {
        forall|i: int| 0 <= i < self.table().len() ==> #[trigger] self.table()[i] == 0
    }

    pub fn new() -> (res: Self)
        ensures
            res.wf(),
            res.is_clear(),
    {
        CorrectionHistory(allocate_empty_history(2 * CORRECTION_SIZE))
    }

    fn place(stm: Side, key: u64) -> (res: usize)
        ensures
            res == correction_place(stm, key),
            res < 2 * CORRECTION_SIZE,
    {
        stm as usize * CORRECTION_SIZE + (key % CORRECTION_SIZE as u64) as usize
    }

    pub fn update(&mut self, stm: Side, key: u64, bonus: i32)
        requires
            old(self).wf(),
        ensures
            final(self).wf(),
            final(self).table() == old(self).table().update(
                correction_place(stm, key),
                gravity(
                    old(self).table()[correction_place(stm, key)] as int,
                    bonus as int,
                ) as i16,
            ),
    {
        let index = CorrectionHistory::place(stm, key);
        update_at(&mut self.0, index, bonus);
    }

    pub fn get(&self, stm: Side, key: u64) -> (res: i32)
        requires
            self.wf(),
        ensures
            res == self.table()[correction_place(stm, key)],
            -MAX_HISTORY <= res <= MAX_HISTORY,
    {
        let index = CorrectionHistory::place(stm, key);
        let value: i16 = self.0[index];
        assert(-MAX_HISTORY <= self.table()[index as int] <= MAX_HISTORY);
        value as i32
    }

    /// Forgets everything.
    pub fn clear(&mut self)
        ensures
            final(self).wf(),
            final(self).is_clear(),
    {
        *self = CorrectionHistory::new();
    }
}

impl Default for CorrectionHistory {
    fn default() -> (res: Self)
        ensures
            res.wf(),
            res.is_clear(),
    {
        CorrectionHistory::new()
    }
}

} // verus!
