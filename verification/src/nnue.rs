//! Evaluation of positions by a small neural network.
//!
//! Each side sees the board from its own edge. For each side a layer of sums is kept: the
//! bias of a neuron plus its weights for the pieces on their squares. The sums are brought
//! up to date move by move, as long as the king of the side stays in the same region.

use crate::board::Board;
use crate::board::legality::lemma_kings_after;
use crate::board::makemove::{applied, movable};
use crate::board::position::{
    has_king, holds, king_sq, lemma_king_exists, occupied, piece_of, single_king, Placement,
};
use crate::types::bits::{file_of, lemma_bits_finite, rank_of};
use crate::types::history::{clamped, quotient};
use crate::types::moves::{Move, MoveKind};
use crate::types::pieces::Piece;
use crate::types::sides::Side;
use crate::types::squares::Square;
use vstd::prelude::*;

verus! {

pub const HIDDEN_SIZE: usize = 1024;

pub const SCALE: i64 = 400;

pub const NUM_OUTPUT_BUCKETS: usize = 8;

pub const QA: i64 = 255;

pub const QB: i64 = 64;

pub const NUM_INPUT_BUCKETS: usize = 4;

/// The number of inputs: regions of the king, sides, kinds of pieces and squares.
pub const NUM_INPUTS: usize = 3072;

/// The number of positions that are kept.
pub const STACK_SIZE: usize = 136;

/// No evaluation is greater, so that none is taken for a mate.
pub const EVAL_LIMIT: i32 = 30000;

/// The number of values in a network.
pub const NUM_PARAMETERS: usize = 3163144;

/// The weights and biases of a network.
#[derive(Debug)]
pub struct Parameters {
    pub feature_weights: Vec<i16>,
    pub feature_bias: Vec<i16>,
    pub output_weights: Vec<i16>,
    pub output_bias: Vec<i16>,
}

/// The number in two bytes, the lower byte first, in two's complement.
pub open spec fn word(low: u8, high: u8) -> int {
    if high < 128 {
        high * 256 + low
    } else {
        high * 256 + low - 65536
    }
}

/// `values` holds the numbers in `bytes` from the number `start` on.
pub open spec fn block_of(bytes: Seq<u8>, start: int, values: Seq<i16>) -> bool {
    forall|i: int|
        0 <= i < values.len() ==> #[trigger] values[i] == word(
            bytes[2 * (start + i)],
            bytes[2 * (start + i) + 1],
        )
}

/// Reads `n` numbers from the number `start` on.
fn read_block(bytes: &Vec<u8>, start: usize, n: usize) -> (res: Vec<i16>)
    requires
        2 * (start + n) <= bytes@.len(),
    ensures
        res@.len() == n,
        block_of(bytes@, start as int, res@),
{
    let size: usize = bytes.len();
    let mut values: Vec<i16> = Vec::new();
    let mut i: usize = 0;
    while i < n
        invariant
            i <= n,
            2 * (start + n) <= size,
            size == bytes@.len(),
            values@.len() == i,
            block_of(bytes@, start as int, values@),
        decreases n - i,
    {
        let low: i32 = bytes[2 * (start + i)] as i32;
        let high: i32 = bytes[2 * (start + i) + 1] as i32;
        let value: i32 = if high < 128 { high * 256 + low } else { high * 256 + low - 65536 };
        values.push(value as i16);
        i += 1;
    }
    values
}

impl Parameters {
    pub open spec fn wf(self) -> bool {
        &&& self.feature_weights@.len() == NUM_INPUTS * HIDDEN_SIZE
        &&& self.feature_bias@.len() == HIDDEN_SIZE
        &&& self.output_weights@.len() == NUM_OUTPUT_BUCKETS * 2 * HIDDEN_SIZE
        &&& self.output_bias@.len() == NUM_OUTPUT_BUCKETS
    }

    /// Reads a network: the weights and biases of the first layer, then those of the
    /// second. Bytes beyond them are padding.
    pub fn from_bytes(bytes: &Vec<u8>) -> (res: Option<Self>)
        ensures
            res is Some <==> bytes@.len() >= 2 * NUM_PARAMETERS,
            res matches Some(p) ==> {
                &&& p.wf()
                &&& block_of(bytes@, 0, p.feature_weights@)
                &&& block_of(bytes@, 3145728, p.feature_bias@)
                &&& block_of(bytes@, 3146752, p.output_weights@)
                &&& block_of(bytes@, 3163136, p.output_bias@)
            },
    {
        if bytes.len() < 2 * NUM_PARAMETERS {
            return None;
        }
        let feature_weights = read_block(bytes, 0, NUM_INPUTS * HIDDEN_SIZE);
        let feature_bias = read_block(bytes, 3145728, HIDDEN_SIZE);
        let output_weights = read_block(bytes, 3146752, NUM_OUTPUT_BUCKETS * 2 * HIDDEN_SIZE);
        let output_bias = read_block(bytes, 3163136, NUM_OUTPUT_BUCKETS);
        Some(Parameters { feature_weights, feature_bias, output_weights, output_bias })
    }
}

/// The region of a king, counted from its own edge: by rank and distance from the side.
pub open spec fn region(rank: int, file: int) -> int {
    let i = rank * 4 + if file <= 3 {
        file
    } else {
        7 - file
    };
    if i < 2 {
        0
    } else if i < 12 {
        1
    } else if i < 28 {
        2
    } else {
        3
    }
}

/// The rank of a square as `pov` sees it.
pub open spec fn seen_rank(pov: Side, i: int) -> int {
    if pov == Side::Black {
        7 - rank_of(i)
    } else {
        rank_of(i)
    }
}

/// What the inputs of `pov` depend on besides the pieces: the region of its king, and
/// whether the board is mirrored because the king stands on the right half.
pub open spec fn context(pov: Side, king: int) -> (int, bool) {
    (region(seen_rank(pov, king), file_of(king)), file_of(king) > 3)
}

/// The region of a king and which half it stands on, for a square seen from its own edge.
pub fn input_context(king_square: Square) -> (res: (usize, bool))
    ensures
        (res.0 as int, res.1) == context(Side::White, king_square.idx()),
        res.0 < NUM_INPUT_BUCKETS,
{
    (input_bucket(king_square), king_square.to_file() > 3)
}

pub fn input_bucket(king_square: Square) -> (res: usize)
    ensures
        res == region(rank_of(king_square.idx()), file_of(king_square.idx())),
        res < NUM_INPUT_BUCKETS,
{
    let (rank, file) = king_square.to_rank_and_file();
    let i: usize = rank * 4 + if file <= 3 { file } else { 7 - file };
    if i < 2 {
        0
    } else if i < 12 {
        1
    } else if i < 28 {
        2
    } else {
        3
    }
}

/// The square as `pov` sees it.
fn seen(pov: Side, square: Square) -> (res: Square)
    ensures
        rank_of(res.idx()) == seen_rank(pov, square.idx()),
        file_of(res.idx()) == file_of(square.idx()),
{
    if pov == Side::Black {
        Square::from_rank_and_file(7 - square.to_rank(), square.to_file())
    } else {
        square
    }
}

fn context_of(pov: Side, king: Square) -> (res: (usize, bool))
    ensures
        (res.0 as int, res.1) == context(pov, king.idx()),
        res.0 < NUM_INPUT_BUCKETS,
{
    input_context(seen(pov, king))
}

/// The number of the input for a piece on square `i`.
pub open spec fn feature(pov: Side, ctx: (int, bool), side: Side, piece: Piece, i: int) -> int {
    let file = if ctx.1 {
        7 - file_of(i)
    } else {
        file_of(i)
    };
    ctx.0 * 768 + (if side == pov {
        0int
    } else {
        384
    }) + piece as int * 64 + seen_rank(pov, i) * 8 + file
}

fn feature_index(pov: Side, ctx: (usize, bool), side: Side, piece: Piece, square: Square) -> (res:
    usize)
    requires
        ctx.0 < NUM_INPUT_BUCKETS,
    ensures
        res == feature(pov, (ctx.0 as int, ctx.1), side, piece, square.idx()),
        res < NUM_INPUTS,
{
    let view = seen(pov, square);
    let rank: usize = view.to_rank();
    let file: usize = if ctx.1 { 7 - view.to_file() } else { view.to_file() };
    let half: usize = if side == pov { 0 } else { 384 };
    ctx.0 * 768 + half + piece as usize * 64 + rank * 8 + file
}

/// What a square adds to neuron `h`.
pub open spec fn term(
    p: Parameters,
    pov: Side,
    ctx: (int, bool),
    x: Option<(Side, Piece)>,
    i: int,
    h: int,
) -> int {
    match x {
        Some((side, piece)) => p.feature_weights@[feature(pov, ctx, side, piece, i) * HIDDEN_SIZE
            + h] as int,
        None => 0,
    }
}

/// What the first `n` squares add to neuron `h`.
pub open spec fn terms(
    p: Parameters,
    pov: Side,
    ctx: (int, bool),
    mb: Placement,
    h: int,
    n: int,
) -> int
    decreases n,
{
    if n <= 0 {
        0
    } else {
        terms(p, pov, ctx, mb, h, n - 1) + term(p, pov, ctx, mb[n - 1], n - 1, h)
    }
}

/// The sum of neuron `h` in a given context.
pub open spec fn sum_in(p: Parameters, pov: Side, ctx: (int, bool), mb: Placement, h: int) -> int {
    p.feature_bias@[h] + terms(p, pov, ctx, mb, h, 64)
}

/// The sum of neuron `h` as `pov` sees the board.
pub open spec fn sum_of(p: Parameters, pov: Side, mb: Placement, h: int) -> int {
    sum_in(p, pov, context(pov, king_sq(mb, pov)), mb, h)
}

/// The values are the sums of all neurons in a given context.
pub open spec fn sums_in(
    p: Parameters,
    pov: Side,
    ctx: (int, bool),
    mb: Placement,
    values: Seq<i32>,
) -> bool {
    values.len() == HIDDEN_SIZE && forall|h: int|
        0 <= h < HIDDEN_SIZE ==> #[trigger] values[h] == sum_in(p, pov, ctx, mb, h)
}

proof fn lemma_terms_bound(
    p: Parameters,
    pov: Side,
    ctx: (int, bool),
    mb: Placement,
    h: int,
    n: int,
)
    requires
        0 <= n <= 64,
    ensures
        -32768 * n <= terms(p, pov, ctx, mb, h, n) <= 32768 * n,
    decreases n,
{
    if n > 0 {
        lemma_terms_bound(p, pov, ctx, mb, h, n - 1);
    }
}

/// When the piece on one square changes, the sum changes by what that square adds.
proof fn lemma_terms_update(
    p: Parameters,
    pov: Side,
    ctx: (int, bool),
    mb: Placement,
    i: int,
    x: Option<(Side, Piece)>,
    h: int,
    n: int,
)
    requires
        mb.len() == 64,
        0 <= i < 64,
        n <= 64,
    ensures
        terms(p, pov, ctx, mb.update(i, x), h, n) == if i < n {
            terms(p, pov, ctx, mb, h, n) - term(p, pov, ctx, mb[i], i, h) + term(
                p,
                pov,
                ctx,
                x,
                i,
                h,
            )
        } else {
            terms(p, pov, ctx, mb, h, n)
        },
    decreases n,
{
    if n > 0 {
        lemma_terms_update(p, pov, ctx, mb, i, x, h, n - 1);
    }
}

/// Changes the sums as the piece on a square changes.
fn put(
    values: &mut Vec<i32>,
    p: &Parameters,
    pov: Side,
    ctx: (usize, bool),
    Ghost(mb): Ghost<Placement>,
    square: Square,
    before: Option<(Side, Piece)>,
    after: Option<(Side, Piece)>,
)
    requires
        p.wf(),
        ctx.0 < NUM_INPUT_BUCKETS,
        mb.len() == 64,
        mb[square.idx()] == before,
        sums_in(*p, pov, (ctx.0 as int, ctx.1), mb, old(values)@),
    ensures
        sums_in(*p, pov, (ctx.0 as int, ctx.1), mb.update(square.idx(), after), final(values)@),
{
    let ghost c = (ctx.0 as int, ctx.1);
    let ghost i = square.idx();
    let ghost next = mb.update(i, after);
    let ghost start = values@;
    let off: usize = match before {
        Some((side, piece)) => feature_index(pov, ctx, side, piece, square),
        None => 0,
    };
    let on: usize = match after {
        Some((side, piece)) => feature_index(pov, ctx, side, piece, square),
        None => 0,
    };
    let mut h: usize = 0;
    while h < HIDDEN_SIZE
        invariant
            h <= HIDDEN_SIZE,
            p.wf(),
            off < NUM_INPUTS,
            on < NUM_INPUTS,
            mb.len() == 64,
            0 <= i < 64,
            mb[i] == before,
            next == mb.update(i, after),
            before matches Some((side, piece)) ==> off == feature(pov, c, side, piece, i),
            after matches Some((side, piece)) ==> on == feature(pov, c, side, piece, i),
            sums_in(*p, pov, c, mb, start),
            values@.len() == HIDDEN_SIZE,
            forall|k: int| h <= k < HIDDEN_SIZE ==> #[trigger] values@[k] == start[k],
            forall|k: int| 0 <= k < h ==> #[trigger] values@[k] == sum_in(*p, pov, c, next, k),
        decreases HIDDEN_SIZE - h,
    {
        let less: i32 = match before {
            Some(_) => p.feature_weights[off * HIDDEN_SIZE + h] as i32,
            None => 0,
        };
        let more: i32 = match after {
            Some(_) => p.feature_weights[on * HIDDEN_SIZE + h] as i32,
            None => 0,
        };
        proof {
            lemma_terms_bound(*p, pov, c, mb, h as int, 64);
            lemma_terms_update(*p, pov, c, mb, i, after, h as int, 64);
            assert(start[h as int] == sum_in(*p, pov, c, mb, h as int));
        }
        let value: i32 = values[h] - less + more;
        values.set(h, value);
        h += 1;
    }
}

/// Works the sums of a side out from the board.
fn refreshed(board: &Board, pov: Side, p: &Parameters) -> (res: Vec<i32>)
    requires
        p.wf(),
        board.state.consistent(),
        has_king(board.state.mb(), pov),
    ensures
        sums_in(
            *p,
            pov,
            context(pov, king_sq(board.state.mb(), pov)),
            board.state.mb(),
            res@,
        ),
{
    let ctx = context_of(pov, board.get_king_square(pov));
    let ghost c = (ctx.0 as int, ctx.1);
    let ghost full = board.state.mb();
    let ghost mut mb: Placement = Seq::new(64, |i: int| None::<(Side, Piece)>);
    let mut values: Vec<i32> = Vec::new();
    let mut h: usize = 0;
    proof {
        assert(full.len() == 64);
    }
    while h < HIDDEN_SIZE
        invariant
            h <= HIDDEN_SIZE,
            p.wf(),
            mb == Seq::new(64, |i: int| None::<(Side, Piece)>),
            values@.len() == h,
            forall|k: int| 0 <= k < h ==> #[trigger] values@[k] == sum_in(*p, pov, c, mb, k),
        decreases HIDDEN_SIZE - h,
    {
        proof {
            lemma_terms_empty(*p, pov, c, mb, h as int, 64);
        }
        values.push(p.feature_bias[h] as i32);
        h += 1;
    }
    let mut i: usize = 0;
    while i < 64
        invariant
            i <= 64,
            p.wf(),
            ctx.0 < NUM_INPUT_BUCKETS,
            c == (ctx.0 as int, ctx.1),
            full == board.state.mb(),
            full.len() == 64,
            mb.len() == 64,
            forall|j: int| 0 <= j < i ==> #[trigger] mb[j] == full[j],
            forall|j: int| i <= j < 64 ==> #[trigger] mb[j] is None,
            sums_in(*p, pov, c, mb, values@),
        decreases 64 - i,
    {
        let square = Square::from(i);
        let piece = board.get_piece_at_square(square);
        if piece.is_some() {
            put(&mut values, p, pov, ctx, Ghost(mb), square, None, piece);
        }
        proof {
            if full[i as int] is None {
                assert(mb.update(i as int, full[i as int]) =~= mb);
            }
            mb = mb.update(i as int, full[i as int]);
        }
        i += 1;
    }
    proof {
        assert(mb =~= full);
    }
    values
}

proof fn lemma_terms_empty(
    p: Parameters,
    pov: Side,
    ctx: (int, bool),
    mb: Placement,
    h: int,
    n: int,
)
    requires
        n <= 64,
        mb.len() == 64,
        forall|i: int| 0 <= i < 64 ==> #[trigger] mb[i] is None,
    ensures
        terms(p, pov, ctx, mb, h, n) == 0,
    decreases n,
{
    if n > 0 {
        lemma_terms_empty(p, pov, ctx, mb, h, n - 1);
    }
}

/// A move with the pieces it concerns.
#[derive(Clone, Copy, Debug, PartialEq)]
pub struct Delta {
    pub m: Move,
    pub stm: Side,
    pub piece: Piece,
    pub captured: Option<Piece>,
}

impl Delta {
    /// The notes fit a move from the given board.
    pub open spec fn fits(self, mb: Placement) -> bool {
        let s = self.m@;
        &&& movable(mb, self.stm, s)
        &&& self.piece == piece_of(mb[s.from])
        &&& match s.kind {
            MoveKind::EnPassant => self.captured == Some(Piece::Pawn),
            _ => self.captured == if s.kind.capturing() {
                Some(piece_of(mb[s.to]))
            } else {
                None
            },
        }
    }

    /// The king of `pov` has left its region or its half of the board.
    pub open spec fn leaves(self, pov: Side) -> bool {
        &&& self.piece == Piece::King
        &&& self.stm == pov
        &&& context(pov, self.m@.from) != context(pov, self.m@.to)
    }

    fn needs_refresh(&self, pov: Side) -> (res: bool)
        ensures
            res == self.leaves(pov),
    {
        if self.piece != Piece::King || self.stm != pov {
            return false;
        }
        let a = context_of(pov, self.m.get_from());
        let b = context_of(pov, self.m.get_to());
        a.0 != b.0 || a.1 != b.1
    }

    /// Brings the sums of a side from before the move to after it.
    fn carry(
        &self,
        values: &mut Vec<i32>,
        p: &Parameters,
        pov: Side,
        ctx: (usize, bool),
        Ghost(mb): Ghost<Placement>,
    )
        requires
            p.wf(),
            ctx.0 < NUM_INPUT_BUCKETS,
            mb.len() == 64,
            self.fits(mb),
            sums_in(*p, pov, (ctx.0 as int, ctx.1), mb, old(values)@),
        ensures
            sums_in(*p, pov, (ctx.0 as int, ctx.1), applied(mb, self.m@), final(values)@),
    {
        let from = self.m.get_from();
        let to = self.m.get_to();
        let side = self.stm;
        let own = Some((side, self.piece));
        let ghost s = self.m@;
        assert(own == mb[s.from]);
        match self.m.get_kind() {
            MoveKind::KingCastle => {
                let rook = if side == Side::White { Square::H1 } else { Square::H8 };
                let beside = if side == Side::White { Square::F1 } else { Square::F8 };
                let tower = Some((side, Piece::Rook));
                put(values, p, pov, ctx, Ghost(mb), from, own, None);
                let ghost a = mb.update(s.from, None);
                put(values, p, pov, ctx, Ghost(a), rook, tower, None);
                let ghost b = a.update(rook.idx(), None);
                put(values, p, pov, ctx, Ghost(b), to, None, own);
                let ghost c = b.update(s.to, own);
                put(values, p, pov, ctx, Ghost(c), beside, None, tower);
                assert(c.update(beside.idx(), tower) =~= applied(mb, s));
            },
            MoveKind::QueenCastle => {
                let rook = if side == Side::White { Square::A1 } else { Square::A8 };
                let beside = if side == Side::White { Square::D1 } else { Square::D8 };
                let tower = Some((side, Piece::Rook));
                put(values, p, pov, ctx, Ghost(mb), from, own, None);
                let ghost a = mb.update(s.from, None);
                put(values, p, pov, ctx, Ghost(a), rook, tower, None);
                let ghost b = a.update(rook.idx(), None);
                put(values, p, pov, ctx, Ghost(b), to, None, own);
                let ghost c = b.update(s.to, own);
                put(values, p, pov, ctx, Ghost(c), beside, None, tower);
                assert(c.update(beside.idx(), tower) =~= applied(mb, s));
            },
            _ => {
                let victim = self.m.get_capture_square();
                let ghost mut a = mb;
                if let Some(captured) = self.captured {
                    let taken = Some((side.other(), captured));
                    put(values, p, pov, ctx, Ghost(mb), victim, taken, None);
                    proof {
                        a = mb.update(victim.idx(), None);
                    }
                }
                put(values, p, pov, ctx, Ghost(a), from, own, None);
                let ghost b = a.update(s.from, None);
                let arriving = match self.m.get_promoted_piece() {
                    Some(promoted) => Some((side, promoted)),
                    None => own,
                };
                put(values, p, pov, ctx, Ghost(b), to, None, arriving);
                assert(b.update(s.to, arriving) =~= applied(mb, s));
            },
        }
    }
}

/// The number of the output for a board: by the number of pieces.
pub open spec fn output_bucket_of(mb: Placement) -> int {
    let b = (occupied(mb).len() - 2) / 4;
    if b < 7 {
        b
    } else {
        7
    }
}

pub fn output_bucket(pos: &Board) -> (res: usize)
    requires
        pos.state.consistent(),
        pos.state.kings(),
    ensures
        res == output_bucket_of(pos.state.mb()),
        res < NUM_OUTPUT_BUCKETS,
{
    let occ = pos.get_all_occupancy();
    proof {
        let mb = pos.state.mb();
        lemma_king_exists(mb, Side::White);
        lemma_king_exists(mb, Side::Black);
        let a = king_sq(mb, Side::White);
        let b = king_sq(mb, Side::Black);
        lemma_bits_finite(occ.0);
        assert(occ.has(a) && occ.has(b));
        assert(a != b);
        let rest = occ.squares().remove(a);
        assert(rest.contains(b));
        assert(rest.len() > 0) by {
            if rest.len() == 0 {
                assert(rest =~= Set::<int>::empty());
            }
        }
    }
    let bucket: usize = (occ.count_bits() - 2) / 4;
    if bucket < 7 {
        bucket
    } else {
        7
    }
}

/// What a neuron passes on: the square of its sum, kept between zero and the top value.
pub open spec fn activation(sum: int) -> int {
    clamped(sum, 0, QA as int) * clamped(sum, 0, QA as int)
}

/// What the first `n` neurons of a side give to an output whose weights start at `base`.
pub open spec fn half_output(p: Parameters, pov: Side, mb: Placement, base: int, n: int) -> int
    decreases n,
{
    if n <= 0 {
        0
    } else {
        half_output(p, pov, mb, base, n - 1) + activation(sum_of(p, pov, mb, n - 1))
            * p.output_weights@[base + n - 1]
    }
}

/// The output of the network for the side to move.
pub open spec fn output(p: Parameters, stm: Side, mb: Placement) -> int {
    let b = output_bucket_of(mb);
    let total = half_output(p, stm, mb, b * 2 * HIDDEN_SIZE, HIDDEN_SIZE as int) + half_output(
        p,
        stm.other(),
        mb,
        b * 2 * HIDDEN_SIZE + HIDDEN_SIZE,
        HIDDEN_SIZE as int,
    );
    quotient((quotient(total, QA as int) + p.output_bias@[b]) * SCALE, (QA * QB) as int)
}

/// The evaluation of a position for the side to move.
pub open spec fn evaluation(p: Parameters, stm: Side, mb: Placement) -> int {
    clamped(output(p, stm, mb), -EVAL_LIMIT as int, EVAL_LIMIT as int)
}

proof fn lemma_half_output_bound(p: Parameters, pov: Side, mb: Placement, base: int, n: int)
    requires
        0 <= n <= 1024,
    ensures
        -2130739200 * n <= half_output(p, pov, mb, base, n) <= 2130739200 * n,
    decreases n,
{
    if n > 0 {
        lemma_half_output_bound(p, pov, mb, base, n - 1);
        let a = clamped(sum_of(p, pov, mb, n - 1), 0, QA as int);
        let w = p.output_weights@[base + n - 1] as int;
        assert(0 <= a * a <= 65025) by (nonlinear_arith)
            requires
                0 <= a <= 255,
        ;
        let q = a * a;
        assert(-2130739200 <= q * w <= 2130739200) by (nonlinear_arith)
            requires
                0 <= q <= 65025,
                -32768 <= w <= 32767,
        ;
    }
}

/// Divides, rounding towards zero.
fn divide(a: i64, b: i64) -> (res: i64)
    requires
        a > i64::MIN,
        b > 0,
    ensures
        res == quotient(a as int, b as int),
{
    if a >= 0 {
        a / b
    } else {
        -((-a) / b)
    }
}

/// The weighted sum of what the neurons of one side pass on.
fn half_layer(
    p: &Parameters,
    values: &Vec<i32>,
    base: usize,
    pov: Side,
    Ghost(mb): Ghost<Placement>,
) -> (res: i64)
    requires
        p.wf(),
        base + HIDDEN_SIZE <= p.output_weights@.len(),
        sums_in(*p, pov, context(pov, king_sq(mb, pov)), mb, values@),
    ensures
        res == half_output(*p, pov, mb, base as int, HIDDEN_SIZE as int),
        -2200000000000 <= res <= 2200000000000,
{
    let mut total: i64 = 0;
    let mut h: usize = 0;
    while h < HIDDEN_SIZE
        invariant
            h <= HIDDEN_SIZE,
            p.wf(),
            base + HIDDEN_SIZE <= p.output_weights@.len(),
            sums_in(*p, pov, context(pov, king_sq(mb, pov)), mb, values@),
            total == half_output(*p, pov, mb, base as int, h as int),
        decreases HIDDEN_SIZE - h,
    {
        let value: i32 = values[h];
        let kept: i64 = if value < 0 {
            0
        } else if value > 255 {
            255
        } else {
            value as i64
        };
        let weight: i64 = p.output_weights[base + h] as i64;
        proof {
            lemma_half_output_bound(*p, pov, mb, base as int, h as int);
            lemma_half_output_bound(*p, pov, mb, base as int, h + 1);
            assert(values@[h as int] == sum_of(*p, pov, mb, h as int));
            assert(kept == clamped(sum_of(*p, pov, mb, h as int), 0, QA as int));
            assert(0 <= kept * kept <= 65025) by (nonlinear_arith)
                requires
                    0 <= kept <= 255,
            ;
            let q = kept * kept;
            assert(-2130739200 <= q * weight <= 2130739200) by (nonlinear_arith)
                requires
                    0 <= q <= 65025,
                    -32768 <= weight <= 32767,
            ;
        }
        total = total + kept * kept * weight;
        h += 1;
    }
    proof {
        lemma_half_output_bound(*p, pov, mb, base as int, 1024);
    }
    total
}

/// A network with the sums for the positions from the root to the current one.
pub struct Network {
    parameters: Parameters,
    values: Vec<Vec<i32>>,
    accurate: Vec<bool>,
    deltas: Vec<Option<Delta>>,
    index: usize,
    trail: Ghost<Seq<Placement>>,
}

/// A board with one king for each side.
pub open spec fn seemly(mb: Placement) -> bool {
    &&& mb.len() == 64
    &&& has_king(mb, Side::White)
    &&& has_king(mb, Side::Black)
    &&& single_king(mb, Side::White)
    &&& single_king(mb, Side::Black)
}

impl Network {
    pub closed spec fn params(self) -> Parameters {
        self.parameters
    }

    /// The boards from the root to the current one.
    pub closed spec fn boards(self) -> Seq<Placement> {
        self.trail@
    }

    /// The sums of `pov` for the board with number `i` are marked as up to date.
    pub closed spec fn is_accurate(self, i: int, pov: Side) -> bool {
        self.accurate@[2 * i + pov as int]
    }

    /// The move that led to the board with number `i`.
    pub closed spec fn delta_spec(self, i: int) -> Option<Delta> {
        self.deltas@[i]
    }

    spec fn shaped(self) -> bool {
        &&& self.parameters.wf()
        &&& self.values@.len() == 2 * STACK_SIZE
        &&& self.accurate@.len() == 2 * STACK_SIZE
        &&& self.deltas@.len() == STACK_SIZE
        &&& self.index < STACK_SIZE
        &&& self.trail@.len() == self.index + 1
    }

    /// What is marked as up to date is the sum for its board, and each board follows from
    /// the one before by the move that was noted.
    pub closed spec fn wf(self) -> bool {
        &&& self.shaped()
        &&& forall|i: int| 0 <= i <= self.index ==> seemly(#[trigger] self.trail@[i])
        &&& forall|i: int, pov: Side|
            0 <= i <= self.index && #[trigger] self.is_accurate(i, pov) ==> sums_in(
                self.parameters,
                pov,
                context(pov, king_sq(self.trail@[i], pov)),
                self.trail@[i],
                self.values@[2 * i + pov as int]@,
            )
        &&& forall|i: int|
            1 <= i <= self.index ==> ((#[trigger] self.deltas@[i]) matches Some(d) && d.fits(
                self.trail@[i - 1],
            ) && self.trail@[i] == applied(self.trail@[i - 1], d.m@))
    }

    /// A network at the given board, with nothing worked out yet.
    pub fn new(parameters: Parameters, board: &Board) -> (res: Self)
        requires
            parameters.wf(),
            seemly(board.state.mb()),
        ensures
            res.wf(),
            res.params() == parameters,
            res.boards() == seq![board.state.mb()],
    {
        let mut values: Vec<Vec<i32>> = Vec::new();
        let mut accurate: Vec<bool> = Vec::new();
        let mut deltas: Vec<Option<Delta>> = Vec::new();
        let mut i: usize = 0;
        while i < STACK_SIZE
            invariant
                i <= STACK_SIZE,
                values@.len() == 2 * i,
                accurate@.len() == 2 * i,
                deltas@.len() == i,
                forall|j: int| 0 <= j < 2 * i ==> !(#[trigger] accurate@[j]),
            decreases STACK_SIZE - i,
        {
            values.push(Vec::new());
            values.push(Vec::new());
            accurate.push(false);
            accurate.push(false);
            deltas.push(None);
            i += 1;
        }
        let trail: Ghost<Seq<Placement>> = Ghost(Seq::empty().push(board.state.mb()));
        Network { parameters, values, accurate, deltas, index: 0, trail }
    }
}

impl Network {
    /// The last board whose sums of `pov` are up to date, if all moves since then leave
    /// the king of `pov` in its region.
    pub fn can_update(&self, pov: Side) -> (res: Option<usize>)
        requires
            self.wf(),
        ensures
            res matches Some(i) ==> {
                &&& i < self.boards().len()
                &&& self.is_accurate(i as int, pov)
                &&& forall|j: int|
                    i < j < self.boards().len() ==> !#[trigger] self.is_accurate(j, pov)
                &&& forall|j: int|
                    i < j < self.boards().len() ==> (#[trigger] self.delta_spec(j)) is Some
                        && !self.delta_spec(j)->0.leaves(pov)
            },
            res is None ==> forall|i: int|
                0 <= i < self.boards().len() && #[trigger] self.is_accurate(i, pov) ==> exists|
                    j: int,
                |
                    i < j < self.boards().len() && #[trigger] self.delta_spec(j) is Some
                        && self.delta_spec(j)->0.leaves(pov),
    {
        let mut i: usize = self.index + 1;
        while i > 0
            invariant
                i <= self.index + 1,
                self.wf(),
                forall|j: int| i <= j <= self.index ==> !#[trigger] self.is_accurate(j, pov),
                forall|j: int|
                    i <= j <= self.index && j >= 1 ==> !(#[trigger] self.delta_spec(j))->0.leaves(
                        pov,
                    ),
            decreases i,
        {
            i -= 1;
            if self.accurate[2 * i + pov as usize] {
                return Some(i);
            }
            match &self.deltas[i] {
                None => {
                    return None;
                },
                Some(delta) => {
                    if delta.needs_refresh(pov) {
                        proof {
                            assert(self.delta_spec(i as int)->0.leaves(pov));
                        }
                        return None;
                    }
                },
            }
        }
        None
    }

    /// Notes a move that is about to be made.
    pub fn push(&mut self, board: &Board, m: Move)
        requires
            old(self).wf(),
            old(self).boards().len() < STACK_SIZE,
            old(self).boards().last() == board.state.mb(),
            movable(board.state.mb(), board.state.side_to_move, m@),
        ensures
            final(self).wf(),
            final(self).params() == old(self).params(),
            final(self).boards() == old(self).boards().push(applied(board.state.mb(), m@)),
    {
        let ghost mb = board.state.mb();
        let stm = board.state.side_to_move;
        proof {
            lemma_kings_after(mb, stm, m@);
            crate::board::makemove::lemma_kings_stay(mb, stm, m@, Side::White);
            crate::board::makemove::lemma_kings_stay(mb, stm, m@, Side::Black);
            assert(stm.other() != stm);
        }
        let piece = match board.get_piece_at_square(m.get_from()) {
            Some((_, p)) => p,
            None => Piece::Pawn,
        };
        let captured: Option<Piece> = if m.is_capture() {
            match board.get_piece_at_square(m.get_capture_square()) {
                Some((_, p)) => Some(p),
                None => None,
            }
        } else {
            None
        };
        let delta = Delta { m, stm, piece, captured };
        assert(delta.fits(mb));
        self.index = self.index + 1;
        let at: usize = self.index;
        self.deltas.set(at, Some(delta));
        self.accurate.set(2 * at, false);
        self.accurate.set(2 * at + 1, false);
        self.trail = Ghost(old(self).trail@.push(applied(mb, m@)));
        proof {
            assert forall|i: int, pov: Side|
                0 <= i <= self.index && #[trigger] self.is_accurate(i, pov) implies sums_in(
                self.parameters,
                pov,
                context(pov, king_sq(self.trail@[i], pov)),
                self.trail@[i],
                self.values@[2 * i + pov as int]@,
            ) by {
                if i < self.index {
                    assert(old(self).is_accurate(i, pov));
                }
            }
            assert forall|i: int| 1 <= i <= self.index implies ((
            #[trigger] self.deltas@[i]) matches Some(d) && d.fits(self.trail@[i - 1])
                && self.trail@[i] == applied(self.trail@[i - 1], d.m@)) by {
                if i < self.index {
                    assert(old(self).deltas@[i] is Some);
                }
            }
        }
    }

    /// Goes back to the board before the last move.
    pub fn pop(&mut self)
        requires
            old(self).wf(),
            old(self).boards().len() > 1,
        ensures
            final(self).wf(),
            final(self).params() == old(self).params(),
            final(self).boards() == old(self).boards().drop_last(),
    {
        self.index = self.index - 1;
        self.trail = Ghost(old(self).trail@.drop_last());
        proof {
            assert forall|i: int, pov: Side|
                0 <= i <= self.index && #[trigger] self.is_accurate(i, pov) implies sums_in(
                self.parameters,
                pov,
                context(pov, king_sq(self.trail@[i], pov)),
                self.trail@[i],
                self.values@[2 * i + pov as int]@,
            ) by {
                assert(old(self).is_accurate(i, pov));
            }
            assert forall|i: int| 1 <= i <= self.index implies ((
            #[trigger] self.deltas@[i]) matches Some(d) && d.fits(self.trail@[i - 1])
                && self.trail@[i] == applied(self.trail@[i - 1], d.m@)) by {
                assert(old(self).deltas@[i] is Some);
            }
        }
    }

    /// Notes sums of a side for a board.
    fn store(&mut self, at: usize, pov: Side, values: Vec<i32>)
        requires
            old(self).wf(),
            at < old(self).boards().len(),
            sums_in(
                old(self).params(),
                pov,
                context(pov, king_sq(old(self).boards()[at as int], pov)),
                old(self).boards()[at as int],
                values@,
            ),
        ensures
            final(self).wf(),
            final(self).params() == old(self).params(),
            final(self).boards() == old(self).boards(),
            final(self).deltas@ == old(self).deltas@,
            final(self).is_accurate(at as int, pov),
            forall|i: int, side: Side|
                0 <= i < old(self).boards().len() && (i != at || side != pov)
                    ==> #[trigger] final(self).is_accurate(i, side) == old(self).is_accurate(
                    i,
                    side,
                ),
    {
        let slot: usize = 2 * at + pov as usize;
        self.values.set(slot, values);
        self.accurate.set(slot, true);
        proof {
            assert forall|i: int, side: Side|
                0 <= i < old(self).boards().len() && (i != at || side != pov) implies (
            #[trigger] self.is_accurate(i, side)) == old(self).is_accurate(i, side) && self.values@[
                2 * i + side as int] == old(self).values@[2 * i + side as int] by {
                assert(2 * i + side as int != slot);
            }
            assert forall|i: int, side: Side|
                0 <= i <= self.index && #[trigger] self.is_accurate(i, side) implies sums_in(
                self.parameters,
                side,
                context(side, king_sq(self.trail@[i], side)),
                self.trail@[i],
                self.values@[2 * i + side as int]@,
            ) by {
                if i != at || side != pov {
                    assert(old(self).is_accurate(i, side));
                }
            }
            assert forall|i: int| 1 <= i <= self.index implies ((
            #[trigger] self.deltas@[i]) matches Some(d) && d.fits(self.trail@[i - 1])
                && self.trail@[i] == applied(self.trail@[i - 1], d.m@)) by {
                assert(old(self).deltas@[i] is Some);
            }
        }
    }
}

/// As long as no move takes the king of `pov` out of its region, its context stays.
proof fn lemma_context_stays(n: Network, pov: Side, i: int, j: int)
    requires
        n.wf(),
        0 <= i <= j < n.boards().len(),
        forall|k: int| i < k <= j ==> !(#[trigger] n.delta_spec(k))->0.leaves(pov),
    ensures
        context(pov, king_sq(n.boards()[i], pov)) == context(pov, king_sq(n.boards()[j], pov)),
    decreases j - i,
{
    if i < j {
        lemma_context_stays(n, pov, i, j - 1);
        let before = n.boards()[j - 1];
        assert(n.deltas@[j] is Some);
        let d = n.deltas@[j]->0;
        assert(!n.delta_spec(j)->0.leaves(pov));
        assert(seemly(n.trail@[j - 1]));
        lemma_kings_after(before, d.stm, d.m@);
        assert(d.stm.other() != d.stm);
        if pov == d.stm && d.piece == Piece::King {
            let k = king_sq(before, pov);
            assert(holds(before, d.m@.from, pov, Piece::King));
            assert(holds(before, k, pov, Piece::King));
        } else if pov != d.stm {
            assert(pov == d.stm.other());
        }
    }
}

impl Network {
    /// Brings the sums of a side for the current board up to date.
    fn settle(&mut self, board: &Board, pov: Side)
        requires
            old(self).wf(),
            old(self).boards().last() == board.state.mb(),
            board.state.consistent(),
            board.state.kings(),
        ensures
            final(self).wf(),
            final(self).params() == old(self).params(),
            final(self).boards() == old(self).boards(),
            final(self).is_accurate(old(self).boards().len() - 1, pov),
            forall|side: Side|
                side != pov && old(self).is_accurate(old(self).boards().len() - 1, side)
                    ==> #[trigger] final(self).is_accurate(old(self).boards().len() - 1, side),
    {
        let last: usize = self.index;
        if self.accurate[2 * last + pov as usize] {
            return ;
        }
        match self.can_update(pov) {
            Some(last_accurate) => {
                let ctx = context_of(pov, board.get_king_square(pov));
                let ghost c = (ctx.0 as int, ctx.1);
                let mut i: usize = last_accurate;
                while i < last
                    invariant
                        i <= last,
                        last_accurate <= i,
                        last == self.index,
                        last == old(self).index,
                        self.wf(),
                        self.params() == old(self).params(),
                        self.boards() == old(self).boards(),
                        self.deltas@ == old(self).deltas@,
                        self.is_accurate(i as int, pov),
                        self.boards()[last as int] == board.state.mb(),
                        c == (ctx.0 as int, ctx.1),
                        ctx.0 < NUM_INPUT_BUCKETS,
                        c == context(pov, king_sq(board.state.mb(), pov)),
                        forall|k: int|
                            last_accurate < k <= last ==> !(#[trigger] self.delta_spec(
                                k,
                            ))->0.leaves(pov),
                        forall|side: Side|
                            side != pov && old(self).is_accurate(last as int, side)
                                ==> #[trigger] self.is_accurate(last as int, side),
                    decreases last - i,
                {
                    proof {
                        lemma_context_stays(*self, pov, i as int, last as int);
                        lemma_context_stays(*self, pov, i + 1, last as int);
                        assert(seemly(self.trail@[i as int]));
                        assert(self.deltas@[i + 1] is Some);
                    }
                    let mut values: Vec<i32> = copy_values(&self.values[2 * i + pov as usize]);
                    if let Some(delta) = self.deltas[i + 1] {
                        delta.carry(
                            &mut values,
                            &self.parameters,
                            pov,
                            ctx,
                            Ghost(self.trail@[i as int]),
                        );
                    }
                    let ghost before = *self;
                    self.store(i + 1, pov, values);
                    proof {
                        assert forall|k: int| last_accurate < k <= last implies !(
                        #[trigger] self.delta_spec(k))->0.leaves(pov) by {
                            assert(!before.delta_spec(k)->0.leaves(pov));
                        }
                    }
                    i += 1;
                }
            },
            None => {
                let values = refreshed(board, pov, &self.parameters);
                self.store(last, pov, values);
            },
        }
    }

    /// The output of the network for the current board.
    pub fn output_layer(&self, board: &Board) -> (res: i32)
        requires
            self.wf(),
            self.boards().last() == board.state.mb(),
            self.is_accurate(self.boards().len() - 1, Side::White),
            self.is_accurate(self.boards().len() - 1, Side::Black),
            board.state.consistent(),
            board.state.kings(),
        ensures
            res == output(self.params(), board.state.side_to_move, board.state.mb()),
    {
        let stm = board.state.side_to_move;
        let ghost mb = board.state.mb();
        let bucket = output_bucket(board);
        let base: usize = bucket * 2 * HIDDEN_SIZE;
        proof {
            assert(self.is_accurate(self.index as int, stm));
            assert(self.is_accurate(self.index as int, stm.other()));
            assert(self.trail@[self.index as int] == mb);
        }
        let us: i64 = half_layer(
            &self.parameters,
            &self.values[2 * self.index + stm as usize],
            base,
            stm,
            Ghost(mb),
        );
        let other = stm.other();
        let them: i64 = half_layer(
            &self.parameters,
            &self.values[2 * self.index + other as usize],
            base + HIDDEN_SIZE,
            other,
            Ghost(mb),
        );
        let total: i64 = us + them;
        let first: i64 = divide(total, QA);
        let bias: i64 = self.parameters.output_bias[bucket] as i64;
        proof {
            assert(-18000000000 <= first <= 18000000000);
        }
        let scaled: i64 = (first + bias) * SCALE;
        let res: i64 = divide(scaled, QA * QB);
        proof {
            assert(-1000000000 <= res <= 1000000000);
        }
        res as i32
    }

    /// The evaluation of the current position for the side to move.
    pub fn evaluate(&mut self, board: &Board) -> (res: i32)
        requires
            old(self).wf(),
            old(self).boards().last() == board.state.mb(),
            board.state.consistent(),
            board.state.kings(),
        ensures
            final(self).wf(),
            final(self).params() == old(self).params(),
            final(self).boards() == old(self).boards(),
            res == evaluation(old(self).params(), board.state.side_to_move, board.state.mb()),
    {
        self.settle(board, Side::White);
        self.settle(board, Side::Black);
        let eval: i32 = self.output_layer(board);
        if eval < -EVAL_LIMIT {
            -EVAL_LIMIT
        } else if eval > EVAL_LIMIT {
            EVAL_LIMIT
        } else {
            eval
        }
    }

    /// Works the sums out anew from a board, which becomes the current one. Without moves
    /// before it the board may be any; after moves it is the one they lead to.
    pub fn full_refresh(&mut self, board: &Board)
        requires
            old(self).wf(),
            old(self).boards().len() == 1 || old(self).boards().last() == board.state.mb(),
            seemly(board.state.mb()),
            board.state.consistent(),
        ensures
            final(self).wf(),
            final(self).params() == old(self).params(),
            final(self).boards() == old(self).boards().drop_last().push(board.state.mb()),
            final(self).is_accurate(old(self).boards().len() - 1, Side::White),
            final(self).is_accurate(old(self).boards().len() - 1, Side::Black),
    {
        let last: usize = self.index;
        self.accurate.set(2 * last, false);
        self.accurate.set(2 * last + 1, false);
        self.trail = Ghost(old(self).trail@.update(last as int, board.state.mb()));
        proof {
            assert forall|i: int, side: Side|
                0 <= i <= self.index && #[trigger] self.is_accurate(i, side) implies sums_in(
                self.parameters,
                side,
                context(side, king_sq(self.trail@[i], side)),
                self.trail@[i],
                self.values@[2 * i + side as int]@,
            ) by {
                assert(i != last);
                assert(old(self).is_accurate(i, side));
            }
            assert forall|i: int| 1 <= i <= self.index implies ((
            #[trigger] self.deltas@[i]) matches Some(d) && d.fits(self.trail@[i - 1])
                && self.trail@[i] == applied(self.trail@[i - 1], d.m@)) by {
                assert(old(self).deltas@[i] is Some);
            }
        }
        let white = refreshed(board, Side::White, &self.parameters);
        self.store(last, Side::White, white);
        let black = refreshed(board, Side::Black, &self.parameters);
        self.store(last, Side::Black, black);
    }
}

fn copy_values(values: &Vec<i32>) -> (res: Vec<i32>)
    ensures
        res@ == values@,
{
    let mut copy: Vec<i32> = Vec::new();
    let mut i: usize = 0;
    while i < values.len()
        invariant
            i <= values@.len(),
            copy@ == values@.subrange(0, i as int),
        decreases values@.len() - i,
    {
        copy.push(values[i]);
        i += 1;
        assert(copy@ =~= values@.subrange(0, i as int));
    }
    assert(copy@ =~= values@);
    copy
}

} // verus!
