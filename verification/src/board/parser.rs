//! Reading and writing positions and moves.

use crate::board::{lemma_same_but_threats, Board, BoardState};
use crate::board::makemove::passant_live;
use crate::board::movegen::{generated, MoveGenKind};
use crate::board::position::{has_king, holds, lemma_xor, pieces_key, pieces_key_upto, Placement};
use crate::types::bits::is_square;
use crate::types::moves::{Move, Step};
use crate::types::pieces::Piece;
use crate::types::sides::{Castling, CastlingRights, Side};
use crate::types::squares::{named_square, square_text, Square};
use crate::types::text::{
    chars_of, decimal, digit_char, digit_to_char, digit_value, numeral, push_decimal, read_number,
    same_text, split, split_on,
};
use crate::zobrist::Zobrist;
use vstd::prelude::*;

verus! {

#[derive(Clone, Copy, Debug, PartialEq, Eq, Structural)]
pub struct FenParseError;

/// The piece that a letter names: upper case for White, lower case for Black.
pub open spec fn lettered(c: char) -> Option<(Side, Piece)> {
    if exists|s: Side, p: Piece| #[trigger] p.letter(s) == c {
        let (s, p) = choose|s: Side, p: Piece| #[trigger] p.letter(s) == c;
        Some((s, p))
    } else {
        None
    }
}

/// One character of a rank: a digit skips that many files, a letter puts a piece on the
/// next square, which has to be free.
pub open spec fn rank_char(
    mb: Placement,
    rank: int,
    file: int,
    c: char,
) -> Option<(Placement, int)> {
    match digit_value(c) {
        Some(n) => Some((mb, file + n)),
        None => match lettered(c) {
            Some(piece) => if 0 <= rank * 8 + file < 64 && mb[rank * 8 + file] is None {
                Some((mb.update(rank * 8 + file, Some(piece)), file + 1))
            } else {
                None
            },
            None => None,
        },
    }
}

/// The board and the next file once the characters of a rank have been read.
pub open spec fn rank_read(mb: Placement, rank: int, text: Seq<char>) -> Option<(Placement, int)>
    decreases text.len(),
{
    if text.len() == 0 {
        Some((mb, 0))
    } else {
        match rank_read(mb, rank, text.drop_last()) {
            Some((m, file)) => rank_char(m, rank, file, text.last()),
            None => None,
        }
    }
}

/// The empty board.
pub open spec fn empty_board() -> Placement {
    Seq::new(64, |i: int| None)
}

/// The board once the last `n` ranks of a list have been read, the last one first.
pub open spec fn ranks_read(ranks: Seq<Seq<char>>, n: int) -> Option<Placement>
    decreases n,
{
    if n <= 0 {
        Some(empty_board())
    } else {
        match ranks_read(ranks, n - 1) {
            Some(mb) => match rank_read(mb, n - 1, ranks[ranks.len() - n]) {
                Some((m, _)) => Some(m),
                None => None,
            },
            None => None,
        }
    }
}

/// The board that the first field of a position describes.
pub open spec fn placement_of(text: Seq<char>) -> Option<Placement> {
    let ranks = split(text, '/');
    ranks_read(ranks, ranks.len() as int)
}

/// A field of castling rights holds only the four letters and dashes.
pub open spec fn castling_text(text: Seq<char>) -> bool {
    forall|i: int|
        0 <= i < text.len() ==> {
            let c = #[trigger] text[i];
            c == '-' || c == 'K' || c == 'Q' || c == 'k' || c == 'q'
        }
}

/// The rights whose letters occur in `text`.
pub open spec fn rights_read(text: Seq<char>, rights: CastlingRights) -> bool {
    rights.valid() && forall|c: Castling| #[trigger]
        rights.holds(c) <==> text.contains(c.letter())
}

/// What a position string says.
pub struct FenFields {
    pub mb: Placement,
    pub stm: Side,
    pub castling: Seq<char>,
    pub ep: Option<int>,
    pub half_move: int,
    pub full_move: int,
}

/// What the text of a position says: six fields with blanks between, of which the last
/// three may be missing or unreadable; a turn that is neither `w` nor `b` is White's.
pub open spec fn fen_fields(text: Seq<char>) -> Option<FenFields> {
    let fields = split(text, ' ');
    if fields.len() < 3 || placement_of(fields[0]) is None || !castling_text(fields[2]) {
        None
    } else {
        Some(
            FenFields {
                mb: placement_of(fields[0])->0,
                stm: if fields[1] == seq!['b'] {
                    Side::Black
                } else {
                    Side::White
                },
                castling: fields[2],
                ep: if fields.len() > 3 {
                    square_text(fields[3])
                } else {
                    None
                },
                half_move: if fields.len() > 4 && numeral(fields[4], 255) is Some {
                    numeral(fields[4], 255)->0
                } else {
                    0
                },
                full_move: if fields.len() > 5 && numeral(fields[5], usize::MAX as int) is Some {
                    numeral(fields[5], usize::MAX as int)->0
                } else {
                    0
                },
            },
        )
    }
}

pub proof fn lemma_lettered(s: Side, p: Piece)
    ensures
        lettered(p.letter(s)) == Some((s, p)),
{
    let c = p.letter(s);
    let (t, q) = choose|t: Side, q: Piece| #[trigger] q.letter(t) == c;
    assert(p.letter(s) == c);
    assert(q.letter(t) == c);
}

/// The piece that a letter names.
fn piece_from_letter(c: char) -> (res: Option<(Side, Piece)>)
    ensures
        res == lettered(c),
{
    let side = if 'A' <= c && c <= 'Z' { Side::White } else { Side::Black };
    match Piece::from_char(c) {
        Ok(piece) => {
            proof {
                lemma_lettered(side, piece);
                assert(piece.letter(side) == c);
            }
            Some((side, piece))
        },
        Err(_) => None,
    }
}

impl Board {
    /// Reads one rank onto the board.
    fn read_rank(&mut self, rank: usize, text: &Vec<char>) -> (res: bool)
        requires
            old(self).state.consistent(),
        ensures
            final(self).same_features(*old(self)),
            final(self).state.consistent(),
            final(self).state.key_rest(old(self).zobrist) == old(self).state.key_rest(
                old(self).zobrist,
            ),
            res == rank_read(old(self).state.mb(), rank as int, text@) is Some,
            res ==> final(self).state.mb() == (rank_read(
                old(self).state.mb(),
                rank as int,
                text@,
            )->0).0,
    {
        let ghost start = *self;
        let ghost mb = self.state.mb();
        let mut file: usize = 0;
        let ghost mut f: int = 0;
        let mut i: usize = 0;
        proof {
            assert(text@.take(0) =~= Seq::<char>::empty());
        }
        while i < text.len()
            invariant
                i <= text@.len(),
                start == *old(self),
                file == f || (64 <= file && 64 <= f),
                file <= 73,
                mb == start.state.mb(),
                self.same_features(start),
                self.state.consistent(),
                self.state.key_rest(start.zobrist) == start.state.key_rest(start.zobrist),
                rank_read(mb, rank as int, text@.take(i as int)) == Some(
                    (self.state.mb(), f),
                ),
            decreases text@.len() - i,
        {
            let c: char = text[i];
            let ghost here = self.state.mb();
            proof {
                assert(text@.take(i + 1).drop_last() =~= text@.take(i as int));
                assert(text@.take(i + 1).last() == c);
            }
            if '0' <= c && c <= '9' {
                let skip: usize = (c as u32 - '0' as u32) as usize;
                if file < 64 {
                    file = file + skip;
                }
                proof {
                    f = f + skip;
                }
            } else {
                match piece_from_letter(c) {
                    None => {
                        proof {
                            lemma_rank_stuck(mb, rank as int, text@, i + 1);
                        }
                        return false;
                    },
                    Some((side, piece)) => {
                        if rank >= 8 || rank * 8 + file >= 64 {
                            proof {
                                lemma_rank_stuck(mb, rank as int, text@, i + 1);
                            }
                            return false;
                        }
                        let square = Square::from(rank * 8 + file);
                        if let Some(_) = self.get_piece_at_square(square) {
                            proof {
                                lemma_rank_stuck(mb, rank as int, text@, i + 1);
                            }
                            return false;
                        }
                        proof {
                            crate::board::position::lemma_material_bound(here, side, 64);
                            assert(self.state.material_of(side)
                                == crate::board::position::material(here, side));
                        }
                        self.place_piece(side, piece, square);
                        file = file + 1;
                        proof {
                            f = f + 1;
                        }
                    },
                }
            }
            i += 1;
        }
        assert(text@.take(text@.len() as int) =~= text@);
        true
    }

    /// Reads the first field of a position onto an empty board.
    fn read_placement(&mut self, text: &Vec<char>) -> (res: bool)
        requires
            old(self).state.consistent(),
            old(self).state.mb() == empty_board(),
        ensures
            final(self).same_features(*old(self)),
            final(self).state.consistent(),
            final(self).state.key_rest(old(self).zobrist) == old(self).state.key_rest(
                old(self).zobrist,
            ),
            res == placement_of(text@) is Some,
            res ==> final(self).state.mb() == placement_of(text@)->0,
    {
        let ghost start = *self;
        let ranks = split_on(text, '/');
        let ghost list = split(text@, '/');
        let mut n: usize = 0;
        while n < ranks.len()
            invariant
                n <= ranks@.len(),
                list == split(text@, '/'),
                ranks@.len() == list.len(),
                start == *old(self),
                forall|i: int| 0 <= i < ranks@.len() ==> (#[trigger] ranks@[i])@ == list[i],
                self.same_features(start),
                self.state.consistent(),
                self.state.key_rest(start.zobrist) == start.state.key_rest(start.zobrist),
                ranks_read(list, n as int) == Some(self.state.mb()),
            decreases ranks@.len() - n,
        {
            let j: usize = ranks.len() - n - 1;
            proof {
                assert(ranks@[j as int]@ == list[list.len() - (n + 1)]);
            }
            if !self.read_rank(n, &ranks[j]) {
                proof {
                    assert(ranks_read(list, n + 1) is None);
                    lemma_ranks_stuck(list, n + 1, list.len() as int);
                }
                return false;
            }
            n += 1;
        }
        true
    }
}

/// What cannot be read stays unreadable.
proof fn lemma_rank_stuck(mb: Placement, rank: int, text: Seq<char>, n: int)
    requires
        0 <= n <= text.len(),
        rank_read(mb, rank, text.take(n)) is None,
    ensures
        rank_read(mb, rank, text) is None,
    decreases text.len() - n,
{
    if n < text.len() {
        assert(text.take(n + 1).drop_last() =~= text.take(n));
        lemma_rank_stuck(mb, rank, text, n + 1);
    } else {
        assert(text.take(n) =~= text);
    }
}

proof fn lemma_ranks_stuck(ranks: Seq<Seq<char>>, n: int, m: int)
    requires
        n <= m,
        ranks_read(ranks, n) is None,
    ensures
        ranks_read(ranks, m) is None,
    decreases m - n,
{
    if n < m {
        lemma_ranks_stuck(ranks, n + 1, m);
    }
}

impl Board {
    /// Reads a position without looking at kings, threats or en passant captures.
    pub fn setup_fen(fen_string: &str) -> (res: Result<Self, FenParseError>)
        ensures
            match fen_fields(fen_string@) {
                None => res is Err,
                Some(f) => res matches Ok(b) && {
                    &&& b.state.consistent()
                    &&& b.state.mb() == f.mb
                    &&& b.state.side_to_move == f.stm
                    &&& rights_read(f.castling, b.state.castling_rights)
                    &&& b.state.ep() == f.ep
                    &&& b.state.half_move_clock == f.half_move
                    &&& b.state.full_move == f.full_move
                    &&& b.state.hash == b.state.key(b.zobrist)
                    &&& b.state.threats.0 == 0
                    &&& b.state.checkers.0 == 0
                    &&& b.state.pinned_bb(Side::White).0 == 0
                    &&& b.state.pinned_bb(Side::Black).0 == 0
                    &&& b.state_stack@.len() == 0
                    &&& b.game_history@.len() == 0
                    &&& b.zobrist.as_drawn()
                },
            },
    {
        let mut board = Board::new();
        let chars = chars_of(fen_string);
        let fields = split_on(&chars, ' ');
        let ghost list = split(fen_string@, ' ');
        proof {
            assert forall|i: int| 0 <= i < 64 implies board.state.mb()[i] == empty_board()[i] by {
                assert(is_square(i));
            }
            assert(board.state.mb() =~= empty_board());
            lemma_empty_key(board.zobrist, board.state.mb(), 64);
        }
        if fields.len() < 3 {
            return Err(FenParseError);
        }
        let ghost z = board.zobrist;
        assert(fields@[0]@ == list[0]);
        assert(fields@[1]@ == list[1]);
        assert(fields@[2]@ == list[2]);
        if !board.read_placement(&fields[0]) {
            return Err(FenParseError);
        }
        let ghost placed = board.state;
        if same_text(&fields[1], "b") {
            board.state.side_to_move = Side::Black;
        }
        proof {
            reveal_strlit("b");
            assert("b"@ =~= seq!['b']);
        }
        match read_rights(&fields[2]) {
            None => {
                return Err(FenParseError);
            },
            Some(rights) => {
                board.state.castling_rights = rights;
            },
        }
        if fields.len() > 3 {
            assert(fields@[3]@ == list[3]);
            if fields[3].len() >= 2 {
                if let Ok(square) = Square::from_chars(fields[3][0], fields[3][1]) {
                    board.state.enpassant = Some(square);
                }
            }
        }
        if fields.len() > 4 {
            assert(fields@[4]@ == list[4]);
            if let Some(i) = read_number(&fields[4], 255) {
                board.state.half_move_clock = i as u8;
            }
        }
        if fields.len() > 5 {
            assert(fields@[5]@ == list[5]);
            if let Some(i) = read_number(&fields[5], usize::MAX as u64) {
                board.state.full_move = i as usize;
            }
        }
        let side_num: u64 = if board.state.side_to_move == Side::Black {
            board.zobrist.get_side_num()
        } else {
            0
        };
        let castling_num = board.zobrist.get_castling_num(board.state.castling_rights);
        let passant_num: u64 = match board.state.enpassant {
            Some(square) => board.zobrist.get_enpassant_num(square),
            None => 0,
        };
        let ghost h = board.state.hash;
        board.state.hash = board.state.hash ^ side_num;
        board.state.hash = board.state.hash ^ castling_num;
        board.state.hash = board.state.hash ^ passant_num;
        proof {
            let pk = pieces_key(z, placed.mb());
            lemma_xor(0, 0, 0);
            assert(h ^ pk == 0);
            assert(h ^ side_num ^ castling_num ^ passant_num == pk ^ (side_num ^ castling_num
                ^ passant_num)) by (bit_vector)
                requires
                    h ^ pk == 0,
            ;
            assert(board.state.hash == board.state.key(z));
            crate::board::makemove::lemma_consistent_features(placed, board.state);
        }
        Ok(board)
    }

    /// Reads a position. A square for en passant is kept only where a capture there is
    /// possible; a side without a king is an error.
    pub fn from_fen(fen_string: &str) -> (res: Result<Self, FenParseError>)
        ensures
            match fen_fields(fen_string@) {
                None => res is Err,
                Some(f) => if has_king(f.mb, Side::White) && has_king(f.mb, Side::Black) {
                    res matches Ok(b) && {
                        &&& b.wf()
                        &&& b.state.mb() == f.mb
                        &&& b.state.side_to_move == f.stm
                        &&& rights_read(f.castling, b.state.castling_rights)
                        &&& b.state.ep() == match f.ep {
                            Some(e) => if passant_live(f.mb, f.stm, e) {
                                Some(e)
                            } else {
                                None
                            },
                            None => None,
                        }
                        &&& b.state.half_move_clock == f.half_move
                        &&& b.state.full_move == f.full_move
                        &&& b.state.pinned_bb(f.stm.other()).0 == 0
                        &&& b.state_stack@.len() == 0
                        &&& b.game_history@.len() == 0
                        &&& b.zobrist.as_drawn()
                    }
                } else {
                    res is Err
                },
            },
    {
        match Board::setup_fen(fen_string) {
            Err(e) => Err(e),
            Ok(ready) => {
                let mut board = ready;
                if !board.has_king(Side::White) || !board.has_king(Side::Black) {
                    return Err(FenParseError);
                }
                let ghost before = board.state;
                board.update_all_threats();
                let ghost current = board.state;
                proof {
                    lemma_same_but_threats(before, current, board.zobrist);
                }
                board.update_en_passant();
                proof {
                    crate::board::makemove::lemma_passant_cleared(
                        current,
                        board.state,
                        board.zobrist,
                    );
                }
                Ok(board)
            },
        }
    }

    /// Whether a side has a king.
    fn has_king(&self, side: Side) -> (res: bool)
        requires
            self.state.consistent(),
        ensures
            res == has_king(self.state.mb(), side),
    {
        let kings = self.get_piece_bb(side, Piece::King);
        match kings.least_sig_bit() {
            Some(square) => {
                assert(holds(self.state.mb(), square.idx(), side, Piece::King));
                true
            },
            None => {
                assert forall|k: int| !#[trigger] holds(self.state.mb(), k, side, Piece::King) by {
                    assert(!kings.has(k));
                }
                false
            },
        }
    }
}

/// The key of an empty board is zero.
proof fn lemma_empty_key(z: Zobrist, mb: Placement, n: int)
    requires
        forall|i: int| 0 <= i < n ==> mb[i] is None,
    ensures
        pieces_key_upto(z, mb, n) == 0,
    decreases n,
{
    if n > 0 {
        lemma_empty_key(z, mb, n - 1);
        lemma_xor(0, 0, 0);
    }
}

/// Reads a field of castling rights.
fn read_rights(text: &Vec<char>) -> (res: Option<CastlingRights>)
    ensures
        res is Some <==> castling_text(text@),
        res matches Some(rights) ==> rights_read(text@, rights),
{
    let mut rights = CastlingRights::new();
    let mut i: usize = 0;
    while i < text.len()
        invariant
            i <= text@.len(),
            rights.valid(),
            castling_text(text@.take(i as int)),
            forall|c: Castling| #[trigger]
                rights.holds(c) <==> text@.take(i as int).contains(c.letter()),
        decreases text@.len() - i,
    {
        let c: char = text[i];
        let ghost head = text@.take(i as int);
        let ghost longer = text@.take(i + 1);
        proof {
            assert(longer =~= head.push(c));
            assert forall|x: char| longer.contains(x) <==> head.contains(x) || x == c by {
                if head.contains(x) {
                    let j = choose|j: int| 0 <= j < head.len() && head[j] == x;
                    assert(longer[j] == x);
                }
                if x == c {
                    assert(longer[i as int] == x);
                }
            }
        }
        if c != '-' {
            if c == 'K' || c == 'Q' || c == 'k' || c == 'q' {
                let right = Castling::from(c);
                rights.set(right.mask());
            } else {
                assert(text@[i as int] == c);
                return None;
            }
        }
        i += 1;
    }
    assert(text@.take(text@.len() as int) =~= text@);
    Some(rights)
}

/// The notation of the first `n` files of a rank, and how many empty squares are pending.
pub open spec fn rank_text(mb: Placement, rank: int, n: int) -> (Seq<char>, int)
    decreases n,
{
    if n <= 0 {
        (Seq::empty(), 0)
    } else {
        let (text, empty) = rank_text(mb, rank, n - 1);
        match mb[rank * 8 + n - 1] {
            Some((side, piece)) => (counted(text, empty).push(piece.letter(side)), 0),
            None => (text, empty + 1),
        }
    }
}

/// `text` with the number of empty squares behind it, if there are any.
pub open spec fn counted(text: Seq<char>, empty: int) -> Seq<char> {
    if empty > 0 {
        text.push(digit_char(empty))
    } else {
        text
    }
}

/// The notation of a rank.
pub open spec fn full_rank_text(mb: Placement, rank: int) -> Seq<char> {
    counted(rank_text(mb, rank, 8).0, rank_text(mb, rank, 8).1)
}

/// The notation of the first `n` ranks from the top, with strokes between.
pub open spec fn ranks_text(mb: Placement, n: int) -> Seq<char>
    decreases n,
{
    if n <= 0 {
        Seq::empty()
    } else {
        let head = ranks_text(mb, n - 1);
        let joined = if n > 1 {
            head.push('/')
        } else {
            head
        };
        joined + full_rank_text(mb, 8 - n)
    }
}

/// The notation of an en passant square.
pub open spec fn passant_text(ep: Option<int>) -> Seq<char> {
    match ep {
        Some(e) => Square::name_of(e),
        None => seq!['-'],
    }
}

/// Six fields with blanks between.
pub open spec fn six_fields(
    a: Seq<char>,
    b: Seq<char>,
    c: Seq<char>,
    d: Seq<char>,
    e: Seq<char>,
    f: Seq<char>,
) -> Seq<char> {
    ((((a.push(' ') + b).push(' ') + c).push(' ') + d).push(' ') + e).push(' ') + f
}

/// The notation of a position.
pub open spec fn fen_text(st: BoardState) -> Seq<char> {
    six_fields(
        ranks_text(st.mb(), 8),
        seq![st.side_to_move.letter()],
        st.castling_rights.text(),
        passant_text(st.ep()),
        decimal(st.half_move_clock as nat),
        decimal(st.full_move as nat),
    )
}

impl Board {
    /// Appends the notation of a rank.
    fn push_rank(&self, out: &mut String, rank: usize)
        requires
            rank < 8,
        ensures
            final(out)@ == old(out)@ + full_rank_text(self.state.mb(), rank as int),
    {
        let ghost start = out@;
        let ghost mb = self.state.mb();
        let mut empty: u64 = 0;
        let mut file: usize = 0;
        assert(start + Seq::<char>::empty() =~= start);
        while file < 8
            invariant
                file <= 8,
                rank < 8,
                empty <= file,
                mb == self.state.mb(),
                rank_text(mb, rank as int, file as int).1 == empty,
                out@ == start + rank_text(mb, rank as int, file as int).0,
            decreases 8 - file,
        {
            match self.get_piece_at_square(Square::from_rank_and_file(rank, file)) {
                Some((side, piece)) => {
                    if empty > 0 {
                        out.push(digit_to_char(empty));
                    }
                    empty = 0;
                    out.push(piece.to_char(side));
                },
                None => {
                    empty = empty + 1;
                },
            }
            file += 1;
            assert(out@ =~= start + rank_text(mb, rank as int, file as int).0);
        }
        if empty > 0 {
            out.push(digit_to_char(empty));
        }
        assert(out@ =~= start + full_rank_text(mb, rank as int));
    }

    /// Writes the position down.
    pub fn to_fen(&self) -> (res: String)
        ensures
            res@ == fen_text(self.state),
    {
        let mut fen = String::new();
        let ghost mb = self.state.mb();
        let mut n: usize = 0;
        while n < 8
            invariant
                n <= 8,
                mb == self.state.mb(),
                fen@ == ranks_text(mb, n as int),
            decreases 8 - n,
        {
            if n > 0 {
                fen.push('/');
            }
            self.push_rank(&mut fen, 7 - n);
            n += 1;
        }
        fen.push(' ');
        fen.push(self.state.side_to_move.to_char());
        fen.push(' ');
        let castling = self.state.castling_rights.to_string();
        fen.push_str(castling.as_str());
        fen.push(' ');
        match self.state.enpassant {
            Some(square) => {
                let name = square.to_string();
                fen.push_str(name.as_str());
            },
            None => fen.push('-'),
        }
        fen.push(' ');
        push_decimal(&mut fen, self.state.half_move_clock as u64);
        fen.push(' ');
        push_decimal(&mut fen, self.state.full_move as u64);
        assert(fen@ =~= fen_text(self.state));
        fen
    }
}

/// The promotion that a move text asks for: its characters after the squares are one of
/// the letters `n`, `b`, `r` and `q`.
pub open spec fn promotion_text(s: Seq<char>) -> Option<Piece> {
    if s.len() != 5 {
        None
    } else if s[4] == 'n' {
        Some(Piece::Knight)
    } else if s[4] == 'b' {
        Some(Piece::Bishop)
    } else if s[4] == 'r' {
        Some(Piece::Rook)
    } else if s[4] == 'q' {
        Some(Piece::Queen)
    } else {
        None
    }
}

/// The text names the squares and the promotion of the step.
pub open spec fn move_text(text: Seq<char>, s: Step) -> bool {
    &&& text.len() >= 4
    &&& named_square(text[0], text[1]) == Some(s.from)
    &&& named_square(text[2], text[3]) == Some(s.to)
    &&& promotion_text(text) == s.kind.promoted()
}

#[derive(Clone, Copy, Debug, PartialEq, Eq, Structural)]
pub struct InvalidMove;

impl Board {
    /// The move of the position that a text in long algebraic notation names.
    pub fn parse_move(&self, move_string: &str) -> (res: Result<Move, InvalidMove>)
        requires
            self.wf(),
        ensures
            res matches Ok(m) ==> generated(self.state, m@) && move_text(move_string@, m@),
            res is Err ==> forall|s: Step| #[trigger]
                generated(self.state, s) ==> !move_text(move_string@, s),
    {
        let chars = chars_of(move_string);
        if chars.len() < 4 {
            return Err(InvalidMove);
        }
        let from = match Square::from_chars(chars[0], chars[1]) {
            Ok(square) => square,
            Err(_) => {
                return Err(InvalidMove);
            },
        };
        let to = match Square::from_chars(chars[2], chars[3]) {
            Ok(square) => square,
            Err(_) => {
                return Err(InvalidMove);
            },
        };
        let promotion: Option<Piece> = if chars.len() == 5 {
            match chars[4] {
                'n' => Some(Piece::Knight),
                'b' => Some(Piece::Bishop),
                'r' => Some(Piece::Rook),
                'q' => Some(Piece::Queen),
                _ => None,
            }
        } else {
            None
        };
        let move_list = self.generate_moves(MoveGenKind::All);
        let ghost list = move_list@;
        let mut i: usize = 0;
        while i < move_list.len()
            invariant
                i <= list.len(),
                list == move_list@,
                chars@ == move_string@,
                chars@.len() >= 4,
                promotion == promotion_text(chars@),
                named_square(chars@[0], chars@[1]) == Some(from.idx()),
                named_square(chars@[2], chars@[3]) == Some(to.idx()),
                forall|s: Step| #[trigger] list.contains(s) <==> generated(self.state, s),
                forall|j: int| 0 <= j < i ==> !move_text(chars@, #[trigger] list[j]),
            decreases list.len() - i,
        {
            let mv = move_list.get(i).mv;
            let same_promotion: bool = match (mv.get_promoted_piece(), promotion) {
                (Some(a), Some(b)) => a == b,
                (None, None) => true,
                _ => false,
            };
            if mv.get_from() as usize == from as usize && mv.get_to() as usize == to as usize
                && same_promotion {
                assert(list.contains(mv@));
                return Ok(mv);
            }
            i += 1;
        }
        proof {
            assert forall|s: Step| #[trigger] generated(self.state, s) implies !move_text(
                move_string@,
                s,
            ) by {
                assert(list.contains(s));
            }
        }
        Err(InvalidMove)
    }
}

} // verus!
