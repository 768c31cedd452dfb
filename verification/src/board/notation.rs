//! Writing a position down and reading it back.

use crate::board::BoardState;
use crate::board::makemove::passed;
use crate::board::movegen::generated;
use crate::board::parser::{
    castling_text, counted, empty_board, fen_fields, fen_text, full_rank_text, move_text,
    passant_text, placement_of, rank_read, rank_text, ranks_read, ranks_text, rights_read,
    six_fields,
};
use crate::board::position::{lemma_king_exists, Placement};
use crate::types::bits::{file_of, is_square, rank_of};
use crate::types::moves::{Move, Step};
use crate::types::sides::{Castling, CastlingRights, Side};
use crate::types::squares::{law_square_name, Square};
use crate::types::text::{
    decimal, digit_char, digit_value, lemma_decimal_number, lemma_split_len, numeral, split,
};
use vstd::prelude::*;

verus! {

/// Cutting at a separator cuts into the parts of what is before and after it.
proof fn lemma_split_join(a: Seq<char>, c: char, b: Seq<char>)
    ensures
        split(a.push(c) + b, c) == split(a, c) + split(b, c),
    decreases b.len(),
{
    lemma_split_len(a, c);
    lemma_split_len(b, c);
    if b.len() == 0 {
        assert(a.push(c) + b =~= a.push(c));
        assert(a.push(c).drop_last() =~= a);
        assert(split(a, c) + split(b, c) =~= split(a, c).push(Seq::empty()));
    } else {
        let t = a.push(c) + b;
        assert(t.drop_last() =~= a.push(c) + b.drop_last());
        assert(t.last() == b.last());
        lemma_split_join(a, c, b.drop_last());
        lemma_split_len(b.drop_last(), c);
        let tail = split(b.drop_last(), c);
        let head = split(a, c) + tail;
        assert(head.last() == tail.last());
        assert(head.drop_last() =~= split(a, c) + tail.drop_last());
        assert(split(t, c) =~= split(a, c) + split(b, c));
    }
}

/// A text without the separator is one part.
proof fn lemma_split_whole(s: Seq<char>, c: char)
    requires
        !s.contains(c),
    ensures
        split(s, c) == seq![s],
    decreases s.len(),
{
    if s.len() > 0 {
        assert(s[s.len() - 1] == s.last());
        assert forall|x: char| s.drop_last().contains(x) implies s.contains(x) by {
            let i = choose|i: int| 0 <= i < s.drop_last().len() && s.drop_last()[i] == x;
            assert(s[i] == x);
        }
        lemma_split_whole(s.drop_last(), c);
        assert(split(s, c) =~= seq![s]) by {
            assert(s.drop_last().push(s.last()) =~= s);
        }
    } else {
        assert(s =~= Seq::empty());
    }
}

/// The characters of the notation of a board are neither blanks nor, within a rank,
/// strokes.
spec fn plain_text(s: Seq<char>) -> bool {
    !s.contains(' ') && !s.contains('/')
}

proof fn lemma_push_contains(s: Seq<char>, c: char, x: char)
    ensures
        s.push(c).contains(x) <==> s.contains(x) || c == x,
{
    if s.contains(x) {
        let i = choose|i: int| 0 <= i < s.len() && s[i] == x;
        assert(s.push(c)[i] == x);
    }
    if c == x {
        assert(s.push(c)[s.len() as int] == x);
    }
    if s.push(c).contains(x) && c != x {
        let i = choose|i: int| 0 <= i < s.push(c).len() && s.push(c)[i] == x;
        assert(s[i] == x);
    }
}

proof fn lemma_concat_contains(s: Seq<char>, t: Seq<char>, x: char)
    ensures
        (s + t).contains(x) <==> s.contains(x) || t.contains(x),
{
    if s.contains(x) {
        let i = choose|i: int| 0 <= i < s.len() && s[i] == x;
        assert((s + t)[i] == x);
    }
    if t.contains(x) {
        let i = choose|i: int| 0 <= i < t.len() && t[i] == x;
        assert((s + t)[s.len() + i] == x);
    }
    if (s + t).contains(x) {
        let i = choose|i: int| 0 <= i < (s + t).len() && (s + t)[i] == x;
        if i < s.len() {
            assert(s[i] == x);
        } else {
            assert(t[i - s.len()] == x);
        }
    }
}

proof fn lemma_counted_plain(text: Seq<char>, empty: int)
    requires
        plain_text(text),
    ensures
        plain_text(counted(text, empty)),
{
    lemma_push_contains(text, digit_char(empty), ' ');
    lemma_push_contains(text, digit_char(empty), '/');
}

proof fn lemma_rank_text_plain(mb: Placement, rank: int, n: int)
    ensures
        plain_text(rank_text(mb, rank, n).0),
        n >= 0 ==> 0 <= rank_text(mb, rank, n).1 <= n,
    decreases n,
{
    if n > 0 {
        lemma_rank_text_plain(mb, rank, n - 1);
        let (text, empty) = rank_text(mb, rank, n - 1);
        lemma_counted_plain(text, empty);
        if let Some((side, piece)) = mb[rank * 8 + n - 1] {
            lemma_push_contains(counted(text, empty), piece.letter(side), ' ');
            lemma_push_contains(counted(text, empty), piece.letter(side), '/');
        }
    }
}

proof fn lemma_full_rank_plain(mb: Placement, rank: int)
    ensures
        plain_text(full_rank_text(mb, rank)),
{
    lemma_rank_text_plain(mb, rank, 8);
    lemma_counted_plain(rank_text(mb, rank, 8).0, rank_text(mb, rank, 8).1);
}

/// The board `m` with the first `n` files of a rank taken from `mb`.
spec fn overlaid(m: Placement, mb: Placement, rank: int, n: int) -> Placement {
    Seq::new(
        64,
        |i: int|
            if rank_of(i) == rank && file_of(i) < n {
                mb[i]
            } else {
                m[i]
            },
    )
}

/// Reading what has been written of a rank gives back its squares.
proof fn lemma_rank_read_back(m: Placement, mb: Placement, rank: int, n: int)
    requires
        m.len() == 64,
        mb.len() == 64,
        0 <= rank < 8,
        0 <= n <= 8,
        forall|j: int| 0 <= j < 8 ==> #[trigger] m[rank * 8 + j] is None,
    ensures
        ({
            let (text, empty) = rank_text(mb, rank, n);
            rank_read(m, rank, text) == Some((overlaid(m, mb, rank, n - empty), n - empty))
        }),
        ({
            let (_, empty) = rank_text(mb, rank, n);
            forall|j: int| n - empty <= j < n ==> #[trigger] mb[rank * 8 + j] is None
        }),
    decreases n,
{
    lemma_rank_text_plain(mb, rank, n);
    if n == 0 {
        assert(overlaid(m, mb, rank, 0) =~= m);
    } else {
        let (text, empty) = rank_text(mb, rank, n - 1);
        lemma_rank_text_plain(mb, rank, n - 1);
        lemma_rank_read_back(m, mb, rank, n - 1);
        if let Some((side, piece)) = mb[rank * 8 + n - 1] {
            let whole = counted(text, empty);
            let at = overlaid(m, mb, rank, n - 1 - empty);
            if empty > 0 {
                assert(whole.drop_last() =~= text);
                assert(digit_value(digit_char(empty)) == Some(empty));
            }
            assert(rank_read(m, rank, whole) == Some((at, n - 1)));
            let full = whole.push(piece.letter(side));
            assert(full.drop_last() =~= whole);
            assert(full.last() == piece.letter(side));
            assert(digit_value(piece.letter(side)) is None);
            crate::board::parser::lemma_lettered(side, piece);
            let i = rank * 8 + n - 1;
            assert(m[rank * 8 + (n - 1)] is None);
            assert(at[i] is None);
            assert(at.update(i, Some((side, piece))) =~= overlaid(m, mb, rank, n)) by {
                assert forall|k: int| 0 <= k < 64 implies at.update(
                    i,
                    Some((side, piece)),
                )[k] == overlaid(m, mb, rank, n)[k] by {
                    if rank_of(k) == rank && n - 1 - empty <= file_of(k) < n - 1 {
                        let j = file_of(k);
                        assert(k == rank * 8 + j);
                        assert(mb[rank * 8 + j] is None);
                        assert(m[rank * 8 + j] is None);
                    }
                }
            }
        } else {
            assert forall|j: int| n - (empty + 1) <= j < n implies #[trigger] mb[rank * 8
                + j] is None by {}
        }
    }
}

proof fn lemma_full_rank_read_back(m: Placement, mb: Placement, rank: int)
    requires
        m.len() == 64,
        mb.len() == 64,
        0 <= rank < 8,
        forall|j: int| 0 <= j < 8 ==> #[trigger] m[rank * 8 + j] is None,
    ensures
        rank_read(m, rank, full_rank_text(mb, rank)) == Some((overlaid(m, mb, rank, 8), 8int)),
{
    let (text, empty) = rank_text(mb, rank, 8);
    lemma_rank_text_plain(mb, rank, 8);
    lemma_rank_read_back(m, mb, rank, 8);
    assert(overlaid(m, mb, rank, 8 - empty) =~= overlaid(m, mb, rank, 8)) by {
        assert forall|k: int| 0 <= k < 64 implies overlaid(m, mb, rank, 8 - empty)[k] == overlaid(
            m,
            mb,
            rank,
            8,
        )[k] by {
            if rank_of(k) == rank && 8 - empty <= file_of(k) {
                let j = file_of(k);
                assert(k == rank * 8 + j);
                assert(mb[rank * 8 + j] is None);
                assert(m[rank * 8 + j] is None);
            }
        }
    }
    if empty > 0 {
        assert(counted(text, empty).drop_last() =~= text);
        assert(digit_value(digit_char(empty)) == Some(empty));
    }
}

/// The ranks of a board from the top.
pub open spec fn rank_list(mb: Placement, n: int) -> Seq<Seq<char>> {
    Seq::new(n as nat, |i: int| full_rank_text(mb, 7 - i))
}

pub proof fn lemma_ranks_split(mb: Placement, n: int)
    requires
        1 <= n <= 8,
    ensures
        split(ranks_text(mb, n), '/') == rank_list(mb, n),
        !ranks_text(mb, n).contains(' '),
    decreases n,
{
    let rank = full_rank_text(mb, 8 - n);
    lemma_full_rank_plain(mb, 8 - n);
    lemma_split_whole(rank, '/');
    if n == 1 {
        assert(ranks_text(mb, 0) =~= Seq::<char>::empty());
        assert(ranks_text(mb, 1) =~= rank);
        assert(rank_list(mb, 1) =~= seq![rank]);
    } else {
        lemma_ranks_split(mb, n - 1);
        let head = ranks_text(mb, n - 1);
        lemma_split_join(head, '/', rank);
        lemma_push_contains(head, '/', ' ');
        lemma_concat_contains(head.push('/'), rank, ' ');
        assert(rank_list(mb, n) =~= rank_list(mb, n - 1) + seq![rank]);
    }
}

/// The first `n` ranks of a board from the bottom, and nothing above.
spec fn lower(mb: Placement, n: int) -> Placement {
    Seq::new(
        64,
        |i: int|
            if rank_of(i) < n {
                mb[i]
            } else {
                None
            },
    )
}

proof fn lemma_ranks_read_back(mb: Placement, n: int)
    requires
        mb.len() == 64,
        0 <= n <= 8,
    ensures
        ranks_read(rank_list(mb, 8), n) == Some(lower(mb, n)),
    decreases n,
{
    if n == 0 {
        assert(lower(mb, 0) =~= empty_board());
    } else {
        lemma_ranks_read_back(mb, n - 1);
        let m = lower(mb, n - 1);
        let list = rank_list(mb, 8);
        assert(list[8 - n] == full_rank_text(mb, n - 1));
        lemma_full_rank_read_back(m, mb, n - 1);
        assert(overlaid(m, mb, n - 1, 8) =~= lower(mb, n));
    }
}

/// A board can be read back from its notation.
pub proof fn law_placement_round_trip(mb: Placement)
    requires
        mb.len() == 64,
    ensures
        placement_of(ranks_text(mb, 8)) == Some(mb),
{
    lemma_ranks_split(mb, 8);
    lemma_ranks_read_back(mb, 8);
    assert(lower(mb, 8) =~= mb);
}

/// A number has no blanks in it and reads back as itself.
proof fn lemma_decimal_field(n: nat, max: int)
    requires
        n <= max,
    ensures
        !decimal(n).contains(' '),
        numeral(decimal(n), max) == Some(n as int),
{
    lemma_decimal_number(n);
    let d = decimal(n);
    assert('0' <= d[0] <= '9');
    assert forall|i: int| 0 <= i < d.len() implies d[i] != ' ' by {
        assert('0' <= d[i] <= '9');
    }
}

proof fn lemma_letter(s: Seq<char>, c: char, held: bool, x: char)
    requires
        s == if held {
            seq![c]
        } else {
            Seq::<char>::empty()
        },
    ensures
        s.contains(x) <==> held && x == c,
{
    if held {
        assert(s[0] == c);
    }
}

proof fn lemma_rights_field(rights: CastlingRights)
    requires
        rights.valid(),
    ensures
        !rights.text().contains(' '),
        castling_text(rights.text()),
        rights_read(rights.text(), rights),
{
    let t = rights.text();
    let k = if rights.holds(Castling::WhiteKing) {
        seq!['K']
    } else {
        seq![]
    };
    let q = if rights.holds(Castling::WhiteQueen) {
        seq!['Q']
    } else {
        seq![]
    };
    let bk = if rights.holds(Castling::BlackKing) {
        seq!['k']
    } else {
        seq![]
    };
    let bq = if rights.holds(Castling::BlackQueen) {
        seq!['q']
    } else {
        seq![]
    };
    assert forall|x: char| (k + q + bk + bq).contains(x) <==> k.contains(x) || q.contains(x)
        || bk.contains(x) || bq.contains(x) by {
        lemma_concat_contains(k, q, x);
        lemma_concat_contains(k + q, bk, x);
        lemma_concat_contains(k + q + bk, bq, x);
    }
    assert(rights.holds(Castling::WhiteKing) ==> k[0] == 'K');
    assert(rights.holds(Castling::WhiteQueen) ==> q[0] == 'Q');
    assert(rights.holds(Castling::BlackKing) ==> bk[0] == 'k');
    assert(rights.holds(Castling::BlackQueen) ==> bq[0] == 'q');
    let letters = k + q + bk + bq;
    assert forall|c: Castling| #[trigger] rights.holds(c) <==> t.contains(c.letter()) by {
        let x = c.letter();
        assert(letters.contains(x) <==> k.contains(x) || q.contains(x) || bk.contains(x)
            || bq.contains(x));
        lemma_letter(k, 'K', rights.holds(Castling::WhiteKing), x);
        lemma_letter(q, 'Q', rights.holds(Castling::WhiteQueen), x);
        lemma_letter(bk, 'k', rights.holds(Castling::BlackKing), x);
        lemma_letter(bq, 'q', rights.holds(Castling::BlackQueen), x);
        if letters.len() == 0 {
            assert(!letters.contains(x));
        }
    }
    assert(castling_text(t)) by {
        assert forall|i: int| 0 <= i < t.len() implies {
            let c = #[trigger] t[i];
            c == '-' || c == 'K' || c == 'Q' || c == 'k' || c == 'q'
        } by {
            if letters.len() > 0 {
                assert(letters.contains(letters[i]));
            }
        }
    }
    assert(!t.contains(' '));
}

/// Six fields without blanks are found again.
pub proof fn lemma_six_fields(
    a: Seq<char>,
    b: Seq<char>,
    c: Seq<char>,
    d: Seq<char>,
    e: Seq<char>,
    f: Seq<char>,
)
    requires
        !a.contains(' '),
        !b.contains(' '),
        !c.contains(' '),
        !d.contains(' '),
        !e.contains(' '),
        !f.contains(' '),
    ensures
        split(six_fields(a, b, c, d, e, f), ' ') == seq![a, b, c, d, e, f],
{
    lemma_split_whole(a, ' ');
    lemma_split_whole(b, ' ');
    lemma_split_whole(c, ' ');
    lemma_split_whole(d, ' ');
    lemma_split_whole(e, ' ');
    lemma_split_whole(f, ' ');
    let ab = a.push(' ') + b;
    let abc = ab.push(' ') + c;
    let abcd = abc.push(' ') + d;
    let abcde = abcd.push(' ') + e;
    lemma_split_join(a, ' ', b);
    lemma_split_join(ab, ' ', c);
    lemma_split_join(abc, ' ', d);
    lemma_split_join(abcd, ' ', e);
    lemma_split_join(abcde, ' ', f);
    assert(split(abcde.push(' ') + f, ' ') =~= seq![a, b, c, d, e, f]);
}

/// A position can be read back from its notation: the board, the turn, the castling
/// rights, the en passant square and both clocks.
pub proof fn law_fen_round_trip(st: BoardState)
    requires
        st.castling_rights.valid(),
    ensures
        fen_fields(fen_text(st)) matches Some(f) && {
            &&& f.mb == st.mb()
            &&& f.stm == st.side_to_move
            &&& rights_read(f.castling, st.castling_rights)
            &&& f.ep == st.ep()
            &&& f.half_move == st.half_move_clock
            &&& f.full_move == st.full_move
        },
{
    let a = ranks_text(st.mb(), 8);
    let b = seq![st.side_to_move.letter()];
    let c = st.castling_rights.text();
    let d = passant_text(st.ep());
    let e = decimal(st.half_move_clock as nat);
    let f = decimal(st.full_move as nat);
    law_placement_round_trip(st.mb());
    lemma_ranks_split(st.mb(), 8);
    lemma_rights_field(st.castling_rights);
    lemma_decimal_field(st.half_move_clock as nat, 255);
    lemma_decimal_field(st.full_move as nat, usize::MAX as int);
    assert(!b.contains(' '));
    if let Some(i) = st.ep() {
        law_square_name(i);
        assert(d.len() == 2);
        assert(d[0] != ' ' && d[1] != ' ');
    } else {
        assert(d =~= seq!['-']);
    }
    assert(!d.contains(' '));
    lemma_six_fields(a, b, c, d, e, f);
    assert(b == seq!['b'] <==> st.side_to_move == Side::Black) by {
        assert(b[0] == st.side_to_move.letter());
        assert(seq!['b'][0] == 'b');
    }
}

/// The two squares and the promotion tell the moves of a position apart, so a text in long
/// algebraic notation names no more than one of them.
pub proof fn law_move_named_once(st: BoardState, a: Step, b: Step)
    requires
        st.kings(),
        generated(st, a),
        generated(st, b),
        st.ep() matches Some(e) ==> passed(st.mb(), st.side_to_move, e),
        a.from == b.from,
        a.to == b.to,
        a.kind.promoted() == b.kind.promoted(),
    ensures
        a == b,
{
    let mb = st.mb();
    let stm = st.side_to_move;
    lemma_king_exists(mb, stm);
}

/// The notation of a move names its squares and its promotion.
pub proof fn law_move_text_round_trip(s: Step)
    requires
        is_square(s.from),
        is_square(s.to),
    ensures
        move_text(Move::notation(s), s),
{
    law_square_name(s.from);
    law_square_name(s.to);
    let text = Move::notation(s);
    let squares = Square::name_of(s.from) + Square::name_of(s.to);
    assert(text[0] == Square::name_of(s.from)[0] && text[1] == Square::name_of(s.from)[1]);
    assert(text[2] == Square::name_of(s.to)[0] && text[3] == Square::name_of(s.to)[1]);
}

} // verus!
