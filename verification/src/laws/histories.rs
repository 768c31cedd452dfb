//! What the histories learn, and in which direction: moves that did well rise, moves that were
//! tried in vain fall, and the evaluation is corrected towards the scores of the search.

use crate::board::BoardState;
use crate::board::see::{law_exchange_monotone, wins_exchange};
use crate::board::status::checks_directly;
use crate::laws::decisions::lemma_quotient_order;
use crate::search::data::{cont_updated, cont_value, corrections_taught, SearchData};
use crate::search::learning::{
    bumped, lessons, noisies_taught, noisy_taught, quiet_taught, quiets_taught, standing_of, taught,
    Lessons,
};
use crate::search::movepicker::{
    holds_up, noisy_history_of, noisy_score, quiet_history_of, quiet_score, victim_kind,
};
use crate::types::bitboard::BitBoard;
use crate::types::history::{
    bounded, correction_place, gravity, law_history_bounded, magnitude, noisy_place, pawn_place,
    piece_to_place, quiet_place, quotient,
};
use crate::types::moves::{Move, Step};
use crate::types::pieces::Piece;
use crate::types::sides::Side;
use vstd::prelude::*;

verus! {

/// A bonus raises a value and a negative one lowers it, never beyond the limits of 8000; a
/// value of zero becomes the bonus, the two directions are alike, and the greatest bonus leads
/// to the limit. The value gives up as much of itself as the bonus is of the limit.
pub proof fn law_gravity(value: int, bonus: int)
    requires
        -8000 <= value <= 8000,
    ensures
        bonus >= 0 ==> value <= gravity(value, bonus) <= 8000,
        bonus <= 0 ==> -8000 <= gravity(value, bonus) <= value,
        bonus > 0 && value <= 0 ==> gravity(value, bonus) > value,
        bonus < 0 && value >= 0 ==> gravity(value, bonus) < value,
        -8000 <= bonus <= 8000 ==> gravity(0, bonus) == bonus,
        gravity(-value, -bonus) == -gravity(value, bonus),
        bonus >= 8000 ==> gravity(value, bonus) == 8000,
        bonus <= -8000 ==> gravity(value, bonus) == -8000,
        0 <= bonus <= 8000 ==> -8000 < 8000 * (value + bonus - gravity(value, bonus)) - value
            * bonus < 8000,
{
    law_history_bounded(value, bonus);
    let b = if bonus < -8000 {
        -8000
    } else if bonus > 8000 {
        8000
    } else {
        bonus
    };
    let c = magnitude(b);
    let e = magnitude(value);
    let q = e * c;
    assert(0 <= q <= 8000 * e && q <= 8000 * c && (c == 8000 ==> q == 8000 * e))
        by (nonlinear_arith)
        requires
            q == e * c,
            0 <= e <= 8000,
            0 <= c <= 8000,
    ;
    assert(value * c == if value < 0 {
        -q
    } else {
        q
    }) by (nonlinear_arith)
        requires
            q == e * c,
            e == if value < 0 {
                -value
            } else {
                value
            },
    ;
    assert((-value) * c == -(value * c)) by (nonlinear_arith);
    assert(0 * c == 0);
    assert(magnitude(-b) == c);
    assert(0int / 8000 == 0);
    assert(gravity(0, bonus) == 0 + b - quotient(0 * c, 8000));
}

/// Two quiet moves share a value only if they are of the same side, between the same squares,
/// and each square is attacked for both or for neither.
pub proof fn law_quiet_places(p: BitBoard, q: BitBoard, side: Side, other: Side, s: Step, t: Step)
    requires
        0 <= s.from < 64 && 0 <= s.to < 64,
        0 <= t.from < 64 && 0 <= t.to < 64,
    ensures
        0 <= quiet_place(p, side, s) < 32768,
        quiet_place(p, side, s) == quiet_place(q, other, t) <==> side == other && s.from == t.from
            && s.to == t.to && p.has(s.from) == q.has(t.from) && p.has(s.to) == q.has(t.to),
{
    match side {
        Side::White => {},
        Side::Black => {},
    }
    match other {
        Side::White => {},
        Side::Black => {},
    }
}

/// Two moves share a place among pieces and target squares only if both are the same.
pub proof fn law_piece_places(
    a: Option<(Side, Piece)>,
    b: Option<(Side, Piece)>,
    to: int,
    other: int,
)
    requires
        0 <= to < 64,
        0 <= other < 64,
    ensures
        0 <= piece_to_place(a, to) < 832,
        piece_to_place(a, to) == piece_to_place(b, other) <==> a == b && to == other,
{
    lemma_kind_number(a);
    lemma_kind_number(b);
    if a is Some && b is Some {
        lemma_kinds_apart(a->0, b->0);
    }
}

proof fn lemma_kind_number(a: Option<(Side, Piece)>)
    ensures
        0 <= crate::types::history::piece_number(a) <= 12,
        a is None <==> crate::types::history::piece_number(a) == 12,
{
    if let Some((s, p)) = a {
        assert(0 <= s as int <= 1);
        assert(0 <= p as int <= 5);
    }
}

proof fn lemma_kinds_apart(a: (Side, Piece), b: (Side, Piece))
    ensures
        a.0 as int * 6 + a.1 as int == b.0 as int * 6 + b.1 as int ==> a == b,
{
    assert(0 <= a.1 as int <= 5 && 0 <= b.1 as int <= 5);
    assert(0 <= a.0 as int <= 1 && 0 <= b.0 as int <= 1);
    if a.0 as int * 6 + a.1 as int == b.0 as int * 6 + b.1 as int {
        assert(a.0 as int == b.0 as int);
        assert(a.1 as int == b.1 as int);
    }
}

/// Two noisy moves share a value only if the same piece goes to the same square, takes the same
/// kind or nothing, and the square is attacked for both or for neither.
pub proof fn law_noisy_places(
    a: Option<(Side, Piece)>,
    b: Option<(Side, Piece)>,
    to: int,
    other: int,
    c: Option<Piece>,
    d: Option<Piece>,
    p: BitBoard,
    q: BitBoard,
)
    requires
        0 <= to < 64,
        0 <= other < 64,
    ensures
        0 <= noisy_place(a, to, c, p) < 11648,
        noisy_place(a, to, c, p) == noisy_place(b, other, d, q) <==> a == b && to == other && c == d
            && p.has(to) == q.has(other),
{
    law_piece_places(a, b, to, other);
    let x = match c {
        Some(k) => k as int,
        None => 6,
    };
    let y = match d {
        Some(k) => k as int,
        None => 6,
    };
    assert(0 <= x <= 6 && 0 <= y <= 6);
    assert(c is Some ==> x < 6);
    assert(d is Some ==> y < 6);
    assert(x == y ==> c == d);
}

/// Two quiet moves share a value for the pawns as they stand only if the same piece goes to the
/// same square and the last ten bits of the keys of the pawns are the same.
pub proof fn law_pawn_places(
    key: u64,
    other_key: u64,
    a: Option<(Side, Piece)>,
    b: Option<(Side, Piece)>,
    to: int,
    other: int,
)
    requires
        0 <= to < 64,
        0 <= other < 64,
    ensures
        0 <= pawn_place(key, a, to) < 851968,
        pawn_place(key, a, to) == pawn_place(other_key, b, other) <==> a == b && to == other && key
            % 1024 == other_key % 1024,
{
    law_piece_places(a, b, to, other);
}

/// Two positions share a correction only if the same side is to move and the last fourteen bits
/// of their keys are the same.
pub proof fn law_correction_places(a: Side, b: Side, key: u64, other: u64)
    ensures
        0 <= correction_place(a, key) < 32768,
        correction_place(a, key) == correction_place(b, other) <==> a == b && key % 16384 == other
            % 16384,
{
    match a {
        Side::White => {},
        Side::Black => {},
    }
    match b {
        Side::White => {},
        Side::Black => {},
    }
}

/// No value of the second table is lower.
pub open spec fn no_lower(a: Seq<i16>, b: Seq<i16>) -> bool {
    a.len() == b.len() && forall|i: int| 0 <= i < a.len() ==> a[i] <= #[trigger] b[i]
}

/// A bonus changes one value, in its own direction.
proof fn lemma_bumped(table: Seq<i16>, place: int, bonus: int)
    requires
        bounded(table),
        0 <= place < table.len(),
    ensures
        bounded(bumped(table, place, bonus)),
        bumped(table, place, bonus).len() == table.len(),
        bonus >= 0 ==> no_lower(table, bumped(table, place, bonus)),
        bonus <= 0 ==> no_lower(bumped(table, place, bonus), table),
        bonus > 0 && table[place] <= 0 ==> bumped(table, place, bonus)[place] > table[place],
        bonus < 0 && table[place] >= 0 ==> bumped(table, place, bonus)[place] < table[place],
        forall|i: int|
            0 <= i < table.len() && i != place ==> #[trigger] bumped(table, place, bonus)[i]
                == table[i],
{
    law_gravity(table[place] as int, bonus);
    law_history_bounded(table[place] as int, bonus);
    assert forall|i: int| 0 <= i < table.len() implies -8000 <= #[trigger] bumped(
        table,
        place,
        bonus,
    )[i] <= 8000 by {
        assert(-8000 <= table[i] <= 8000);
    }
}

/// Tables of continuations, of the size and in the range that they always have.
pub open spec fn cont_sound(tables: (Seq<i16>, Seq<i16>)) -> bool {
    &&& tables.0.len() == 692224
    &&& tables.1.len() == 832
    &&& bounded(tables.0)
    &&& bounded(tables.1)
}

/// A bonus for an answer to an earlier move changes the value of that answer only, in its own
/// direction.
pub proof fn law_answer_taught(
    tables: (Seq<i16>, Seq<i16>),
    subtable: Option<usize>,
    place: int,
    bonus: int,
    other: Option<usize>,
    elsewhere: int,
)
    requires
        cont_sound(tables),
        0 <= place < 832,
        0 <= elsewhere < 832,
        subtable matches Some(t) ==> t < 832,
        other matches Some(t) ==> t < 832,
    ensures
        ({
            let after = cont_updated(tables, subtable, place, bonus);
            let then = cont_value(after.0, after.1, subtable, place);
            let now = cont_value(tables.0, tables.1, subtable, place);
            &&& cont_sound(after)
            &&& bonus >= 0 ==> then >= now && no_lower(tables.0, after.0) && no_lower(
                tables.1,
                after.1,
            )
            &&& bonus <= 0 ==> then <= now && no_lower(after.0, tables.0) && no_lower(
                after.1,
                tables.1,
            )
            &&& bonus > 0 && now <= 0 ==> then > now
            &&& bonus < 0 && now >= 0 ==> then < now
            &&& (other, elsewhere) != (subtable, place) ==> cont_value(
                after.0,
                after.1,
                other,
                elsewhere,
            ) == cont_value(tables.0, tables.1, other, elsewhere)
        }),
{
    let after = cont_updated(tables, subtable, place, bonus);
    match subtable {
        Some(t) => {
            lemma_bumped(tables.0, t * 832 + place, bonus);
            assert(after.0 == bumped(tables.0, t * 832 + place, bonus));
        },
        None => {
            lemma_bumped(tables.1, place, bonus);
            assert(after.1 == bumped(tables.1, place, bonus));
        },
    }
}

/// The histories have their sizes and ranges.
pub open spec fn sound(l: Lessons) -> bool {
    &&& l.quiet.len() == 32768 && bounded(l.quiet)
    &&& l.noisy.len() == 11648 && bounded(l.noisy)
    &&& l.pawn.len() == 851968 && bounded(l.pawn)
    &&& cont_sound(l.cont)
}

/// The histories of a worker have their sizes and ranges.
pub proof fn lemma_sound(d: SearchData)
    requires
        d.wf(),
    ensures
        sound(lessons(d)),
{
}

/// A bonus for a quiet move raises what its histories say of it, as such, with the pawns as
/// they stand, and as an answer to the moves one, two and four plies before. A negative bonus
/// lowers them. The histories of noisy moves do not change.
pub proof fn law_quiet_taught(
    l: Lessons,
    d: SearchData,
    m: Move,
    bonus: int,
    cont_bonus: int,
    ply: int,
    index: int,
)
    requires
        d.wf(),
        sound(l),
        0 <= ply <= 127,
        index == 1 || index == 2 || index == 4,
    ensures
        ({
            let after = quiet_taught(l, d, m@, bonus, cont_bonus, ply);
            let st = d.board.state;
            let q = quiet_place(st.threats, st.side_to_move, m@);
            let p = pawn_place(d.pawn_key_spec(), st.mb()[m@.from], m@.to);
            let sub = d.stack.at(ply - index).conthistory;
            let then = cont_value(after.cont.0, after.cont.1, sub, d.place_of(m@));
            let now = cont_value(l.cont.0, l.cont.1, sub, d.place_of(m@));
            &&& sound(after)
            &&& after.noisy == l.noisy
            &&& bonus > 0 ==> after.quiet[q] >= l.quiet[q] && after.pawn[p] >= l.pawn[p]
            &&& bonus > 0 && l.quiet[q] <= 0 ==> after.quiet[q] > l.quiet[q]
            &&& bonus > 0 && l.pawn[p] <= 0 ==> after.pawn[p] > l.pawn[p]
            &&& bonus < 0 ==> after.quiet[q] <= l.quiet[q] && after.pawn[p] <= l.pawn[p]
            &&& bonus < 0 && l.quiet[q] >= 0 ==> after.quiet[q] < l.quiet[q]
            &&& bonus < 0 && l.pawn[p] >= 0 ==> after.pawn[p] < l.pawn[p]
            &&& cont_bonus > 0 ==> then >= now && (now <= 0 ==> then > now)
            &&& cont_bonus < 0 ==> then <= now && (now >= 0 ==> then < now)
            &&& forall|i: int|
                0 <= i < 32768 && i != q ==> #[trigger] after.quiet[i] == l.quiet[i]
            &&& forall|i: int|
                0 <= i < 851968 && i != p ==> #[trigger] after.pawn[i] == l.pawn[i]
        }),
{
    let st = d.board.state;
    let s = m@;
    m.lemma_squares();
    law_quiet_places(st.threats, st.threats, st.side_to_move, st.side_to_move, s, s);
    law_pawn_places(
        d.pawn_key_spec(),
        d.pawn_key_spec(),
        st.mb()[s.from],
        st.mb()[s.from],
        s.to,
        s.to,
    );
    law_piece_places(st.mb()[s.from], st.mb()[s.from], s.to, s.to);
    lemma_bumped(l.quiet, quiet_place(st.threats, st.side_to_move, s), bonus);
    lemma_bumped(l.pawn, pawn_place(d.pawn_key_spec(), st.mb()[s.from], s.to), bonus);
    let place = d.place_of(s);
    let a = d.stack.at(ply - 1).conthistory;
    let b = d.stack.at(ply - 2).conthistory;
    let c = d.stack.at(ply - 4).conthistory;
    assert(d.stack.data_spec()[ply - 1 + 8].wf());
    assert(d.stack.data_spec()[ply - 2 + 8].wf());
    assert(d.stack.data_spec()[ply - 4 + 8].wf());
    let sub = d.stack.at(ply - index).conthistory;
    let one = cont_updated(l.cont, a, place, cont_bonus);
    let two = cont_updated(one, b, place, cont_bonus);
    law_answer_taught(l.cont, a, place, cont_bonus, sub, place);
    law_answer_taught(one, b, place, cont_bonus, sub, place);
    law_answer_taught(two, c, place, cont_bonus, sub, place);
}

/// What a series of negative bonuses for quiet moves does to the value at a place.
proof fn lemma_quiets_taught(
    l: Lessons,
    d: SearchData,
    moves: Seq<Move>,
    n: int,
    bonus: int,
    cont_bonus: int,
    ply: int,
    p: int,
)
    requires
        d.wf(),
        sound(l),
        0 <= ply <= 127,
        0 <= n <= moves.len(),
        bonus < 0,
        0 <= p < 32768,
    ensures
        ({
            let after = quiets_taught(l, d, moves, n, bonus, cont_bonus, ply);
            let st = d.board.state;
            &&& sound(after)
            &&& after.noisy == l.noisy
            &&& after.quiet[p] <= l.quiet[p]
            &&& (forall|i: int|
                0 <= i < n ==> quiet_place(st.threats, st.side_to_move, (#[trigger] moves[i])@)
                    != p) ==> after.quiet[p] == l.quiet[p]
            &&& (exists|i: int|
                0 <= i < n && quiet_place(st.threats, st.side_to_move, (#[trigger] moves[i])@)
                    == p) && l.quiet[p] >= 0 ==> after.quiet[p] < l.quiet[p]
        }),
    decreases n,
{
    if n > 0 {
        lemma_quiets_taught(l, d, moves, n - 1, bonus, cont_bonus, ply, p);
        let before = quiets_taught(l, d, moves, n - 1, bonus, cont_bonus, ply);
        law_quiet_taught(before, d, moves[n - 1], bonus, cont_bonus, ply, 1);
        let st = d.board.state;
        let last = quiet_place(st.threats, st.side_to_move, moves[n - 1]@);
        if last != p {
            if exists|i: int|
                0 <= i < n && quiet_place(st.threats, st.side_to_move, (#[trigger] moves[i])@)
                    == p {
                let i = choose|i: int|
                    0 <= i < n && quiet_place(st.threats, st.side_to_move, (#[trigger] moves[i])@)
                        == p;
                assert(i < n - 1);
            }
        } else if !exists|i: int|
            0 <= i < n - 1 && quiet_place(st.threats, st.side_to_move, (#[trigger] moves[i])@)
                == p {
            assert(before.quiet[p] == l.quiet[p]);
        }
    }
}

/// The place of a noisy move of the position.
pub open spec fn noisy_place_of(d: SearchData, s: Step) -> int {
    let st = d.board.state;
    noisy_place(st.mb()[s.from], s.to, victim_kind(st, s), st.threats)
}

/// A bonus for a noisy move changes what its history says of it, in its own direction, and
/// nothing else.
pub proof fn law_noisy_taught(l: Lessons, d: SearchData, m: Move, bonus: int)
    requires
        sound(l),
    ensures
        ({
            let after = noisy_taught(l, d, m@, bonus);
            let p = noisy_place_of(d, m@);
            &&& sound(after)
            &&& after.quiet == l.quiet && after.pawn == l.pawn && after.cont == l.cont
            &&& bonus > 0 ==> after.noisy[p] >= l.noisy[p] && (l.noisy[p] <= 0 ==> after.noisy[p]
                > l.noisy[p])
            &&& bonus < 0 ==> after.noisy[p] <= l.noisy[p] && (l.noisy[p] >= 0 ==> after.noisy[p]
                < l.noisy[p])
            &&& l.noisy[p] == 0 && -8000 <= bonus <= 8000 ==> after.noisy[p] == bonus
            &&& forall|i: int|
                0 <= i < 11648 && i != p ==> #[trigger] after.noisy[i] == l.noisy[i]
        }),
{
    let st = d.board.state;
    let s = m@;
    m.lemma_squares();
    law_noisy_places(
        st.mb()[s.from],
        st.mb()[s.from],
        s.to,
        s.to,
        victim_kind(st, s),
        victim_kind(st, s),
        st.threats,
        st.threats,
    );
    law_gravity(0, bonus);
    lemma_bumped(l.noisy, noisy_place_of(d, s), bonus);
}

proof fn lemma_noisies_taught(
    l: Lessons,
    d: SearchData,
    moves: Seq<Move>,
    n: int,
    bonus: int,
    p: int,
)
    requires
        sound(l),
        0 <= n <= moves.len(),
        bonus < 0,
        0 <= p < 11648,
    ensures
        ({
            let after = noisies_taught(l, d, moves, n, bonus);
            &&& sound(after)
            &&& after.quiet == l.quiet && after.pawn == l.pawn && after.cont == l.cont
            &&& after.noisy[p] <= l.noisy[p]
            &&& (forall|i: int|
                0 <= i < n ==> noisy_place_of(d, (#[trigger] moves[i])@) != p) ==> after.noisy[p]
                == l.noisy[p]
            &&& (exists|i: int|
                0 <= i < n && noisy_place_of(d, (#[trigger] moves[i])@) == p) && l.noisy[p] >= 0
                ==> after.noisy[p] < l.noisy[p]
        }),
    decreases n,
{
    if n > 0 {
        lemma_noisies_taught(l, d, moves, n - 1, bonus, p);
        let before = noisies_taught(l, d, moves, n - 1, bonus);
        law_noisy_taught(before, d, moves[n - 1], bonus);
        if noisy_place_of(d, moves[n - 1]@) != p {
            if exists|i: int| 0 <= i < n && noisy_place_of(d, (#[trigger] moves[i])@) == p {
                let i = choose|i: int|
                    0 <= i < n && noisy_place_of(d, (#[trigger] moves[i])@) == p;
                assert(i < n - 1);
            }
        } else if !exists|i: int|
            0 <= i < n - 1 && noisy_place_of(d, (#[trigger] moves[i])@) == p {
            assert(before.noisy[p] == l.noisy[p]);
        }
    }
}

/// After a node whose best move is quiet, that move stands no lower among the quiet moves, and
/// higher if it stood at zero or below, unless a move between the same squares was tried before
/// it. Every other quiet move that was tried before it stands no higher, and lower if it stood
/// at zero or above. Every noisy move that was tried stands no higher either. Quiet moves that
/// were not tried stand as before.
pub proof fn law_quiet_best_taught(
    d: SearchData,
    best: Move,
    depth: int,
    ply: int,
    quiets: Seq<Move>,
    noisies: Seq<Move>,
    tried: Move,
)
    requires
        d.wf(),
        best@.kind.quiet(),
        1 <= depth,
        0 <= ply <= 127,
        (tried@.from, tried@.to) != (best@.from, best@.to),
    ensures
        ({
            let before = lessons(d);
            let after = taught(d, best@, depth, ply, quiets, noisies);
            let st = d.board.state;
            let b = quiet_place(st.threats, st.side_to_move, best@);
            let t = quiet_place(st.threats, st.side_to_move, tried@);
            let n = noisy_place_of(d, tried@);
            &&& (forall|i: int|
                0 <= i < quiets.len() ==> ((#[trigger] quiets[i])@.from, quiets[i]@.to) != (
                    best@.from,
                    best@.to,
                )) ==> after.quiet[b] >= before.quiet[b] && (before.quiet[b] <= 0 ==> after.quiet[b]
                > before.quiet[b])
            &&& after.quiet[t] <= before.quiet[t]
            &&& quiets.contains(tried) && before.quiet[t] >= 0 ==> after.quiet[t] < before.quiet[t]
            &&& (forall|i: int|
                0 <= i < quiets.len() ==> ((#[trigger] quiets[i])@.from, quiets[i]@.to) != (
                    tried@.from,
                    tried@.to,
                )) ==> after.quiet[t] == before.quiet[t]
            &&& after.noisy[n] <= before.noisy[n]
            &&& noisies.contains(tried) && before.noisy[n] >= 0 ==> after.noisy[n] < before.noisy[n]
        }),
{
    let st = d.board.state;
    let b = quiet_place(st.threats, st.side_to_move, best@);
    let t = quiet_place(st.threats, st.side_to_move, tried@);
    let before = lessons(d);
    lemma_sound(d);
    best.lemma_squares();
    tried.lemma_squares();
    let lesser_bonus = crate::search::pruning::lesser(325 * depth, 947) - 225;
    let lesser_malus = crate::search::pruning::lesser(289 * depth, 948) - 235;
    let noisy_malus = crate::search::pruning::lesser(298 * depth, 938) - 271;
    let cont_bonus = crate::search::pruning::lesser(315 * depth, 1056) - 194;
    let cont_malus = crate::search::pruning::lesser(305 * depth, 1082) - 270;
    let one = quiet_taught(before, d, best@, lesser_bonus, cont_bonus, ply);
    law_quiet_taught(before, d, best, lesser_bonus, cont_bonus, ply, 1);
    let n = quiets.len() as int;
    let two = quiets_taught(one, d, quiets, n, -lesser_malus, -cont_malus, ply);
    law_quiet_places(st.threats, st.threats, st.side_to_move, st.side_to_move, best@, tried@);
    law_quiet_places(st.threats, st.threats, st.side_to_move, st.side_to_move, tried@, tried@);
    lemma_quiets_taught(one, d, quiets, n, -lesser_malus, -cont_malus, ply, b);
    lemma_quiets_taught(one, d, quiets, n, -lesser_malus, -cont_malus, ply, t);
    law_noisy_taught(two, d, tried, -noisy_malus);
    law_noisy_places(
        st.mb()[tried@.from],
        st.mb()[tried@.from],
        tried@.to,
        tried@.to,
        victim_kind(st, tried@),
        victim_kind(st, tried@),
        st.threats,
        st.threats,
    );
    let p = noisy_place_of(d, tried@);
    lemma_noisies_taught(two, d, noisies, noisies.len() as int, -noisy_malus, p);
    assert forall|i: int| 0 <= i < n implies (quiet_place(
        st.threats,
        st.side_to_move,
        (#[trigger] quiets[i])@,
    ) == b <==> (quiets[i]@.from, quiets[i]@.to) == (best@.from, best@.to)) && (quiet_place(
        st.threats,
        st.side_to_move,
        quiets[i]@,
    ) == t <==> (quiets[i]@.from, quiets[i]@.to) == (tried@.from, tried@.to)) by {
        quiets[i].lemma_squares();
        law_quiet_places(
            st.threats,
            st.threats,
            st.side_to_move,
            st.side_to_move,
            quiets[i]@,
            best@,
        );
        law_quiet_places(
            st.threats,
            st.threats,
            st.side_to_move,
            st.side_to_move,
            quiets[i]@,
            tried@,
        );
    }
    if quiets.contains(tried) {
        let i = choose|i: int| 0 <= i < n && quiets[i] == tried;
        assert(quiet_place(st.threats, st.side_to_move, quiets[i]@) == t);
    }
    if noisies.contains(tried) {
        let i = choose|i: int| 0 <= i < noisies.len() && noisies[i] == tried;
        assert(noisy_place_of(d, noisies[i]@) == p);
    }
}

/// After a node whose best move is noisy, that move stands no lower among the noisy moves, and
/// higher if it stood at zero or below, unless one with the same place was tried before it.
/// Every other noisy move that was tried stands no higher, and lower if it stood at zero or
/// above. Nothing is learned of quiet moves.
pub proof fn law_noisy_best_taught(
    d: SearchData,
    best: Move,
    depth: int,
    ply: int,
    quiets: Seq<Move>,
    noisies: Seq<Move>,
    tried: Move,
)
    requires
        d.wf(),
        !best@.kind.quiet(),
        1 <= depth,
        noisy_place_of(d, tried@) != noisy_place_of(d, best@),
    ensures
        ({
            let before = lessons(d);
            let after = taught(d, best@, depth, ply, quiets, noisies);
            let b = noisy_place_of(d, best@);
            let t = noisy_place_of(d, tried@);
            &&& (forall|i: int|
                0 <= i < noisies.len() ==> noisy_place_of(d, (#[trigger] noisies[i])@) != b)
                ==> after.noisy[b] >= before.noisy[b] && (before.noisy[b] <= 0 ==> after.noisy[b]
                > before.noisy[b])
            &&& after.noisy[t] <= before.noisy[t]
            &&& noisies.contains(tried) && before.noisy[t] >= 0 ==> after.noisy[t] < before.noisy[t]
            &&& after.quiet == before.quiet && after.pawn == before.pawn && after.cont
                == before.cont
        }),
{
    let before = lessons(d);
    lemma_sound(d);
    let noisy_bonus = crate::search::pruning::lesser(253 * depth, 1060) - 190;
    let noisy_malus = crate::search::pruning::lesser(298 * depth, 938) - 271;
    let one = noisy_taught(before, d, best@, noisy_bonus);
    law_noisy_taught(before, d, best, noisy_bonus);
    law_noisy_taught(one, d, tried, -noisy_malus);
    let n = noisies.len() as int;
    let st = d.board.state;
    best.lemma_squares();
    tried.lemma_squares();
    law_noisy_places(
        st.mb()[tried@.from],
        st.mb()[best@.from],
        tried@.to,
        best@.to,
        victim_kind(st, tried@),
        victim_kind(st, best@),
        st.threats,
        st.threats,
    );
    law_noisy_places(
        st.mb()[best@.from],
        st.mb()[best@.from],
        best@.to,
        best@.to,
        victim_kind(st, best@),
        victim_kind(st, best@),
        st.threats,
        st.threats,
    );
    lemma_noisies_taught(one, d, noisies, n, -noisy_malus, noisy_place_of(d, best@));
    lemma_noisies_taught(one, d, noisies, n, -noisy_malus, noisy_place_of(d, tried@));
    if noisies.contains(tried) {
        let i = choose|i: int| 0 <= i < n && noisies[i] == tried;
        assert(noisy_place_of(d, noisies[i]@) == noisy_place_of(d, tried@));
    }
}

/// The bonus for a correction has the sign of the difference, grows with it and with the depth,
/// and stays between two limits.
pub proof fn law_correction_bonus(diff: int, more: int, depth: int, deeper: int)
    requires
        diff <= more,
        0 <= depth <= deeper,
    ensures
        SearchData::correction_bonus(diff, depth) <= SearchData::correction_bonus(more, depth),
        diff >= 0 ==> 0 <= SearchData::correction_bonus(diff, depth)
            <= SearchData::correction_bonus(diff, deeper),
        diff <= 0 ==> SearchData::correction_bonus(diff, deeper) <= SearchData::correction_bonus(
            diff,
            depth,
        ) <= 0,
        diff >= 1 && depth >= 1 ==> SearchData::correction_bonus(diff, depth) >= 1,
        diff <= -1 && depth >= 1 ==> SearchData::correction_bonus(diff, depth) <= -1,
        -4605 <= SearchData::correction_bonus(diff, depth) <= 2548,
{
    let k = 157 * depth;
    let j = 157 * deeper;
    assert(k * diff <= k * more) by (nonlinear_arith)
        requires
            0 <= k,
            diff <= more,
    ;
    assert(diff >= 0 ==> 0 <= k * diff <= j * diff) by (nonlinear_arith)
        requires
            0 <= k <= j,
    ;
    assert(diff <= 0 ==> j * diff <= k * diff <= 0) by (nonlinear_arith)
        requires
            0 <= k <= j,
    ;
    assert(diff >= 1 && k >= 157 ==> k * diff >= 157) by (nonlinear_arith);
    assert(diff <= -1 && k >= 157 ==> k * diff <= -157) by (nonlinear_arith);
    lemma_quotient_order(k * diff, k * more, 128);
    if diff >= 0 {
        lemma_quotient_order(k * diff, j * diff, 128);
        lemma_quotient_order(0, k * diff, 128);
    } else {
        lemma_quotient_order(j * diff, k * diff, 128);
        lemma_quotient_order(k * diff, 0, 128);
    }
}

/// What the search has found out moves the evaluation of the position towards its score: a
/// score above the evaluation never lowers the correction, and one below never raises it.
pub proof fn law_corrected_towards(a: SearchData, b: SearchData, diff: int, depth: int, ply: int)
    requires
        a.wf(),
        0 <= ply <= 127,
        0 <= depth,
        corrections_taught(a, b, diff, depth, ply),
    ensures
        diff >= 0 ==> b.correction_of(ply) >= a.correction_of(ply),
        diff <= 0 ==> b.correction_of(ply) <= a.correction_of(ply),
{
    let stm = a.board.state.side_to_move;
    let bonus = SearchData::correction_bonus(diff, depth);
    law_correction_bonus(diff, diff, depth, depth);
    let x = a.shared.history;
    let y = b.shared.history;
    let p = a.pawn_key_spec();
    let w = a.non_pawn_key_spec(Side::White);
    let k = a.non_pawn_key_spec(Side::Black);
    law_correction_places(stm, stm, p, p);
    law_correction_places(stm, stm, w, w);
    law_correction_places(stm, stm, k, k);
    lemma_bumped(x.pawn.table(), correction_place(stm, p), bonus);
    lemma_bumped(x.non_pawn_white.table(), correction_place(stm, w), bonus);
    lemma_bumped(x.non_pawn_black.table(), correction_place(stm, k), bonus);
    assert(y.pawn.table() == bumped(x.pawn.table(), correction_place(stm, p), bonus));
    assert(y.non_pawn_white.table() == bumped(
        x.non_pawn_white.table(),
        correction_place(stm, w),
        bonus,
    ));
    assert(y.non_pawn_black.table() == bumped(
        x.non_pawn_black.table(),
        correction_place(stm, k),
        bonus,
    ));
    let last = a.stack.at(ply - 1);
    let start = (a.contcorrhistory.table(), a.stack.spare());
    let one = a.contcorrection_after(start, ply, 2, bonus);
    let two = a.contcorrection_after(one, ply, 4, bonus);
    let place = piece_to_place(last.piece, last.m@.to);
    last.m.lemma_squares();
    law_piece_places(last.piece, last.piece, last.m@.to, last.m@.to);
    assert(a.stack.data_spec()[ply - 2 + 8].wf());
    assert(a.stack.data_spec()[ply - 4 + 8].wf());
    let s = a.stack.at(ply - 2).contcorrhistory;
    let t = a.stack.at(ply - 4).contcorrhistory;
    assert(cont_sound(start));
    law_answer_taught(start, s, place, bonus, s, place);
    law_answer_taught(start, t, place, bonus, s, place);
    law_answer_taught(one, t, place, bonus, s, place);
    assert(b.stack.at(ply - 1) == a.stack.at(ply - 1));
    assert(b.stack.at(ply - 2) == a.stack.at(ply - 2));
    assert(b.stack.at(ply - 4) == a.stack.at(ply - 4));
    assert(two == (b.contcorrhistory.table(), b.stack.spare()));
    assert(diff >= 0 ==> no_lower(start.0, two.0) && no_lower(start.1, two.1)) by {
        lemma_no_lower(start, one, two);
    }
    assert(diff <= 0 ==> no_lower(two.0, start.0) && no_lower(two.1, start.1)) by {
        lemma_no_lower(two, one, start);
    }
    assert(diff >= 0 ==> b.contcorrection_of(ply, 2) >= a.contcorrection_of(ply, 2)
        && b.contcorrection_of(ply, 4) >= a.contcorrection_of(ply, 4));
    assert(diff <= 0 ==> b.contcorrection_of(ply, 2) <= a.contcorrection_of(ply, 2)
        && b.contcorrection_of(ply, 4) <= a.contcorrection_of(ply, 4));
    let total = |d: SearchData|
        d.shared.history.pawn.table()[correction_place(stm, p)]
            + d.shared.history.non_pawn_white.table()[correction_place(stm, w)]
            + d.shared.history.non_pawn_black.table()[correction_place(stm, k)]
            + d.contcorrection_of(ply, 2) + d.contcorrection_of(ply, 4);
    if diff >= 0 {
        lemma_quotient_order(total(a), total(b), 64);
    }
    if diff <= 0 {
        lemma_quotient_order(total(b), total(a), 64);
    }
}

proof fn lemma_no_lower(a: (Seq<i16>, Seq<i16>), b: (Seq<i16>, Seq<i16>), c: (Seq<i16>, Seq<i16>))
    ensures
        no_lower(a.0, b.0) && no_lower(b.0, c.0) ==> no_lower(a.0, c.0),
        no_lower(a.1, b.1) && no_lower(b.1, c.1) ==> no_lower(a.1, c.1),
{
    if no_lower(a.0, b.0) && no_lower(b.0, c.0) {
        assert forall|i: int| 0 <= i < a.0.len() implies a.0[i] <= #[trigger] c.0[i] by {
            assert(a.0[i] <= b.0[i]);
        }
    }
    if no_lower(a.1, b.1) && no_lower(b.1, c.1) {
        assert forall|i: int| 0 <= i < a.1.len() implies a.1[i] <= #[trigger] c.1[i] by {
            assert(a.1[i] <= b.1[i]);
        }
    }
}

/// Nothing has been learned: the evaluation is not corrected, and no move stands higher than
/// another.
pub proof fn law_nothing_learned(d: SearchData, s: Step, ply: int)
    requires
        d.wf(),
        d.is_fresh(),
        d.shared.history.is_clear(),
        0 <= ply <= 127,
        0 <= s.from < 64,
        0 <= s.to < 64,
    ensures
        d.correction_of(ply) == 0,
        standing_of(d, s, ply) == 0,
{
    let st = d.board.state;
    let stm = st.side_to_move;
    let p = d.pawn_key_spec();
    let w = d.non_pawn_key_spec(Side::White);
    let k = d.non_pawn_key_spec(Side::Black);
    law_correction_places(stm, stm, p, p);
    law_correction_places(stm, stm, w, w);
    law_correction_places(stm, stm, k, k);
    law_quiet_places(st.threats, st.threats, stm, stm, s, s);
    law_noisy_places(
        st.mb()[s.from],
        st.mb()[s.from],
        s.to,
        s.to,
        victim_kind(st, s),
        victim_kind(st, s),
        st.threats,
        st.threats,
    );
    law_piece_places(st.mb()[s.from], st.mb()[s.from], s.to, s.to);
    assert(d.stack.at(ply - 1).is_blank());
    assert(d.stack.at(ply - 2).is_blank());
    assert(0int / 64 == 0);
}

/// A noisy move is tried the earlier the more the piece is worth that it takes, and the better
/// it has done; a promotion to a queen counts for almost five thousand.
pub proof fn law_noisy_score(d: SearchData, s: Step, t: Step)
    requires
        noisy_history_of(d, s) <= noisy_history_of(d, t),
    ensures
        s.kind.promoted() == t.kind.promoted() && victim_kind(d.board.state, s) == victim_kind(
            d.board.state,
            t,
        ) ==> noisy_score(d, s) <= noisy_score(d, t),
        s.kind.promoted() == t.kind.promoted() && (victim_kind(d.board.state, s) matches Some(p)
            && victim_kind(d.board.state, t) matches Some(q) && p.worth() <= q.worth())
            ==> noisy_score(d, t) - noisy_score(d, s) >= (victim_kind(
            d.board.state,
            t,
        )->0).worth() - (victim_kind(d.board.state, s)->0).worth(),
        s.kind.promoted() is None && t.kind.promoted() == Some(Piece::Queen) && victim_kind(
            d.board.state,
            s,
        ) == victim_kind(d.board.state, t) ==> noisy_score(d, t) >= noisy_score(d, s) + 4885,
{
    lemma_quotient_order(noisy_history_of(d, s), noisy_history_of(d, t), 8);
}

/// A quiet move is tried the earlier the better it has done, as such, with the pawns as they
/// stand, and as an answer to the moves one, two and four plies before. A direct check counts
/// for 9779.
pub proof fn law_quiet_score(d: SearchData, s: Step, t: Step, ply: int)
    requires
        quiet_history_of(d, s) <= quiet_history_of(d, t),
        d.pawn_history.table()[pawn_place(
            d.pawn_key_spec(),
            d.board.state.mb()[s.from],
            s.to,
        )] <= d.pawn_history.table()[pawn_place(
            d.pawn_key_spec(),
            d.board.state.mb()[t.from],
            t.to,
        )],
        d.conthistory_of(s, ply, 1) <= d.conthistory_of(t, ply, 1),
        d.conthistory_of(s, ply, 2) <= d.conthistory_of(t, ply, 2),
        d.conthistory_of(s, ply, 4) <= d.conthistory_of(t, ply, 4),
    ensures
        checks_directly(d.board.state.mb(), s) == checks_directly(d.board.state.mb(), t)
            ==> quiet_score(d, t, ply) - quiet_score(d, s, ply) >= quiet_history_of(d, t)
            - quiet_history_of(d, s),
        !checks_directly(d.board.state.mb(), s) && checks_directly(d.board.state.mb(), t)
            ==> quiet_score(d, t, ply) >= quiet_score(d, s, ply) + 9779,
{
    let mb = d.board.state.mb();
    let p = d.pawn_history.table()[pawn_place(d.pawn_key_spec(), mb[s.from], s.to)];
    let q = d.pawn_history.table()[pawn_place(d.pawn_key_spec(), mb[t.from], t.to)];
    lemma_quotient_order(1006 * p, 1006 * q, 1024);
    lemma_quotient_order(
        1602 * d.conthistory_of(s, ply, 1),
        1602 * d.conthistory_of(t, ply, 1),
        1024,
    );
    lemma_quotient_order(
        1059 * d.conthistory_of(s, ply, 2),
        1059 * d.conthistory_of(t, ply, 2),
        1024,
    );
    lemma_quotient_order(
        1066 * d.conthistory_of(s, ply, 4),
        1066 * d.conthistory_of(t, ply, 4),
        1024,
    );
}

/// The score of a quiet move is the weighted sum of what its histories say of it, in 1024ths,
/// but for what is lost to rounding.
pub proof fn law_quiet_weights(d: SearchData, s: Step, ply: int)
    ensures
        ({
            let pawn = d.pawn_history.table()[pawn_place(
                d.pawn_key_spec(),
                d.board.state.mb()[s.from],
                s.to,
            )];
            let sum = 1024 * quiet_history_of(d, s) + 1006 * pawn + 1602 * d.conthistory_of(
                s,
                ply,
                1,
            ) + 1059 * d.conthistory_of(s, ply, 2) + 1066 * d.conthistory_of(s, ply, 4)
                + if checks_directly(d.board.state.mb(), s) {
                10013696int
            } else {
                0
            };
            -4096 < 1024 * quiet_score(d, s, ply) - sum < 4096
        }),
{
}

/// A noisy move that holds up with a score also does with a higher one.
pub proof fn law_holds_up(st: BoardState, s: Step, score: int, higher: int)
    requires
        score <= higher,
        holds_up(st, s, score),
    ensures
        holds_up(st, s, higher),
        score <= 256 ==> wins_exchange(st, s, 0),
{
    lemma_quotient_order(-higher, -score, 4);
    law_exchange_monotone(st, s, quotient(-higher, 4) + 64, quotient(-score, 4) + 64);
    if score <= 256 {
        lemma_quotient_order(-256, -score, 4);
        law_exchange_monotone(st, s, 0, quotient(-score, 4) + 64);
    }
}

/// What a move stands at: for a noisy one its history; for a quiet one its history as such and
/// as an answer to the last two moves.
pub proof fn law_standing(d: SearchData, s: Step, t: Step, ply: int)
    requires
        s.kind.quiet() == t.kind.quiet(),
        s.kind.quiet() ==> quiet_history_of(d, s) <= quiet_history_of(d, t) && d.conthistory_of(
            s,
            ply,
            1,
        ) <= d.conthistory_of(t, ply, 1) && d.conthistory_of(s, ply, 2) <= d.conthistory_of(
            t,
            ply,
            2,
        ),
        !s.kind.quiet() ==> noisy_history_of(d, s) <= noisy_history_of(d, t),
    ensures
        standing_of(d, s, ply) <= standing_of(d, t, ply),
        !s.kind.quiet() ==> standing_of(d, t, ply) - standing_of(d, s, ply) == noisy_history_of(
            d,
            t,
        ) - noisy_history_of(d, s),
{
}

/// What a value of zero becomes once the best move, and one move before it, are known: the
/// rise of the one and the fall of the other grow with the depth up to a limit each.
pub proof fn law_first_lesson(d: SearchData, best: Move, tried: Move, depth: int, ply: int)
    requires
        d.wf(),
        d.is_fresh(),
        1 <= depth,
        0 <= ply <= 127,
        best@.kind.quiet(),
        (tried@.from, tried@.to) != (best@.from, best@.to),
    ensures
        ({
            let after = taught(d, best@, depth, ply, seq![tried], Seq::empty());
            let st = d.board.state;
            let b = quiet_place(st.threats, st.side_to_move, best@);
            let t = quiet_place(st.threats, st.side_to_move, tried@);
            &&& depth <= 2 ==> after.quiet[b] == 325 * depth - 225
            &&& depth >= 3 ==> after.quiet[b] == 722
            &&& depth <= 3 ==> after.quiet[t] == 235 - 289 * depth
            &&& depth >= 4 ==> after.quiet[t] == -713
        }),
{
    let st = d.board.state;
    best.lemma_squares();
    tried.lemma_squares();
    lemma_sound(d);
    law_quiet_places(st.threats, st.threats, st.side_to_move, st.side_to_move, best@, tried@);
    law_quiet_places(st.threats, st.threats, st.side_to_move, st.side_to_move, tried@, tried@);
    let quiet_bonus = crate::search::pruning::lesser(325 * depth, 947) - 225;
    let quiet_malus = crate::search::pruning::lesser(289 * depth, 948) - 235;
    let cont_bonus = crate::search::pruning::lesser(315 * depth, 1056) - 194;
    let cont_malus = crate::search::pruning::lesser(305 * depth, 1082) - 270;
    law_gravity(0, quiet_bonus);
    law_gravity(0, -quiet_malus);
    let one = quiet_taught(lessons(d), d, best@, quiet_bonus, cont_bonus, ply);
    let moves = seq![tried];
    assert(quiets_taught(one, d, moves, 0, -quiet_malus, -cont_malus, ply) == one);
    let two = quiet_taught(one, d, tried@, -quiet_malus, -cont_malus, ply);
    assert(moves[0] == tried);
    assert(quiets_taught(one, d, moves, 1, -quiet_malus, -cont_malus, ply) == two);
    law_quiet_taught(lessons(d), d, best, quiet_bonus, cont_bonus, ply, 1);
    law_quiet_taught(one, d, tried, -quiet_malus, -cont_malus, ply, 1);
}

/// What the values of zero of noisy moves become once the best move, a noisy one, and one move
/// before it are known.
pub proof fn law_first_noisy_lesson(d: SearchData, best: Move, tried: Move, depth: int, ply: int)
    requires
        d.wf(),
        d.is_fresh(),
        1 <= depth,
        0 <= ply <= 127,
        !best@.kind.quiet(),
        noisy_place_of(d, tried@) != noisy_place_of(d, best@),
    ensures
        ({
            let after = taught(d, best@, depth, ply, Seq::empty(), seq![tried]);
            let b = noisy_place_of(d, best@);
            let t = noisy_place_of(d, tried@);
            &&& depth <= 4 ==> after.noisy[b] == 253 * depth - 190
            &&& depth >= 5 ==> after.noisy[b] == 870
            &&& depth <= 3 ==> after.noisy[t] == 271 - 298 * depth
            &&& depth >= 4 ==> after.noisy[t] == -667
        }),
{
    let st = d.board.state;
    best.lemma_squares();
    tried.lemma_squares();
    lemma_sound(d);
    law_noisy_places(
        st.mb()[tried@.from],
        st.mb()[best@.from],
        tried@.to,
        best@.to,
        victim_kind(st, tried@),
        victim_kind(st, best@),
        st.threats,
        st.threats,
    );
    law_noisy_places(
        st.mb()[best@.from],
        st.mb()[best@.from],
        best@.to,
        best@.to,
        victim_kind(st, best@),
        victim_kind(st, best@),
        st.threats,
        st.threats,
    );
    let noisy_bonus = crate::search::pruning::lesser(253 * depth, 1060) - 190;
    let noisy_malus = crate::search::pruning::lesser(298 * depth, 938) - 271;
    law_gravity(0, noisy_bonus);
    law_gravity(0, -noisy_malus);
    let one = noisy_taught(lessons(d), d, best@, noisy_bonus);
    let moves = seq![tried];
    assert(noisies_taught(one, d, moves, 0, -noisy_malus) == one);
    assert(moves[0] == tried);
    assert(noisies_taught(one, d, moves, 1, -noisy_malus) == noisy_taught(
        one,
        d,
        tried@,
        -noisy_malus,
    ));
    law_noisy_taught(lessons(d), d, best, noisy_bonus);
    law_noisy_taught(one, d, tried, -noisy_malus);
}

/// What a value of zero of an answer to an earlier move becomes once the best move, a quiet one,
/// is known, and what it becomes for a move that was tried before it, where the notes of the
/// plies name different tables.
pub proof fn law_first_answers(
    d: SearchData,
    best: Move,
    tried: Move,
    depth: int,
    ply: int,
    index: int,
)
    requires
        d.wf(),
        zeros_in(d),
        1 <= depth,
        4 <= ply <= 127,
        index == 1 || index == 2 || index == 4,
        best@.kind.quiet(),
        d.place_of(tried@) != d.place_of(best@),
        d.stack.at(ply - 1).conthistory != d.stack.at(ply - 2).conthistory,
        d.stack.at(ply - 1).conthistory != d.stack.at(ply - 4).conthistory,
        d.stack.at(ply - 2).conthistory != d.stack.at(ply - 4).conthistory,
    ensures
        ({
            let after = taught(d, best@, depth, ply, seq![tried], Seq::empty());
            let sub = d.stack.at(ply - index).conthistory;
            let b = cont_value(after.cont.0, after.cont.1, sub, d.place_of(best@));
            let t = cont_value(after.cont.0, after.cont.1, sub, d.place_of(tried@));
            &&& depth <= 3 ==> b == 315 * depth - 194
            &&& depth >= 4 ==> b == 862
            &&& depth <= 3 ==> t == 270 - 305 * depth
            &&& depth >= 4 ==> t == -812
        }),
{
    let st = d.board.state;
    best.lemma_squares();
    tried.lemma_squares();
    lemma_sound(d);
    law_piece_places(st.mb()[best@.from], st.mb()[tried@.from], best@.to, tried@.to);
    law_piece_places(st.mb()[tried@.from], st.mb()[best@.from], tried@.to, best@.to);
    let quiet_bonus = crate::search::pruning::lesser(325 * depth, 947) - 225;
    let quiet_malus = crate::search::pruning::lesser(289 * depth, 948) - 235;
    let cont_bonus = crate::search::pruning::lesser(315 * depth, 1056) - 194;
    let cont_malus = crate::search::pruning::lesser(305 * depth, 1082) - 270;
    law_gravity(0, cont_bonus);
    law_gravity(0, -cont_malus);
    let l = lessons(d);
    let one = quiet_taught(l, d, best@, quiet_bonus, cont_bonus, ply);
    let moves = seq![tried];
    assert(quiets_taught(one, d, moves, 0, -quiet_malus, -cont_malus, ply) == one);
    let two = quiet_taught(one, d, tried@, -quiet_malus, -cont_malus, ply);
    assert(moves[0] == tried);
    assert(quiets_taught(one, d, moves, 1, -quiet_malus, -cont_malus, ply) == two);
    let after = taught(d, best@, depth, ply, moves, Seq::empty());
    assert(noisies_taught(two, d, Seq::empty(), 0, 0) == two);
    assert(after.cont == two.cont);
    law_quiet_taught(l, d, best, quiet_bonus, cont_bonus, ply, 1);
    lemma_answers(l, d, best, quiet_bonus, cont_bonus, ply, index, d.place_of(best@));
    lemma_answers(l, d, best, quiet_bonus, cont_bonus, ply, index, d.place_of(tried@));
    lemma_answers(one, d, tried, -quiet_malus, -cont_malus, ply, index, d.place_of(best@));
    lemma_answers(one, d, tried, -quiet_malus, -cont_malus, ply, index, d.place_of(tried@));
    let sub = d.stack.at(ply - index).conthistory;
    assert(d.stack.data_spec()[ply - index + 8].wf());
    assert(cont_value(l.cont.0, l.cont.1, sub, d.place_of(best@)) == 0);
    assert(cont_value(l.cont.0, l.cont.1, sub, d.place_of(tried@)) == 0);
}

/// The histories of answers hold nothing yet.
pub open spec fn zeros_in(d: SearchData) -> bool {
    &&& forall|i: int| 0 <= i < 692224 ==> #[trigger] d.conthistory.table()[i] == 0
    &&& forall|i: int| 0 <= i < 832 ==> #[trigger] d.stack.spare()[i] == 0
}

/// A bonus for a quiet move comes to each of three different tables of answers once.
proof fn lemma_answers(
    l: Lessons,
    d: SearchData,
    m: Move,
    bonus: int,
    cont_bonus: int,
    ply: int,
    index: int,
    place: int,
)
    requires
        d.wf(),
        sound(l),
        4 <= ply <= 127,
        0 <= place < 832,
        index == 1 || index == 2 || index == 4,
        d.stack.at(ply - 1).conthistory != d.stack.at(ply - 2).conthistory,
        d.stack.at(ply - 1).conthistory != d.stack.at(ply - 4).conthistory,
        d.stack.at(ply - 2).conthistory != d.stack.at(ply - 4).conthistory,
    ensures
        ({
            let after = quiet_taught(l, d, m@, bonus, cont_bonus, ply);
            let sub = d.stack.at(ply - index).conthistory;
            let now = cont_value(l.cont.0, l.cont.1, sub, place);
            cont_value(after.cont.0, after.cont.1, sub, place) == if place == d.place_of(m@) {
                gravity(now, cont_bonus)
            } else {
                now
            }
        }),
{
    let st = d.board.state;
    let s = m@;
    m.lemma_squares();
    law_piece_places(st.mb()[s.from], st.mb()[s.from], s.to, s.to);
    let p = d.place_of(s);
    let a = d.stack.at(ply - 1).conthistory;
    let b = d.stack.at(ply - 2).conthistory;
    let c = d.stack.at(ply - 4).conthistory;
    assert(d.stack.data_spec()[ply - 1 + 8].wf());
    assert(d.stack.data_spec()[ply - 2 + 8].wf());
    assert(d.stack.data_spec()[ply - 4 + 8].wf());
    let sub = d.stack.at(ply - index).conthistory;
    let one = cont_updated(l.cont, a, p, cont_bonus);
    let two = cont_updated(one, b, p, cont_bonus);
    law_answer_taught(l.cont, a, p, cont_bonus, sub, place);
    law_answer_taught(one, b, p, cont_bonus, sub, place);
    law_answer_taught(two, c, p, cont_bonus, sub, place);
    lemma_value_moved(l.cont, a, p, cont_bonus);
    lemma_value_moved(one, b, p, cont_bonus);
    lemma_value_moved(two, c, p, cont_bonus);
}

proof fn lemma_value_moved(tables: (Seq<i16>, Seq<i16>), sub: Option<usize>, p: int, bonus: int)
    requires
        cont_sound(tables),
        0 <= p < 832,
        sub matches Some(t) ==> t < 832,
    ensures
        ({
            let after = cont_updated(tables, sub, p, bonus);
            cont_value(after.0, after.1, sub, p) == gravity(
                cont_value(tables.0, tables.1, sub, p),
                bonus,
            )
        }),
{
    let now = cont_value(tables.0, tables.1, sub, p);
    match sub {
        Some(t) => {
            assert(-8000 <= tables.0[t * 832 + p] <= 8000);
        },
        None => {
            assert(-8000 <= tables.1[p] <= 8000);
        },
    }
    law_history_bounded(now, bonus);
}

/// The score of a noisy move is the worth of what it takes, 4885 for a queen, and an eighth of
/// its history.
pub proof fn law_noisy_weights(d: SearchData, s: Step)
    ensures
        ({
            let taken = match victim_kind(d.board.state, s) {
                Some(Piece::Pawn) => 100int,
                Some(Piece::Knight) => 320,
                Some(Piece::Bishop) => 330,
                Some(Piece::Rook) => 500,
                Some(Piece::Queen) => 900,
                _ => 0,
            };
            let queen = if s.kind.promoted() == Some(Piece::Queen) {
                4885int
            } else {
                0
            };
            -8 < 8 * (noisy_score(d, s) - taken - queen) - noisy_history_of(d, s) < 8
        }),
{
}

/// A noisy move with a score of four times `k` holds up exactly if it wins at least 64 less `k`.
pub proof fn law_holds_up_edge(st: BoardState, s: Step, k: int)
    ensures
        holds_up(st, s, 4 * k) <==> wins_exchange(st, s, 64 - k),
{
    assert(quotient(-(4 * k), 4) == -k) by {
        if k >= 0 {
            assert((4 * k) / 4 == k);
        } else {
            assert((4 * (-k)) / 4 == -k);
        }
    }
}

/// The correction is a sixty-fourth of what the five tables say together.
pub proof fn law_correction_sum(d: SearchData, ply: int)
    ensures
        ({
            let stm = d.board.state.side_to_move;
            let h = d.shared.history;
            let sum = h.pawn.table()[correction_place(stm, d.pawn_key_spec())]
                + h.non_pawn_white.table()[correction_place(
                stm,
                d.non_pawn_key_spec(Side::White),
            )] + h.non_pawn_black.table()[correction_place(stm, d.non_pawn_key_spec(Side::Black))]
                + d.contcorrection_of(ply, 2) + d.contcorrection_of(ply, 4);
            -64 < 64 * d.correction_of(ply) - sum < 64
        }),
{
}

/// Within its limits the bonus for a correction is 157 128ths of the difference for each ply.
pub proof fn law_correction_size(diff: int, depth: int)
    ensures
        -4605 < SearchData::correction_bonus(diff, depth) < 2548 ==> -128 < 128
            * SearchData::correction_bonus(diff, depth) - 157 * depth * diff < 128,
        157 * depth * diff >= 326144 ==> SearchData::correction_bonus(diff, depth) == 2548,
        157 * depth * diff <= -589440 ==> SearchData::correction_bonus(diff, depth) == -4605,
{
}

/// What the last two moves say of the evaluation counts only if both were moves.
pub proof fn law_no_answer_no_correction(d: SearchData, ply: int, index: int)
    ensures
        d.stack.at(ply - 1).m.null() || d.stack.at(ply - index).m.null() ==> d.contcorrection_of(
            ply,
            index,
        ) == 0,
{
}

} // verus!
