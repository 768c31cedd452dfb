//! What an evaluation depends on: the side to move, the two sides of the board, and the parts
//! of the network.

use crate::board::legality::lemma_the_king;
use crate::board::position::{holds, king_sq, lemma_king_exists, occupied, Placement};
use crate::laws::decisions::lemma_quotient_order;
use crate::nnue::{
    activation, block_of, context, evaluation, feature, half_output, output_bucket_of, seemly,
    sum_of, term, terms, word, Parameters,
};
use crate::types::history::quotient;
use crate::types::pieces::Piece;
use crate::types::sides::Side;
use vstd::prelude::*;

verus! {

/// The sum of a function over the first `n` numbers.
spec fn total(f: spec_fn(int) -> int, n: int) -> int
    decreases n,
{
    if n <= 0 {
        0
    } else {
        total(f, n - 1) + f(n - 1)
    }
}

/// The square across the board: the same file, the rank counted from the other edge.
pub open spec fn across(i: int) -> int {
    8 * (7 - i / 8) + i % 8
}

/// The square on the other half of the board: the same rank, the file counted from the other
/// side.
pub open spec fn beside(i: int) -> int {
    8 * (i / 8) + (7 - i % 8)
}

proof fn lemma_across(i: int)
    requires
        0 <= i < 64,
    ensures
        0 <= across(i) < 64,
        across(across(i)) == i,
        across(i) / 8 == 7 - i / 8,
        across(i) % 8 == i % 8,
        0 <= beside(i) < 64,
        beside(beside(i)) == i,
        beside(i) / 8 == i / 8,
        beside(i) % 8 == 7 - i % 8,
{
}

/// A sum over all squares does not depend on the edge from which they are counted.
proof fn lemma_total_across(f: spec_fn(int) -> int, g: spec_fn(int) -> int)
    requires
        forall|i: int| 0 <= i < 64 ==> #[trigger] g(i) == f(across(i)),
    ensures
        total(g, 64) == total(f, 64),
{
    reveal_with_fuel(total, 65);
}

proof fn lemma_total_beside(f: spec_fn(int) -> int, g: spec_fn(int) -> int)
    requires
        forall|i: int| 0 <= i < 64 ==> #[trigger] g(i) == f(beside(i)),
    ensures
        total(g, 64) == total(f, 64),
{
    reveal_with_fuel(total, 65);
}

proof fn lemma_terms_total(
    p: Parameters,
    pov: Side,
    ctx: (int, bool),
    mb: Placement,
    h: int,
    n: int,
    f: spec_fn(int) -> int,
)
    requires
        forall|i: int| 0 <= i < n ==> #[trigger] f(i) == term(p, pov, ctx, mb[i], i, h),
    ensures
        terms(p, pov, ctx, mb, h, n) == total(f, n),
    decreases n,
{
    if n > 0 {
        lemma_terms_total(p, pov, ctx, mb, h, n - 1, f);
        assert(f(n - 1) == term(p, pov, ctx, mb[n - 1], n - 1, h));
    }
}

/// A piece of the other side.
pub open spec fn recoloured(x: Option<(Side, Piece)>) -> Option<(Side, Piece)> {
    match x {
        Some((side, piece)) => Some((side.other(), piece)),
        None => None,
    }
}

/// The board as the other player sees it: turned round, with the sides exchanged.
pub open spec fn turned(mb: Placement) -> Placement {
    Seq::new(64, |i: int| recoloured(mb[across(i)]))
}

/// The board in a mirror: the files from right to left.
pub open spec fn mirrored(mb: Placement) -> Placement {
    Seq::new(64, |i: int| mb[beside(i)])
}

proof fn lemma_turned_king(mb: Placement, side: Side)
    requires
        seemly(mb),
    ensures
        king_sq(turned(mb), side.other()) == across(king_sq(mb, side)),
        0 <= king_sq(mb, side) < 64,
{
    lemma_king_exists(mb, side);
    let k = king_sq(mb, side);
    let t = turned(mb);
    assert(across(across(k)) == k);
    assert(holds(t, across(k), side.other(), Piece::King));
    assert forall|i: int, j: int| #[trigger]
        holds(t, i, side.other(), Piece::King) && #[trigger] holds(
            t,
            j,
            side.other(),
            Piece::King,
        ) implies i == j by {
        assert(holds(mb, across(i), side, Piece::King));
        assert(holds(mb, across(j), side, Piece::King));
    }
    lemma_the_king(t, side.other(), across(k));
}

proof fn lemma_mirrored_king(mb: Placement, side: Side)
    requires
        seemly(mb),
    ensures
        king_sq(mirrored(mb), side) == beside(king_sq(mb, side)),
        0 <= king_sq(mb, side) < 64,
{
    lemma_king_exists(mb, side);
    let k = king_sq(mb, side);
    let t = mirrored(mb);
    assert(beside(beside(k)) == k);
    assert(holds(t, beside(k), side, Piece::King));
    assert forall|i: int, j: int| #[trigger]
        holds(t, i, side, Piece::King) && #[trigger] holds(t, j, side, Piece::King) implies i
        == j by {
        assert(holds(mb, beside(i), side, Piece::King));
        assert(holds(mb, beside(j), side, Piece::King));
    }
    lemma_the_king(t, side, beside(k));
}

proof fn lemma_feature_across(
    pov: Side,
    ctx: (int, bool),
    side: Side,
    piece: Piece,
    i: int,
)
    requires
        0 <= i < 64,
    ensures
        feature(pov.other(), ctx, side.other(), piece, i) == feature(
            pov,
            ctx,
            side,
            piece,
            across(i),
        ),
        feature(pov, (ctx.0, !ctx.1), side, piece, i) == feature(
            pov,
            ctx,
            side,
            piece,
            beside(i),
        ),
{
    lemma_across(i);
}

proof fn lemma_context_across(pov: Side, k: int)
    requires
        0 <= k < 64,
    ensures
        context(pov.other(), across(k)) == context(pov, k),
        context(pov, beside(k)) == (context(pov, k).0, !context(pov, k).1),
{
    lemma_across(k);
}

proof fn lemma_turned_sum(p: Parameters, pov: Side, mb: Placement, h: int)
    requires
        seemly(mb),
    ensures
        sum_of(p, pov.other(), turned(mb), h) == sum_of(p, pov, mb, h),
{
    lemma_turned_king(mb, pov);
    let k = king_sq(mb, pov);
    let ctx = context(pov, k);
    lemma_context_across(pov, k);
    let f = |i: int| term(p, pov, ctx, mb[i], i, h);
    let g = |i: int| term(p, pov.other(), ctx, turned(mb)[i], i, h);
    assert forall|i: int| 0 <= i < 64 implies #[trigger] g(i) == f(across(i)) by {
        let j = across(i);
        lemma_across(i);
        assert(turned(mb)[i] == recoloured(mb[j]));
        if let Some((side, piece)) = mb[j] {
            lemma_feature_across(pov, ctx, side, piece, i);
        }
    }
    lemma_total_across(f, g);
    lemma_terms_total(p, pov, ctx, mb, h, 64, f);
    lemma_terms_total(p, pov.other(), ctx, turned(mb), h, 64, g);
}

proof fn lemma_mirrored_sum(p: Parameters, pov: Side, mb: Placement, h: int)
    requires
        seemly(mb),
    ensures
        sum_of(p, pov, mirrored(mb), h) == sum_of(p, pov, mb, h),
{
    lemma_mirrored_king(mb, pov);
    let k = king_sq(mb, pov);
    let ctx = context(pov, k);
    let ctx2 = context(pov, beside(k));
    lemma_context_across(pov, k);
    let f = |i: int| term(p, pov, ctx, mb[i], i, h);
    let g = |i: int| term(p, pov, ctx2, mirrored(mb)[i], i, h);
    assert forall|i: int| 0 <= i < 64 implies #[trigger] g(i) == f(beside(i)) by {
        let j = beside(i);
        lemma_across(i);
        assert(mirrored(mb)[i] == mb[j]);
        if let Some((side, piece)) = mb[j] {
            lemma_feature_across(pov, ctx, side, piece, i);
        }
    }
    lemma_total_beside(f, g);
    lemma_terms_total(p, pov, ctx, mb, h, 64, f);
    lemma_terms_total(p, pov, ctx2, mirrored(mb), h, 64, g);
}

proof fn lemma_occupied_finite(mb: Placement)
    ensures
        occupied(mb).finite(),
{
    vstd::set_lib::lemma_int_range(0, 64);
    vstd::set_lib::lemma_set_subset_finite(vstd::set_lib::set_int_range(0, 64), occupied(mb));
}

/// Counting squares from another edge does not change their number.
proof fn lemma_same_count(mb: Placement, other: Placement, f: spec_fn(int) -> int)
    requires
        forall|i: int| 0 <= i < 64 ==> 0 <= #[trigger] f(i) < 64 && f(f(i)) == i,
        forall|i: int| 0 <= i < 64 ==> (other[i] is Some <==> mb[#[trigger] f(i)] is Some),
    ensures
        occupied(other).len() == occupied(mb).len(),
{
    lemma_occupied_finite(mb);
    let x = occupied(mb);
    assert forall|i: int, j: int|
        x.contains(i) && x.contains(j) && #[trigger] f(i) == #[trigger] f(j) implies i == j by {
        assert(f(f(i)) == i && f(f(j)) == j);
    }
    assert(vstd::relations::injective_on(f, x));
    assert forall|j: int| x.map(f).contains(j) <==> occupied(other).contains(j) by {
        if x.map(f).contains(j) {
            let i = choose|i: int| x.contains(i) && f(i) == j;
            assert(f(f(i)) == i);
            assert(other[j] is Some <==> mb[f(j)] is Some);
        }
        if occupied(other).contains(j) {
            assert(x.contains(f(j)) && f(f(j)) == j);
        }
    }
    assert(x.map(f) =~= occupied(other));
    vstd::set_lib::lemma_map_size(x, occupied(other), f);
}

proof fn lemma_turned_bucket(mb: Placement)
    requires
        mb.len() == 64,
    ensures
        output_bucket_of(turned(mb)) == output_bucket_of(mb),
        output_bucket_of(mirrored(mb)) == output_bucket_of(mb),
{
    let f = |i: int| across(i);
    let g = |i: int| beside(i);
    assert forall|i: int| 0 <= i < 64 implies 0 <= #[trigger] f(i) < 64 && f(f(i)) == i && (turned(
        mb,
    )[i] is Some <==> mb[f(i)] is Some) by {
        lemma_across(i);
    }
    assert forall|i: int| 0 <= i < 64 implies 0 <= #[trigger] g(i) < 64 && g(g(i)) == i
        && (mirrored(mb)[i] is Some <==> mb[g(i)] is Some) by {
        lemma_across(i);
    }
    lemma_same_count(mb, turned(mb), f);
    lemma_same_count(mb, mirrored(mb), g);
}

/// Boards on which a side has the same sums give the same from that side.
proof fn lemma_half_same(
    p: Parameters,
    a: Side,
    mb: Placement,
    b: Side,
    other: Placement,
    base: int,
    n: int,
)
    requires
        forall|h: int| 0 <= h < n ==> #[trigger] sum_of(p, a, mb, h) == sum_of(p, b, other, h),
    ensures
        half_output(p, a, mb, base, n) == half_output(p, b, other, base, n),
    decreases n,
{
    if n > 0 {
        lemma_half_same(p, a, mb, b, other, base, n - 1);
        assert(sum_of(p, a, mb, n - 1) == sum_of(p, b, other, n - 1));
    }
}

/// An evaluation is that of the side to move: exchanging the sides and turning the board round,
/// with the other side to move, changes nothing.
pub proof fn law_evaluation_turned(p: Parameters, stm: Side, mb: Placement)
    requires
        seemly(mb),
    ensures
        evaluation(p, stm.other(), turned(mb)) == evaluation(p, stm, mb),
{
    assert forall|h: int| 0 <= h < 1024 implies #[trigger] sum_of(p, stm.other(), turned(mb), h)
        == sum_of(p, stm, mb, h) by {
        lemma_turned_sum(p, stm, mb, h);
    }
    assert forall|h: int| 0 <= h < 1024 implies #[trigger] sum_of(p, stm, turned(mb), h) == sum_of(
        p,
        stm.other(),
        mb,
        h,
    ) by {
        lemma_turned_sum(p, stm.other(), mb, h);
        assert(stm.other().other() == stm);
    }
    lemma_turned_bucket(mb);
    let b = output_bucket_of(mb);
    assert(stm.other().other() == stm);
    lemma_half_same(p, stm.other(), turned(mb), stm, mb, b * 2 * 1024, 1024);
    lemma_half_same(p, stm, turned(mb), stm.other(), mb, b * 2 * 1024 + 1024, 1024);
}

/// An evaluation does not tell left from right.
pub proof fn law_evaluation_mirrored(p: Parameters, stm: Side, mb: Placement)
    requires
        seemly(mb),
    ensures
        evaluation(p, stm, mirrored(mb)) == evaluation(p, stm, mb),
{
    assert forall|h: int| 0 <= h < 1024 implies #[trigger] sum_of(p, stm, mirrored(mb), h)
        == sum_of(p, stm, mb, h) by {
        lemma_mirrored_sum(p, stm, mb, h);
    }
    assert forall|h: int| 0 <= h < 1024 implies #[trigger] sum_of(p, stm.other(), mirrored(mb), h)
        == sum_of(p, stm.other(), mb, h) by {
        lemma_mirrored_sum(p, stm.other(), mb, h);
    }
    lemma_turned_bucket(mb);
    let b = output_bucket_of(mb);
    lemma_half_same(p, stm, mirrored(mb), stm, mb, b * 2 * 1024, 1024);
    lemma_half_same(p, stm.other(), mirrored(mb), stm.other(), mb, b * 2 * 1024 + 1024, 1024);
}

/// The weights for the side to move are those of the first 1024 neurons of an output.
pub open spec fn own_weight(p: Parameters, bucket: int, h: int) -> int {
    p.output_weights@[2048 * bucket + h] as int
}

/// The weights for the opponent are those of the other 1024.
pub open spec fn their_weight(p: Parameters, bucket: int, h: int) -> int {
    p.output_weights@[2048 * bucket + 1024 + h] as int
}

proof fn lemma_half_none(p: Parameters, pov: Side, mb: Placement, base: int, n: int)
    requires
        forall|h: int| 0 <= h < n ==> #[trigger] p.output_weights@[base + h] == 0,
    ensures
        half_output(p, pov, mb, base, n) == 0,
    decreases n,
{
    if n > 0 {
        lemma_half_none(p, pov, mb, base, n - 1);
        assert(p.output_weights@[base + (n - 1)] == 0);
        let a = activation(sum_of(p, pov, mb, n - 1));
        assert(a * 0 == 0) by (nonlinear_arith);
    }
}

/// Where the weights for the opponent are zero, an evaluation depends on what the side to move
/// sees only; where those for the side to move are, on what the opponent sees.
pub proof fn law_evaluation_halves(p: Parameters, stm: Side, mb: Placement, other: Placement)
    requires
        output_bucket_of(mb) == output_bucket_of(other),
    ensures
        ({
            let b = output_bucket_of(mb);
            &&& (forall|h: int| 0 <= h < 1024 ==> #[trigger] their_weight(p, b, h) == 0) && (forall|
                h: int,
            |
                0 <= h < 1024 ==> #[trigger] sum_of(p, stm, mb, h) == sum_of(p, stm, other, h))
                ==> evaluation(p, stm, mb) == evaluation(p, stm, other)
            &&& (forall|h: int| 0 <= h < 1024 ==> #[trigger] own_weight(p, b, h) == 0) && (forall|
                h: int,
            |
                0 <= h < 1024 ==> #[trigger] sum_of(p, stm.other(), mb, h) == sum_of(
                    p,
                    stm.other(),
                    other,
                    h,
                )) ==> evaluation(p, stm, mb) == evaluation(p, stm, other)
        }),
{
    let b = output_bucket_of(mb);
    if forall|h: int| 0 <= h < 1024 ==> #[trigger] their_weight(p, b, h) == 0 {
        assert forall|h: int| 0 <= h < 1024 implies #[trigger] p.output_weights@[(b * 2 * 1024
            + 1024) + h] == 0 by {
            assert(their_weight(p, b, h) == 0);
        }
        lemma_half_none(p, stm.other(), mb, b * 2 * 1024 + 1024, 1024);
        lemma_half_none(p, stm.other(), other, b * 2 * 1024 + 1024, 1024);
        if forall|h: int|
            0 <= h < 1024 ==> #[trigger] sum_of(p, stm, mb, h) == sum_of(p, stm, other, h) {
            lemma_half_same(p, stm, mb, stm, other, b * 2 * 1024, 1024);
        }
    }
    if forall|h: int| 0 <= h < 1024 ==> #[trigger] own_weight(p, b, h) == 0 {
        assert forall|h: int| 0 <= h < 1024 implies #[trigger] p.output_weights@[(b * 2 * 1024)
            + h] == 0 by {
            assert(own_weight(p, b, h) == 0);
        }
        lemma_half_none(p, stm, mb, b * 2 * 1024, 1024);
        lemma_half_none(p, stm, other, b * 2 * 1024, 1024);
        if forall|h: int|
            0 <= h < 1024 ==> #[trigger] sum_of(p, stm.other(), mb, h) == sum_of(
                p,
                stm.other(),
                other,
                h,
            ) {
            lemma_half_same(
                p,
                stm.other(),
                mb,
                stm.other(),
                other,
                b * 2 * 1024 + 1024,
                1024,
            );
        }
    }
}

/// What a neuron passes on grows with its sum.
pub proof fn law_activation(sum: int, more: int)
    requires
        sum <= more,
    ensures
        0 <= activation(sum) <= activation(more) <= 65025,
        sum <= 0 ==> activation(sum) == 0,
        0 <= sum <= 255 ==> activation(sum) == sum * sum,
        sum >= 255 ==> activation(sum) == 65025,
{
    let a = if sum < 0 {
        0
    } else if sum > 255 {
        255
    } else {
        sum
    };
    let b = if more < 0 {
        0
    } else if more > 255 {
        255
    } else {
        more
    };
    assert(0 <= a * a <= b * b <= 65025) by (nonlinear_arith)
        requires
            0 <= a <= b <= 255,
    ;
    assert(0int * 0 == 0 && 255int * 255 == 65025) by (nonlinear_arith);
}

proof fn lemma_half_order(
    p: Parameters,
    q: Parameters,
    pov: Side,
    mb: Placement,
    other: Placement,
    base: int,
    n: int,
    up: bool,
)
    requires
        forall|h: int|
            0 <= h < n ==> #[trigger] q.output_weights@[base + h] == p.output_weights@[base + h],
        forall|h: int|
            0 <= h < n ==> if up {
                #[trigger] p.output_weights@[base + h] >= 0
            } else {
                p.output_weights@[base + h] <= 0
            },
        forall|h: int| 0 <= h < n ==> #[trigger] sum_of(p, pov, mb, h) <= sum_of(q, pov, other, h),
    ensures
        up ==> half_output(p, pov, mb, base, n) <= half_output(q, pov, other, base, n),
        !up ==> half_output(p, pov, mb, base, n) >= half_output(q, pov, other, base, n),
    decreases n,
{
    if n > 0 {
        lemma_half_order(p, q, pov, mb, other, base, n - 1, up);
        let x = sum_of(p, pov, mb, n - 1);
        let y = sum_of(q, pov, other, n - 1);
        assert(x <= y);
        law_activation(x, y);
        let a = activation(x);
        let b = activation(y);
        let w = p.output_weights@[base + (n - 1)] as int;
        assert(q.output_weights@[base + (n - 1)] == w);
        assert(w >= 0 ==> a * w <= b * w) by (nonlinear_arith)
            requires
                a <= b,
        ;
        assert(w <= 0 ==> a * w >= b * w) by (nonlinear_arith)
            requires
                a <= b,
        ;
    }
}

proof fn lemma_evaluation_order(t: int, u: int, bias: int)
    requires
        t <= u,
    ensures
        quotient((quotient(t, 255) + bias) * 400, 16320) <= quotient(
            (quotient(u, 255) + bias) * 400,
            16320,
        ),
{
    lemma_quotient_order(t, u, 255);
    lemma_quotient_order((quotient(t, 255) + bias) * 400, (quotient(u, 255) + bias) * 400, 16320);
}

/// Greater sums of the side to move under weights that are not negative, with none for the
/// opponent, never lower the evaluation; greater sums of the opponent under weights that are not
/// positive, with none for the side to move, never raise it.
pub proof fn law_evaluation_order(
    p: Parameters,
    q: Parameters,
    stm: Side,
    mb: Placement,
    other: Placement,
)
    requires
        q.output_weights@ == p.output_weights@,
        q.output_bias@ == p.output_bias@,
        output_bucket_of(mb) == output_bucket_of(other),
    ensures
        ({
            let b = output_bucket_of(mb);
            &&& (forall|h: int|
                0 <= h < 1024 ==> #[trigger] own_weight(p, b, h) >= 0 && their_weight(p, b, h) == 0)
                && (forall|h: int|
                0 <= h < 1024 ==> #[trigger] sum_of(p, stm, mb, h) <= sum_of(q, stm, other, h))
                ==> evaluation(p, stm, mb) <= evaluation(q, stm, other)
            &&& (forall|h: int|
                0 <= h < 1024 ==> #[trigger] their_weight(p, b, h) <= 0 && own_weight(p, b, h) == 0)
                && (forall|h: int|
                0 <= h < 1024 ==> #[trigger] sum_of(p, stm.other(), mb, h) <= sum_of(
                    q,
                    stm.other(),
                    other,
                    h,
                )) ==> evaluation(p, stm, mb) >= evaluation(q, stm, other)
        }),
{
    let b = output_bucket_of(mb);
    let own = b * 2 * 1024;
    let theirs = b * 2 * 1024 + 1024;
    if (forall|h: int|
        0 <= h < 1024 ==> #[trigger] own_weight(p, b, h) >= 0 && their_weight(p, b, h) == 0)
        && (forall|h: int|
        0 <= h < 1024 ==> #[trigger] sum_of(p, stm, mb, h) <= sum_of(q, stm, other, h)) {
        assert forall|h: int| 0 <= h < 1024 implies #[trigger] p.output_weights@[theirs + h]
            == 0 by {
            assert(own_weight(p, b, h) >= 0);
        }
        assert forall|h: int| 0 <= h < 1024 implies #[trigger] p.output_weights@[own + h] >= 0 by {
            assert(own_weight(p, b, h) >= 0);
        }
        lemma_half_none(p, stm.other(), mb, theirs, 1024);
        lemma_half_none(q, stm.other(), other, theirs, 1024);
        lemma_half_order(p, q, stm, mb, other, own, 1024, true);
        lemma_evaluation_order(
            half_output(p, stm, mb, own, 1024),
            half_output(q, stm, other, own, 1024),
            p.output_bias@[b] as int,
        );
    }
    if (forall|h: int|
        0 <= h < 1024 ==> #[trigger] their_weight(p, b, h) <= 0 && own_weight(p, b, h) == 0)
        && (forall|h: int|
        0 <= h < 1024 ==> #[trigger] sum_of(p, stm.other(), mb, h) <= sum_of(
            q,
            stm.other(),
            other,
            h,
        )) {
        assert forall|h: int| 0 <= h < 1024 implies #[trigger] p.output_weights@[own + h] == 0 by {
            assert(their_weight(p, b, h) <= 0);
        }
        assert forall|h: int| 0 <= h < 1024 implies #[trigger] p.output_weights@[theirs + h]
            <= 0 by {
            assert(their_weight(p, b, h) <= 0);
        }
        lemma_half_none(p, stm, mb, own, 1024);
        lemma_half_none(q, stm, other, own, 1024);
        lemma_half_order(p, q, stm.other(), mb, other, theirs, 1024, false);
        lemma_evaluation_order(
            half_output(q, stm.other(), other, theirs, 1024),
            half_output(p, stm.other(), mb, theirs, 1024),
            p.output_bias@[b] as int,
        );
    }
}

/// The number of a kind of piece in the inputs.
pub open spec fn kind_number(piece: Piece) -> int {
    match piece {
        Piece::Pawn => 0,
        Piece::Knight => 1,
        Piece::Bishop => 2,
        Piece::Rook => 3,
        Piece::Queen => 4,
        Piece::King => 5,
    }
}

/// The rank of a square, counted from the edge of a side.
pub open spec fn rank_from(side: Side, i: int) -> int {
    if side == Side::White {
        i / 8
    } else {
        7 - i / 8
    }
}

/// The region of a king on a square: the four squares at the ends of its own rank, the rest of
/// its first three ranks, the next four, and the last.
pub open spec fn king_region(side: Side, k: int) -> int {
    let rank = rank_from(side, k);
    let file = k % 8;
    if rank == 0 && (file <= 1 || file >= 6) {
        0
    } else if rank <= 2 {
        1
    } else if rank <= 6 {
        2
    } else {
        3
    }
}

/// Row `r` of the first layer belongs to a piece on square `i`, as a side with its king on `k`
/// sees it.
pub open spec fn row_of(pov: Side, k: int, side: Side, piece: Piece, i: int, r: int) -> bool {
    &&& 0 <= r < 3072
    &&& r / 768 == king_region(pov, k)
    &&& (r % 768) / 384 == if side == pov {
        0int
    } else {
        1
    }
    &&& (r % 384) / 64 == kind_number(piece)
    &&& (r % 64) / 8 == rank_from(pov, i)
    &&& r % 8 == if k % 8 <= 3 {
        i % 8
    } else {
        7 - i % 8
    }
}

proof fn lemma_row(pov: Side, k: int, side: Side, piece: Piece, i: int, r: int)
    requires
        0 <= k < 64,
        0 <= i < 64,
        row_of(pov, k, side, piece, i, r),
    ensures
        feature(pov, context(pov, k), side, piece, i) == r,
{
    lemma_region(pov, k);
    let half: int = if side == pov {
        0
    } else {
        1
    };
    assert(r % 768 == 384 * half + r % 384);
    assert(r % 384 == 64 * kind_number(piece) + r % 64);
    assert(r % 64 == 8 * rank_from(pov, i) + r % 8);
    assert(piece as int == kind_number(piece));
}

/// The regions of a king.
proof fn lemma_region(pov: Side, k: int)
    requires
        0 <= k < 64,
    ensures
        context(pov, k) == (king_region(pov, k), k % 8 > 3),
{
}

/// What the pieces add up to for a neuron: a piece that is put on a free square adds the weight
/// of its row, which is told by the region and the half of the king, the side, the kind and the
/// square as the side with that king sees them. Each neuron starts from its bias.
pub proof fn law_piece_adds_weight(
    p: Parameters,
    pov: Side,
    mb: Placement,
    side: Side,
    piece: Piece,
    i: int,
    r: int,
    h: int,
)
    requires
        seemly(mb),
        0 <= i < 64,
        mb[i] is None,
        piece !is King,
        row_of(pov, king_sq(mb, pov), side, piece, i, r),
    ensures
        sum_of(p, pov, mb.update(i, Some((side, piece))), h) == sum_of(p, pov, mb, h)
            + p.feature_weights@[1024 * r + h],
{
    lemma_king_exists(mb, pov);
    let k = king_sq(mb, pov);
    let more = mb.update(i, Some((side, piece)));
    assert(holds(more, k, pov, Piece::King));
    assert forall|a: int, b: int| #[trigger]
        holds(more, a, pov, Piece::King) && #[trigger] holds(more, b, pov, Piece::King) implies a
        == b by {
        assert(holds(mb, a, pov, Piece::King) && holds(mb, b, pov, Piece::King));
    }
    lemma_the_king(more, pov, k);
    lemma_row(pov, k, side, piece, i, r);
    lemma_terms_put(p, pov, context(pov, k), mb, i, Some((side, piece)), h, 64);
}

proof fn lemma_terms_put(
    p: Parameters,
    pov: Side,
    ctx: (int, bool),
    mb: Placement,
    i: int,
    x: Option<(Side, Piece)>,
    h: int,
    n: int,
)
    requires
        mb.len() == 64,
        0 <= i < 64,
        mb[i] is None,
        n <= 64,
    ensures
        terms(p, pov, ctx, mb.update(i, x), h, n) == terms(p, pov, ctx, mb, h, n) + if i < n {
            term(p, pov, ctx, x, i, h)
        } else {
            0
        },
    decreases n,
{
    if n > 0 {
        lemma_terms_put(p, pov, ctx, mb, i, x, h, n - 1);
    }
}

/// With two kings alone, a neuron has its bias and the weights of the two kings.
pub proof fn law_bare_kings(
    p: Parameters,
    pov: Side,
    k: int,
    l: int,
    own: int,
    theirs: int,
    h: int,
)
    requires
        0 <= k < 64,
        0 <= l < 64,
        k != l,
        row_of(pov, k, pov, Piece::King, k, own),
        row_of(pov, k, pov.other(), Piece::King, l, theirs),
    ensures
        ({
            let none = Seq::new(64, |i: int| None::<(Side, Piece)>);
            let mb = none.update(k, Some((pov, Piece::King))).update(
                l,
                Some((pov.other(), Piece::King)),
            );
            sum_of(p, pov, mb, h) == p.feature_bias@[h] + p.feature_weights@[1024 * own + h]
                + p.feature_weights@[1024 * theirs + h]
        }),
{
    let none = Seq::new(64, |i: int| None::<(Side, Piece)>);
    let one = none.update(k, Some((pov, Piece::King)));
    let mb = one.update(l, Some((pov.other(), Piece::King)));
    assert(holds(mb, k, pov, Piece::King));
    lemma_the_king(mb, pov, k);
    lemma_row(pov, k, pov, Piece::King, k, own);
    lemma_row(pov, k, pov.other(), Piece::King, l, theirs);
    let ctx = context(pov, k);
    lemma_terms_put(p, pov, ctx, none, k, Some((pov, Piece::King)), h, 64);
    lemma_terms_put(p, pov, ctx, one, l, Some((pov.other(), Piece::King)), h, 64);
    lemma_terms_none(p, pov, ctx, none, h, 64);
}

proof fn lemma_terms_none(
    p: Parameters,
    pov: Side,
    ctx: (int, bool),
    mb: Placement,
    h: int,
    n: int,
)
    requires
        n <= 64,
        mb.len() == 64,
        forall|i: int| 0 <= i < 64 ==> #[trigger] mb[i] is None,
    ensures
        terms(p, pov, ctx, mb, h, n) == 0,
    decreases n,
{
    if n > 0 {
        lemma_terms_none(p, pov, ctx, mb, h, n - 1);
    }
}

/// The output is chosen by the number of pieces, four more for each of the eight.
pub proof fn law_output_bucket(mb: Placement)
    requires
        2 <= occupied(mb).len() <= 32,
    ensures
        ({
            let n = occupied(mb).len() as int;
            let b = output_bucket_of(mb);
            &&& 0 <= b <= 7
            &&& 4 * b + 2 <= n
            &&& b < 7 ==> n < 4 * b + 6
        }),
{
}

/// One neuron of the side to move with one weight: its square counts in hundredths of a pawn,
/// 400 for each 16320 of the part that is left of the product after a division by 255.
pub proof fn law_one_neuron(p: Parameters, stm: Side, mb: Placement, h: int)
    requires
        0 <= h < 1024,
        ({
            let b = output_bucket_of(mb);
            &&& p.output_bias@[b] == 0
            &&& forall|j: int| 0 <= j < 1024 ==> #[trigger] their_weight(p, b, j) == 0
            &&& forall|j: int| 0 <= j < 1024 && j != h ==> #[trigger] own_weight(p, b, j) == 0
        }),
        0 <= sum_of(p, stm, mb, h) <= 255,
    ensures
        ({
            let s = sum_of(p, stm, mb, h);
            let w = own_weight(p, output_bucket_of(mb), h);
            let value = quotient(quotient(s * s * w, 255) * 400, 16320);
            -30000 <= value <= 30000 ==> evaluation(p, stm, mb) == value
        }),
{
    let b = output_bucket_of(mb);
    let own = b * 2 * 1024;
    let theirs = b * 2 * 1024 + 1024;
    assert forall|j: int| 0 <= j < 1024 implies #[trigger] p.output_weights@[theirs + j] == 0 by {
        assert(their_weight(p, b, j) == 0);
    }
    assert forall|j: int| 0 <= j < 1024 && j != h implies #[trigger] p.output_weights@[own + j]
        == 0 by {
        assert(own_weight(p, b, j) == 0);
    }
    lemma_half_none(p, stm.other(), mb, theirs, 1024);
    lemma_half_one(p, stm, mb, own, 1024, h);
    law_activation(sum_of(p, stm, mb, h), sum_of(p, stm, mb, h));
}

proof fn lemma_half_one(p: Parameters, pov: Side, mb: Placement, base: int, n: int, h: int)
    requires
        0 <= h,
        forall|j: int| 0 <= j < n && j != h ==> #[trigger] p.output_weights@[base + j] == 0,
    ensures
        half_output(p, pov, mb, base, n) == if h < n {
            activation(sum_of(p, pov, mb, h)) * p.output_weights@[base + h]
        } else {
            0
        },
    decreases n,
{
    if n > 0 {
        lemma_half_one(p, pov, mb, base, n - 1, h);
        let a = activation(sum_of(p, pov, mb, n - 1));
        if n - 1 != h {
            assert(p.output_weights@[base + (n - 1)] == 0);
            assert(a * 0 == 0) by (nonlinear_arith);
        } else {
            assert(base + (n - 1) == base + h);
        }
    }
}

/// No evaluation is taken for a mate.
pub proof fn law_evaluation_bounded(p: Parameters, stm: Side, mb: Placement)
    ensures
        -30744 < evaluation(p, stm, mb) < 30744,
{
}

/// The numbers of a block are read one behind another, two bytes each, the low byte first, and
/// those from 32768 on stand for numbers below zero.
pub proof fn law_block_read(bytes: Seq<u8>, start: int, values: Seq<i16>, i: int)
    requires
        block_of(bytes, start, values),
        0 <= i < values.len(),
    ensures
        ({
            let n = bytes[2 * (start + i)] + 256 * bytes[2 * (start + i) + 1];
            values[i] == if n < 32768 {
                n
            } else {
                n - 65536
            }
        }),
{
    let a = bytes[2 * (start + i)];
    let b = bytes[2 * (start + i) + 1];
    assert(values[i] == word(a, b));
}

} // verus!
