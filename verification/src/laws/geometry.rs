//! How the pieces go over the board.

use crate::attacks::{between, bishop_reach, king_reach, knight_reach, pawn_reach, rook_reach};
use crate::types::bits::{file_of, is_square, rank_of};
use crate::types::sides::Side;
use vstd::prelude::*;

verus! {

/// How many ranks a square lies above another.
pub open spec fn up(a: int, t: int) -> int {
    t / 8 - a / 8
}

/// How many files a square lies to the right of another.
pub open spec fn aside(a: int, t: int) -> int {
    t % 8 - a % 8
}

/// A knight goes over a distance whose square is five, and a king over one whose square is one
/// or two.
pub proof fn law_knight_and_king(a: int, t: int)
    requires
        is_square(a),
        is_square(t),
    ensures
        knight_reach(a, t) <==> up(a, t) * up(a, t) + aside(a, t) * aside(a, t) == 5,
        king_reach(a, t) <==> 1 <= up(a, t) * up(a, t) + aside(a, t) * aside(a, t) <= 2,
{
    let u = up(a, t);
    let v = aside(a, t);
    assert(-7 <= u <= 7 && -7 <= v <= 7);
    assert(rank_of(t) - rank_of(a) == u && file_of(t) - file_of(a) == v);
    lemma_square_of(u);
    lemma_square_of(v);
}

proof fn lemma_square_of(x: int)
    requires
        -7 <= x <= 7,
    ensures
        x == 0 ==> x * x == 0,
        x == 1 || x == -1 ==> x * x == 1,
        x == 2 || x == -2 ==> x * x == 4,
        x >= 3 || x <= -3 ==> x * x >= 9,
{
    assert(x >= 3 || x <= -3 ==> x * x >= 9) by (nonlinear_arith);
    assert(x == 1 || x == -1 ==> x * x == 1) by (nonlinear_arith);
    assert(x == 2 || x == -2 ==> x * x == 4) by (nonlinear_arith);
}

/// A rook goes along a rank or a file and a bishop along a diagonal, over empty squares only, in
/// both directions alike; never both at once.
pub proof fn law_sliders(a: int, t: int, occ: Set<int>)
    requires
        is_square(a),
        is_square(t),
        a != t,
    ensures
        rook_reach(a, t, occ) <==> (up(a, t) == 0 || aside(a, t) == 0) && forall|x: int|
            occ.contains(x) ==> !#[trigger] between(a, t, x),
        bishop_reach(a, t, occ) <==> (up(a, t) == aside(a, t) || up(a, t) == -aside(a, t))
            && forall|x: int| occ.contains(x) ==> !#[trigger] between(a, t, x),
        rook_reach(a, t, occ) <==> rook_reach(t, a, occ),
        bishop_reach(a, t, occ) <==> bishop_reach(t, a, occ),
        !(rook_reach(a, t, occ) && bishop_reach(a, t, occ)),
{
    assert(rank_of(t) - rank_of(a) == up(a, t) && file_of(t) - file_of(a) == aside(a, t));
    assert forall|x: int| between(a, t, x) <==> #[trigger] between(t, a, x) by {}
    assert forall|x: int| #[trigger] between(a, t, x) <==> between(t, a, x) by {}
}

/// The squares between two others lie on the way: both distances are smaller, in the same
/// direction, and neither end is one of them.
pub proof fn law_between(a: int, t: int, x: int)
    requires
        is_square(a),
        is_square(t),
        between(a, t, x),
    ensures
        x != a && x != t,
        between(t, a, x),
        up(a, t) == up(a, x) + up(x, t),
        up(a, t) > 0 ==> 0 < up(a, x) < up(a, t),
        up(a, t) < 0 ==> up(a, t) < up(a, x) < 0,
        up(a, t) == 0 ==> up(a, x) == 0,
        aside(a, t) > 0 ==> 0 < aside(a, x) < aside(a, t),
        aside(a, t) < 0 ==> aside(a, t) < aside(a, x) < 0,
        aside(a, t) == 0 ==> aside(a, x) == 0,
{
    assert(rank_of(t) - rank_of(a) == up(a, t) && file_of(t) - file_of(a) == aside(a, t));
    assert(rank_of(x) - rank_of(a) == up(a, x) && file_of(x) - file_of(a) == aside(a, x));
}

/// A pawn attacks the two squares diagonally before it: one rank up for White, one down for
/// Black.
pub proof fn law_pawn_attacks(a: int, t: int)
    requires
        is_square(a),
        is_square(t),
    ensures
        pawn_reach(Side::White, a, t) <==> up(a, t) == 1 && (aside(a, t) == 1 || aside(a, t) == -1),
        pawn_reach(Side::Black, a, t) <==> up(a, t) == -1 && (aside(a, t) == 1 || aside(a, t)
            == -1),
{
    assert(rank_of(t) - rank_of(a) == up(a, t) && file_of(t) - file_of(a) == aside(a, t));
}

} // verus!
