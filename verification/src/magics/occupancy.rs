//! Laws of masks and of the numbering of their subsets.

use crate::attacks::{between, inner};
use crate::magics::{
    below, numbered_occupancy, slider_mask, slider_reach, BISHOP_OCCUPANCY_BIT_COUNTS,
    ROOK_OCCUPANCY_BIT_COUNTS,
};
use crate::types::bitboard::BitBoard;
use crate::types::bits::{
    bit, file_of, group_bits, is_square, lemma_bits_equal, lemma_bits_finite, rank_of,
};
use crate::types::pieces::Piece;
use vstd::prelude::*;
use vstd::relations::injective_on;

verus! {

/// Only pieces on the mask matter to a slider, and its own square is none of them.
pub proof fn law_mask(piece: Piece, a: int, mask: BitBoard, occ: BitBoard)
    requires
        piece == Piece::Bishop || piece == Piece::Rook,
        is_square(a),
        slider_mask(piece, a, mask),
    ensures
        !mask.has(a),
        forall|t: int| #[trigger]
            slider_reach(piece, a, t, occ.squares()) <==> slider_reach(
                piece,
                a,
                t,
                BitBoard(occ.0 & mask.0).squares(),
            ),
{
    broadcast use group_bits;

    let within = BitBoard(occ.0 & mask.0);
    assert forall|t: int| #[trigger] slider_reach(piece, a, t, occ.squares()) <==> slider_reach(
        piece,
        a,
        t,
        within.squares(),
    ) by {
        if slider_reach(piece, a, t, occ.squares()) {
            assert forall|x: int| #[trigger] between(a, t, x) implies !within.squares().contains(
                x,
            ) by {
                assert(!occ.squares().contains(x));
            }
        }
        if slider_reach(piece, a, t, within.squares()) {
            assert forall|x: int| #[trigger] between(a, t, x) implies !occ.squares().contains(
                x,
            ) by {
                assert(!within.squares().contains(x));
                assert(mask.has(x));
            }
        }
    }
}

/// The numbers from `low` up to `high` but one.
spec fn but_one(low: int, high: int, x: int) -> Set<int> {
    vstd::set_lib::set_int_range(low, high).remove(x)
}

/// The mask of a rook has as many squares as the table says.
pub proof fn law_rook_mask_size(a: int, mask: BitBoard)
    requires
        is_square(a),
        slider_mask(Piece::Rook, a, mask),
    ensures
        mask.squares().len() == ROOK_OCCUPANCY_BIT_COUNTS@[a],
        10 <= mask.squares().len() <= 12,
{
    let r = rank_of(a);
    let f = file_of(a);
    let up = but_one(1, 7, r);
    let across = but_one(1, 7, f);
    let g = |k: int| k * 8 + f;
    let h = |k: int| r * 8 + k;
    vstd::set_lib::lemma_int_range(1, 7);
    let column = up.map(g);
    let row = across.map(h);
    assert(injective_on(g, up));
    assert(injective_on(h, across));
    vstd::set_lib::lemma_map_size(up, column, g);
    vstd::set_lib::lemma_map_size(across, row, h);
    assert forall|t: int| mask.squares().contains(t) <==> (column + row).contains(t) by {
        assert(mask.squares().contains(t) <==> mask.has(t));
        if mask.has(t) {
            if file_of(t) == f {
                assert(up.contains(rank_of(t)) && g(rank_of(t)) == t);
            } else {
                assert(across.contains(file_of(t)) && h(file_of(t)) == t);
            }
        }
        if column.contains(t) {
            let k = choose|k: int| up.contains(k) && g(k) == t;
            assert(rank_of(t) == k && file_of(t) == f);
        }
        if row.contains(t) {
            let k = choose|k: int| across.contains(k) && h(k) == t;
            assert(rank_of(t) == r && file_of(t) == k);
        }
    }
    assert(mask.squares() =~= column + row);
    assert(column.disjoint(row)) by {
        assert forall|t: int| column.contains(t) implies !row.contains(t) by {
            let k = choose|k: int| up.contains(k) && g(k) == t;
            assert(rank_of(t) == k && file_of(t) == f);
            if row.contains(t) {
                let j = choose|j: int| across.contains(j) && h(j) == t;
                assert(file_of(t) == j);
            }
        }
    }
    vstd::set_lib::lemma_set_disjoint_lens(column, row);
    lemma_rook_counts(a);
}

/// The table of the sizes of the masks of a rook.
proof fn lemma_rook_counts(a: int)
    requires
        is_square(a),
    ensures
        ROOK_OCCUPANCY_BIT_COUNTS@[a] == (if 1 <= rank_of(a) <= 6 {
            5int
        } else {
            6
        }) + if 1 <= file_of(a) <= 6 {
            5int
        } else {
            6
        },
{
}

/// The ranks off the border that a diagonal crosses on files off the border.
spec fn crossed(a: int, rising: bool) -> Set<int> {
    Set::new(
        |k: int|
            1 <= k <= 6 && k != rank_of(a) && 1 <= (if rising {
                file_of(a) + (k - rank_of(a))
            } else {
                file_of(a) - (k - rank_of(a))
            }) <= 6,
    )
}

proof fn lemma_crossed_size(a: int, rising: bool)
    requires
        is_square(a),
    ensures
        crossed(a, rising).finite(),
        crossed(a, rising).len() == {
            let d = if rising {
                rank_of(a) - file_of(a)
            } else {
                rank_of(a) + file_of(a) - 7
            };
            let all = if -6 <= d <= 6 {
                if d < 0 {
                    6 + d
                } else {
                    6 - d
                }
            } else {
                0
            };
            if inner(a) {
                all - 1
            } else {
                all
            }
        },
{
    let d = if rising {
        rank_of(a) - file_of(a)
    } else {
        rank_of(a) + file_of(a) - 7
    };
    let low: int = if d > 0 {
        1 + d
    } else {
        1
    };
    let high: int = if d < -6 || d > 6 {
        low
    } else if d > 0 {
        7
    } else {
        7 + d
    };
    vstd::set_lib::lemma_int_range(low, high);
    assert(crossed(a, rising) =~= vstd::set_lib::set_int_range(low, high).remove(rank_of(a)));
}

/// The mask of a bishop has as many squares as the table says.
pub proof fn law_bishop_mask_size(a: int, mask: BitBoard)
    requires
        is_square(a),
        slider_mask(Piece::Bishop, a, mask),
    ensures
        mask.squares().len() == BISHOP_OCCUPANCY_BIT_COUNTS@[a],
        5 <= mask.squares().len() <= 9,
{
    let r = rank_of(a);
    let f = file_of(a);
    let up = crossed(a, true);
    let down = crossed(a, false);
    let g = |k: int| k * 8 + (f + (k - r));
    let h = |k: int| k * 8 + (f - (k - r));
    lemma_crossed_size(a, true);
    lemma_crossed_size(a, false);
    let rising = up.map(g);
    let falling = down.map(h);
    assert(injective_on(g, up));
    assert(injective_on(h, down));
    vstd::set_lib::lemma_map_size(up, rising, g);
    vstd::set_lib::lemma_map_size(down, falling, h);
    assert forall|t: int| mask.squares().contains(t) <==> (rising + falling).contains(t) by {
        assert(mask.squares().contains(t) <==> mask.has(t));
        if mask.has(t) {
            if file_of(t) - f == rank_of(t) - r {
                assert(up.contains(rank_of(t)) && g(rank_of(t)) == t);
            } else {
                assert(down.contains(rank_of(t)) && h(rank_of(t)) == t);
            }
        }
        if rising.contains(t) {
            let k = choose|k: int| up.contains(k) && g(k) == t;
            assert(rank_of(t) == k && file_of(t) == f + (k - r));
        }
        if falling.contains(t) {
            let k = choose|k: int| down.contains(k) && h(k) == t;
            assert(rank_of(t) == k && file_of(t) == f - (k - r));
        }
    }
    assert(mask.squares() =~= rising + falling);
    assert(rising.disjoint(falling)) by {
        assert forall|t: int| rising.contains(t) implies !falling.contains(t) by {
            let k = choose|k: int| up.contains(k) && g(k) == t;
            assert(rank_of(t) == k && file_of(t) == f + (k - r));
            if falling.contains(t) {
                let j = choose|j: int| down.contains(j) && h(j) == t;
                assert(rank_of(t) == j && file_of(t) == f - (j - r));
            }
        }
    }
    vstd::set_lib::lemma_set_disjoint_lens(rising, falling);
}

/// The squares of a mask below a square.
spec fn lower(mask: BitBoard, i: int) -> Set<int> {
    Set::new(|j: int| j < i && mask.has(j))
}

proof fn lemma_below(mask: BitBoard, i: int)
    requires
        mask.has(i),
    ensures
        lower(mask, i).finite(),
        below(mask, i) == lower(mask, i).len(),
        below(mask, i) < mask.squares().len(),
        forall|j: int| mask.has(j) && j < i ==> #[trigger] below(mask, j) < below(mask, i),
{
    let all = mask.squares();
    lemma_bits_finite(mask.0);
    assert(lower(mask, i).subset_of(all.remove(i)));
    vstd::set_lib::lemma_len_subset(lower(mask, i), all.remove(i));
    assert(lower(mask, i) =~= Set::new(|j: int| j < i && mask.has(j)));
    assert forall|j: int| mask.has(j) && j < i implies #[trigger] below(mask, j) < below(
        mask,
        i,
    ) by {
        assert(lower(mask, j).subset_of(lower(mask, i).remove(j)));
        assert(lower(mask, j) =~= Set::new(|k: int| k < j && mask.has(k)));
        vstd::set_lib::lemma_len_subset(lower(mask, j), lower(mask, i).remove(j));
    }
}

/// Every place below the number of squares of a mask is that of one of its squares.
proof fn lemma_places(mask: BitBoard, k: int) -> (s: int)
    requires
        0 <= k < mask.squares().len(),
    ensures
        mask.has(s),
        below(mask, s) == k,
{
    let all = mask.squares();
    let n = all.len() as int;
    let f = |i: int| below(mask, i) as int;
    let places = all.map(f);
    lemma_bits_finite(mask.0);
    assert(injective_on(f, all)) by {
        assert forall|i: int, j: int|
            all.contains(i) && all.contains(j) && #[trigger] f(i) == #[trigger] f(j) implies i
            == j by {
            lemma_below(mask, i);
            lemma_below(mask, j);
            if i < j {
                assert(below(mask, i) < below(mask, j));
            } else if j < i {
                assert(below(mask, j) < below(mask, i));
            }
        }
    }
    vstd::set_lib::lemma_map_size(all, places, f);
    let range = vstd::set_lib::set_int_range(0, n);
    vstd::set_lib::lemma_int_range(0, n);
    assert(places.subset_of(range)) by {
        assert forall|p: int| places.contains(p) implies range.contains(p) by {
            let i = choose|i: int| all.contains(i) && f(i) == p;
            lemma_below(mask, i);
        }
    }
    vstd::set_lib::lemma_subset_equality(places, range);
    assert(places.contains(k));
    choose|i: int| all.contains(i) && f(i) == k
}

/// A word is below a power of two if it has no bit from there up.
pub proof fn lemma_word_bound(w: u64, n: u64)
    requires
        n < 64,
    ensures
        w < (1u64 << n) <==> forall|i: int| #[trigger] bit(w, i) ==> i < n,
{
    broadcast use group_bits;

    let high = w >> n;
    assert(n < 64 && high == w >> n ==> (w < (1u64 << n) <==> high == 0)) by (bit_vector);
    if high == 0 {
        assert forall|i: int| #[trigger] bit(w, i) implies i < n by {
            if i >= n {
                assert(bit(high, i - n));
            }
        }
    }
    if forall|i: int| #[trigger] bit(w, i) ==> i < n {
        assert forall|i: int| bit(high, i) == bit(0, i) by {
            if bit(high, i) {
                assert(bit(w, i + n));
            }
        }
        lemma_bits_equal(high, 0);
    }
}

/// The word with some of the lowest `n` bits set.
proof fn lemma_word(chosen: Set<int>, n: int) -> (w: u64)
    requires
        0 <= n <= 64,
    ensures
        forall|i: int| #[trigger] bit(w, i) <==> 0 <= i < n && chosen.contains(i),
    decreases n,
{
    broadcast use group_bits;

    if n == 0 {
        0
    } else {
        let v = lemma_word(chosen, n - 1);
        if chosen.contains(n - 1) {
            v | (1u64 << ((n - 1) as u64))
        } else {
            v
        }
    }
}

/// The occupancies of a mask with different numbers differ.
pub proof fn law_occupancy_one_to_one(mask: BitBoard, i: u64, j: u64)
    requires
        mask.squares().len() < 64,
        i < (1u64 << (mask.squares().len() as u64)),
        j < (1u64 << (mask.squares().len() as u64)),
        forall|s: int| #[trigger]
            numbered_occupancy(mask, mask.squares().len() as int, i, s) == numbered_occupancy(
                mask,
                mask.squares().len() as int,
                j,
                s,
            ),
    ensures
        i == j,
{
    broadcast use group_bits;

    let n = mask.squares().len() as int;
    lemma_word_bound(i, n as u64);
    lemma_word_bound(j, n as u64);
    assert forall|k: int| bit(i, k) == bit(j, k) by {
        if 0 <= k < n {
            let s = lemma_places(mask, k);
            assert(numbered_occupancy(mask, n, i, s) == numbered_occupancy(mask, n, j, s));
        }
    }
    lemma_bits_equal(i, j);
}

/// Every subset of a mask is the occupancy with some number.
pub proof fn law_occupancy_onto(mask: BitBoard, part: BitBoard) -> (index: u64)
    requires
        mask.squares().len() < 64,
        forall|s: int| #[trigger] part.has(s) ==> mask.has(s),
    ensures
        index < (1u64 << (mask.squares().len() as u64)),
        forall|s: int| #[trigger]
            numbered_occupancy(mask, mask.squares().len() as int, index, s) <==> part.has(s),
{
    let n = mask.squares().len() as int;
    let chosen = Set::new(
        |k: int| exists|s: int| #[trigger] part.has(s) && below(mask, s) == k,
    );
    let index = lemma_word(chosen, n);
    lemma_word_bound(index, n as u64);
    assert forall|s: int| #[trigger] numbered_occupancy(mask, n, index, s) <==> part.has(s) by {
        if mask.has(s) {
            lemma_below(mask, s);
            let k = below(mask, s) as int;
            if bit(index, k) {
                let x = choose|x: int| #[trigger] part.has(x) && below(mask, x) == k;
                lemma_below(mask, x);
                if x < s {
                    assert(below(mask, x) < below(mask, s));
                } else if s < x {
                    assert(below(mask, s) < below(mask, x));
                }
            }
        }
    }
    index
}

/// Number zero is the empty occupancy, and the greatest number is the whole mask.
pub proof fn law_occupancy_ends(mask: BitBoard, s: int)
    requires
        mask.squares().len() < 64,
    ensures
        !numbered_occupancy(mask, mask.squares().len() as int, 0, s),
        numbered_occupancy(
            mask,
            mask.squares().len() as int,
            ((1u64 << (mask.squares().len() as u64)) - 1) as u64,
            s,
        ) <==> mask.has(s),
{
    broadcast use group_bits;

    let n = mask.squares().len() as u64;
    let top = ((1u64 << n) - 1) as u64;
    if mask.has(s) {
        lemma_below(mask, s);
        let k = below(mask, s) as u64;
        assert(n < 64 && k < n ==> (1u64 << n) >= 1 && ((sub_one(1u64 << n) >> k) & 1 == 1))
            by (bit_vector);
        reveal(bit);
        assert(bit(top, k as int));
    }
}

spec fn sub_one(x: u64) -> u64 {
    (x - 1) as u64
}

/// Of a number only the bits below the number of squares matter.
pub proof fn law_occupancy_low_bits(mask: BitBoard, n: int, i: u64, j: u64, s: int)
    requires
        forall|k: int| 0 <= k < n ==> bit(i, k) == bit(j, k),
    ensures
        numbered_occupancy(mask, n, i, s) == numbered_occupancy(mask, n, j, s),
        numbered_occupancy(mask, n, i, s) ==> mask.has(s),
{
}

} // verus!
