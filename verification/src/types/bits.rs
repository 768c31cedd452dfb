//! Words as sets of square numbers.

use vstd::prelude::*;
use vstd::std_specs::bits::{axiom_u64_trailing_zeros, u64_trailing_zeros};

verus! {

/// The rank, from 0, of the square with number `i`.
pub open spec fn rank_of(i: int) -> int {
    i / 8
}

/// The file, from 0, of the square with number `i`.
pub open spec fn file_of(i: int) -> int {
    i % 8
}

/// Whether `i` is the number of a square.
pub open spec fn is_square(i: int) -> bool {
    0 <= i < 64
}

/// Whether bit `i` of `b` is set.
#[verifier::opaque]
pub open spec fn bit(b: u64, i: int) -> bool {
    0 <= i < 64 && (b >> (i as u64)) & 1 == 1
}

/// The numbers of the bits set in `b`.
pub open spec fn bits_of(b: u64) -> Set<int> {
    Set::new(|i: int| bit(b, i))
}

proof fn bits_raw(a: u64, b: u64, i: u64, k: u64)
    by (bit_vector)
    requires
        i < 64,
        k < 64,
    ensures
        ((a & b) >> i) & 1 == 1 <==> ((a >> i) & 1 == 1 && (b >> i) & 1 == 1),
        ((a | b) >> i) & 1 == 1 <==> ((a >> i) & 1 == 1 || (b >> i) & 1 == 1),
        ((a ^ b) >> i) & 1 == 1 <==> !((a >> i) & 1 == 1 <==> (b >> i) & 1 == 1),
        ((!a) >> i) & 1 == 1 <==> !((a >> i) & 1 == 1),
        !((0u64 >> i) & 1 == 1),
        ((1u64 << k) >> i) & 1 == 1 <==> i == k,
        ((a << k) >> i) & 1 == 1 <==> (i >= k && (a >> ((i - k) as u64)) & 1 == 1),
        ((a >> k) >> i) & 1 == 1 <==> (i + k < 64 && (a >> ((i + k) as u64)) & 1 == 1),
        (0x0101010101010101u64 >> i) & 1 == 1 <==> i % 8 == 0,
        (0x0202020202020202u64 >> i) & 1 == 1 <==> i % 8 == 1,
        (0x0303030303030303u64 >> i) & 1 == 1 <==> i % 8 <= 1,
        (0x4040404040404040u64 >> i) & 1 == 1 <==> i % 8 == 6,
        (0x8080808080808080u64 >> i) & 1 == 1 <==> i % 8 == 7,
        (0xC0C0C0C0C0C0C0C0u64 >> i) & 1 == 1 <==> i % 8 >= 6,
        (0x00000000000000FFu64 >> i) & 1 == 1 <==> i / 8 == 0,
        (0x00000000FF000000u64 >> i) & 1 == 1 <==> i / 8 == 3,
        (0x000000FF00000000u64 >> i) & 1 == 1 <==> i / 8 == 4,
        (0xFF00000000000000u64 >> i) & 1 == 1 <==> i / 8 == 7,
        (0xFF818181818181FFu64 >> i) & 1 == 1 <==> (i / 8 == 0 || i / 8 == 7 || i % 8 == 0 || i % 8 == 7),
        (0x0000000000000060u64 >> i) & 1 == 1 <==> (i == 5 || i == 6),
        (0x000000000000000Eu64 >> i) & 1 == 1 <==> (i == 1 || i == 2 || i == 3),
{
}

pub broadcast proof fn lemma_bit_range(b: u64, i: int)
    requires
        #[trigger] bit(b, i),
    ensures
        0 <= i < 64,
{
    reveal(bit);
}

pub broadcast proof fn lemma_bit_and(a: u64, b: u64, i: int)
    ensures
        #[trigger] bit(a & b, i) <==> bit(a, i) && bit(b, i),
{
    reveal(bit);
    if 0 <= i < 64 {
        bits_raw(a, b, i as u64, 0);
    }
}

pub broadcast proof fn lemma_bit_or(a: u64, b: u64, i: int)
    ensures
        #[trigger] bit(a | b, i) <==> bit(a, i) || bit(b, i),
{
    reveal(bit);
    if 0 <= i < 64 {
        bits_raw(a, b, i as u64, 0);
    }
}

pub broadcast proof fn lemma_bit_xor(a: u64, b: u64, i: int)
    ensures
        #[trigger] bit(a ^ b, i) <==> (bit(a, i) != bit(b, i)),
{
    reveal(bit);
    if 0 <= i < 64 {
        bits_raw(a, b, i as u64, 0);
    }
}

pub broadcast proof fn lemma_bit_not(a: u64, i: int)
    ensures
        #[trigger] bit(!a, i) <==> is_square(i) && !bit(a, i),
{
    reveal(bit);
    if 0 <= i < 64 {
        bits_raw(a, a, i as u64, 0);
    }
}

pub broadcast proof fn lemma_bit_zero(i: int)
    ensures
        !(#[trigger] bit(0, i)),
{
    reveal(bit);
    if 0 <= i < 64 {
        bits_raw(0, 0, i as u64, 0);
    }
}

pub broadcast proof fn lemma_bit_single(k: u64, i: int)
    requires
        k < 64,
    ensures
        #[trigger] bit(1u64 << k, i) <==> i == k,
{
    reveal(bit);
    if 0 <= i < 64 {
        bits_raw(0, 0, i as u64, k);
    }
}

pub broadcast proof fn lemma_bit_shl(a: u64, k: u64, i: int)
    requires
        k < 64,
    ensures
        #[trigger] bit(a << k, i) <==> is_square(i) && bit(a, i - k),
{
    reveal(bit);
    if 0 <= i < 64 {
        bits_raw(a, 0, i as u64, k);
    }
}

pub broadcast proof fn lemma_bit_shr(a: u64, k: u64, i: int)
    requires
        k < 64,
    ensures
        #[trigger] bit(a >> k, i) <==> is_square(i) && bit(a, i + k),
{
    reveal(bit);
    if 0 <= i < 64 {
        bits_raw(a, 0, i as u64, k);
    }
}

/// Membership in the named files, ranks and castling paths.
pub broadcast proof fn lemma_bit_regions(b: u64, i: int)
    ensures
        #![trigger bit(b, i)]
        b == 0x0101010101010101u64 && is_square(i) ==> (bit(b, i) <==> i % 8 == 0),
        b == 0x0202020202020202u64 && is_square(i) ==> (bit(b, i) <==> i % 8 == 1),
        b == 0x0303030303030303u64 && is_square(i) ==> (bit(b, i) <==> i % 8 <= 1),
        b == 0x4040404040404040u64 && is_square(i) ==> (bit(b, i) <==> i % 8 == 6),
        b == 0x8080808080808080u64 && is_square(i) ==> (bit(b, i) <==> i % 8 == 7),
        b == 0xC0C0C0C0C0C0C0C0u64 && is_square(i) ==> (bit(b, i) <==> i % 8 >= 6),
        b == 0x00000000000000FFu64 && is_square(i) ==> (bit(b, i) <==> i / 8 == 0),
        b == 0x00000000FF000000u64 && is_square(i) ==> (bit(b, i) <==> i / 8 == 3),
        b == 0x000000FF00000000u64 && is_square(i) ==> (bit(b, i) <==> i / 8 == 4),
        b == 0xFF00000000000000u64 && is_square(i) ==> (bit(b, i) <==> i / 8 == 7),
        b == 0x0000000000000060u64 ==> (bit(b, i) <==> i == 5 || i == 6),
        b == 0x000000000000000Eu64 ==> (bit(b, i) <==> i == 1 || i == 2 || i == 3),
{
    reveal(bit);
    if 0 <= i < 64 {
        bits_raw(0, 0, i as u64, 0);
    }
}

/// The border of the board.
pub proof fn lemma_borders(i: int)
    ensures
        bit(0xFF818181818181FFu64, i) <==> is_square(i) && (rank_of(i) == 0 || rank_of(i) == 7
            || file_of(i) == 0 || file_of(i) == 7),
{
    reveal(bit);
    if 0 <= i < 64 {
        bits_raw(0, 0, i as u64, 0);
    }
}

/// Words with the same bits are equal.
pub proof fn lemma_bits_equal(a: u64, b: u64)
    requires
        forall|i: int| bit(a, i) == bit(b, i),
    ensures
        a == b,
{
    let d = a ^ b;
    axiom_u64_trailing_zeros(d);
    if d != 0 {
        let k = u64_trailing_zeros(d) as int;
        assert(bit(d, k)) by {
            reveal(bit);
        }
        lemma_bit_xor(a, b, k);
        assert(bit(a, k) == bit(b, k));
    }
    assert(a ^ b == 0 ==> a == b) by (bit_vector);
}

/// A word is nonzero exactly when it has a bit; the lowest one is a witness.
pub proof fn lemma_lowest_bit(b: u64)
    ensures
        b == 0 ==> forall|i: int| !bit(b, i),
        b != 0 ==> u64_trailing_zeros(b) < 64 && bit(b, u64_trailing_zeros(b) as int),
        forall|j: int| 0 <= j < u64_trailing_zeros(b) ==> !bit(b, j),
{
    axiom_u64_trailing_zeros(b);
    assert forall|j: int| 0 <= j < u64_trailing_zeros(b) implies !bit(b, j) by {
        reveal(bit);
        assert((b >> (j as u64)) & 1u64 == 0u64);
    }
    if b != 0 {
        reveal(bit);
    } else {
        assert forall|i: int| !bit(b, i) by {
            lemma_bit_zero(i);
        }
    }
}

/// Clearing a bit makes the word smaller.
pub proof fn lemma_clear_decreases(b: u64, k: u64)
    requires
        k < 64,
        bit(b, k as int),
    ensures
        b & !(1u64 << k) < b,
{
    reveal(bit);
    assert((b >> k) & 1 == 1 && k < 64 ==> b & !(1u64 << k) < b) by (bit_vector);
}

pub broadcast group group_bits {
    lemma_bit_range,
    lemma_bit_and,
    lemma_bit_or,
    lemma_bit_xor,
    lemma_bit_not,
    lemma_bit_zero,
    lemma_bit_single,
    lemma_bit_shl,
    lemma_bit_shr,
}

/// The bits of a word form a finite set of at most sixty-four numbers.
pub proof fn lemma_bits_finite(b: u64)
    ensures
        bits_of(b).finite(),
        bits_of(b).len() <= 64,
{
    broadcast use group_bits;

    vstd::set_lib::lemma_int_range(0, 64);
    assert(bits_of(b).subset_of(vstd::set_lib::set_int_range(0, 64)));
    vstd::set_lib::lemma_len_subset(bits_of(b), vstd::set_lib::set_int_range(0, 64));
}

/// `u64::count_ones`: the number of ones in the binary representation.
pub assume_specification[ u64::count_ones ](b: u64) -> (res: u32)
    ensures
        res == bits_of(b).len(),
;

} // verus!
