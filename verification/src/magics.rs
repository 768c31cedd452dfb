//! Magic numbers: perfect hashing of the occupancies that matter to a slider.

pub mod occupancy;

use crate::attacks::{
    between, bishop_reach, blocked_bishop_attacks, blocked_rook_attacks, inner, mask_bishop_attacks,
    mask_rook_attacks, on_diagonal, rook_reach,
};
use crate::magics::occupancy::{
    law_bishop_mask_size, law_mask, law_occupancy_onto, law_rook_mask_size,
};
use crate::random::{generate_magic_number, sparse, stepped};
use crate::types::bitboard::BitBoard;
use crate::types::bits::{
    bit, bits_of, file_of, group_bits, is_square, lemma_bits_equal, lemma_bits_finite,
    lemma_lowest_bit, rank_of,
};
use crate::types::pieces::Piece;
use crate::types::squares::Square;
use vstd::prelude::*;

verus! {

pub const BISHOP_MAGIC_NUMBERS: [u64; 64] = [
    0x40040844404084, 0x2004208a004208, 0x10190041080202, 0x108060845042010,
    0x581104180800210, 0x2112080446200010, 0x1080820820060210, 0x3c0808410220200,
    0x4050404440404, 0x21001420088, 0x24d0080801082102, 0x1020a0a020400,
    0x40308200402, 0x4011002100800, 0x401484104104005, 0x801010402020200,
    0x400210c3880100, 0x404022024108200, 0x810018200204102, 0x4002801a02003,
    0x85040820080400, 0x810102c808880400, 0xe900410884800, 0x8002020480840102,
    0x220200865090201, 0x2010100a02021202, 0x152048408022401, 0x20080002081110,
    0x4001001021004000, 0x800040400a011002, 0xe4004081011002, 0x1c004001012080,
    0x8004200962a00220, 0x8422100208500202, 0x2000402200300c08, 0x8646020080080080,
    0x80020a0200100808, 0x2010004880111000, 0x623000a080011400, 0x42008c0340209202,
    0x209188240001000, 0x400408a884001800, 0x110400a6080400, 0x1840060a44020800,
    0x90080104000041, 0x201011000808101, 0x1a2208080504f080, 0x8012020600211212,
    0x500861011240000, 0x180806108200800, 0x4000020e01040044, 0x300000261044000a,
    0x802241102020002, 0x20906061210001, 0x5a84841004010310, 0x4010801011c04,
    0xa010109502200, 0x4a02012000, 0x500201010098b028, 0x8040002811040900,
    0x28000010020204, 0x6000020202d0240, 0x8918844842082200, 0x4010011029020020,
];

pub const ROOK_MAGIC_NUMBERS: [u64; 64] = [
    0x8a80104000800020, 0x140002000100040, 0x2801880a0017001, 0x100081001000420,
    0x200020010080420, 0x3001c0002010008, 0x8480008002000100, 0x2080088004402900,
    0x800098204000, 0x2024401000200040, 0x100802000801000, 0x120800800801000,
    0x208808088000400, 0x2802200800400, 0x2200800100020080, 0x801000060821100,
    0x80044006422000, 0x100808020004000, 0x12108a0010204200, 0x140848010000802,
    0x481828014002800, 0x8094004002004100, 0x4010040010010802, 0x20008806104,
    0x100400080208000, 0x2040002120081000, 0x21200680100081, 0x20100080080080,
    0x2000a00200410, 0x20080800400, 0x80088400100102, 0x80004600042881,
    0x4040008040800020, 0x440003000200801, 0x4200011004500, 0x188020010100100,
    0x14800401802800, 0x2080040080800200, 0x124080204001001, 0x200046502000484,
    0x480400080088020, 0x1000422010034000, 0x30200100110040, 0x100021010009,
    0x2002080100110004, 0x202008004008002, 0x20020004010100, 0x2048440040820001,
    0x101002200408200, 0x40802000401080, 0x4008142004410100, 0x2060820c0120200,
    0x1001004080100, 0x20c020080040080, 0x2935610830022400, 0x44440041009200,
    0x280001040802101, 0x2100190040002085, 0x80c0084100102001, 0x4024081001000421,
    0x20030a0244872, 0x12001008414402, 0x2006104900a0804, 0x1004081002402,
];

pub const BISHOP_OCCUPANCY_BIT_COUNTS: [usize; 64] = [
    6, 5, 5, 5, 5, 5, 5, 6,
    5, 5, 5, 5, 5, 5, 5, 5,
    5, 5, 7, 7, 7, 7, 5, 5,
    5, 5, 7, 9, 9, 7, 5, 5,
    5, 5, 7, 9, 9, 7, 5, 5,
    5, 5, 7, 7, 7, 7, 5, 5,
    5, 5, 5, 5, 5, 5, 5, 5,
    6, 5, 5, 5, 5, 5, 5, 6,
];

pub const ROOK_OCCUPANCY_BIT_COUNTS: [usize; 64] = [
    12, 11, 11, 11, 11, 11, 11, 12,
    11, 10, 10, 10, 10, 10, 10, 11,
    11, 10, 10, 10, 10, 10, 10, 11,
    11, 10, 10, 10, 10, 10, 10, 11,
    11, 10, 10, 10, 10, 10, 10, 11,
    11, 10, 10, 10, 10, 10, 10, 11,
    11, 10, 10, 10, 10, 10, 10, 11,
    12, 11, 11, 11, 11, 11, 11, 12,
];

/// The number of squares of `mask` below square `i`.
pub open spec fn below(mask: BitBoard, i: int) -> nat {
    Set::new(|j: int| j < i && mask.has(j)).len()
}

/// The occupancy with number `index`: of the `n` lowest squares of `mask` those whose place
/// is a set bit of the index.
pub open spec fn numbered_occupancy(mask: BitBoard, n: int, index: u64, i: int) -> bool {
    mask.has(i) && below(mask, i) < n && bit(index, below(mask, i) as int)
}

/// The occupancy with number `index`.
pub fn set_occupancy(index: usize, num_bits_in_mask: usize, attack_mask: BitBoard) -> (res:
    BitBoard)
    requires
        num_bits_in_mask <= attack_mask.squares().len(),
    ensures
        forall|i: int| #[trigger]
            res.has(i) <==> numbered_occupancy(
                attack_mask,
                num_bits_in_mask as int,
                index as u64,
                i,
            ),
{
    let mut occupancy = BitBoard(0);
    let mut rest = attack_mask;
    let word: u64 = index as u64;
    let ghost mut done: Set<int> = Set::empty();
    let mut count: usize = 0;
    proof {
        broadcast use group_bits;

        lemma_bits_finite(attack_mask.0);
    }
    while count < num_bits_in_mask
        invariant
            count <= num_bits_in_mask <= attack_mask.squares().len() <= 64,
            attack_mask.squares().finite(),
            word == index as u64,
            done.finite(),
            done.len() == count,
            forall|i: int| #[trigger] done.contains(i) <==> attack_mask.has(i) && !rest.has(i),
            forall|i: int| #[trigger] rest.has(i) ==> attack_mask.has(i),
            forall|i: int, j: int| #[trigger] done.contains(i) && #[trigger] rest.has(j) ==> i < j,
            forall|i: int| #[trigger] done.contains(i) ==> below(attack_mask, i) < count,
            forall|i: int| #[trigger]
                occupancy.has(i) <==> done.contains(i) && bit(word, below(attack_mask, i) as int),
        decreases num_bits_in_mask - count,
    {
        let ghost left = rest;
        let ghost sofar = occupancy;
        match rest.pop_lsb() {
            Some(square) => {
                let ghost s = square.idx();
                let flag: u64 = 1u64 << (count as u64);
                proof {
                    broadcast use group_bits;

                    let lower = Set::new(|j: int| j < s && attack_mask.has(j));
                    assert(lower =~= done) by {
                        assert forall|j: int| lower.contains(j) <==> done.contains(j) by {
                            assert(left.has(s));
                        }
                    }
                    assert(below(attack_mask, s) == count);
                    lemma_lowest_bit(word & flag);
                    assert(bit(word & flag, count as int) <==> bit(word, count as int));
                    done = done.insert(s);
                }
                if word & flag != 0 {
                    occupancy.set_bit(square);
                }
            },
            None => {
                proof {
                    assert(attack_mask.squares() =~= done) by {
                        assert forall|i: int| attack_mask.squares().contains(i)
                            <==> done.contains(i) by {
                            assert(attack_mask.squares().contains(i) <==> attack_mask.has(i));
                        }
                    }
                }
            },
        }
        count += 1;
    }
    proof {
        assert forall|i: int| #[trigger] occupancy.has(i) <==> numbered_occupancy(
            attack_mask,
            num_bits_in_mask as int,
            word,
            i,
        ) by {
            if attack_mask.has(i) && !done.contains(i) {
                let lower = Set::new(|j: int| j < i && attack_mask.has(j));
                assert(rest.has(i));
                assert(done.subset_of(lower));
                assert(lower.subset_of(attack_mask.squares())) by {
                    assert forall|j: int| lower.contains(j) implies attack_mask.squares().contains(
                        j,
                    ) by {
                        assert(attack_mask.squares().contains(j) <==> attack_mask.has(j));
                    }
                }
                vstd::set_lib::lemma_set_subset_finite(attack_mask.squares(), lower);
                vstd::set_lib::lemma_len_subset(done, lower);
            }
        }
    }
    occupancy
}

/// The place of an occupancy in the table of a square: the top bits of its product with the
/// magic number.
pub open spec fn magic_place(occ: u64, relevant_bits: int, magic_number: u64) -> u64 {
    occ.wrapping_mul(magic_number) >> ((64 - relevant_bits) as u64)
}

pub fn get_magic_index(occ_bb: BitBoard, relevant_bits: usize, magic_number: u64) -> (res: usize)
    requires
        1 <= relevant_bits <= 32,
    ensures
        res == magic_place(occ_bb.0, relevant_bits as int, magic_number),
        res < (1u64 << (relevant_bits as u64)),
{
    let product: u64 = occ_bb.0.wrapping_mul(magic_number);
    let b: u64 = relevant_bits as u64;
    let shift: u64 = 64 - b;
    assert(1 <= b <= 32 && shift == 64 - b ==> product >> shift < (1u64 << b)) by (bit_vector);
    assert(1 <= b <= 32 ==> (1u64 << b) <= 0x1_0000_0000u64) by (bit_vector);
    (product >> shift) as usize
}

/// The places of a table are below its size.
proof fn lemma_magic_place(occ: u64, relevant_bits: usize, magic_number: u64)
    requires
        1 <= relevant_bits <= 32,
    ensures
        magic_place(occ, relevant_bits as int, magic_number) < (1u64 << (relevant_bits as u64)),
{
    let product = occ.wrapping_mul(magic_number);
    let b = relevant_bits as u64;
    let shift = (64 - relevant_bits) as u64;
    assert(1 <= b <= 32 && shift == 64 - b ==> product >> shift < (1u64 << b)) by (bit_vector);
}

/// The attacks of a bishop or a rook when the squares in `occ` are taken.
pub open spec fn slider_reach(piece: Piece, a: int, t: int, occ: Set<int>) -> bool {
    match piece {
        Piece::Bishop => bishop_reach(a, t, occ),
        _ => rook_reach(a, t, occ),
    }
}

/// The magic number tells apart what has to be told apart: occupancies of the mask that
/// share a place in the table have the same attacks.
pub open spec fn is_magic(
    square: int,
    piece: Piece,
    occupancies: Seq<BitBoard>,
    relevant_bits: int,
    magic_number: u64,
) -> bool {
    forall|i: int, j: int, t: int|
        #![trigger occupancies[i], occupancies[j], is_square(t)]
        0 <= i < occupancies.len() && 0 <= j < occupancies.len() && magic_place(
            occupancies[i].0,
            relevant_bits,
            magic_number,
        ) == magic_place(occupancies[j].0, relevant_bits, magic_number) && is_square(t) ==> (
        slider_reach(piece, square, t, occupancies[i].squares()) <==> slider_reach(
            piece,
            square,
            t,
            occupancies[j].squares(),
        ))
}

/// A table of the occupancies of a mask in the order of their numbers.
pub open spec fn occupancy_table(mask: BitBoard, n: int, table: Seq<BitBoard>) -> bool {
    &&& table.len() == (1u64 << (n as u64))
    &&& forall|k: int, i: int|
        #![trigger table[k].has(i)]
        0 <= k < table.len() ==> (table[k].has(i) <==> numbered_occupancy(mask, n, k as u64, i))
}

/// A slider always attacks something.
proof fn lemma_slider_attacks(piece: Piece, a: int, occ: Set<int>)
    requires
        is_square(a),
    ensures
        exists|t: int| #[trigger] is_square(t) && slider_reach(piece, a, t, occ),
{
    let r: int = if rank_of(a) < 7 {
        8
    } else {
        -8
    };
    let f: int = if file_of(a) < 7 {
        1
    } else {
        -1
    };
    let t = if piece == Piece::Bishop {
        a + r + f
    } else {
        a + r
    };
    assert(is_square(t));
    assert forall|x: int| !between(a, t, x) by {}
    assert(slider_reach(piece, a, t, occ));
}

/// The occupancies of the mask of a square, and the attacks for each.
fn attack_tables(square: Square, piece: Piece, attack_mask: BitBoard, relevant_bits: usize) -> (res:
    (Vec<BitBoard>, Vec<BitBoard>))
    requires
        1 <= relevant_bits <= 12,
        relevant_bits <= attack_mask.squares().len(),
    ensures
        occupancy_table(attack_mask, relevant_bits as int, res.0@),
        res.1@.len() == res.0@.len(),
        forall|k: int, t: int|
            #![trigger res.1@[k].has(t)]
            0 <= k < res.1@.len() ==> (res.1@[k].has(t) <==> slider_reach(
                piece,
                square.idx(),
                t,
                res.0@[k].squares(),
            )),
{
    let b: u64 = relevant_bits as u64;
    let size: u64 = 1u64 << b;
    assert(1 <= b <= 12 ==> (1u64 << b) <= 4096) by (bit_vector);
    let mut occupancies: Vec<BitBoard> = Vec::new();
    let mut attacks: Vec<BitBoard> = Vec::new();
    let mut index: usize = 0;
    while (index as u64) < size
        invariant
            index <= size <= 4096,
            1 <= relevant_bits <= 12,
            relevant_bits <= attack_mask.squares().len(),
            occupancies@.len() == index,
            attacks@.len() == index,
            forall|k: int, i: int|
                #![trigger occupancies@[k].has(i)]
                0 <= k < index ==> (occupancies@[k].has(i) <==> numbered_occupancy(
                    attack_mask,
                    relevant_bits as int,
                    k as u64,
                    i,
                )),
            forall|k: int, t: int|
                #![trigger attacks@[k].has(t)]
                0 <= k < index ==> (attacks@[k].has(t) <==> slider_reach(
                    piece,
                    square.idx(),
                    t,
                    occupancies@[k].squares(),
                )),
        decreases size - index,
    {
        let occ = set_occupancy(index, relevant_bits, attack_mask);
        let reached = match piece {
            Piece::Bishop => blocked_bishop_attacks(square, occ),
            _ => blocked_rook_attacks(square, occ),
        };
        occupancies.push(occ);
        attacks.push(reached);
        index += 1;
    }
    (occupancies, attacks)
}

/// The attacks at the places of their occupancies, if no two occupancies with different
/// attacks share a place in the table.
fn fill_table(
    square: Square,
    piece: Piece,
    occupancies: &Vec<BitBoard>,
    attacks: &Vec<BitBoard>,
    relevant_bits: usize,
    magic_number: u64,
) -> (res: Option<Vec<BitBoard>>)
    requires
        1 <= relevant_bits <= 12,
        occupancies@.len() == (1u64 << (relevant_bits as u64)),
        attacks@.len() == occupancies@.len(),
        forall|k: int, t: int|
            #![trigger attacks@[k].has(t)]
            0 <= k < attacks@.len() ==> (attacks@[k].has(t) <==> slider_reach(
                piece,
                square.idx(),
                t,
                occupancies@[k].squares(),
            )),
    ensures
        res is Some == is_magic(
            square.idx(),
            piece,
            occupancies@,
            relevant_bits as int,
            magic_number,
        ),
        res matches Some(table) ==> table@.len() == occupancies@.len() && forall|k: int|
            0 <= k < occupancies@.len() ==> table@[magic_place(
                (#[trigger] occupancies@[k]).0,
                relevant_bits as int,
                magic_number,
            ) as int] == attacks@[k],
{
    let ghost a = square.idx();
    let ghost n = relevant_bits as int;
    let mut used_attacks: Vec<BitBoard> = Vec::new();
    let mut i: usize = 0;
    while i < occupancies.len()
        invariant
            i <= occupancies@.len(),
            used_attacks@.len() == i,
            forall|k: int| 0 <= k < i ==> #[trigger] used_attacks@[k] == BitBoard(0),
        decreases occupancies@.len() - i,
    {
        used_attacks.push(BitBoard(0));
        i += 1;
    }
    let mut index: usize = 0;
    while index < occupancies.len()
        invariant
            a == square.idx(),
            n == relevant_bits as int,
            index <= occupancies@.len(),
            1 <= relevant_bits <= 12,
            occupancies@.len() == (1u64 << (relevant_bits as u64)),
            attacks@.len() == occupancies@.len(),
            used_attacks@.len() == occupancies@.len(),
            forall|k: int, t: int|
                #![trigger attacks@[k].has(t)]
                0 <= k < attacks@.len() ==> (attacks@[k].has(t) <==> slider_reach(
                    piece,
                    a,
                    t,
                    occupancies@[k].squares(),
                )),
            forall|k: int|
                0 <= k < index ==> used_attacks@[magic_place(
                    (#[trigger] occupancies@[k]).0,
                    n,
                    magic_number,
                ) as int] == attacks@[k],
            forall|p: int|
                0 <= p < used_attacks@.len() ==> (#[trigger] used_attacks@[p] == BitBoard(0)
                    || exists|k: int|
                    0 <= k < index && magic_place(
                        (#[trigger] occupancies@[k]).0,
                        n,
                        magic_number,
                    ) == p && attacks@[k] == used_attacks@[p]),
        decreases occupancies@.len() - index,
    {
        let magic_index = get_magic_index(occupancies[index], relevant_bits, magic_number);
        let ghost before = used_attacks@;
        proof {
            lemma_slider_attacks(piece, a, occupancies@[index as int].squares());
            let t = choose|t: int| #[trigger]
                is_square(t) && slider_reach(piece, a, t, occupancies@[index as int].squares());
            assert(attacks@[index as int].has(t));
            lemma_lowest_bit(attacks@[index as int].0);
        }
        if used_attacks[magic_index].0 == 0 {
            used_attacks.set(magic_index, attacks[index]);
            proof {
                assert forall|k: int| 0 <= k < index + 1 implies used_attacks@[magic_place(
                    (#[trigger] occupancies@[k]).0,
                    n,
                    magic_number,
                ) as int] == attacks@[k] by {
                    lemma_magic_place(occupancies@[k].0, relevant_bits, magic_number);
                    if k < index {
                        let p = magic_place(occupancies@[k].0, n, magic_number) as int;
                        assert(before[p] == attacks@[k]);
                        if p == magic_index {
                            lemma_slider_attacks(piece, a, occupancies@[k].squares());
                            let t = choose|t: int| #[trigger]
                                is_square(t) && slider_reach(
                                    piece,
                                    a,
                                    t,
                                    occupancies@[k].squares(),
                                );
                            assert(attacks@[k].has(t));
                            lemma_lowest_bit(attacks@[k].0);
                        }
                    }
                }
                assert forall|p: int| 0 <= p < used_attacks@.len() implies (
                #[trigger] used_attacks@[p] == BitBoard(0) || exists|k: int|
                    0 <= k < index + 1 && magic_place(
                        (#[trigger] occupancies@[k]).0,
                        n,
                        magic_number,
                    ) == p && attacks@[k] == used_attacks@[p]) by {
                    if p == magic_index {
                        assert(magic_place(occupancies@[index as int].0, n, magic_number) == p);
                    } else {
                        assert(used_attacks@[p] == before[p]);
                    }
                }
            }
        } else if used_attacks[magic_index].0 != attacks[index].0 {
            proof {
                let p = magic_index as int;
                let k = choose|k: int|
                    0 <= k < index && magic_place(
                        (#[trigger] occupancies@[k]).0,
                        n,
                        magic_number,
                    ) == p && attacks@[k] == used_attacks@[p];
                let x = attacks@[k];
                let y = attacks@[index as int];
                if forall|t: int| bit(x.0, t) == bit(y.0, t) {
                    lemma_bits_equal(x.0, y.0);
                }
                let t = choose|t: int| bit(x.0, t) != bit(y.0, t);
                assert(x.has(t) != y.has(t));
                lemma_range(x.0, t);
                lemma_range(y.0, t);
                assert(is_square(t));
                assert(occupancies@[k] == occupancies@[k] && occupancies@[index as int]
                    == occupancies@[index as int]);
                assert(slider_reach(piece, a, t, occupancies@[k].squares()) != slider_reach(
                    piece,
                    a,
                    t,
                    occupancies@[index as int].squares(),
                ));
            }
            return None;
        }
        index += 1;
    }
    proof {
        assert forall|i: int, j: int, t: int|
            #![trigger occupancies@[i], occupancies@[j], is_square(t)]
            0 <= i < occupancies@.len() && 0 <= j < occupancies@.len() && magic_place(
                occupancies@[i].0,
                n,
                magic_number,
            ) == magic_place(occupancies@[j].0, n, magic_number) && is_square(t) implies (
        slider_reach(piece, a, t, occupancies@[i].squares()) <==> slider_reach(
            piece,
            a,
            t,
            occupancies@[j].squares(),
        )) by {
            assert(attacks@[i] == attacks@[j]);
            assert(attacks@[i].has(t) <==> slider_reach(piece, a, t, occupancies@[i].squares()));
            assert(attacks@[j].has(t) <==> slider_reach(piece, a, t, occupancies@[j].squares()));
        }
    }
    Some(used_attacks)
}

proof fn lemma_range(b: u64, t: int)
    ensures
        bit(b, t) ==> is_square(t),
{
    broadcast use group_bits;

}

/// How often a magic number is looked for.
pub const MAGIC_TRIES: u32 = 10000000;

/// The squares on which a piece can stop the slider short.
pub open spec fn slider_mask(piece: Piece, a: int, mask: BitBoard) -> bool {
    forall|t: int| #[trigger]
        mask.has(t) <==> is_square(t) && t != a && match piece {
            Piece::Bishop => on_diagonal(a, t) && inner(t),
            _ => (file_of(t) == file_of(a) && 1 <= rank_of(t) <= 6) || (rank_of(t) == rank_of(a)
                && 1 <= file_of(t) <= 6),
        }
}

/// A mask holds between one and twelve squares.
proof fn lemma_mask_size(piece: Piece, a: int, mask: BitBoard)
    requires
        piece == Piece::Bishop || piece == Piece::Rook,
        is_square(a),
        slider_mask(piece, a, mask),
    ensures
        1 <= mask.squares().len() <= 12,
{
    if piece == Piece::Bishop {
        law_bishop_mask_size(a, mask);
    } else {
        law_rook_mask_size(a, mask);
    }
}

/// The state of the generator once `k` candidates have been drawn.
pub open spec fn drawn_state(state: u32, k: nat) -> u32
    decreases k,
{
    if k == 0 {
        state
    } else {
        stepped(drawn_state(state, (k - 1) as nat), 12)
    }
}

/// The candidate that is drawn after `k` others.
pub open spec fn candidate(state: u32, k: nat) -> u64 {
    let s = drawn_state(state, k);
    sparse(s)
}

/// A candidate is taken: it spreads the mask well over the highest bits, and it tells the
/// occupancies with different attacks apart.
pub open spec fn taken(
    square: int,
    piece: Piece,
    mask: BitBoard,
    table: Seq<BitBoard>,
    m: u64,
) -> bool {
    &&& bits_of(mask.0.wrapping_mul(m) & 0xFF00000000000000).len() >= 6
    &&& is_magic(square, piece, table, mask.squares().len() as int, m)
}

/// The first of so many candidates that is taken, or zero if none is, and the state of the
/// generator after it.
pub open spec fn first_taken(
    square: int,
    piece: Piece,
    mask: BitBoard,
    table: Seq<BitBoard>,
    before: u32,
    after: u32,
    res: u64,
) -> bool {
    ||| exists|k: nat|
            {
                &&& k < MAGIC_TRIES
                &&& res == #[trigger] candidate(before, k)
                &&& taken(square, piece, mask, table, res)
                &&& after == drawn_state(before, k + 1)
                &&& forall|j: nat|
                    j < k ==> !taken(square, piece, mask, table, #[trigger] candidate(before, j))
            }
    ||| {
            &&& res == 0
            &&& after == drawn_state(before, MAGIC_TRIES as nat)
            &&& forall|j: nat|
                j < MAGIC_TRIES ==> !taken(
                    square,
                    piece,
                    mask,
                    table,
                    #[trigger] candidate(before, j),
                )
        }
}

/// Looks for a magic number of a bishop or a rook on a square, drawing candidates from the
/// generator state. The number is zero if none is found, and for other pieces.
pub fn find_magic_number(square: Square, piece: Piece, state: &mut u32) -> (res: u64)
    ensures
        piece != Piece::Bishop && piece != Piece::Rook ==> res == 0 && *final(state)
            == *old(state),
        piece == Piece::Bishop || piece == Piece::Rook ==> exists|
            mask: BitBoard,
            table: Seq<BitBoard>,
        |
            #![trigger occupancy_table(mask, mask.squares().len() as int, table)]
            {
                &&& slider_mask(piece, square.idx(), mask)
                &&& occupancy_table(mask, mask.squares().len() as int, table)
                &&& first_taken(
                    square.idx(),
                    piece,
                    mask,
                    table,
                    *old(state),
                    *final(state),
                    res,
                )
            },
{
    let attack_mask = match piece {
        Piece::Bishop => mask_bishop_attacks(square),
        Piece::Rook => mask_rook_attacks(square),
        _ => {
            return 0;
        },
    };
    let relevant_bits = attack_mask.count_bits();
    let ghost a = square.idx();
    let ghost start = *state;
    proof {
        lemma_mask_size(piece, a, attack_mask);
    }
    let (occupancies, attacks) = attack_tables(square, piece, attack_mask, relevant_bits);
    let mut tries: u32 = 0;
    while tries < MAGIC_TRIES
        invariant
            tries <= MAGIC_TRIES,
            1 <= relevant_bits <= 12,
            piece == Piece::Bishop || piece == Piece::Rook,
            a == square.idx(),
            start == *old(state),
            relevant_bits == attack_mask.squares().len(),
            slider_mask(piece, a, attack_mask),
            occupancy_table(attack_mask, relevant_bits as int, occupancies@),
            attacks@.len() == occupancies@.len(),
            forall|k: int, t: int|
                #![trigger attacks@[k].has(t)]
                0 <= k < attacks@.len() ==> (attacks@[k].has(t) <==> slider_reach(
                    piece,
                    a,
                    t,
                    occupancies@[k].squares(),
                )),
            *state == drawn_state(start, tries as nat),
            forall|j: nat|
                j < tries ==> !taken(
                    a,
                    piece,
                    attack_mask,
                    occupancies@,
                    #[trigger] candidate(start, j),
                ),
        decreases MAGIC_TRIES - tries,
    {
        let magic_number = generate_magic_number(state);
        assert(magic_number == candidate(start, tries as nat));
        assert(*state == drawn_state(start, (tries + 1) as nat));
        let top: u64 = attack_mask.0.wrapping_mul(magic_number) & 0xFF00000000000000;
        if top.count_ones() >= 6 {
            let filled = fill_table(
                square,
                piece,
                &occupancies,
                &attacks,
                relevant_bits,
                magic_number,
            );
            if filled.is_some() {
                assert(taken(a, piece, attack_mask, occupancies@, magic_number));
                return magic_number;
            }
        }
        tries += 1;
    }
    0
}

/// The attacks of a bishop or a rook on a square, to be looked up by what stands on its mask.
#[derive(Debug)]
pub struct MagicTable {
    square: Square,
    piece: Piece,
    mask: BitBoard,
    magic_number: u64,
    relevant_bits: usize,
    attacks: Vec<BitBoard>,
}

impl MagicTable {
    pub closed spec fn at(self) -> int {
        self.square.idx()
    }

    pub closed spec fn of(self) -> Piece {
        self.piece
    }

    /// At the place of each occupancy are the attacks with it.
    spec fn holds_all(self, table: Seq<BitBoard>) -> bool {
        forall|k: int, t: int|
            #![trigger table[k], is_square(t)]
            0 <= k < table.len() && is_square(t) ==> (self.attacks@[magic_place(
                table[k].0,
                self.relevant_bits as int,
                self.magic_number,
            ) as int].has(t) <==> slider_reach(self.piece, self.square.idx(), t, table[k].squares()))
    }

    pub closed spec fn wf(self) -> bool {
        &&& self.piece == Piece::Bishop || self.piece == Piece::Rook
        &&& slider_mask(self.piece, self.square.idx(), self.mask)
        &&& 1 <= self.relevant_bits <= 12
        &&& self.relevant_bits == self.mask.squares().len()
        &&& self.attacks@.len() == (1u64 << (self.relevant_bits as u64))
        &&& exists|table: Seq<BitBoard>| #[trigger]
            occupancy_table(self.mask, self.relevant_bits as int, table) && self.holds_all(table)
    }

    /// The table that a magic number gives, if it tells apart what has to be told apart.
    pub fn new(square: Square, piece: Piece, magic_number: u64) -> (res: Option<MagicTable>)
        ensures
            piece != Piece::Bishop && piece != Piece::Rook ==> res is None,
            res matches Some(table) ==> table.wf() && table.at() == square.idx() && table.of()
                == piece,
            piece == Piece::Bishop || piece == Piece::Rook ==> exists|
                mask: BitBoard,
                table: Seq<BitBoard>,
            |
                #![trigger occupancy_table(mask, mask.squares().len() as int, table)]
                slider_mask(piece, square.idx(), mask) && occupancy_table(
                    mask,
                    mask.squares().len() as int,
                    table,
                ) && res is Some == is_magic(
                    square.idx(),
                    piece,
                    table,
                    mask.squares().len() as int,
                    magic_number,
                ),
    {
        let mask = match piece {
            Piece::Bishop => mask_bishop_attacks(square),
            Piece::Rook => mask_rook_attacks(square),
            _ => {
                return None;
            },
        };
        let relevant_bits = mask.count_bits();
        proof {
            lemma_mask_size(piece, square.idx(), mask);
        }
        let (occupancies, reached) = attack_tables(square, piece, mask, relevant_bits);
        let filled = fill_table(
            square,
            piece,
            &occupancies,
            &reached,
            relevant_bits,
            magic_number,
        );
        assert(occupancy_table(mask, mask.squares().len() as int, occupancies@));
        match filled {
            None => None,
            Some(attacks) => {
                let res = MagicTable {
                    square,
                    piece,
                    mask,
                    magic_number,
                    relevant_bits,
                    attacks,
                };
                proof {
                    let table = occupancies@;
                    assert forall|k: int, t: int|
                        #![trigger table[k], is_square(t)]
                        0 <= k < table.len() && is_square(t) implies (res.attacks@[magic_place(
                        table[k].0,
                        relevant_bits as int,
                        magic_number,
                    ) as int].has(t) <==> slider_reach(
                        piece,
                        square.idx(),
                        t,
                        table[k].squares(),
                    )) by {
                        assert(reached@[k].has(t) <==> slider_reach(
                            piece,
                            square.idx(),
                            t,
                            table[k].squares(),
                        ));
                    }
                    assert(res.holds_all(table));
                }
                Some(res)
            },
        }
    }

    /// Looks up the squares that the piece attacks when the squares of a board are taken:
    /// those to which it can walk.
    pub fn lookup(&self, occ: BitBoard) -> (res: BitBoard)
        requires
            self.wf(),
        ensures
            forall|t: int| #[trigger]
                res.has(t) <==> slider_reach(self.of(), self.at(), t, occ.squares()),
    {
        let within = BitBoard(occ.0 & self.mask.0);
        let place = get_magic_index(within, self.relevant_bits, self.magic_number);
        let res = self.attacks[place];
        proof {
            broadcast use group_bits;

            let (piece, a, n) = (self.piece, self.square.idx(), self.relevant_bits as int);
            let table = choose|table: Seq<BitBoard>| #[trigger]
                occupancy_table(self.mask, n, table) && self.holds_all(table);
            assert forall|s: int| #[trigger] within.has(s) implies self.mask.has(s) by {}
            let index = law_occupancy_onto(self.mask, within);
            let k = index as int;
            assert forall|s: int| bit(table[k].0, s) == bit(within.0, s) by {
                assert(table[k].has(s) <==> numbered_occupancy(self.mask, n, k as u64, s));
                assert(numbered_occupancy(self.mask, n, index, s) <==> within.has(s));
            }
            lemma_bits_equal(table[k].0, within.0);
            law_mask(piece, a, self.mask, occ);
            assert forall|t: int| #[trigger] res.has(t) <==> slider_reach(
                piece,
                a,
                t,
                occ.squares(),
            ) by {
                assert(slider_reach(piece, a, t, occ.squares()) <==> slider_reach(
                    piece,
                    a,
                    t,
                    within.squares(),
                ));
                lemma_range(res.0, t);
                if is_square(t) {
                    assert(table[k] == within);
                }
            }
        }
        res
    }
}

} // verus!
