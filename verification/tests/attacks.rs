use justbot::attacks::{
    between_squares, blocked_bishop_attacks, blocked_rook_attacks, line_through,
    mask_bishop_attacks, mask_king_attacks, mask_knight_attacks, mask_pawn_attacks,
    mask_rook_attacks,
};
use justbot::magics::{
    find_magic_number, get_magic_index, set_occupancy, MagicTable, BISHOP_MAGIC_NUMBERS,
    BISHOP_OCCUPANCY_BIT_COUNTS, ROOK_MAGIC_NUMBERS, ROOK_OCCUPANCY_BIT_COUNTS,
};
use justbot::types::bitboard::BitBoard;
use justbot::types::pieces::Piece;
use justbot::types::sides::Side;
use justbot::types::squares::Square;

fn squares(list: &[Square]) -> BitBoard {
    let mut bb = BitBoard(0);
    for s in list {
        bb.set_bit(*s);
    }
    bb
}

#[test]
fn test_pawn_attack_mask() {
    let b1 = mask_pawn_attacks(Side::White, Square::C2);
    println!("{}", b1.to_string());
    assert_eq!(b1, BitBoard(655360));

    let b2 = mask_pawn_attacks(Side::Black, Square::A1);
    println!("{}", b2.to_string());
    assert_eq!(b2, BitBoard(0));

    let b3 = mask_pawn_attacks(Side::Black, Square::A4);
    println!("{}", b3.to_string());
    assert_eq!(b3, BitBoard(131072));

    let b4 = mask_pawn_attacks(Side::White, Square::H3);
    println!("{}", b4.to_string());
    assert_eq!(b4, BitBoard(1073741824));
}

#[test]
fn test_knight_attack_mask() {
    for i in 0..64 {
        let b = mask_knight_attacks(Square::from(i));
        println!("{}", b.to_string());
    }
    assert_eq!(mask_knight_attacks(Square::A1), squares(&[Square::B3, Square::C2]));
    assert_eq!(mask_knight_attacks(Square::D4).count_bits(), 8);
}

#[test]
fn test_king_attack_mask() {
    for i in 0..64 {
        let b = mask_king_attacks(Square::from(i));
        println!("{}", b.to_string());
    }
    assert_eq!(
        mask_king_attacks(Square::H1),
        squares(&[Square::G1, Square::G2, Square::H2])
    );
}

#[test]
fn test_bishop_attack_mask() {
    for i in 0..64 {
        let b = mask_bishop_attacks(Square::from(i));
        println!("{}", b.to_string());
        assert_eq!(b.count_bits(), BISHOP_OCCUPANCY_BIT_COUNTS[i]);
    }
}

#[test]
fn test_rook_attack_mask() {
    for i in 0..64 {
        let b = mask_rook_attacks(Square::from(i));
        println!("{}", b.to_string());
        assert_eq!(b.count_bits(), ROOK_OCCUPANCY_BIT_COUNTS[i]);
    }
}

#[test]
fn test_blocked_bishop_attacks() {
    let mut blocked_bitboard = BitBoard(0u64);
    blocked_bitboard.set_bit(Square::C5);
    blocked_bitboard.set_bit(Square::G5);
    blocked_bitboard.set_bit(Square::G1);
    blocked_bitboard.set_bit(Square::D2);

    println!("{}", blocked_bitboard.to_string());

    let b1 = blocked_bishop_attacks(Square::A3, blocked_bitboard);

    println!("{}", b1.to_string());
    assert_eq!(b1, squares(&[Square::B4, Square::C5, Square::B2, Square::C1]));
}

#[test]
fn test_blocked_rook_attacks() {
    let mut blocked_bitboard = BitBoard(0u64);
    blocked_bitboard.set_bit(Square::C3);
    blocked_bitboard.set_bit(Square::H3);
    blocked_bitboard.set_bit(Square::E6);
    blocked_bitboard.set_bit(Square::E2);

    println!("{}", blocked_bitboard.to_string());

    let b1 = blocked_rook_attacks(Square::E3, blocked_bitboard);

    println!("{}", b1.to_string());
    assert_eq!(
        b1,
        squares(&[
            Square::D3,
            Square::C3,
            Square::F3,
            Square::G3,
            Square::H3,
            Square::E4,
            Square::E5,
            Square::E6,
            Square::E2,
        ])
    );
}

#[test]
fn magics_test_set_occupancy() {
    let attack_mask = mask_rook_attacks(Square::A1);
    for i in 0..=4096 {
        let occupancy_bb = set_occupancy(i, 12, attack_mask);
        println!("{}", occupancy_bb.to_string());
    }
}

#[test]
fn occupancy_test_set_occupancy() {
    let attack_mask = mask_rook_attacks(Square::A1);
    for i in 0..=4096 {
        let occupancy_bb = set_occupancy(i, 12, attack_mask);
        println!("{}", occupancy_bb.to_string());
    }
    assert_eq!(set_occupancy(0, 12, attack_mask), BitBoard(0));
    assert_eq!(set_occupancy(4095, 12, attack_mask), attack_mask);
    assert_eq!(set_occupancy(1, 12, attack_mask), squares(&[Square::B1]));
}

#[test]
fn lines_and_segments() {
    assert_eq!(
        between_squares(Square::A1, Square::D4),
        squares(&[Square::B2, Square::C3])
    );
    assert_eq!(between_squares(Square::A1, Square::B3), BitBoard(0));
    assert_eq!(line_through(Square::C1, Square::E1).count_bits(), 8);
    assert_eq!(line_through(Square::A1, Square::B3), BitBoard(0));
}

#[test]
fn published_magics_tell_attacks_apart() {
    for i in 0..64 {
        let square = Square::from(i);
        for rook in [true, false] {
            let (mask, bits, magic) = if rook {
                (mask_rook_attacks(square), ROOK_OCCUPANCY_BIT_COUNTS[i], ROOK_MAGIC_NUMBERS[i])
            } else {
                (mask_bishop_attacks(square), BISHOP_OCCUPANCY_BIT_COUNTS[i], BISHOP_MAGIC_NUMBERS[i])
            };
            let mut table: Vec<Option<BitBoard>> = vec![None; 4096];
            for n in 0..(1usize << bits) {
                let occ = set_occupancy(n, bits, mask);
                let attacks = if rook {
                    blocked_rook_attacks(square, occ)
                } else {
                    blocked_bishop_attacks(square, occ)
                };
                let place = get_magic_index(occ, bits, magic);
                match table[place] {
                    None => table[place] = Some(attacks),
                    Some(known) => assert_eq!(known, attacks),
                }
            }
        }
    }
}

#[test]
fn a_magic_can_be_found() {
    let mut state = 1804289383;
    let magic = find_magic_number(Square::D4, Piece::Bishop, &mut state);
    assert_ne!(magic, 0);
    let table = MagicTable::new(Square::D4, Piece::Bishop, magic).unwrap();
    let occ = BitBoard(0x0000_2200_0022_0000);
    assert_eq!(table.lookup(occ), blocked_bishop_attacks(Square::D4, occ));
    let mut state = 1804289383;
    assert_eq!(find_magic_number(Square::D4, Piece::Queen, &mut state), 0);
}

#[test]
fn the_lookup_agrees_with_the_walk() {
    let boards = [0, u64::MAX, 0x0042_2400_1818_4200, 0x8100_1200_5500_0081, 0x00ff_0000_0000_ff00];
    for i in 0..64usize {
        let square = Square::from(i);
        let bishop = MagicTable::new(square, Piece::Bishop, BISHOP_MAGIC_NUMBERS[i]).unwrap();
        let rook = MagicTable::new(square, Piece::Rook, ROOK_MAGIC_NUMBERS[i]).unwrap();
        for b in boards {
            let occ = BitBoard(b);
            assert_eq!(bishop.lookup(occ), blocked_bishop_attacks(square, occ));
            assert_eq!(rook.lookup(occ), blocked_rook_attacks(square, occ));
        }
    }
    assert!(MagicTable::new(Square::E4, Piece::Rook, 0).is_none());
    assert!(MagicTable::new(Square::E4, Piece::Queen, ROOK_MAGIC_NUMBERS[28]).is_none());
}

#[test]
fn masks_hold_what_matters() {
    for i in 0..64usize {
        let square = Square::from(i);
        let mask = mask_rook_attacks(square);
        assert_eq!(mask.count_bits(), ROOK_OCCUPANCY_BIT_COUNTS[i]);
        assert!(!mask.contains(square));
        let occ = BitBoard(0x1234_5678_9abc_def0);
        let within = BitBoard(occ.0 & mask.0);
        assert_eq!(blocked_rook_attacks(square, occ), blocked_rook_attacks(square, within));
        let mask = mask_bishop_attacks(square);
        assert_eq!(mask.count_bits(), BISHOP_OCCUPANCY_BIT_COUNTS[i]);
        let within = BitBoard(occ.0 & mask.0);
        assert_eq!(blocked_bishop_attacks(square, occ), blocked_bishop_attacks(square, within));
    }
}

#[test]
fn occupancies_run_through_the_subsets() {
    let mask = mask_bishop_attacks(Square::C2);
    let n = mask.count_bits();
    let mut seen = std::collections::HashSet::new();
    for index in 0..1usize << n {
        let occ = set_occupancy(index, n, mask);
        assert_eq!(occ.0 & !mask.0, 0);
        assert!(seen.insert(occ.0));
        assert_eq!(set_occupancy(index + (1 << n), n, mask), occ);
    }
    assert_eq!(seen.len(), 1 << n);
    assert_eq!(set_occupancy(0, n, mask), BitBoard(0));
    assert_eq!(set_occupancy((1 << n) - 1, n, mask), mask);
}
