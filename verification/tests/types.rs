use justbot::board::Board;
use justbot::evaluation::{cmd, distance, manhattan_distance, mated, mating};
use justbot::random::{get_random_num, get_random_u64_num, SEED};
use justbot::types::bitboard::BitBoard;
use justbot::types::history::{update_entry, NoisyHistory, QuietHistory};
use justbot::types::moves::{Move, MoveKind};
use justbot::types::pieces::Piece;
use justbot::types::plytable::PlyTable;
use justbot::types::score::{from_tt, is_decisive, is_loss, is_win, MATE, NO_SCORE};
use justbot::types::sides::{Castling, CastlingRights, Side};
use justbot::types::squares::Square;
use justbot::types::stackvec::StackVec;
use justbot::types::transposition::{Bound, Flags, TranspositionTable};
use justbot::zobrist::init_zobrist_nums;
use std::collections::HashSet;

#[test]
fn test_count_bits() {
    let mut bb = BitBoard(0);
    bb.set_bit(Square::A1);

    assert_eq!(bb.count_bits(), 1);

    bb.set_bit(Square::A3);
    bb.set_bit(Square::A2);
    bb.set_bit(Square::A1);

    assert_eq!(bb.count_bits(), 3);
}

#[test]
fn test_least_sig_bit() {
    let mut bb = BitBoard(0);
    bb.set_bit(Square::A3);

    assert_eq!(bb.least_sig_bit().unwrap(), Square::A3);

    bb.set_bit(Square::B3);
    bb.set_bit(Square::B2);
    bb.set_bit(Square::H8);
    bb.set_bit(Square::C2);

    assert_eq!(bb.least_sig_bit().unwrap(), Square::B2);
    bb.clear_bit(Square::B2);
    assert_eq!(bb.least_sig_bit().unwrap(), Square::C2);
}

#[test]
fn test_bitboard_iter() {
    let mut bb = BitBoard(0);

    bb.set_bit(Square::A3);
    bb.set_bit(Square::B3);
    bb.set_bit(Square::B2);
    bb.set_bit(Square::H8);
    bb.set_bit(Square::C2);

    let mut seen = Vec::new();
    let mut rest = bb.iter();
    while let Some(square) = rest.next() {
        println!("{:?}", square);
        seen.push(square);
    }
    assert_eq!(seen, vec![Square::B2, Square::C2, Square::A3, Square::B3, Square::H8]);
}

#[test]
fn movegen_test_move_create() {
    let from = Square::A2;
    let to = Square::A4;
    let kind = MoveKind::DoublePawn;

    let m = Move::new(from, to, kind);
    println!("{:?}, {:?}, {:?}", m.get_from(), m.get_to(), m.get_kind());
    assert_eq!(m.get_from(), from);
    assert_eq!(m.get_to(), to);
    assert_eq!(m.get_kind(), MoveKind::DoublePawn);
}

#[test]
fn moves_test_move_create() {
    let from = Square::A2;
    let to = Square::A4;
    let kind = MoveKind::DoublePawn;

    let m = Move::new(from, to, kind);
    println!("{:?}, {:?}, {:?}", m.get_from(), m.get_to(), m.get_kind());
}

#[test]
fn test_cmd() {
    let square = Square::A8;

    for rank in 0..8 {
        let mut line = String::new();
        for file in 0..8 {
            let square = Square::from_rank_and_file(rank, file);
            line.push_str(&format!("{} ", cmd(square)));
        }
        println!("{line}");
    }

    assert_eq!(6, cmd(square));
}

#[test]
fn test_distances() {
    let square_1 = Square::A8;
    let square_2 = Square::A4;

    assert_eq!(4, distance(square_1, square_2));

    let square_1 = Square::B4;
    let square_2 = Square::A4;

    assert_eq!(1, distance(square_1, square_2));

    let square_1 = Square::H8;
    let square_2 = Square::A1;

    assert_eq!(7, distance(square_1, square_2));
    assert_eq!(14, manhattan_distance(square_1, square_2));
}

#[test]
fn test_mated_score() {
    assert!(mated(-8993));
    assert!(!mated(-34));
    assert!(!mated(300));
    assert!(mating(8993));
}

#[test]
fn test_random_num() {
    let mut state = SEED;
    println!("{}", get_random_num(&mut state));
    println!("{}", get_random_num(&mut state));
    println!("{}", get_random_num(&mut state));
    println!("{}", get_random_num(&mut state));
}

#[test]
fn test_u64_random_num() {
    let mut state = SEED;
    println!("{}", get_random_u64_num(&mut state));
    println!("{}", get_random_u64_num(&mut state));
    println!("{}", get_random_u64_num(&mut state));
    println!("{}", get_random_u64_num(&mut state));
    println!("{}", get_random_u64_num(&mut state));
}

#[test]
fn test_get_random_num() {
    let mut state = SEED;
    assert_eq!(get_random_num(&mut state), 1741896308);
    assert_eq!(get_random_num(&mut state), 321584506);
    assert_eq!(get_random_num(&mut state), 3694591032);
    assert_eq!(get_random_num(&mut state), 1972257248);
    assert_eq!(get_random_num(&mut state), 200407065);
}

#[test]
fn test_history() {
    let mut noisy_history = NoisyHistory::new();

    let entry = noisy_history.get(None, Square::A4, None, BitBoard(0));
    println!("{}", entry);
    let piece = Some((Side::Black, Piece::Bishop));
    let captured = Some(Piece::Queen);
    noisy_history.update(piece, Square::A4, captured, BitBoard(0), 32);
    let entry2 = noisy_history.get(piece, Square::A4, captured, BitBoard(0));
    let entry = noisy_history.get(None, Square::A4, None, BitBoard(0));

    assert_eq!(entry2, 32);
    assert_eq!(entry, 0);
}

#[test]
fn histories_stay_in_range() {
    let mut entry: i16 = 0;
    for _ in 0..100 {
        update_entry(5000, &mut entry);
    }
    assert_eq!(entry, 8000);
    update_entry(-8000, &mut entry);
    assert_eq!(entry, -8000);

    let mut quiet = QuietHistory::new();
    let m = Move::new(Square::E2, Square::E4, MoveKind::DoublePawn);
    quiet.update(BitBoard(0), Side::White, m, 400);
    assert_eq!(quiet.get(BitBoard(0), Side::White, m), 400);
    assert_eq!(quiet.get(BitBoard(0), Side::Black, m), 0);
    assert_eq!(quiet.get(Square::E2.to_bb(), Side::White, m), 0);
}

#[test]
fn test_string_parse() {
    let string = "h4";
    if let Ok(sq) = Square::try_from(string) {
        println!("{}", sq.to_string());
    }
    assert_eq!(Square::try_from("h4"), Ok(Square::H4));
    assert!(Square::try_from("i4").is_err());
    assert!(Square::try_from("a").is_err());
}

#[test]
fn test_to_bb() {
    let square = Square::E5;
    println!("{}", square.to_bb().to_string());
    assert_eq!(square.to_bb().count_bits(), 1);
    assert_eq!(square.to_bb().least_sig_bit(), Some(Square::E5));
}

#[test]
fn test_flags() {
    let flag = Flags::new(true, Bound::Lower, 23);
    println!("{:?}", flag);

    assert_eq!(flag.bound(), Bound::Lower);
    assert!(flag.pv());
    assert_eq!(23, flag.age());
}

#[test]
fn test_zobrist() {
    let zobrist = init_zobrist_nums();
    println!("{:?}", zobrist);

    let mut seen = HashSet::new();
    assert!(zobrist
        .pieces
        .iter()
        .flatten()
        .chain(zobrist.castling.iter())
        .chain(zobrist.enpassant.iter())
        .chain([zobrist.side].iter())
        .all(|e| seen.insert(*e)));
}

#[test]
fn test_full_board_print() {
    let board = Board::new();
    println!("{}", board.to_string());
    let text = board.to_string();
    assert!(text.starts_with("\n\n8    .  .  . "));
    assert!(text.ends_with(
        "\n     A  B  C  D  E  F  G  H\n\n     Side to move: w \n     Castling: -\n     Enpassant: None\n"
    ));
}

#[test]
fn bitboard_picture() {
    let text = Square::A1.to_bb().to_string();
    assert!(text.starts_with("\n8   0  0  0  0  0  0  0  0  \n"));
    assert!(text.ends_with(
        "1   1  0  0  0  0  0  0  0  \n\n    A  B  C  D  E  F  G  H\n\nBitboard: 1\n"
    ));
}

#[test]
fn moves_read_back() {
    for kind in [
        MoveKind::QuietMove,
        MoveKind::Capture,
        MoveKind::EnPassant,
        MoveKind::QPromCapture,
    ] {
        for from in 0..64 {
            for to in 0..64 {
                let m = Move::new(Square::from(from), Square::from(to), kind);
                assert_eq!(m.get_from(), Square::from(from));
                assert_eq!(m.get_to(), Square::from(to));
                assert_eq!(m.get_kind(), kind);
            }
        }
    }
    let m = Move::new(Square::E7, Square::E8, MoveKind::QPromotion);
    assert_eq!(m.to_string(), "e7e8q");
    assert!(Move::none().is_null());
    assert!(!m.is_null());
}

#[test]
fn castling_rights_text() {
    let mut rights = CastlingRights::new();
    assert_eq!(rights.to_string(), "-");
    rights.set_king_side(Side::White);
    rights.set_queen_side(Side::Black);
    assert_eq!(rights.to_string(), "Kq");
    rights.clear_king_side(Side::White);
    assert!(!rights.can_king_side(Side::White));
    assert!(rights.can_queen_side(Side::Black));
    assert_eq!(Castling::from('K').king_landing_square(), Square::G1);
}

#[test]
fn stack_vector() {
    let mut v: StackVec<u8, 4> = StackVec::new();
    v.push(1);
    v.push(2);
    v.push(3);
    assert_eq!(v.len(), 3);
    assert_eq!(v.remove(0), Some(1));
    assert_eq!(v.pop(), Some(2));
    assert_eq!(v.get(0), 3);
    v.clear();
    assert_eq!(v.pop(), None);
}

#[test]
fn scores_of_mates() {
    assert!(is_win(MATE - 3));
    assert!(is_loss(-MATE + 3));
    assert!(!is_decisive(900));
    assert_eq!(from_tt((MATE - 1) as i16, 4), (MATE - 5) as i16);
    assert_eq!(from_tt(17, 4), 17);
}

#[test]
fn table_reads_back_what_was_written() {
    let mut tt = TranspositionTable::new(1);
    assert_eq!(tt.len(), 32768);
    let hash = 0x1234_5678_9ABC_DEF0;
    assert!(tt.entry(hash, 3).is_none());
    let m = Move::new(Square::E2, Square::E4, MoveKind::DoublePawn);
    tt.add_entry(m, MATE - 10, 12, Bound::Exact, hash, 7, 3, true);
    let entry = tt.entry(hash, 3).unwrap();
    assert_eq!(entry.best_move(), m);
    assert_eq!(entry.score(), MATE - 10);
    assert_eq!(entry.eval(), 12);
    assert_eq!(entry.depth(), 7);
    assert_eq!(entry.bound(), Bound::Exact);
    assert!(entry.is_pv());
    assert_eq!(tt.entry(hash, 5).unwrap().score(), MATE - 12);
    tt.increase_age();
    assert_eq!(tt.age(), 1);
    tt.clear();
    assert!(tt.entry(hash, 3).is_none());
    tt.resize(2);
    assert_eq!(tt.len(), 65536);
}

#[test]
fn a_deeper_entry_is_kept_but_for_its_move() {
    let mut tt = TranspositionTable::new(1);
    let hash = 0x1234_5678_9ABC_DEF0;
    let first = Move::new(Square::E2, Square::E4, MoveKind::DoublePawn);
    let second = Move::new(Square::D2, Square::D4, MoveKind::DoublePawn);
    tt.add_entry(first, 40, 12, Bound::Exact, hash, 10, 0, true);

    tt.add_entry(second, -7, 3, Bound::Upper, hash, 6, 0, false);
    let entry = tt.entry(hash, 0).unwrap();
    assert_eq!(entry.best_move(), second);
    assert_eq!(entry.score(), 40);
    assert_eq!(entry.eval(), 12);
    assert_eq!(entry.depth(), 10);
    assert_eq!(entry.bound(), Bound::Exact);
    assert!(entry.is_pv());

    tt.add_entry(Move::none(), -7, 3, Bound::Upper, hash, 6, 0, true);
    let entry = tt.entry(hash, 0).unwrap();
    assert_eq!(entry.best_move(), second);
    assert_eq!(entry.score(), -7);
    assert_eq!(entry.eval(), 3);
    assert_eq!(entry.depth(), 6);
    assert_eq!(entry.bound(), Bound::Upper);

    let other = hash ^ 1;
    tt.add_entry(first, 5, 5, Bound::Lower, other, 1, 0, false);
    assert_eq!(tt.entry(hash, 0).unwrap().score(), -7);
    assert_eq!(tt.entry(other, 0).unwrap().score(), 5);
}

#[test]
fn an_entry_of_an_earlier_search_is_not_kept() {
    let mut tt = TranspositionTable::new(1);
    let m = Move::new(Square::E2, Square::E4, MoveKind::DoublePawn);
    tt.add_entry(m, 40, 12, Bound::Exact, 77, 20, 0, true);
    tt.increase_age();
    tt.add_entry(Move::none(), -7, 3, Bound::Upper, 77, 1, 0, false);
    let entry = tt.entry(77, 0).unwrap();
    assert_eq!(entry.best_move(), m);
    assert_eq!(entry.score(), -7);
    assert_eq!(entry.depth(), 1);
}

#[test]
fn defaults_are_empty() {
    let m = Move::new(Square::E2, Square::E4, MoveKind::DoublePawn);
    assert_eq!(QuietHistory::default().get(BitBoard(0), Side::White, m), 0);
    let noisy = NoisyHistory::default();
    let queen = Some((Side::Black, Piece::Queen));
    assert_eq!(noisy.get(queen, Square::D4, Some(Piece::Pawn), BitBoard(0)), 0);
    let stack = PlyTable::default();
    for ply in -8..136 {
        assert!(stack.get(ply).m.is_null());
        assert_eq!(stack.get(ply).eval, NO_SCORE);
    }
    let keys = justbot::transposition::TranspositionTable::default();
    assert!(keys.get_entry(12345).is_none());
}
