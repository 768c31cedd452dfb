use justbot::board::movegen::MoveGenKind;
use justbot::board::Board;
use justbot::perft::{perft, perft_checked, perft_divide, perft_moves};
use justbot::types::bitboard::BitBoard;
use justbot::types::constants::STARTING_FEN;
use justbot::types::moves::{Move, MoveKind, MoveList};
use justbot::types::pieces::Piece;
use justbot::types::sides::Side;
use justbot::types::squares::Square;

#[test]
fn test_get_rook_attack() {
    let board = Board::new();
    let mut occ = BitBoard(0);

    println!("{}", board.get_rook_attacks(Square::A6, occ).to_string());
    assert_eq!(board.get_rook_attacks(Square::A6, occ).count_bits(), 14);

    occ.set_bit(Square::E3);
    occ.set_bit(Square::G5);
    occ.set_bit(Square::G3);

    println!("{}", board.get_rook_attacks(Square::G3, occ).to_string());
    assert_eq!(board.get_rook_attacks(Square::G3, occ).count_bits(), 7);
}

#[test]
fn test_get_bishop_attack() {
    let board = Board::new();
    let mut occ = BitBoard(0);

    println!("{}", board.get_bishop_attacks(Square::A3, occ).to_string());
    assert_eq!(board.get_bishop_attacks(Square::A3, occ).count_bits(), 7);

    occ.set_bit(Square::D6);
    println!("{}", board.get_bishop_attacks(Square::G3, occ).to_string());
    assert!(board.get_bishop_attacks(Square::G3, occ).contains(Square::D6));
    assert!(!board.get_bishop_attacks(Square::G3, occ).contains(Square::C7));
}

#[test]
fn test_get_queen_attack() {
    let board = Board::new();
    let mut occ = BitBoard(0);

    println!("{}", board.get_queen_attacks(Square::A6, occ).to_string());

    occ.set_bit(Square::E3);
    occ.set_bit(Square::G5);
    occ.set_bit(Square::G3);
    occ.set_bit(Square::D6);

    println!("{}", board.get_queen_attacks(Square::G3, occ).to_string());
    println!("{}", board.get_queen_attacks(Square::E4, occ).to_string());
    assert_eq!(
        board.get_queen_attacks(Square::E4, occ),
        board.get_rook_attacks(Square::E4, occ) | board.get_bishop_attacks(Square::E4, occ)
    );
}

#[test]
fn test_board_occupancy() {
    let mut board = Board::from_fen(STARTING_FEN).unwrap();
    board.remove_piece(Side::White, Piece::Pawn, Square::A2);
    println!("{}", board.get_all_occupancy().to_string());
    println!("{}", board.state.occupancies[Side::Black as usize].to_string());
    println!("{}", board.state.occupancies[Side::White as usize].to_string());
    assert_eq!(board.get_all_occupancy().count_bits(), 31);
}

#[test]
fn test_pawn_attacks_setwise() {
    let board =
        Board::from_fen("rnbqkb1r/pp3p2/4pnpp/1p1p2N1/1Q1P4/BP2P3/P1PN1PPP/R3K2R b KQkq - 0 1").unwrap();

    let pawn_attacks = board.pawn_attacks_setwise(Side::Black);
    println!("{}", pawn_attacks.to_string());
    assert_eq!(pawn_attacks.count_bits(), 12);
}

#[test]
fn test_knight_attacks_setwise() {
    let board =
        Board::from_fen("rnbqkb1r/pp3p2/4pnpp/1p1p2N1/1Q1P4/BP2P3/P1PN1PPP/R3K2R b KQkq - 0 1").unwrap();

    let knight_attacks = board.knight_attacks_setwise(Side::Black);
    println!("{}", knight_attacks.to_string());
    assert_eq!(knight_attacks.count_bits(), 10);
}

#[test]
fn test_pinned_and_checkers() {
    let mut board = Board::from_fen("8/8/1Q3K2/8/1n6/1k6/8/8 b - - 0 1").unwrap();

    board.update_all_threats();
    let stm = board.state.side_to_move;
    println!("{}", board.state.pinned[stm as usize].to_string());
    assert_eq!(board.state.pinned[stm as usize], Square::B4.to_bb());

    let mut board = Board::from_fen("8/2K5/8/5k2/1n3p2/8/8/5Q2 b - - 0 1").unwrap();

    board.update_all_threats();
    let stm = board.state.side_to_move;
    println!("{}", board.state.pinned[stm as usize].to_string());
    assert_eq!(board.state.pinned[stm as usize], Square::F4.to_bb());
    assert!(board.state.checkers.is_empty());
}

#[test]
fn test_make_move() {
    let mut board = Board::from_fen("1K6/3pp1P1/4R3/3k3p/Ppn5/4b3/1PP1P1p1/7B b - a3 0 1").unwrap();
    println!("{}", board.to_string());

    let m = Move::new(Square::B4, Square::A3, MoveKind::EnPassant);
    board.make_move(m);
    println!("{}", board.to_string());
    assert_eq!(
        board.get_piece_at_square(Square::A3).unwrap(),
        (Side::Black, Piece::Pawn)
    );
    assert!(board.get_piece_at_square(Square::A4).is_none());

    board.unmake_move();
    println!("{}", board.to_string());
    assert_eq!(
        board.get_piece_at_square(Square::B4).unwrap(),
        (Side::Black, Piece::Pawn)
    );

    let m = Move::new(Square::C4, Square::B2, MoveKind::Capture);
    board.make_move(m);
    println!("{}", board.to_string());
    assert_eq!(
        board.get_piece_at_square(Square::B2).unwrap(),
        (Side::Black, Piece::Knight)
    );

    let mut board =
        Board::from_fen("r3k2r/pppqn2p/n1bp2pb/1N2p3/2B5/1QP1PN2/PP1B1PPP/R3K2R w KQkq - 10 12").unwrap();
    println!("{}", board.to_string());

    let m = Move::new(Square::E1, Square::G1, MoveKind::KingCastle);
    board.make_move(m);
    println!("{}", board.to_string());
    assert_eq!(
        board.get_piece_at_square(Square::G1).unwrap(),
        (Side::White, Piece::King)
    );
    assert_eq!(
        board.get_piece_at_square(Square::F1).unwrap(),
        (Side::White, Piece::Rook)
    );
    assert!(board.get_piece_at_square(Square::E1).is_none());

    let m = Move::new(Square::E8, Square::C8, MoveKind::QueenCastle);
    board.make_move(m);
    println!("{}", board.to_string());
    assert_eq!(
        board.get_piece_at_square(Square::C8).unwrap(),
        (Side::Black, Piece::King)
    );
    assert_eq!(
        board.get_piece_at_square(Square::D8).unwrap(),
        (Side::Black, Piece::Rook)
    );
    assert!(board.get_piece_at_square(Square::E8).is_none());

    let mut board =
        Board::from_fen("2kr3r/pppqn2p/n1b3pb/1N2p3/2B5/1QP4N/PP2pPPP/R1B2R1K b - - 1 17").unwrap();
    println!("{}", board.to_string());

    let m = Move::new(Square::E2, Square::E1, MoveKind::BPromotion);
    board.make_move(m);
    println!("{}", board.to_string());
    assert_eq!(
        board.get_piece_at_square(Square::E1).unwrap(),
        (Side::Black, Piece::Bishop)
    );
    assert!(board.get_piece_at_square(Square::E2).is_none());

    board.unmake_move();
    let m = Move::new(Square::E2, Square::F1, MoveKind::QPromCapture);
    board.make_move(m);
    println!("{}", board.to_string());
    assert_eq!(
        board.get_piece_at_square(Square::F1).unwrap(),
        (Side::Black, Piece::Queen)
    );
    assert!(board.get_piece_at_square(Square::E2).is_none());

    let mut board = Board::from_fen("r3k2N/p1ppqpb1/bn2pn2/3P4/1p2P3/2N2Q2/PPPBBPpP/R3K2R b KQq - 0 2").unwrap();
    println!("{}", board.to_string());

    let m = Move::new(Square::G2, Square::H1, MoveKind::NPromCapture);
    board.make_move(m);
    assert!(!board.state.castling_rights.can_king_side(Side::White));
    println!("{}", board.to_string());
}

#[test]
fn test_null_move() {
    let mut board =
        Board::from_fen("2kr3r/pppqn2p/n1b3pb/1N2p3/2B5/1QP4N/PP2pPPP/R1B2R1K b - - 1 17").unwrap();
    println!("{}", board.to_string());

    let original =
        Board::from_fen("2kr3r/pppqn2p/n1b3pb/1N2p3/2B5/1QP4N/PP2pPPP/R1B2R1K b - - 1 17").unwrap();

    board.make_null_move();
    assert_eq!(board.state.side_to_move, Side::White);
    println!("{}", board.to_string());
    board.unmake_move();

    assert_eq!(board, original);
}

#[test]
fn test_update_ep() {
    let board = Board::from_fen("8/2p5/3p4/KP5r/1R3pPk/8/4P3/8 b - g3 0 1").unwrap();
    let text = board.to_fen();
    println!("{text}");
}

#[test]
fn test_is_attacked() {
    let mut board = Board::from_fen("7k/8/8/3p4/8/8/5N2/K7 w - - 0 1").unwrap();
    board.update_all_threats();
    println!("{}", board.state.threats.to_string());

    assert!(board.is_attacked(Square::C4));
    assert!(board.is_attacked(Square::E4));
    assert!(!board.is_attacked(Square::F2));

    let mut board2 = Board::from_fen("6Q1/8/2R5/8/5b2/kq6/8/6K1 w - - 0 1").unwrap();
    board2.update_all_threats();
    let threats = board2.state.threats;
    println!("{}", threats.to_string());

    assert!(board2.is_attacked(Square::C3));
    assert!(board2.is_attacked(Square::A2));
    assert!(board2.is_attacked(Square::H6));
    assert!(!board2.is_attacked(Square::F5));
}

#[test]
fn test_legal_moves() {
    let board = Board::from_fen(STARTING_FEN).unwrap();
    let mut move_list = MoveList::new();

    board.append_moves(MoveGenKind::All, &mut move_list);
    println!("{}", move_list.to_string());
    assert_eq!(move_list.len(), 20);

    let board = Board::from_fen("rnbq1b1r/pppppkpp/5p1n/8/8/P7/QPPPPPPP/RNB1KBNR b K - 0 1").unwrap();
    println!("{}", board.state.threats.to_string());
    let mut move_list = MoveList::new();
    board.append_moves(MoveGenKind::All, &mut move_list);
    println!("{}", move_list.to_string());
    println!("{}", board.get_queen_attacks(Square::A2, BitBoard(0)).to_string());
}

#[test]
fn test_is_attacked_at_by() {
    let board = Board::setup_fen("8/8/8/3p4/8/8/5N2/8 w - - 0 1").unwrap();
    assert!(board.is_attacked_at_by(Square::C4, Side::Black));
    assert!(board.is_attacked_at_by(Square::E4, Side::Black));
    assert!(board.is_attacked_at_by(Square::D3, Side::White));
    assert!(!board.is_attacked_at_by(Square::F2, Side::Black));

    let board2 = Board::setup_fen("6Q1/8/2R5/8/5b2/1q6/8/6K1 w - - 0 1").unwrap();
    assert!(board2.is_attacked_at_by(Square::C3, Side::White));
    assert!(board2.is_attacked_at_by(Square::B3, Side::White));
    assert!(board2.is_attacked_at_by(Square::F1, Side::White));
    assert!(board2.is_attacked_at_by(Square::A2, Side::Black));
    assert!(board2.is_attacked_at_by(Square::H6, Side::Black));
    assert!(!board2.is_attacked_at_by(Square::F5, Side::Black));
    assert!(!board2.is_attacked_at_by(Square::F5, Side::White));
}

#[test]
fn test_source_pawn_push() {
    let board = Board::setup_fen("1K6/3pp3/4R3/7p/2n5/4b3/PPP1P1P1/8 w - - 0 1").unwrap();
    let w_bb = board.pawns_with_pushes(Side::White);
    let b_bb = board.pawns_with_pushes(Side::Black);

    println!("{}", w_bb.to_string());
    println!("{}", b_bb.to_string());

    let mut w_ver = BitBoard(0);
    w_ver.set_bit(Square::A2);
    w_ver.set_bit(Square::B2);
    w_ver.set_bit(Square::G2);
    w_ver.set_bit(Square::C2);

    let mut b_ver = BitBoard(0);
    b_ver.set_bit(Square::D7);
    b_ver.set_bit(Square::H5);

    assert_eq!(w_bb, w_ver);
    assert_eq!(b_bb, b_ver);
}

#[test]
fn test_source_double_push() {
    let board = Board::setup_fen("1K6/3pp3/4R3/7p/2n5/4b3/PPP1P1P1/8 w - - 0 1").unwrap();
    println!("{}", board.to_string());
    let w_bb = board.pawns_with_double_pushes(Side::White);
    let b_bb = board.pawns_with_double_pushes(Side::Black);

    let mut w_ver = BitBoard(0);
    w_ver.set_bit(Square::A2);
    w_ver.set_bit(Square::B2);
    w_ver.set_bit(Square::G2);

    let mut b_ver = BitBoard(0);
    b_ver.set_bit(Square::D7);

    assert_eq!(w_bb, w_ver);
    assert_eq!(b_bb, b_ver);
}

#[test]
fn test_from_fen() {
    let board = Board::from_fen(STARTING_FEN).unwrap();
    println!("{}", board.to_string());

    let board3 =
        Board::from_fen("r3k2r/p1ppqpb1/bn2pnp1/3PN3/1p2P3/2N2Q1p/PPPBBPPP/R3K2R w KQkq - 0 1").unwrap();
    println!("{}", board3.to_string());

    let board4 =
        Board::from_fen("rnbqkb1r/pp1p1pPp/8/2p1pP2/1P1P4/3P3P/P1P1P3/RNBQKBNR w KQkq e6 0 1").unwrap();
    println!("{}", board4.to_string());

    let board5 =
        Board::from_fen("r2q1rk1/ppp2ppp/2n1bn2/2b1p3/3pP3/3P1NPP/PPP1NPB1/R1BQ1RK1 b - - 0 9").unwrap();
    println!("{}", board5.to_string());

    let board5 =
        Board::from_fen("rnbqkbnr/pp3ppp/4p3/2pp4/3P4/2P2N2/PP2PPPP/RNBQKB1R w KQkq c6 0 4").unwrap();
    println!("{}", board5.to_string());

    let board6 =
        Board::from_fen("rnb1kbnr/pp1q1pp1/4p2p/2p1N3/3Pp3/2P5/PP2BPPP/RNBQK1R1 b Qkq - 1 7").unwrap();
    println!("{}", board6.to_string());
    println!("Half move: {}", board6.state.half_move_clock);
    println!("Full move: {}", board6.state.full_move);
    assert_eq!(board6.state.half_move_clock, 1);
    assert_eq!(board6.state.full_move, 7);
}

#[test]
fn fens_that_are_refused() {
    assert!(Board::from_fen("").is_err());
    assert!(Board::from_fen("rnbqkbnr/pppppppp/8/8/8/8/PPPPPPPP/RNBQKBNR").is_err());
    assert!(Board::from_fen("rnbqkbnr/ppppxppp/8/8/8/8/PPPPPPPP/RNBQKBNR w KQkq - 0 1").is_err());
}

#[test]
fn test_to_fen() {
    let board = Board::from_fen(STARTING_FEN).unwrap();
    assert_eq!(STARTING_FEN, board.to_fen());

    let board = Board::from_fen("r2q1rk1/ppp2ppp/2n1bn2/2b1p3/3pP3/3P1NPP/PPP1NPB1/R1BQ1RK1 b - - 0 9").unwrap();
    assert_eq!(
        "r2q1rk1/ppp2ppp/2n1bn2/2b1p3/3pP3/3P1NPP/PPP1NPB1/R1BQ1RK1 b - - 0 9",
        board.to_fen()
    );

    let board = Board::from_fen("8/2p5/3p4/KP5r/1R3p1k/8/4P1P1/8 w - - 0 1 ").unwrap();
    assert_eq!("8/2p5/3p4/KP5r/1R3p1k/8/4P1P1/8 w - - 0 1", board.to_fen());
}

#[test]
fn test_see() {
    let board = Board::from_fen("1k1r3q/1ppn3p/p4b2/4p3/8/P2N2P1/1PP1R1BP/2K1Q3 w - - 0 1").unwrap();

    let m = board.parse_move("e2e5").unwrap();
    assert!(!board.see(m, -150));

    let board = Board::from_fen("1k1r3q/1ppn3p/p4b2/4p3/8/P2N2P1/1PP1R1BP/2K1Q3 w - - 0 1").unwrap();

    let m = board.parse_move("d3e5").unwrap();
    assert!(!board.see(m, -150));

    let board = Board::from_fen("1k1r4/1pp4p/p7/4p3/8/P5P1/1PP4P/2K1R3 w - -").unwrap();

    let m = board.parse_move("e1e5").unwrap();
    assert!(board.see(m, -150));

    let board = Board::from_fen("1k1r3q/1pp4p/pn3b2/4p3/P7/3N2P1/1PP1R1BP/2K1Q3 w - - 1 2").unwrap();

    let m = board.parse_move("d3e5").unwrap();
    assert!(board.see(m, -150));

    let board = Board::from_fen("1k1r3q/1pp5/pn6/4R3/P7/5B2/1PP2Q1p/2K5 b - - 1 7").unwrap();

    let m = board.parse_move("h2h1q").unwrap();
    assert!(board.see(m, -150));

    let board = Board::from_fen("1k5q/1pp5/pn6/3r4/P7/5B2/1PP2Q1p/2K3R1 b - - 5 9").unwrap();

    let m = board.parse_move("h2g1q").unwrap();
    assert!(board.see(m, -150));

    let board = Board::from_fen("r1bqk2r/ppp1p1pp/3p2n1/3P4/4PN2/5b2/PPPP2Pp/RNBQK1R1 b Qkq - 0 1").unwrap();

    let m = board.parse_move("h2g1q").unwrap();
    assert!(board.see(m, -150));
}

#[test]
fn perft_test_perft() {
    let mut board = Board::from_fen(STARTING_FEN).unwrap();

    assert_eq!(perft(1, &mut board), 20);
    assert_eq!(perft(2, &mut board), 400);
    assert_eq!(perft(3, &mut board), 8902);
    assert_eq!(perft(4, &mut board), 197281);
    assert_eq!(perft(5, &mut board), 4865609);

    let mut kiwipete =
        Board::from_fen("r3k2r/p1ppqpb1/bn2pnp1/3PN3/1p2P3/2N2Q1p/PPPBBPPP/R3K2R w KQkq - ").unwrap();

    assert_eq!(perft(1, &mut kiwipete), 48);
    assert_eq!(perft(2, &mut kiwipete), 2039);
    assert_eq!(perft(3, &mut kiwipete), 97862);
    assert_eq!(perft(4, &mut kiwipete), 4085603);

    let mut board3 = Board::from_fen("8/2p5/3p4/KP5r/1R3p1k/8/4P1P1/8 w - - 0 1 ").unwrap();

    assert_eq!(perft(1, &mut board3), 14);
    assert_eq!(perft(2, &mut board3), 191);
    assert_eq!(perft(3, &mut board3), 2812);
    assert_eq!(perft(4, &mut board3), 43238);
    assert_eq!(perft(5, &mut board3), 674624);

    let mut board4 =
        Board::from_fen("r3k2r/Pppp1ppp/1b3nbN/nP6/BBP1P3/q4N2/Pp1P2PP/R2Q1RK1 w kq - 0 1").unwrap();

    assert_eq!(perft(1, &mut board4), 6);
    assert_eq!(perft(2, &mut board4), 264);
    assert_eq!(perft(3, &mut board4), 9467);
    assert_eq!(perft(4, &mut board4), 422333);

    let mut board5 =
        Board::from_fen("rnbq1k1r/pp1Pbppp/2p5/8/2B5/8/PPP1NnPP/RNBQK2R w KQ - 1 8  ").unwrap();

    assert_eq!(perft(1, &mut board5), 44);
    assert_eq!(perft(2, &mut board5), 1486);
    assert_eq!(perft(3, &mut board5), 62379);
    assert_eq!(perft(4, &mut board5), 2103487);

    let mut board6 =
        Board::from_fen("r4rk1/1pp1qppp/p1np1n2/2b1p1B1/2B1P1b1/P1NP1N2/1PP1QPPP/R4RK1 w - - 0 10 ").unwrap();

    assert_eq!(perft(1, &mut board6), 46);
    assert_eq!(perft(2, &mut board6), 2079);
    assert_eq!(perft(3, &mut board6), 89890);
    assert_eq!(perft(4, &mut board6), 3894594);

    let mut board7 =
        Board::from_fen("r3k2r/Pppp1ppp/1b3nbN/nPP5/BB2P3/q4N2/P2P2PP/r2Q1RK1 w kq - 0 2").unwrap();
    println!("{}", board7.to_string());
    assert_eq!(perft(2, &mut board7), 1344);
}

#[test]
fn perft_by_move() {
    let mut board = Board::from_fen(STARTING_FEN).unwrap();
    assert_eq!(perft_divide(0, &mut board), 1);
    let (parts, nodes) = perft_moves(3, &mut board).unwrap();
    assert_eq!(nodes, 8902);
    assert_eq!(perft_checked(4, &mut board), Some(197281));
    assert_eq!(perft_checked(0, &mut board), Some(1));
    assert_eq!(parts.len(), 20);
    assert_eq!(parts.iter().map(|p| p.1).sum::<usize>(), 8902);
    let e4 = parts.iter().find(|p| p.0.to_string() == "e2e4").unwrap();
    assert_eq!(e4.1, 600);
}

#[test]
fn making_and_taking_back_restores_the_board() {
    let mut board =
        Board::from_fen("r3k2r/p1ppqpb1/bn2pnp1/3PN3/1p2P3/2N2Q1p/PPPBBPPP/R3K2R w KQkq - 0 1").unwrap();
    let original = board.clone();
    for m in board.generate_moves(MoveGenKind::All).iter() {
        assert!(board.is_legal(m));
        board.make_move(m);
        assert_ne!(board, original);
        board.unmake_move();
        assert_eq!(board, original);
    }
}

#[test]
fn quiet_and_noisy_moves_make_all() {
    let board =
        Board::from_fen("r3k2r/p1ppqpb1/bn2pnp1/3PN3/1p2P3/2N2Q1p/PPPBBPPP/R3K2R w KQkq - 0 1").unwrap();
    let all = board.generate_moves(MoveGenKind::All).len();
    let quiet = board.generate_moves(MoveGenKind::Quiet).len();
    let noisy = board.generate_moves(MoveGenKind::Noisy).len();
    assert_eq!(all, 48);
    assert_eq!(noisy, 8);
    assert_eq!(quiet + noisy, all);
}

#[test]
fn uci_test_parse_move() {
    let board = Board::from_fen(STARTING_FEN).unwrap();
    if let Ok(m) = board.parse_move("e2e4") {
        println!("bestmove {}", m.to_string());
        assert_eq!(m, Move::new(Square::E2, Square::E4, MoveKind::DoublePawn));
    }
    assert!(board.parse_move("e2").is_err());
    assert!(board.parse_move("e4e5").is_err());
}

#[test]
fn test_bugged_position() {
    let mut board = Board::from_fen("6k1/5pp1/7p/8/5Pn1/2R4P/B5P1/4qQ1K b - - 6 39").unwrap();
    println!("Hash: {}", board.state.hash);

    board = Board::from_fen("6k1/5pp1/7p/8/5Pn1/2RQ3P/B4qP1/6K1 w - - 3 38").unwrap();
    println!("Hash 2: {}", board.state.hash);

    board = Board::from_fen("6k1/5pp1/7p/8/5Pnq/2RQ3P/B5P1/6K1 b - - 2 37").unwrap();
    println!("Hash 3: {}", board.state.hash);
}

#[test]
fn the_start_of_a_game() {
    let board = Board::start();
    assert_eq!(board, Board::from_fen(STARTING_FEN).unwrap());
    assert_eq!(board.to_fen(), STARTING_FEN);
    assert!(board.is_fair());
    assert_eq!(board.generate_moves(MoveGenKind::All).len(), 20);
}

#[test]
fn routes_to_a_position_share_its_key() {
    let mut a = Board::start();
    for text in ["g1f3", "g8f6", "b1c3"] {
        let m = a.parse_move(text).unwrap();
        a.make_move(m);
    }
    let mut b = Board::start();
    for text in ["b1c3", "g8f6", "g1f3"] {
        let m = b.parse_move(text).unwrap();
        b.make_move(m);
    }
    assert_eq!(a.state.hash, b.state.hash);
    assert_ne!(a.state.hash, Board::start().state.hash);
}

#[test]
fn exchanges_are_monotone() {
    let board = Board::from_fen("1k1r4/1pp4p/p7/4p3/8/P5P1/1PP4P/2K1R3 w - - 0 1").unwrap();
    let m = board.parse_move("e1e5").unwrap();
    let mut won = true;
    for threshold in -2000..2000 {
        let now = board.see(m, threshold);
        assert!(won || !now);
        won = now;
    }
    assert!(!won);
}

#[test]
fn perft_without_moves() {
    let mut mated = Board::from_fen("R5k1/5ppp/8/8/8/8/8/6K1 b - - 0 1").unwrap();
    assert_eq!(perft_divide(0, &mut mated), 1);
    assert_eq!(perft_divide(1, &mut mated), 0);
    assert_eq!(perft_divide(3, &mut mated), 0);
    let mut board = Board::from_fen(STARTING_FEN).unwrap();
    let moves = board.generate_moves(MoveGenKind::All).len();
    assert_eq!(perft_divide(1, &mut board), moves);
}

fn texts(list: &MoveList) -> Vec<String> {
    list.iter().iter().map(|m| m.to_string()).collect()
}

#[test]
fn moves_come_in_one_order() {
    let board = Board::from_fen(STARTING_FEN).unwrap();
    let expected = vec![
        "a2a3", "b2b3", "c2c3", "d2d3", "e2e3", "f2f3", "g2g3", "h2h3", "a2a4", "b2b4", "c2c4",
        "d2d4", "e2e4", "f2f4", "g2g4", "h2h4", "b1a3", "b1c3", "g1f3", "g1h3",
    ];
    assert_eq!(texts(&board.generate_moves(MoveGenKind::All)), expected);

    let board = Board::from_fen("1n6/P7/8/8/8/8/8/K1k5 w - - 0 1").unwrap();
    let expected = vec![
        "a1a2", "a7a8q", "a7a8r", "a7a8b", "a7a8n", "a7b8q", "a7b8r", "a7b8b", "a7b8n",
    ];
    assert_eq!(texts(&board.generate_moves(MoveGenKind::All)), expected);

    let board = Board::from_fen("4k3/8/8/8/3p4/2P1P3/8/4K3 b - - 0 1").unwrap();
    assert_eq!(texts(&board.generate_moves(MoveGenKind::Noisy)), vec!["d4e3", "d4c3"]);

    let board = Board::from_fen("r3k2r/8/8/8/8/8/8/4K3 b kq - 0 1").unwrap();
    let all = texts(&board.generate_moves(MoveGenKind::All));
    assert_eq!(&all[..5], &["e8d7", "e8e7", "e8f7", "e8d8", "e8f8"]);
    assert_eq!(&all[all.len() - 2..], &["e8g8", "e8c8"]);
}

#[test]
fn moves_of_the_pieces_come_in_one_order() {
    let board = Board::from_fen(STARTING_FEN).unwrap();
    let all = texts(&board.generate_all_moves());
    assert_eq!(&all[..4], &["a2a4", "a2a3", "b2b4", "b2b3"]);
    assert_eq!(&all[16..], &["b1a3", "b1c3", "g1f3", "g1h3"]);

    let board = Board::from_fen("1n6/P7/8/8/8/8/8/K1k5 w - - 0 1").unwrap();
    let expected = vec![
        "a7a8n", "a7a8b", "a7a8r", "a7a8q", "a7b8n", "a7b8b", "a7b8r", "a7b8q", "a1b1", "a1a2",
        "a1b2",
    ];
    assert_eq!(texts(&board.generate_all_moves()), expected);
}
