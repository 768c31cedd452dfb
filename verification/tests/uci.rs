use justbot::board::movegen::MoveGenKind;
use justbot::board::Board;
use justbot::search::data::Report;
use justbot::search::pruning::{
    can_pass, capped_bonus, confirmation, depth_bonus, exchange_threshold, extension_for, has_done_badly,
    hindsight, ilerp, improvement, is_conclusive, is_futile, is_late, is_telling, late_reduction,
    pass_answer, pass_reduction, razors, reduce, reverse_futility, singular_answer, swing, truncated,
    Lateness, Passing,
};
use justbot::search::time::Nodes;
use justbot::tools::position::{position, Complaint};
use justbot::tools::uci::{
    mentions_quit, parse_command, parse_genfens, parse_go, parse_option, parse_perft, set_option,
    Command, Setting, UCISettings,
};
use justbot::types::constants::STARTING_FEN;
use justbot::types::history::{
    ContinuationHistory, CorrectionHistory, PawnHistory,
};
use justbot::types::moves::{Move, MoveKind};
use justbot::types::pieces::Piece;
use justbot::types::plytable::{PlyData, PlyTable};
use justbot::types::pv::PVTable;
use justbot::types::score::TIMEOUT;
use justbot::types::sides::Side;
use justbot::types::squares::Square;
use justbot::types::transposition::Bound;
use justbot::uci::go;

fn chars(text: &str) -> Vec<char> {
    text.chars().collect()
}

#[test]
fn test_set_option() {
    let mut settings = UCISettings::default();
    let setting = set_option("name Hash value 32", &mut settings);
    assert_eq!(setting, Setting::Hash(32));
    assert_eq!(setting.to_string().unwrap(), "info string Resized TT to 32 mb");
    assert_eq!(settings, UCISettings::default());
}

#[test]
fn options_change_the_settings() {
    let mut settings = UCISettings::default();
    assert_eq!(set_option("name Minimal value true", &mut settings), Setting::Minimal(true));
    assert_eq!(settings.report, Report::Minimal);
    set_option("name Minimal value no", &mut settings);
    assert_eq!(settings.report, Report::Full);
    set_option("name SoftNodes value true", &mut settings);
    assert!(settings.soft_nodes);
    set_option("name UCI_Chess960 value TRUE", &mut settings);
    assert!(settings.frc);
    assert_eq!(parse_option("name Threads value x"), Setting::Threads(1));
    assert_eq!(parse_option("name Threads value 4").to_string().unwrap(), "info string Set Threads to 4");
    assert_eq!(parse_option("name Clear Hash"), Setting::ClearHash);
    assert_eq!(Setting::ClearHash.to_string().unwrap(), "info string TT cleared");
    assert_eq!(parse_option("name Nothing value 3"), Setting::Unknown);
    assert_eq!(parse_option(""), Setting::Unknown);
    assert!(Setting::Unknown.to_string().is_none());
}

#[test]
fn lines_name_commands() {
    assert_eq!(parse_command("go depth 3\n"), (Command::Go, chars("depth 3\n")));
    assert_eq!(parse_command("uci\n").0, Command::Uci);
    assert_eq!(parse_command("isready\n").0, Command::IsReady);
    assert_eq!(parse_command("ucinewgame\n").0, Command::NewGame);
    assert_eq!(parse_command("d").0, Command::Display);
    assert_eq!(parse_command("bench").0, Command::Bench);
    assert_eq!(parse_command("xyzzy 1").0, Command::Unknown);
    assert!(mentions_quit("bench quit"));
    assert!(!mentions_quit("qui t"));
    assert_eq!(parse_perft(&chars(" 5\n")), Some(5));
    assert_eq!(parse_perft(&chars("five")), None);
    assert_eq!(parse_genfens("12 seed 345 extra"), (12, 345));
    assert_eq!(parse_genfens("7"), (7, 0));
    assert_eq!(parse_genfens(""), (0, 0));
}

#[test]
fn go_commands() {
    let s = parse_go(Side::White, "wtime 5000 btime 6000 winc 5 binc 8 movetime 100", false);
    assert_eq!((s.time, s.inc, s.movetime), (Some(5000), 5, Some(100)));
    let s = parse_go(Side::Black, "WTIME 5000 BTIME 6000 winc 5 binc 8", false);
    assert_eq!((s.time, s.inc, s.movetime), (Some(6000), 8, None));
    let s = parse_go(Side::White, "depth 0 mate 3 nodes 77", true);
    assert_eq!((s.depth, s.mate), (None, Some(3)));
    assert_eq!(s.nodes, Some(Nodes::Soft(77)));
    assert_eq!(parse_go(Side::White, "nodes 77", false).nodes, Some(Nodes::Hard(77)));
    assert_eq!(parse_go(Side::White, "depth x depth", false).depth, None);

    let clocks = go("depth");
    assert_eq!(clocks.depth, None);
    assert_eq!(go("depth nine wtime").depth, Some(127));
    assert_eq!(go("wtime abc x").wtime, Some(500));
    assert_eq!(go("movestogo 12 x").movestogo, Some(12));
}

#[test]
fn position_commands() {
    let mut board = Board::from_fen(STARTING_FEN).unwrap();
    assert!(position("startpos moves e2e4 e7e5 g1f3", &mut board).is_empty());
    assert_eq!(board.to_fen(), "rnbqkbnr/pppp1ppp/8/4p3/4P3/5N2/PPPP1PPP/RNBQKB1R b KQkq - 1 3");

    let fen = "r3k2r/p1ppqpb1/bn2pnp1/3PN3/1p2P3/2N2Q1p/PPPBBPPP/R3K2R w KQkq - 0 1";
    assert!(position(&format!("fen {fen} moves e1g1"), &mut board).is_empty());
    assert_eq!(board.state.side_to_move, Side::Black);

    assert_eq!(position("  ", &mut board), vec![Complaint::NoArgument]);
    assert_eq!(position("fen  ", &mut board), vec![Complaint::NoFen]);
    assert_eq!(position("fen rubbish", &mut board), vec![Complaint::InvalidFen]);
    assert_eq!(position("somewhere", &mut board), vec![Complaint::UnknownArgument]);
    assert_eq!(position("startpos moves e2e5", &mut board), vec![Complaint::IllegalMove]);
    assert_eq!(board.to_fen(), STARTING_FEN);
    assert_eq!(position("startpos moves e2e4 e2e4 e7e5", &mut board), vec![Complaint::IllegalMove]);
    assert_eq!(board.state.side_to_move, Side::Black);
    let mut same = Board::start();
    same.make_move(Move::new(Square::E2, Square::E4, MoveKind::DoublePawn));
    assert_eq!(board, same);
    assert_eq!((board.state_stack.len(), board.game_history.len()), (1, 1));
}

#[test]
fn pseudo_legal_moves_hold_the_legal_ones() {
    for fen in [
        STARTING_FEN,
        "r3k2r/p1ppqpb1/bn2pnp1/3PN3/1p2P3/2N2Q1p/PPPBBPPP/R3K2R w KQkq - 0 1",
        "8/2p5/3p4/KP5r/1R3p1k/8/4P1P1/8 w - - 0 1",
        "r3k2r/Pppp1ppp/1b3nbN/nP6/BBP1P3/q4N2/Pp1P2PP/R2Q1RK1 w kq - 0 1",
    ] {
        let board = Board::from_fen(fen).unwrap();
        let legal = board.generate_moves(MoveGenKind::All);
        let all = board.generate_all_moves();
        for i in 0..legal.len() {
            assert!(all.holds_move(legal.get(i).mv));
        }
        assert!(all.len() >= legal.len());
    }
    let pinned = Board::from_fen("4k3/8/8/8/4r3/8/4N3/4K3 w - - 0 1").unwrap();
    assert_eq!(pinned.generate_all_moves().len(), 10);
    assert_eq!(pinned.generate_moves(MoveGenKind::All).len(), 4);
}

#[test]
fn repeated_positions_are_drawn() {
    let mut board = Board::from_fen(STARTING_FEN).unwrap();
    assert!(!board.is_draw());
    for text in ["g1f3", "g8f6", "f3g1", "f6g8", "g1f3"] {
        assert!(!board.is_draw());
        let m = board.parse_move(text).unwrap();
        board.make_move(m);
    }
    assert!(board.is_draw());
    let late = Board::from_fen("4k3/8/8/8/8/8/4R3/4K3 w - - 100 90").unwrap();
    assert!(late.is_draw());
}

#[test]
fn checks_are_seen() {
    let board = Board::from_fen("4k3/8/8/8/8/8/R7/4K3 w - - 0 1").unwrap();
    assert!(board.is_direct_check(Move::new(Square::A2, Square::A8, MoveKind::QuietMove)));
    assert!(!board.is_direct_check(Move::new(Square::A2, Square::A7, MoveKind::QuietMove)));
    assert!(board.is_playable(Move::new(Square::A2, Square::A7, MoveKind::QuietMove)));
    assert!(!board.is_playable(Move::new(Square::A2, Square::B3, MoveKind::QuietMove)));
}

#[test]
fn keys_of_parts_of_a_position() {
    let a = Board::from_fen("4k3/pp6/8/8/8/8/PP6/4K3 w - - 0 1").unwrap();
    let b = Board::from_fen("3k4/pp6/8/8/8/8/PP6/4K3 w - - 0 1").unwrap();
    assert_eq!(a.pawn_key(), b.pawn_key());
    assert_eq!(a.non_pawn_key(Side::White), b.non_pawn_key(Side::White));
    assert_ne!(a.non_pawn_key(Side::Black), b.non_pawn_key(Side::Black));
}

#[test]
fn lines_of_moves() {
    let e4 = Move::new(Square::E2, Square::E4, MoveKind::DoublePawn);
    let e5 = Move::new(Square::E7, Square::E5, MoveKind::DoublePawn);
    let mut pv = PVTable::new();
    pv.clear(0);
    pv.clear(1);
    pv.add(e5, 1);
    pv.add(e4, 0);
    assert_eq!(pv.line(0), vec![e4, e5]);
    assert_eq!(pv.line(1), vec![e5]);
    pv.clear(0);
    assert!(pv.line(0).is_empty());
}

#[test]
fn notes_of_plies() {
    let mut stack = PlyTable::new();
    let mut entry = PlyData::blank();
    entry.eval = 321;
    stack.set(-3, entry);
    assert_eq!(stack.get(-3).eval, 321);
    assert_ne!(stack.get(0).eval, 321);
    stack.update_spare(5, 400);
    assert_eq!(stack.spare_value(5), 400);
    assert_eq!(stack.spare_value(6), 0);
}

#[test]
fn histories_by_earlier_moves() {
    let knight = Some((Side::White, Piece::Knight));
    let pawn = Some((Side::Black, Piece::Pawn));
    let mut cont = ContinuationHistory::new();
    let table = cont.subtable(knight, Square::F3);
    cont.update(table, pawn, Square::E5, 500);
    assert_eq!(cont.get(table, pawn, Square::E5), 500);
    assert_eq!(cont.get(table, pawn, Square::D5), 0);
    let other = cont.subtable(knight, Square::C3);
    assert_eq!(cont.get(other, pawn, Square::E5), 0);

    let mut pawns = PawnHistory::new();
    pawns.update(1025, knight, Square::F3, -300);
    assert_eq!(pawns.get(1, knight, Square::F3), -300);
    assert_eq!(pawns.get(2, knight, Square::F3), 0);

    let mut corrections = CorrectionHistory::new();
    corrections.update(Side::White, 9, 700);
    assert_eq!(corrections.get(Side::White, 9 + 16384), 700);
    assert_eq!(corrections.get(Side::Black, 9), 0);
    corrections.clear();
    assert_eq!(corrections.get(Side::White, 9), 0);
}

#[test]
fn decisions_without_a_search() {
    assert_eq!(truncated(-7, 2), -3);
    assert_eq!(ilerp(100, 200, 512), 150);
    assert!(is_conclusive(Some(Bound::Lower), 50, 10, 40));
    assert!(!is_conclusive(Some(Bound::Lower), 30, 10, 40));
    assert!(is_conclusive(Some(Bound::Upper), 5, 10, 40));
    assert!(is_conclusive(Some(Bound::Exact), 20, 10, 40));
    assert!(!is_conclusive(None, 20, 10, 40));
    assert!(improvement(false, 50, 20, 10) > 0);
    assert_eq!(improvement(true, 50, 20, 10), 0);
    assert_eq!(hindsight(5, 3093, 10, -20), 6);
    assert_eq!(hindsight(5, 2078, 200, 20), 4);
    assert_eq!(hindsight(5, 100, 200, 20), 5);
    assert!(razors(None, -2000, 0, 2));
    assert!(!razors(Some(Bound::Lower), -2000, 0, 2));
    assert!(!razors(None, -1258, 0, 2));
    assert!(reverse_futility(415, 100, 3, false));
    assert!(!reverse_futility(414, 100, 3, false));
    assert!(reverse_futility(342, 100, 3, true));
    assert!(can_pass(252, 100, 5, false));
    assert!(!can_pass(251, 100, 5, false));
    assert!(is_late(5, 1, false));
    assert!(!is_late(4, 1, false));
    assert!(is_futile(-235, 1, 0, 0));
    assert!(!is_futile(-234, 1, 0, 0));
    assert!(!is_futile(-5000, 8, 0, 0));
    assert!(has_done_badly(2, -2963));
    assert!(!has_done_badly(2, -2962));
    assert_eq!(exchange_threshold(0), -35);
    assert_eq!(exchange_threshold(3), -123 * 9 - 44 * 3 + 14);
    assert_eq!(reduce(8, 2048, false), 6);
    assert_eq!(reduce(8, 20480, true), 2);
    assert_eq!(pass_reduction(10), 7);
    assert_eq!(extension_for(false, false, false, 90, 100, 120, 200), 1);
    assert_eq!(extension_for(false, false, false, 89, 100, 120, 200), 2);
    assert_eq!(extension_for(false, false, false, -1, 100, 120, 200), 3);
    assert_eq!(extension_for(true, true, false, -1, 100, 120, 200), 1);
    assert_eq!(extension_for(false, false, true, 100, 100, 120, 200), -3);
    assert_eq!(extension_for(false, false, false, 100, 100, 120, 200), 0);
    assert_eq!(depth_bonus(100, 3, 250, 40), 210);
    assert_eq!(capped_bonus(122, 3, 76, 1194), 290);
    assert_eq!(swing(0, 0, 5), 0);
    assert_eq!(pass_answer(99, 100, 5, 0), Passing::Open);
    assert_eq!(pass_answer(31990, 100, 5, 0), Passing::Open);
    assert_eq!(pass_answer(100, 100, 14, 0), Passing::Cut);
    assert_eq!(pass_answer(100, 100, 15, 0), Passing::Confirm);
    assert_eq!(pass_answer(100, 100, 15, 3), Passing::Cut);
    assert_eq!(confirmation(true, 500, 100), Some(TIMEOUT));
    assert_eq!(confirmation(false, 100, 100), Some(100));
    assert_eq!(confirmation(false, 99, 100), None);
    assert_eq!(singular_answer(true, false, false, false, 90, 100, 120, 200), None);
    assert_eq!(singular_answer(false, false, false, false, 89, 100, 120, 200), Some(2));
    assert!(is_telling(Bound::Lower, 10, 10));
    assert!(!is_telling(Bound::Lower, 9, 10));
    assert!(!is_telling(Bound::Upper, 11, 10));
    assert!(is_telling(Bound::Exact, 11, 10));
    assert!(!is_telling(Bound::Unset, 10, 10));
    let lateness = Lateness {
        base: 1000,
        cutnode: true,
        was_pv: false,
        direct_check: true,
        improving: false,
        table_low: false,
        table_shallow: true,
        history: 4096,
    };
    assert_eq!(late_reduction(&lateness), 1000 + 1200 - 800 + 215 + 303 - 439);
}
