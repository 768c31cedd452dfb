use justbot::board::movegen::MoveGenKind;
use justbot::board::Board;
use justbot::nnue::{
    input_bucket, input_context, output_bucket, Network, Parameters, EVAL_LIMIT, HIDDEN_SIZE,
    NUM_INPUTS, NUM_OUTPUT_BUCKETS, NUM_PARAMETERS,
};
use justbot::search::data::{
    LmrTable, Report, RootMove, SearchData, SharedData, Status, Watch, LMR_SIZE, RUNNING, STOPPED,
};
use justbot::search::horizon::quiesce;
use justbot::search::learning::{history_of, reward_noisy, reward_quiet, update_histories};
use justbot::random::pseudo_rand;
use justbot::search::movepicker::MovePicker;
use justbot::search::runner::{root_moves_of, Outcome, Runner};
use justbot::search::time::{Limits, Nodes, TimeManager, TimeSettings};
use justbot::search::tree::{search, search_unless_stopped};
use justbot::search::{read_entry, Node};
use justbot::threads::{best_result, choose_move, SearchResult};
use justbot::tools::datagen::{opening_length, opening_seed, randomize_from_startpos};
use justbot::tools::uci::parse_go;
use justbot::transposition::{NodeType, TranspositionTable};
use justbot::types::constants::STARTING_FEN;
use justbot::types::moves::{Move, MoveKind};
use justbot::types::pieces::Piece;
use justbot::types::score::{is_win, DRAW, INFINITE, MATE, TIMEOUT};
use justbot::types::sides::Side;
use justbot::types::squares::Square;
use justbot::types::stackvec::StackVec;
use justbot::uci::go;
use std::sync::Arc;

/// A network whose weights are small and without any pattern.
fn scattered_parameters() -> Parameters {
    let mut state: u32 = 12345;
    let mut next = |spread: i32| {
        state = state.wrapping_mul(1664525).wrapping_add(1013904223);
        ((state >> 16) as i32 % (2 * spread + 1) - spread) as i16
    };
    Parameters {
        feature_weights: (0..NUM_INPUTS * HIDDEN_SIZE).map(|_| next(40)).collect(),
        feature_bias: (0..HIDDEN_SIZE).map(|_| next(60)).collect(),
        output_weights: (0..NUM_OUTPUT_BUCKETS * 2 * HIDDEN_SIZE).map(|_| next(8)).collect(),
        output_bias: (0..NUM_OUTPUT_BUCKETS).map(|_| next(100)).collect(),
    }
}

/// A network that gives every position the same small evaluation.
fn flat_parameters() -> Parameters {
    Parameters {
        feature_weights: vec![0; NUM_INPUTS * HIDDEN_SIZE],
        feature_bias: vec![0; HIDDEN_SIZE],
        output_weights: vec![0; NUM_OUTPUT_BUCKETS * 2 * HIDDEN_SIZE],
        output_bias: vec![163; NUM_OUTPUT_BUCKETS],
    }
}

fn reductions() -> LmrTable {
    let mut values = vec![0i32; LMR_SIZE];
    for depth in 0..128 {
        for count in 0..64 {
            let reduction = 0.7844 + f32::ln(depth as f32) * f32::ln(count as f32);
            values[depth * 64 + count] = ((reduction / 3.0) * 1024.0) as i32;
            values[(128 + depth) * 64 + count] = ((reduction / 2.4696) * 1024.0) as i32;
        }
    }
    LmrTable::new(values).unwrap()
}

fn worker(fen: &str, parameters: Parameters) -> SearchData {
    let board = Board::from_fen(fen).unwrap();
    let network = Network::new(parameters, &board);
    watched_worker(board, network, Watch::over(Arc::new(Status::new())))
}

fn watched_worker(board: Board, network: Network, watch: Watch) -> SearchData {
    let shared = SharedData::new(watch);
    let time = TimeManager::new(Limits::new(&TimeSettings::default(), 0, 0));
    SearchData::new(shared, 0, board, time, network, reductions())
}

/// A worker that nothing can stop.
fn idle_worker(fen: &str, parameters: Parameters) -> SearchData {
    let board = Board::from_fen(fen).unwrap();
    let network = Network::new(parameters, &board);
    watched_worker(board, network, Watch::idle())
}

/// Searches the position of a worker until its limits say so.
fn run(data: &mut SearchData, fen: &str, limits: Limits) -> Option<Move> {
    run_board(data, Board::from_fen(fen).unwrap(), limits)
}

fn run_board(data: &mut SearchData, board: Board, limits: Limits) -> Option<Move> {
    data.prepare(board, TimeManager::new(limits), Report::Silent);
    data.shared.status.run();
    data.shared.reset_all_nodes();
    let mut runner = Runner::begin(data);
    if data.root_moves.is_empty() {
        return None;
    }
    loop {
        match runner.iterate(data) {
            Outcome::Halted => break,
            Outcome::Again => continue,
            Outcome::Complete { score } => {
                let soft = match data.time.limits.time {
                    Some(limit) => limit.soft as u128 * 1_000_000,
                    None => 0,
                };
                let spent = data.time.soft_limit(data.nodes(), soft);
                if !runner.proceed(data, score, spent) {
                    break;
                }
            }
        }
    }
    runner.finish(data);
    data.best_move.as_ref().map(|rm| rm.m)
}

fn depth_limit(depth: i32) -> Limits {
    let settings = TimeSettings { depth: Some(depth), ..TimeSettings::default() };
    Limits::new(&settings, 0, 0)
}

#[test]
fn test_order_moves() {
    let data = worker(
        "rnbqkb1r/pp3p2/4pnpp/1p1p2N1/1Q1P4/BP2P3/P1PN1PPP/R3K2R b KQkq - 0 1",
        flat_parameters(),
    );
    let mut move_picker = MovePicker::new(None);
    let first_move = move_picker.next(&data, false, 0).unwrap();

    assert_eq!(first_move, Move::new(Square::F8, Square::B4, MoveKind::Capture));

    let data = worker(
        "rnbq1rk1/pN1p1ppp/4n2b/2p1p3/N1BP3R/2P2Q2/PP3PPP/2B1K2R w K - 0 1",
        flat_parameters(),
    );
    let mut move_picker = MovePicker::new(None);
    let first_move = move_picker.next(&data, false, 0).unwrap();

    assert_eq!(first_move, Move::new(Square::B7, Square::D8, MoveKind::Capture));
}

#[test]
fn the_picker_gives_every_move_once() {
    let data = worker(
        "r3k2r/p1ppqpb1/bn2pnp1/3PN3/1p2P3/2N2Q1p/PPPBBPPP/R3K2R w KQkq - 0 1",
        flat_parameters(),
    );
    let hash_move = Move::new(Square::E1, Square::G1, MoveKind::KingCastle);
    let mut picker = MovePicker::new(Some(hash_move));
    let mut given: Vec<Move> = Vec::new();
    while let Some(m) = picker.next(&data, false, 0) {
        assert!(!given.contains(&m));
        given.push(m);
    }
    assert_eq!(given[0], hash_move);
    assert_eq!(given.len(), 48);

    let mut picker = MovePicker::new(None);
    let mut noisy = 0;
    while let Some(m) = picker.next(&data, true, 0) {
        assert!(!m.get_kind().is_quiet());
        noisy += 1;
    }
    assert_eq!(noisy, 8);
}

#[test]
fn test_output_bucket() {
    let data = worker(STARTING_FEN, flat_parameters());

    let bucket = output_bucket(&data.board);
    assert_eq!(bucket, 7);
    assert_eq!(output_bucket(&Board::from_fen("8/8/4k3/8/8/4K3/8/8 w - - 0 1").unwrap()), 0);
}

#[test]
fn test_nnue_make_unmake() {
    let mut data = worker(
        "rnbq1rk1/pp3p2/4pnpp/1p1p2N1/3P4/1P2P3/PBPbKPPP/R6R w - - 2 4",
        scattered_parameters(),
    );

    data.network.full_refresh(&data.board);
    let first_eval = data.network.evaluate(&data.board);

    println!("First Eval: {}", first_eval);
    let _ = data.board.generate_moves(MoveGenKind::All);
    let m = data.board.parse_move("e2d1").unwrap();

    data.make_move(m, 0);

    println!("Second Eval: {}", data.network.evaluate(&data.board));

    data.unmake_move();

    let final_eval = data.network.evaluate(&data.board);
    println!("Final Eval: {}", final_eval);
    assert_eq!(final_eval, first_eval);
}

#[test]
fn updated_and_fresh_networks_agree() {
    let mut data = worker(
        "r3k2r/p1ppqpb1/bn2pnp1/3PN3/1p2P3/2N2Q1p/PPPBBPPP/R3K2R w KQkq - 0 1",
        scattered_parameters(),
    );
    let mut different = 0;
    let before = data.network.evaluate(&data.board);
    for text in ["e1g1", "d5e6", "e5f7", "f3f6", "e2a6", "a2a4", "d2h6"] {
        let m = data.board.parse_move(text).unwrap();
        data.make_move(m, 0);
        let updated = data.network.evaluate(&data.board);
        let fresh = Network::new(scattered_parameters(), &data.board).evaluate(&data.board);
        assert_eq!(updated, fresh);
        assert!(updated.abs() <= EVAL_LIMIT);
        if updated != before {
            different += 1;
        }
        data.unmake_move();
    }
    assert!(different > 0);
}

#[test]
fn flat_networks_give_their_bias() {
    let mut data = worker(STARTING_FEN, flat_parameters());
    assert_eq!(data.network.evaluate(&data.board), 163 * 400 / (255 * 64));
}

#[test]
fn networks_are_read_from_bytes() {
    let mut bytes = vec![0u8; 2 * NUM_PARAMETERS];
    bytes[0] = 0xfe;
    bytes[1] = 0xff;
    bytes[2] = 0x01;
    bytes[3] = 0x02;
    bytes[2 * 3145728] = 7;
    bytes[2 * 3163136 + 1] = 1;
    let parameters = Parameters::from_bytes(&bytes).unwrap();
    assert_eq!(parameters.feature_weights[0], -2);
    assert_eq!(parameters.feature_weights[1], 513);
    assert_eq!(parameters.feature_bias[0], 7);
    assert_eq!(parameters.output_bias[0], 256);
    assert_eq!(parameters.output_weights.len(), 16384);

    bytes.pop();
    assert!(Parameters::from_bytes(&bytes).is_none());
}

#[test]
fn king_squares_choose_inputs() {
    assert_eq!(input_context(Square::A1), (input_bucket(Square::A1), false));
    assert!(input_context(Square::H1).1);
    assert_eq!(input_bucket(Square::A1), input_bucket(Square::H1));
}

#[test]
fn test_parse_times() {
    let clocks = go("wtime 5000 btime 5000 winc 0 binc 0");
    assert_eq!(clocks.wtime, Some(5000));
    assert_eq!(clocks.btime, Some(5000));
    assert_eq!(clocks.winc, Some(0));
    assert_eq!(clocks.binc, Some(0));
    assert_eq!(clocks.depth, None);
    assert_eq!(clocks.movetime, None);
    assert_eq!(clocks.movestogo, None);

    let settings = TimeSettings {
        time: clocks.wtime,
        inc: clocks.winc.unwrap(),
        ..TimeSettings::default()
    };
    let mut data = worker(STARTING_FEN, flat_parameters());
    let m = run(&mut data, STARTING_FEN, Limits::new(&settings, 50, 3735));
    assert!(m.is_some());
}

#[test]
fn test_parse_go() {
    let clocks = go("wtime 5000 btime 5000 winc 5 binc 8 movetime 100");
    println!("{:?}", clocks);
    assert_eq!(clocks.winc, Some(5));
    assert_eq!(clocks.binc, Some(8));
    assert_eq!(clocks.movetime, Some(100));

    let settings = TimeSettings { movetime: clocks.movetime, ..TimeSettings::default() };
    let mut data = worker(STARTING_FEN, flat_parameters());
    let bm = run(&mut data, STARTING_FEN, Limits::new(&settings, 0, 0));
    println!("Bestmove: {}", bm.unwrap().to_string());
}

#[test]
fn the_search_mates() {
    let fen = "6k1/5ppp/8/8/8/8/5PPP/3R2K1 w - - 0 1";
    let mut data = worker(fen, flat_parameters());
    let m = run(&mut data, fen, depth_limit(3)).unwrap();
    assert_eq!(m, Move::new(Square::D1, Square::D8, MoveKind::QuietMove));
    let best = data.best_move.as_ref().unwrap();
    assert_eq!(best.score, MATE - 1);
    assert_eq!(data.completed_depth, 3);
    assert_eq!(data.prev_score, MATE - 1);
    assert!(best.pv.inner.is_empty());

    let settings = TimeSettings { mate: Some(2), ..TimeSettings::default() };
    let fen = "7k/8/8/8/8/8/R7/1R4K1 w - - 0 1";
    let m = run(&mut data, fen, Limits::new(&settings, 0, 0)).unwrap();
    println!("{}", m.to_string());
    assert!(is_win(data.prev_score));
    assert!(MATE - data.prev_score <= 4);
}

#[test]
fn the_search_wins_what_hangs() {
    let fen = "3qk3/8/8/8/8/8/8/3RK3 b - - 0 1";
    let mut data = worker(fen, flat_parameters());
    run(&mut data, fen, depth_limit(4)).unwrap();
    let info = data.uci_info(12, 3456).unwrap();
    assert!(info.contains("info depth 4"));
    assert!(info.contains("nps 3456"));
}

#[test]
fn positions_without_moves() {
    let stalemate = "7k/5Q2/6K1/8/8/8/8/8 b - - 0 1";
    let mut data = worker(stalemate, flat_parameters());
    assert!(run(&mut data, stalemate, depth_limit(2)).is_none());
    assert_eq!(search(&mut data, Node::Root, 2, -INFINITE, INFINITE, 0, false), DRAW);
    assert!(root_moves_of(&data.board).is_empty());

    let mate = "R5k1/5ppp/8/8/8/8/8/6K1 b - - 0 1";
    let mut data = worker(mate, flat_parameters());
    assert_eq!(search(&mut data, Node::PV, 2, -INFINITE, INFINITE, 0, false), -MATE);
    assert_eq!(quiesce(&mut data, Node::PV, -INFINITE, INFINITE, 0), -MATE);
}

#[test]
fn a_stopped_search_says_so() {
    let mut data = worker(STARTING_FEN, flat_parameters());
    assert_eq!(data.shared.status.get(), RUNNING);
    data.shared.status.stop();
    assert_eq!(data.shared.status.get(), STOPPED);
    assert_eq!(search(&mut data, Node::PV, 3, -INFINITE, INFINITE, 0, false), TIMEOUT);
    data.shared.status.run();
    assert_ne!(search(&mut data, Node::PV, 2, -INFINITE, INFINITE, 0, false), TIMEOUT);
}

#[test]
fn a_search_leaves_the_position_as_it_was() {
    let fen = "r3k2r/p1ppqpb1/bn2pnp1/3PN3/1p2P3/2N2Q1p/PPPBBPPP/R3K2R w KQkq - 0 1";
    let mut data = worker(fen, scattered_parameters());
    let eval = data.network.evaluate(&data.board);
    let hash = data.board.state.hash;
    let score = search(&mut data, Node::PV, 3, -INFINITE, INFINITE, 0, false);
    assert!(score.abs() < INFINITE);
    assert_eq!(data.board.to_fen(), fen);
    assert_eq!(data.board.state.hash, hash);
    assert_eq!(data.network.evaluate(&data.board), eval);
    assert!(data.nodes() > 0);
    assert_eq!(data.shared.total_nodes_searched(), data.nodes());
    data.reset_nodes();
    assert_eq!(data.nodes(), 0);
}

#[test]
fn limits_end_a_search() {
    let mut data = worker(STARTING_FEN, flat_parameters());
    let settings = TimeSettings { nodes: Some(Nodes::Hard(500)), ..TimeSettings::default() };
    assert!(run(&mut data, STARTING_FEN, Limits::new(&settings, 0, 0)).is_some());
    assert!(data.nodes() >= 500 && data.nodes() < 2500);

    let settings = TimeSettings { time: Some(120), ..TimeSettings::default() };
    let limits = Limits::new(&settings, 1000, 40);
    assert_eq!(limits.time.unwrap().soft, 100);
    assert_eq!(limits.time.unwrap().hard, 40);
    assert!(!limits.hard_limit_at(0, 2, 2048, 40_000_000));
    assert!(limits.hard_limit_at(0, 2, 2048, 40_000_001));
    assert!(!limits.hard_limit_at(0, 2, 2047, 40_000_001));
    assert!(!limits.hard_limit_at(1, 2, 2048, 40_000_001));
    assert!(!limits.hard_limit_at(0, 1, 2048, 40_000_001));
    assert!(limits.soft_limit_at(1, 51, 50));
    assert!(!limits.soft_limit_at(1, 50, 50));
    let exact = Limits::new(&TimeSettings { movetime: Some(30), ..TimeSettings::default() }, 0, 0);
    assert_eq!(exact.exact, Some(10));
}

#[test]
fn the_clock_runs() {
    let mut time = TimeManager::new(depth_limit(1));
    let first = time.elapsed();
    let mut x: u64 = 1;
    for i in 0..100_000u64 {
        x = x.wrapping_mul(31).wrapping_add(i);
    }
    assert_ne!(x, 0);
    let second = time.elapsed();
    assert!(second > first);
    time.start_clock();
    assert!(time.elapsed() < 5_000_000_000);
    assert!(!time.hard_limit(0, 5, 2048));
    assert!(!time.soft_limit(2048, 0));
}

#[test]
fn windows_follow_scores() {
    let fen = "4k3/8/8/8/8/8/4P3/4K3 w - - 0 1";
    let mut data = worker(fen, flat_parameters());
    data.prepare(
        Board::from_fen(fen).unwrap(),
        TimeManager::new(depth_limit(9)),
        Report::Silent,
    );
    let mut runner = Runner::begin(&mut data);
    assert_eq!((runner.alpha, runner.beta, runner.delta), (-INFINITE, INFINITE, 24));
    let outcome = runner.iterate(&mut data);
    assert!(matches!(outcome, Outcome::Complete { .. }));
    assert_eq!(runner.depth, 2);
    assert!(!runner.proceed(&data, 100, true));
    assert_eq!((runner.alpha, runner.beta), (-INFINITE, INFINITE));
    assert!(!runner.mate_found(&data));
    assert!(runner.proceed(&data, 100, false));
    assert_eq!((runner.alpha, runner.beta, runner.delta), (75, 125, 25));
    assert_eq!(runner.iterate(&mut data), Outcome::Again);
    assert_eq!(runner.depth, 2);
    assert!(runner.alpha < 75);
    assert_eq!(runner.beta, runner.alpha + 25);
    assert_eq!(runner.delta, 25 + 24 * 25 / 128);
}

#[test]
fn test_transposition_table() {
    let fen = "r3k2r/p1ppqpb1/bn2pnp1/3PN3/1p2P3/2N2Q1p/PPPBBPPP/R3K2R w KQkq - ";
    let mut data = worker(fen, flat_parameters());
    let best_move = run(&mut data, fen, depth_limit(3)).unwrap();
    let score = data.prev_score;
    let hash = data.board.state.hash;

    let entry = data.shared.tt.entry(hash, 0);
    assert_eq!(best_move, entry.as_ref().unwrap().best_move());
    assert_eq!(score, entry.as_ref().unwrap().score());

    let mut board = Board::from_fen(fen).unwrap();
    board.make_move(best_move);
    assert!(run_board(&mut data, board, depth_limit(2)).is_some());

    let entry = data.shared.tt.entry(hash, 0);
    assert_eq!(best_move, entry.as_ref().unwrap().best_move());
    assert_eq!(score, entry.as_ref().unwrap().score());
}

#[test]
fn a_table_of_keys_keeps_what_it_is_told() {
    let fen = "r3k2r/p1ppqpb1/bn2pnp1/3PN3/1p2P3/2N2Q1p/PPPBBPPP/R3K2R w KQkq - ";
    let mut board = Board::from_fen(fen).unwrap();
    let best_move = board.generate_moves(MoveGenKind::All).get(3).mv;
    let hash = board.state.hash;
    let score = 123;
    let mut tt = TranspositionTable::new();
    assert!(tt.get_entry(hash).is_none());
    tt.add_entry(best_move, score, NodeType::PV, hash);

    let entry = tt.get_entry(hash);
    assert_eq!(best_move, entry.as_ref().unwrap().get_best_move());
    assert_eq!(score, entry.as_ref().unwrap().get_score());

    board.make_move(best_move);
    let reply = board.generate_moves(MoveGenKind::All).get(0).mv;
    tt.add_entry(reply, -score, NodeType::Cut, board.state.hash);

    let entry = tt.get_entry(hash);
    assert_eq!(best_move, entry.as_ref().unwrap().get_best_move());
    assert_eq!(score, entry.as_ref().unwrap().get_score());
    assert_eq!(tt.get_best_move(board.state.hash), Some(reply));
    let entry = tt.get_entry(board.state.hash).as_ref().unwrap();
    assert_eq!(entry.get_key(), board.state.hash);
    assert_eq!(entry.get_node_type(), NodeType::Cut);
}

#[test]
fn nothing_stops_a_worker_without_a_watch() {
    let mut data = idle_worker(STARTING_FEN, flat_parameters());
    data.shared.status.stop();
    assert_eq!(data.shared.status.get(), RUNNING);
    assert_ne!(search(&mut data, Node::PV, 3, -INFINITE, INFINITE, 0, false), TIMEOUT);
    assert_ne!(quiesce(&mut data, Node::PV, -INFINITE, INFINITE, 0), TIMEOUT);
    assert_eq!(
        search_unless_stopped(&mut data, true, Node::PV, 3, -INFINITE, INFINITE, 0, false),
        TIMEOUT
    );

    let mut data = idle_worker("7k/5Q2/6K1/8/8/8/8/8 b - - 0 1", flat_parameters());
    assert_eq!(search(&mut data, Node::PV, 1, -INFINITE, INFINITE, 3, false), DRAW);
    let mut data = idle_worker("R5k1/5ppp/8/8/8/8/8/6K1 b - - 0 1", flat_parameters());
    assert_eq!(search(&mut data, Node::PV, 1, -INFINITE, INFINITE, 3, false), -MATE + 3);
}

#[test]
fn a_quiet_search_stands_pat() {
    let mut data = idle_worker("4k3/8/8/8/8/8/4P3/4K3 w - - 0 1", flat_parameters());
    let eval = data.network.evaluate(&data.board);
    assert_eq!(quiesce(&mut data, Node::PV, -INFINITE, eval, 0), eval);
    assert!(quiesce(&mut data, Node::PV, -INFINITE, INFINITE, 0) >= eval);
}

#[test]
fn the_picker_keeps_its_order() {
    let fen = "r3k2r/p1ppqpb1/bn2pnp1/3PN3/1p2P3/2N2Q1p/PPPBBPPP/R3K2R w KQkq - 0 1";
    let data = worker(fen, flat_parameters());
    let mut picker = MovePicker::new(None);
    let mut kinds = Vec::new();
    while let Some(m) = picker.next(&data, false, 0) {
        kinds.push(m.get_kind().is_quiet());
    }
    assert_eq!(kinds.len(), 48);
    let first_quiet = kinds.iter().position(|quiet| *quiet).unwrap();
    let last_quiet = kinds.iter().rposition(|quiet| *quiet).unwrap();
    assert!(kinds[first_quiet..=last_quiet].iter().all(|quiet| *quiet));
    assert!(last_quiet + 1 < kinds.len());
    assert!(picker.next(&data, false, 0).is_none());

    let mut picker = MovePicker::new(None);
    let mut noisy = 0;
    while let Some(m) = picker.next(&data, true, 0) {
        assert!(!m.get_kind().is_quiet());
        noisy += 1;
    }
    assert_eq!(noisy, 8);
    assert!(picker.next(&data, true, 0).is_none());
}

#[test]
fn random_moves_follow_the_generator() {
    let mut data = worker(STARTING_FEN, flat_parameters());
    randomize_from_startpos(&mut data, 3, 12345).unwrap();
    let mut board = Board::start();
    let mut state: u64 = 12345;
    for _ in 0..3 {
        let list = board.generate_moves(MoveGenKind::All);
        let index = pseudo_rand(&mut state) % list.len() as u64;
        board.make_move(list.get(index as usize).mv);
    }
    assert_eq!(data.board, board);
}

#[test]
fn the_depth_has_no_limit_of_its_own() {
    let fen = "8/8/8/8/8/1k6/8/K7 w - - 99 60";
    let mut data = worker(fen, flat_parameters());
    run(&mut data, fen, depth_limit(5003)).unwrap();
    assert_eq!(data.completed_depth, 5003);
}

#[test]
fn moves_of_other_positions_are_not_taken_over() {
    let data = worker(STARTING_FEN, flat_parameters());
    let mut other = worker("4k3/8/8/8/8/8/4P3/4K3 w - - 0 1", flat_parameters());
    run(&mut other, "4k3/8/8/8/8/8/4P3/4K3 w - - 0 1", depth_limit(2));
    let known = other.shared.tt.entry(other.board.state.hash, 0);
    let probe = read_entry(&known, &data.board);
    assert!(probe.found);
    if let Some(m) = probe.best_move {
        assert!(data.board.is_playable(m));
    }
    assert!(!read_entry(&None, &data.board).found);
}

#[test]
fn test_fengen() {
    let mut seed = opening_seed(0);
    let mut openings = 0;
    for _ in 0..50 {
        seed = seed.wrapping_mul(6364136223846793005).wrapping_add(1442695040888963407);
        let mut data = worker(STARTING_FEN, flat_parameters());
        let plies = opening_length(8, seed % 2 == 0);
        if randomize_from_startpos(&mut data, plies, seed | 1).is_ok() {
            println!("info string genfens {}", data.board.to_fen());
            assert_eq!(data.nodes() as usize, plies);
            openings += 1;
        }
        if openings == 1 {
            break;
        }
    }
    assert_eq!(openings, 1);
}

#[test]
fn seeds_that_are_given_are_used() {
    assert_eq!(opening_seed(99), 99);
    let drawn: Vec<u64> = (0..4).map(|_| opening_seed(0)).collect();
    assert!(drawn.iter().any(|&x| x != drawn[0]));
    assert_eq!(opening_length(8, true), 8);
    assert_eq!(opening_length(8, false), 9);

    let mut a = worker(STARTING_FEN, flat_parameters());
    let mut b = worker(STARTING_FEN, flat_parameters());
    assert_eq!(
        randomize_from_startpos(&mut a, 6, 7),
        randomize_from_startpos(&mut b, 6, 7)
    );
    assert_eq!(a.board.to_fen(), b.board.to_fen());
    assert_ne!(a.board.to_fen(), STARTING_FEN);
}

#[test]
fn uneven_openings_are_refused() {
    let mut parameters = flat_parameters();
    parameters.output_bias = vec![32767; NUM_OUTPUT_BUCKETS];
    let mut data = worker("3QK3/8/8/8/8/8/8/4k3 w - - 0 1", parameters);
    assert_eq!(data.network.evaluate(&data.board), 32767 * 400 / (255 * 64));
    assert!(randomize_from_startpos(&mut data, 0, 1).is_ok());

    let mut data = worker("7k/5Q2/6K1/8/8/8/8/8 b - - 0 1", flat_parameters());
    assert!(randomize_from_startpos(&mut data, 2, 1).is_err());
}

fn result(id: usize, m: Move, score: i32, searched_depth: i32) -> SearchResult {
    SearchResult { id, m, score, searched_depth }
}

#[test]
fn conclusions_of_an_iteration() {
    let fen = "4k3/8/8/8/8/8/4P3/4K3 w - - 0 1";
    let mut data = worker(fen, flat_parameters());
    data.prepare(
        Board::from_fen(fen).unwrap(),
        TimeManager::new(depth_limit(1)),
        Report::Silent,
    );
    let mut runner = Runner::begin(&mut data);
    assert!(matches!(runner.iterate(&mut data), Outcome::Complete { .. }));
    assert_eq!(data.root_depth, 1);
    runner.narrow(100);
    let before = runner;
    assert_eq!(runner.conclude(&mut data, 75, true), Outcome::Halted);
    assert_eq!(runner, before);
    assert_eq!(runner.conclude(&mut data, 75, false), Outcome::Again);
    assert_eq!((runner.alpha, runner.beta, runner.delta), (50, 75, 29));
    runner = before;
    assert_eq!(runner.conclude(&mut data, 130, false), Outcome::Again);
    assert_eq!((runner.alpha, runner.beta, runner.delta), (100, 155, 29));
    assert_eq!(runner.iterate(&mut data), Outcome::Halted);
    assert_eq!(data.root_depth, 2);
    assert_eq!(data.completed_depth, 1);
}

#[test]
fn the_line_of_a_search_can_be_played() {
    let fen = "r3k2r/p1ppqpb1/bn2pnp1/3PN3/1p2P3/2N2Q1p/PPPBBPPP/R3K2R w KQkq - 0 1";
    let mut data = worker(fen, scattered_parameters());
    run(&mut data, fen, depth_limit(5)).unwrap();
    let best = data.best_move.as_ref().unwrap();
    assert_eq!(best.score, data.prev_score);
    let mut board = Board::from_fen(fen).unwrap();
    assert!(board.is_playable(best.m));
    board.make_move(best.m);
    for m in &best.pv.inner {
        assert!(board.is_playable(*m));
        board.make_move(*m);
    }
    for pair in data.root_moves.windows(2) {
        assert!(pair[0].score >= pair[1].score);
    }
    assert_eq!(data.root_moves.len(), 48);
}

#[test]
fn good_moves_are_remembered() {
    let mut data = worker(STARTING_FEN, flat_parameters());
    let e4 = Move::new(Square::E2, Square::E4, MoveKind::DoublePawn);
    let d4 = Move::new(Square::D2, Square::D4, MoveKind::DoublePawn);
    let a3 = Move::new(Square::A2, Square::A3, MoveKind::QuietMove);
    let mut quiets: StackVec<Move, 32> = StackVec::new();
    quiets.push(d4);
    let noisies: StackVec<Move, 32> = StackVec::new();
    update_histories(&mut data, e4, 2, 0, &quiets, &noisies);
    let threats = data.board.state.threats;
    assert_eq!(data.quiet_history.get(threats, Side::White, e4), 650 - 225);
    assert_eq!(data.quiet_history.get(threats, Side::White, d4), -(578 - 235));
    assert_eq!(data.quiet_history.get(threats, Side::White, a3), 0);
    let pawn = Some((Side::White, Piece::Pawn));
    assert_eq!(data.pawn_history.get(data.board.pawn_key(), pawn, Square::E4), 650 - 225);
    assert!(history_of(&data, e4, 0) > history_of(&data, a3, 0));
    assert!(history_of(&data, d4, 0) < history_of(&data, a3, 0));

    reward_noisy(&mut data, e4, 300);
    assert_eq!(data.noisy_history.get(pawn, Square::E4, None, threats), 300);
    reward_quiet(&mut data, a3, 50, 0, 0);
    assert_eq!(data.quiet_history.get(threats, Side::White, a3), 50);
}

#[test]
fn corrections_shift_the_evaluation() {
    let mut data = worker(STARTING_FEN, flat_parameters());
    assert_eq!(data.correction(0), 0);
    data.update_correction_histories(64, 4, 0);
    let bonus = 157 * 4 * 64 / 128;
    let key = data.board.pawn_key();
    assert_eq!(data.corrhistory().pawn.get(Side::White, key), bonus);
    assert_eq!(data.correction(0), 3 * bonus / 64);
}

#[test]
fn workers_vote() {
    let board = Board::from_fen(STARTING_FEN).unwrap();
    let e4 = Move::new(Square::E2, Square::E4, MoveKind::DoublePawn);
    let d4 = Move::new(Square::D2, Square::D4, MoveKind::DoublePawn);
    let results = vec![result(0, e4, 30, 10), result(1, d4, 20, 10), result(2, d4, 20, 11)];
    assert_eq!(best_result(&results), 2);
    let results = vec![result(0, e4, 30, 11), result(1, d4, 20, 10), result(2, d4, 20, 11)];
    assert_eq!(best_result(&results), 0);
    let results = vec![result(0, e4, 30, 5), result(1, d4, 28, 10), result(2, d4, 20, 11)];
    assert_eq!(best_result(&results), 1);
    let results = vec![result(0, e4, 30, 10), result(1, d4, MATE - 5, 3)];
    assert_eq!(best_result(&results), 1);
    let results = vec![result(0, e4, MATE - 7, 10), result(1, d4, MATE - 5, 3)];
    assert_eq!(choose_move(&results, &board).1, Some(d4));
    let nothing = vec![result(0, Move::none(), 0, 3), result(1, d4, 10, 0)];
    assert_eq!(choose_move(&nothing, &board).0, None);
    assert!(choose_move(&nothing, &board).1.is_some());
    let mate = Board::from_fen("R5k1/5ppp/8/8/8/8/8/6K1 b - - 0 1").unwrap();
    assert_eq!(choose_move(&nothing, &mate), (None, None));
}

#[test]
fn root_moves_report_what_they_know() {
    let mut rm = RootMove::new(Move::new(Square::E2, Square::E4, MoveKind::DoublePawn));
    assert_eq!(rm.score, -INFINITE);
    rm.score = 40;
    rm.display_score = 35;
    rm.searched_depth = 7;
    rm.sel_depth = 11;
    rm.pv.commit(vec![Move::new(Square::E7, Square::E5, MoveKind::DoublePawn)]);
    let text = rm.info(250, 1000, 4000, 12);
    println!("{text}");
    assert!(text.contains("info depth 7 seldepth 11"));
    assert!(text.contains("score cp 35"));
    assert!(text.contains("pv e2e4 e7e5"));
    assert_eq!(rm.duplicate().score, rm.score);
}

#[test]
fn reductions_must_be_in_range() {
    assert!(LmrTable::new(vec![0; 10]).is_none());
    let mut values = vec![0; LMR_SIZE];
    values[LMR_SIZE - 1] = 2_000_000;
    assert!(LmrTable::new(values.clone()).is_none());
    values[LMR_SIZE - 1] = 77;
    assert_eq!(LmrTable::new(values).unwrap().get(true, 127, 63), 77);
}

#[test]
fn limits_from_a_command() {
    let settings = parse_go(Side::Black, "wtime 10 btime 2000 binc 30 movestogo 5", false);
    assert_eq!(settings.time, Some(2000));
    assert_eq!(settings.inc, 30);
    assert_eq!(settings.movestogo, Some(5));
    let limits = Limits::new(&settings, 400, 5000);
    assert_eq!(limits.time.unwrap().soft, 400);
    assert_eq!(limits.time.unwrap().hard, 1980);
}

#[test]
fn a_search_learns_which_moves_are_good() {
    let fen = "6k1/5ppp/8/8/8/8/8/R5K1 w - - 0 1";
    let mut data = worker(fen, flat_parameters());
    let threats = data.board.state.threats;
    let mate = Move::new(Square::A1, Square::A8, MoveKind::QuietMove);
    assert_eq!(data.quiet_history.get(threats, Side::White, mate), 0);
    assert_eq!(run(&mut data, fen, depth_limit(2)), Some(mate));
    assert!(data.quiet_history.get(threats, Side::White, mate) > 0);
    let entry = data.shared.tt.entry(data.board.state.hash, 0).unwrap();
    assert_eq!(entry.best_move(), mate);
    assert_eq!(entry.score(), MATE - 1);
}

#[test]
fn a_quiet_search_looks_at_few_captures() {
    let mut data = idle_worker("7k/8/8/1p1p1p1p/P1P1P1P1/8/8/K7 w - - 0 1", flat_parameters());
    let flat = data.network.evaluate(&data.board);
    assert_eq!(quiesce(&mut data, Node::PV, -INFINITE, INFINITE, 0), flat);
    assert_eq!(data.nodes(), 2);

    let mut data = idle_worker("7k/8/8/8/8/8/8/K7 w - - 0 1", flat_parameters());
    quiesce(&mut data, Node::PV, -INFINITE, INFINITE, 0);
    assert_eq!(data.nodes(), 0);
}

#[test]
fn a_search_of_the_root_tries_every_move() {
    let mut data = idle_worker(STARTING_FEN, flat_parameters());
    data.root_moves = root_moves_of(&data.board);
    search(&mut data, Node::Root, 1, -INFINITE, INFINITE, 0, false);
    assert_eq!(data.root_moves.len(), 20);
    assert!(data.root_moves.iter().all(|m| m.nodes > 0));
}

#[test]
fn of_equal_moves_the_last_comes_first() {
    let data = worker(STARTING_FEN, flat_parameters());
    let mut picker = MovePicker::new(None);
    let mut given: Vec<String> = Vec::new();
    for _ in 0..5 {
        given.push(picker.next(&data, false, 0).unwrap().to_string());
    }
    assert_eq!(given, vec!["g1h3", "g1f3", "b1c3", "b1a3", "h2h4"]);
}

#[test]
fn openings_are_drawn_by_their_number() {
    for seed in [1u64, 77, 123456789] {
        let mut expected = Board::from_fen(STARTING_FEN).unwrap();
        let mut state = seed;
        for _ in 0..2 {
            let list = expected.generate_moves(MoveGenKind::All);
            let index = pseudo_rand(&mut state) as usize % list.len();
            expected.make_move(list.get(index).mv);
        }
        let mut data = worker(STARTING_FEN, flat_parameters());
        assert!(randomize_from_startpos(&mut data, 2, seed).is_ok());
        assert_eq!(data.board.to_fen(), expected.to_fen());
    }
}

#[test]
fn an_iteration_chooses_the_first_of_the_best_moves() {
    let fen = "6k1/5ppp/8/8/8/8/8/R5K1 w - - 0 1";
    let mut data = worker(fen, flat_parameters());
    let mate = run(&mut data, fen, depth_limit(2));
    assert_eq!(mate.unwrap().to_string(), "a1a8");
    assert_eq!(data.root_moves[0].m.to_string(), "a1a8");
    assert_eq!(data.best_move.as_ref().unwrap().score, MATE - 1);
    assert!(data.root_moves.iter().skip(1).all(|m| m.score < MATE - 1));
    assert!(data.root_moves.iter().all(|m| m.previous_score == m.score));
}

#[test]
fn a_drawn_position_has_no_line() {
    let mut data = idle_worker("4k3/8/8/8/8/8/4P3/4K3 w - - 100 80", flat_parameters());
    assert_eq!(quiesce(&mut data, Node::PV, -INFINITE, INFINITE, 0), DRAW);
    assert!(data.pv.line(0).is_empty());
    assert_eq!(search(&mut data, Node::PV, 3, -INFINITE, INFINITE, 1, false), DRAW);
    assert!(data.pv.line(1).is_empty());
}

#[test]
fn setting_a_position_up_keeps_what_was_learned() {
    let fen = "6k1/5ppp/8/8/8/8/8/R5K1 w - - 0 1";
    let mut data = worker(fen, flat_parameters());
    run(&mut data, fen, depth_limit(2));
    let threats = data.board.state.threats;
    let mate = Move::new(Square::A1, Square::A8, MoveKind::QuietMove);
    let learned = data.quiet_history.get(threats, Side::White, mate);
    assert!(learned > 0);
    let board = Board::from_fen(STARTING_FEN).unwrap();
    data.prepare(board, TimeManager::new(depth_limit(1)), Report::Silent);
    assert_eq!(data.quiet_history.get(threats, Side::White, mate), learned);
    assert_eq!(data.root_moves[0].m.to_string(), "a2a3");
    assert_eq!(data.root_moves.len(), 20);
}
