use destroyer::chess::facts_of;
use destroyer::material::{evaluate_material, material_balance};
use destroyer::ordering::{mvv_lva, piece_value, search_order, MoveFacts, PieceKind};
use destroyer::search::{promote, Search};
use destroyer::tt::{from_tt, to_tt, Bound, Table};
use destroyer::uci::{command_of, find_word, parse_position, root_contempt, think_time, think_time_fits, Command};
use destroyer::{CONTEMPT, INF, MATE};
use shakmaty::fen::Fen;
use shakmaty::zobrist::{Zobrist64, ZobristHash};
use shakmaty::{CastlingMode, Chess, EnPassantMode, Move, Position, Role, Square};
use std::time::{Duration, Instant};

fn words(s: &str) -> Vec<&str> {
    s.split_whitespace().collect()
}

fn position(fen: &str) -> Chess {
    fen.parse::<Fen>().unwrap().into_position(CastlingMode::Standard).unwrap()
}

fn zobrist(pos: &Chess) -> u64 {
    pos.zobrist_hash::<Zobrist64>(EnPassantMode::Legal).0
}

fn later() -> Instant {
    Instant::now() + Duration::from_secs(5)
}

fn quiet(role: PieceKind) -> MoveFacts {
    MoveFacts { role, capture: None, promotion: None }
}

fn takes(role: PieceKind, victim: PieceKind) -> MoveFacts {
    MoveFacts { role, capture: Some(victim), promotion: None }
}

#[test]
fn piece_values_in_centipawns() {
    assert_eq!(piece_value(PieceKind::Pawn), 100);
    assert_eq!(piece_value(PieceKind::Knight), 320);
    assert_eq!(piece_value(PieceKind::Bishop), 330);
    assert_eq!(piece_value(PieceKind::Rook), 500);
    assert_eq!(piece_value(PieceKind::Queen), 900);
    assert_eq!(piece_value(PieceKind::King), 0);
}

#[test]
fn mvv_lva_keys() {
    assert_eq!(mvv_lva(&takes(PieceKind::Pawn, PieceKind::Queen)), 8990);
    assert_eq!(mvv_lva(&takes(PieceKind::Queen, PieceKind::Pawn)), 910);
    assert_eq!(mvv_lva(&takes(PieceKind::King, PieceKind::Rook)), 5000);
    let promo = MoveFacts {
        role: PieceKind::Pawn,
        capture: None,
        promotion: Some(PieceKind::Queen),
    };
    assert_eq!(mvv_lva(&promo), 900);
    assert_eq!(mvv_lva(&quiet(PieceKind::Knight)), 0);
}

#[test]
fn search_order_is_stable_by_descending_key() {
    let facts = vec![
        quiet(PieceKind::Knight),
        takes(PieceKind::Queen, PieceKind::Pawn),
        quiet(PieceKind::Bishop),
        takes(PieceKind::Pawn, PieceKind::Rook),
        takes(PieceKind::Queen, PieceKind::Pawn),
    ];
    assert_eq!(search_order(&facts, true), vec![3, 1, 4, 0, 2]);
    // quiescence: captures and promotions only
    assert_eq!(search_order(&facts, false), vec![3, 1, 4]);
    assert_eq!(search_order(&vec![], true), Vec::<usize>::new());
}

#[test]
fn move_facts_of_a_capture() {
    let m = Move::Normal {
        role: Role::Knight,
        from: Square::F3,
        capture: Some(Role::Pawn),
        to: Square::E5,
        promotion: None,
    };
    let f = facts_of(&m);
    assert_eq!(f.role, PieceKind::Knight);
    assert_eq!(f.capture, Some(PieceKind::Pawn));
    assert_eq!(f.promotion, None);
    let ep = Move::EnPassant { from: Square::E5, to: Square::D6 };
    assert_eq!(facts_of(&ep).capture, Some(PieceKind::Pawn));
}

#[test]
fn draw_score_alternates_by_ply() {
    let s = Search::new(later(), &[1, 2, 3], CONTEMPT);
    assert_eq!(s.draw_score(0), -CONTEMPT);
    assert_eq!(s.draw_score(1), CONTEMPT);
    assert_eq!(s.draw_score(4), -CONTEMPT);
    assert_eq!(s.draw_score(-1), CONTEMPT);
}

#[test]
fn repetition_needs_even_distance_within_halfmoves() {
    let s = Search::new(later(), &[7, 8, 9, 10], CONTEMPT);
    // path 7 8 9 10; a new entry 9 would stand at index 4: index 2 is 2 plies back
    assert!(s.is_repetition(9, 10));
    // 10 stands 1 ply back: same position, other side to move
    assert!(!s.is_repetition(10, 10));
    // 8 is 3 plies back: odd
    assert!(!s.is_repetition(8, 10));
    // 7 is 4 plies back, but only 3 reversible plies were played
    assert!(s.is_repetition(7, 4));
    assert!(!s.is_repetition(7, 3));
    let short = Search::new(later(), &[5], CONTEMPT);
    assert!(!short.is_repetition(5, 100));
}

#[test]
fn visit_truncates_then_records_or_draws() {
    let mut s = Search::new(later(), &[1, 2], CONTEMPT);
    s.path.push(3);
    s.path.push(4);
    // entering ply 2 drops the stale entry at ply 2 and keeps the line to the parent
    assert!(!s.visit(5, 10, false, 2));
    assert_eq!(s.path, vec![1, 2, 3, 5]);
    assert!(s.visit(6, 100, false, 1));
    assert_eq!(s.path, vec![1, 2]);
    assert!(s.visit(6, 0, true, 1));
    assert!(s.visit(1, 4, false, 1));
    assert_eq!(s.path, vec![1, 2]);
}

#[test]
fn tick_counts_nodes() {
    let mut s = Search::new(later(), &[1], CONTEMPT);
    for _ in 0..5000 {
        assert!(!s.tick());
    }
    assert_eq!(s.nodes, 5000);
    let mut late = Search::new(Instant::now(), &[1], CONTEMPT);
    late.nodes = 2047;
    assert!(late.tick());
    assert!(late.stopped);
}

#[test]
fn checkmated_side_scores_mate() {
    // fool's mate: White is checkmated
    let pos = position("rnb1kbnr/pppp1ppp/8/4p3/6Pq/5P2/PPPPP2P/RNBQKBNR w KQkq - 1 3");
    let mut s = Search::new(later(), &[zobrist(&pos)], CONTEMPT);
    assert_eq!(s.negamax(&pos, 2, -INF, INF, 0, &evaluate_material), -MATE);
    assert_eq!(s.quiesce(&pos, -INF, INF, 3, &evaluate_material), -MATE + 3);
}

#[test]
fn stalemate_is_a_contempt_draw() {
    let pos = position("7k/5Q2/6K1/8/8/8/8/8 b - - 0 1");
    let mut s = Search::new(later(), &[zobrist(&pos)], CONTEMPT);
    assert_eq!(s.negamax(&pos, 2, -INF, INF, 0, &evaluate_material), -CONTEMPT);
    assert_eq!(s.negamax(&pos, 2, -INF, INF, 1, &evaluate_material), CONTEMPT);
    // quiescence scores stalemate as a contempt draw too
    assert_eq!(s.quiesce(&pos, -INF, INF, 0, &evaluate_material), -CONTEMPT);
    assert_eq!(s.quiesce(&pos, -INF, INF, 1, &evaluate_material), CONTEMPT);
}

#[test]
fn stopped_search_returns_zero() {
    let pos = Chess::default();
    let mut s = Search::new(later(), &[zobrist(&pos)], CONTEMPT);
    s.stopped = true;
    assert_eq!(s.negamax(&pos, 3, -INF, INF, 0, &evaluate_material), 0);
    assert_eq!(s.quiesce(&pos, -INF, INF, 0, &evaluate_material), 0);
    assert!(s.stopped);
}

#[test]
fn quiescence_stands_pat_on_quiet_positions() {
    let pos = Chess::default();
    let mut s = Search::new(later(), &[zobrist(&pos)], CONTEMPT);
    assert_eq!(s.quiesce(&pos, -INF, INF, 0, &evaluate_material), 0);
    // fail-hard: a stand-pat score at or above beta returns beta
    assert_eq!(s.quiesce(&pos, -50, -10, 0, &evaluate_material), -10);
    // at the ply limit the evaluation is returned as it is
    let up = position("4k3/8/8/8/8/8/8/Q3K3 w - - 0 1");
    assert_eq!(s.quiesce(&up, -INF, INF, 96, &evaluate_material), 900);
}

#[test]
fn finds_mate_in_one() {
    let pos = position("6k1/5ppp/8/8/8/8/5PPP/R5K1 w - - 0 1");
    let mut s = Search::new(Instant::now() + Duration::from_millis(500), &[zobrist(&pos)], CONTEMPT);
    let m = s.best_move(&pos, &evaluate_material, &|_: u32, _: i32, _: u64| {}).unwrap();
    assert_eq!(m.to_uci(CastlingMode::Standard).to_string(), "a1a8");
}

#[test]
fn no_legal_move_no_best_move() {
    let pos = position("7k/5Q2/6K1/8/8/8/8/8 b - - 0 1");
    let mut s = Search::new(later(), &[zobrist(&pos)], CONTEMPT);
    assert!(s.best_move(&pos, &evaluate_material, &|_: u32, _: i32, _: u64| {}).is_none());
    assert!(s.best_move_among(&pos, vec![], &evaluate_material, &|_: u32, _: i32, _: u64| {}).is_none());
}

#[test]
fn promote_moves_best_first() {
    let a = Move::Normal { role: Role::Pawn, from: Square::E2, capture: None, to: Square::E4, promotion: None };
    let b = Move::Normal { role: Role::Knight, from: Square::G1, capture: None, to: Square::F3, promotion: None };
    let c = Move::Normal { role: Role::Pawn, from: Square::D2, capture: None, to: Square::D4, promotion: None };
    let mut v = vec![a.clone(), b.clone(), c.clone()];
    promote(&mut v, &c);
    assert_eq!(v, vec![c.clone(), a.clone(), b.clone()]);
    promote(&mut v, &c);
    assert_eq!(v, vec![c, a, b]);
}

#[test]
fn tt_score_conversion() {
    assert_eq!(to_tt(123, 5), 123);
    assert_eq!(from_tt(123, 5), 123);
    assert_eq!(to_tt(MATE - 6, 4), MATE - 2);
    assert_eq!(from_tt(MATE - 2, 10), MATE - 12);
    assert_eq!(to_tt(-(MATE - 6), 4), -(MATE - 2));
    assert_eq!(from_tt(-(MATE - 2), 10), -(MATE - 12));
}

#[test]
fn tt_other_keys_and_clear() {
    let mut t = Table::new(4);
    t.store(3, 1, 7, Bound::Lower, None, 0);
    // 19 shares slot 3 in a 16-slot table, but it is another key
    assert!(t.probe(19, 0).is_none());
    t.store(19, 0, 9, Bound::Upper, None, 0);
    assert!(t.probe(3, 0).is_none());
    assert_eq!(t.probe(19, 0).unwrap().score, 9);
    t.store(300, 0, 9, Bound::Upper, None, 0);
    t.clear();
    assert!(t.probe(19, 0).is_none());
    assert!(t.probe(300, 0).is_none());
}

#[test]
fn tt_deeper_search_beyond_a_byte_replaces() {
    let mut t = Table::new(10);
    t.store(1, 5, 50, Bound::Lower, None, 0);
    t.store(1, 256, 10, Bound::Lower, None, 0);
    let e = t.probe(1, 0).unwrap();
    assert_eq!((e.depth, e.score), (255, 10));
    t.store(1, 300, 20, Bound::Upper, None, 0);
    assert_eq!(t.probe(1, 0).unwrap().score, 20);
    t.store(1, 254, 30, Bound::Upper, None, 0);
    assert_eq!(t.probe(1, 0).unwrap().score, 20);
}

#[test]
fn count_node_stops_only_on_the_poll() {
    let mut s = Search::new(later(), &[1], CONTEMPT);
    assert!(!s.count_node(true));
    assert_eq!(s.nodes, 1);
    s.nodes = 2047;
    assert!(!s.count_node(false));
    s.nodes = 2047;
    assert!(s.count_node(true));
    assert!(s.stopped);
    assert!(s.count_node(false));
}

#[test]
fn tt_depth_is_capped_and_keeps_the_move() {
    let mut t = Table::new(2);
    let m = Move::Normal { role: Role::Pawn, from: Square::E2, capture: None, to: Square::E4, promotion: None };
    t.store(5, 1000, 1, Bound::Exact, Some(m.clone()), 0);
    let e = t.probe(5, 0).unwrap();
    assert_eq!(e.depth, 255);
    assert_eq!(e.best, Some(m));
    assert_eq!(e.key, 5);
}

#[test]
fn think_time_budgets() {
    assert_eq!(think_time(&words("movetime 2000"), true), 1900);
    assert_eq!(think_time(&words("movetime 10000"), true), 4900);
    assert_eq!(think_time(&words("movetime 50"), true), 10);
    assert_eq!(think_time(&words("wtime 60000 btime 30000 winc 1000 binc 0"), true), 2900);
    assert_eq!(think_time(&words("wtime 60000 btime 30000 winc 1000 binc 0"), false), 900);
    assert_eq!(think_time(&words(""), false), 4900);
    assert_eq!(think_time(&words("wtime abc"), true), 4900);
    assert_eq!(think_time(&words("movetime +300"), true), 200);
    assert!(think_time_fits(&words("wtime 60000 winc 1000"), true));
    assert!(!think_time_fits(&words("wtime 60000 winc 18446744073709551615"), true));
}

#[test]
fn position_arguments() {
    let (pos, hist) = parse_position(&words("fen 8/8/8/8/8/4k3/8/Q3K3 w - - 0 1"));
    assert_eq!(hist.len(), 1);
    assert_eq!(hist[0], zobrist(&pos));
    assert_eq!(pos.board().material().white.queen, 1);
    // an unparsable FEN leaves the starting position
    let (start, _) = parse_position(&words("fen not a fen"));
    assert_eq!(zobrist(&start), zobrist(&Chess::default()));
    // moves stop at the first illegal one
    let (_, hist) = parse_position(&words("startpos moves e2e4 e2e4 e7e5"));
    assert_eq!(hist.len(), 2);
    assert_eq!(find_word(&words("startpos moves e2e4 moves"), "moves"), Some(1));
    assert_eq!(find_word(&words("startpos"), "moves"), None);
}

#[test]
fn command_words() {
    assert_eq!(command_of(&words("uci")), Command::Uci);
    assert_eq!(command_of(&words("isready")), Command::IsReady);
    assert_eq!(command_of(&words("ucinewgame")), Command::NewGame);
    assert_eq!(command_of(&words("position startpos")), Command::Position);
    assert_eq!(command_of(&words("go movetime 10")), Command::Go);
    assert_eq!(command_of(&words("quit")), Command::Quit);
    assert_eq!(command_of(&words("stop")), Command::Other);
    assert_eq!(command_of(&words("")), Command::Other);
}

#[test]
fn contempt_when_not_lost() {
    assert_eq!(root_contempt(-301), 0);
    assert_eq!(root_contempt(-300), CONTEMPT);
    assert_eq!(root_contempt(500), CONTEMPT);
}

#[test]
fn material_for_side_to_move() {
    assert_eq!(evaluate_material(&Chess::default()), 0);
    assert_eq!(evaluate_material(&position("4k3/8/8/8/8/8/8/Q3K3 w - - 0 1")), 900);
    assert_eq!(evaluate_material(&position("4k3/8/8/8/8/8/8/Q3K3 b - - 0 1")), -900);
    assert_eq!(material_balance(&[8, 2, 2, 2, 1, 1], &[7, 2, 2, 2, 1, 1], true), 100);
    assert_eq!(material_balance(&[8, 2, 2, 2, 1, 1], &[7, 2, 2, 2, 1, 1], false), -100);
}

#[test]
fn out_of_time_answers_the_first_move() {
    let pos = Chess::default();
    let moves: Vec<Move> = pos.legal_moves().into_iter().collect();
    let first = moves[0].clone();
    let mut s = Search::new(later(), &[zobrist(&pos)], CONTEMPT);
    s.stopped = true;
    let m = s.best_move_among(&pos, moves, &evaluate_material, &|_: u32, _: i32, _: u64| {});
    assert_eq!(m, Some(first));
}

#[test]
fn start_position_is_the_documented_one() {
    let (pos, hist) = parse_position(&words("startpos"));
    assert_eq!(hist, vec![0x463b96181691fc9c]);
    assert_eq!(pos.halfmoves(), 0);
    assert!(pos.turn().is_white());
    assert!(!pos.is_check());
    assert_eq!(pos.board().material().black.pawn, 8);
    // a FEN that does not parse, or sets up no legal position, starts there too
    let (_, bad) = parse_position(&words("fen 8/8/8/8 w - - 0 1"));
    assert_eq!(bad, vec![0x463b96181691fc9c]);
}

#[test]
fn windowed_search_is_the_full_value_clamped() {
    let pos = position("4k3/8/8/3p4/4P3/8/8/4K3 w - - 0 1");
    let mut s = Search::new(later(), &[zobrist(&pos)], CONTEMPT);
    let full = s.negamax(&pos, 2, -INF, INF, 0, &evaluate_material);
    assert_eq!(full, 100);
    assert_eq!(s.negamax(&pos, 2, 150, 300, 0, &evaluate_material), 150);
    assert_eq!(s.negamax(&pos, 2, -300, 50, 0, &evaluate_material), 50);
    assert_eq!(s.negamax(&pos, 2, 0, 300, 0, &evaluate_material), 100);
    let q = s.quiesce(&pos, -INF, INF, 0, &evaluate_material);
    assert_eq!(q, 100);
    assert_eq!(s.quiesce(&pos, 120, 200, 0, &evaluate_material), 120);
    assert!(!s.stopped);
}

#[test]
fn no_stop_before_the_first_poll() {
    // a node count that never reaches a multiple of 2048 never reads the clock
    let pos = Chess::default();
    let mut s = Search::new(Instant::now(), &[zobrist(&pos)], CONTEMPT);
    s.nodes = 100;
    let v = s.negamax(&pos, 1, -INF, INF, 0, &evaluate_material);
    assert!(!s.stopped);
    assert_eq!(v, 0);
    assert_eq!(s.nodes, 141);
}

#[test]
fn keys_a_table_size_apart_share_a_slot() {
    let mut t = Table::new(4);
    t.store(5, 3, 1, Bound::Exact, None, 0);
    t.store(5 + 16 * 1000, 3, 2, Bound::Exact, None, 0);
    assert!(t.probe(5, 0).is_none());
    t.store(6, 3, 3, Bound::Exact, None, 0);
    assert_eq!(t.probe(5 + 16 * 1000, 0).unwrap().score, 2);
}

#[test]
fn numbers_that_do_not_parse_are_ignored() {
    // one past u64::MAX does not parse, so the default budget applies
    assert_eq!(think_time(&words("movetime 18446744073709551616"), true), 4900);
    assert_eq!(think_time(&words("movetime 18446744073709551615"), true), 4900);
    assert_eq!(think_time(&words("movetime +"), true), 4900);
    assert_eq!(think_time(&words("movetime 12a"), true), 4900);
    assert_eq!(think_time(&words("movetime 0300"), true), 200);
}
