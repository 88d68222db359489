use destroyer::search::Search;
use destroyer::uci::parse_position;
use destroyer::material::evaluate_material;
use destroyer::{CONTEMPT, INF};
use shakmaty::zobrist::{Zobrist64, ZobristHash};
use shakmaty::{CastlingMode, Chess, EnPassantMode, Position};
use std::time::{Duration, Instant};

fn args(s: &str) -> Vec<&str> {
    s.split_whitespace().collect()
}

fn hash(pos: &Chess) -> u64 {
    pos.zobrist_hash::<Zobrist64>(EnPassantMode::Legal).0
}

#[test]
fn history_records_every_position() {
    let (pos, hist) = parse_position(&args("startpos moves g1f3 g8f6 f3g1 f6g8"));
    assert_eq!(hist.len(), 5);
    assert_eq!(hist[0], hist[4]);
    assert_eq!(hist[4], hash(&pos));
    assert_ne!(hist[1], hist[3]);
    assert_eq!(pos.halfmoves(), 4);
}

#[test]
fn detects_repetition_across_game_history() {
    let (root, hist) = parse_position(&args("startpos moves g1f3 g8f6 f3g1 f6g8"));
    let s = Search::new(Instant::now() + Duration::from_secs(1), &hist, CONTEMPT);
    // one ply into the search, after Nf3 again: same position as hist[1]
    let (after_nf3, _) = parse_position(&args("startpos moves g1f3 g8f6 f3g1 f6g8 g1f3"));
    assert!(s.is_repetition(hash(&after_nf3), after_nf3.halfmoves()));
    // a fresh position is not a repetition
    let (after_e4, _) = parse_position(&args("startpos moves g1f3 g8f6 f3g1 f6g8 e2e4"));
    assert!(!s.is_repetition(hash(&after_e4), after_e4.halfmoves()));
    assert_eq!(hash(&root), hist[4]);
}

#[test]
fn repetition_scores_as_contempt_draw() {
    let (_, hist) = parse_position(&args("startpos moves g1f3 g8f6 f3g1 f6g8"));
    let mut s = Search::new(Instant::now() + Duration::from_secs(1), &hist, CONTEMPT);
    let (after_nf3, _) = parse_position(&args("startpos moves g1f3 g8f6 f3g1 f6g8 g1f3"));
    // ply 1 = opponent to move; a draw is good for them (+contempt)
    assert_eq!(s.negamax(&after_nf3, 3, -INF, INF, 1, &evaluate_material), CONTEMPT);
}

#[test]
fn fifty_move_rule_is_a_draw() {
    let (pos, hist) = parse_position(&args("fen 8/8/8/8/8/4k3/8/R3K3 w - - 100 80"));
    let mut s = Search::new(Instant::now() + Duration::from_secs(1), &hist, CONTEMPT);
    // pretend we are one ply into the search: any node with halfmoves >= 100 is a draw
    s.path.push(hash(&pos));
    assert_eq!(s.negamax(&pos, 3, -INF, INF, 1, &evaluate_material), CONTEMPT);
}

#[test]
fn avoids_repetition_when_winning() {
    // white is a queen up; after Qa1-b1 Ke3-e2 Qb1-a1 Ke2-e3 the tempting "repeat" is a draw,
    // so the search must prefer any other move
    let (pos, hist) = parse_position(&args("fen 8/8/8/8/8/4k3/8/Q3K3 w - - 0 1 moves a1b1 e3e2 b1a1 e2e3"));
    let mut s = Search::new(Instant::now() + Duration::from_millis(300), &hist, CONTEMPT);
    let m = s.best_move(&pos, &evaluate_material, &|_: u32, _: i32, _: u64| {}).unwrap();
    assert_ne!(m.to_uci(CastlingMode::Standard).to_string(), "a1b1");
}
