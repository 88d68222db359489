//! Iterative-deepening alpha-beta search with quiescence, repetition and fifty-move
//! draw detection, contempt, and a deadline polled every 2048 nodes.
use vstd::prelude::*;
use shakmaty::{Chess, Move};
use std::time::Instant;

use crate::{MATE, INF, MAX_PLY};
use crate::chess::{legal_moves, is_check, halfmoves, is_insufficient_material, hash,
    copy_position, play_move, facts_of_all, clone_move, same_move, legal_moves_of, played,
    in_check_of, halfmoves_of, insufficient_of, zobrist_of, facts_seq};
use crate::ordering::{search_order, is_search_order, MoveFacts, lemma_search_order_unique};
use vstd::arithmetic::div_mod::{lemma_fundamental_div_mod, lemma_mod_multiples_vanish, lemma_small_mod};

verus! {

/// A point in time.
#[verifier::external_type_specification]
#[verifier::external_body]
pub struct ExInstant(Instant);

/// `Instant::now`. Nothing is stated: it reads the clock.
#[verifier::external_body]
fn clock_now() -> Instant {
    Instant::now()
}

/// `Instant >= Instant`: whether `now` is at or past `deadline`. Nothing is stated:
/// instants are opaque here.
#[verifier::external_body]
fn at_or_past(now: &Instant, deadline: &Instant) -> bool {
    *now >= *deadline
}

/// Draw score from the perspective of the side to move at `ply` (root side = even plies).
pub open spec fn spec_draw_score(contempt: int, ply: int) -> int {
    if ply % 2 == 0 {
        -contempt
    } else {
        contempt
    }
}

/// A draw is worth the opposite to the side that moves next: the root side scores it
/// `-contempt`, its opponent `+contempt`, at every depth.
pub proof fn lemma_draw_score_alternates(contempt: int, ply: int)
    ensures
        spec_draw_score(contempt, ply + 1) == -spec_draw_score(contempt, ply),
        ply % 2 == 0 ==> spec_draw_score(contempt, ply) == -contempt,
{
}

/// Whether `h`, about to be pushed onto `path`, already occurs on it an even number of
/// plies back (the same side to move), no further back than the last `halfmoves` plies,
/// i.e. since the last irreversible move. Any earlier occurrence counts (two-fold).
pub open spec fn repeats(path: Seq<u64>, h: u64, halfmoves: u32) -> bool {
    let n = path.len() as int;
    let limit = if halfmoves < n { n - halfmoves } else { 0 };
    exists|j: int| limit <= j <= n - 2 && (n - j) % 2 == 0 && path[j] == h
}

/// Repetitions are looked for two plies at a time, back to the last irreversible move:
/// with fewer than two plies since it (or fewer than two positions before), nothing
/// repeats; two more positions `a`, `b` on the path repeat `h` exactly when `a`, two plies
/// back, is `h`, or an earlier position does within the two fewer plies left.
pub proof fn lemma_repetition_steps(path: Seq<u64>, a: u64, b: u64, h: u64, halfmoves: u32)
    ensures
        halfmoves < 2 ==> !repeats(path, h, halfmoves),
        path.len() < 2 ==> !repeats(path, h, halfmoves),
        halfmoves >= 2 ==> (repeats(path.push(a).push(b), h, halfmoves) <==> (a == h || repeats(
            path,
            h,
            (halfmoves - 2) as u32,
        ))),
{
    let p2 = path.push(a).push(b);
    let n = path.len() as int;
    if halfmoves >= 2 {
        let hm2 = (halfmoves - 2) as u32;
        if repeats(p2, h, halfmoves) {
            let limit = if halfmoves < n + 2 { n + 2 - halfmoves } else { 0 };
            let j = choose|j: int| limit <= j <= n && (n + 2 - j) % 2 == 0 && #[trigger] p2[j] == h;
            if j < n {
                assert(p2[j] == path[j]);
                assert(j <= n - 2);
            }
        }
        if a == h {
            assert(p2[n] == a);
        } else if repeats(path, h, hm2) {
            let limit = if hm2 < n { n - hm2 } else { 0 };
            let j = choose|j: int| limit <= j <= n - 2 && (n - j) % 2 == 0 && #[trigger] path[j] == h;
            assert(p2[j] == path[j]);
        }
    }
}

/// `path` cut to at most `len` entries, as `Vec::truncate` does.
pub open spec fn truncated(path: Seq<u64>, len: int) -> Seq<u64> {
    if len <= path.len() {
        path.subrange(0, len)
    } else {
        path
    }
}

/// A score that a node settles on: 0 (time ran out), being mated at this ply, or a
/// score within the window `[alpha, beta]`.
pub open spec fn settled(r: int, alpha: int, beta: int, ply: int) -> bool {
    r == 0 || r == -MATE + ply || alpha <= r <= beta
}

/// What a static evaluation must do for the search: accept every position, return a
/// score that can be negated, and give each position one score.
pub open spec fn evaluates<E: Fn(&Chess) -> i32>(eval: &E) -> bool {
    &&& forall|p: &Chess| call_requires(*eval, (p,))
    &&& forall|p: &Chess, v: i32| call_ensures(*eval, (p,), v) ==> v > i32::MIN
    &&& forall|p: &Chess, v: i32, w: i32|
        call_ensures(*eval, (p,), v) && call_ensures(*eval, (p,), w) ==> v == w
}

/// What a progress report must do for the search: accept every depth, score and node count.
pub open spec fn reports<R: Fn(u32, i32, u64)>(report: &R) -> bool {
    forall|d: u32, s: i32, n: u64| call_requires(*report, (d, s, n))
}

/// The moves other than `m`.
pub open spec fn other_than(m: Move) -> spec_fn(Move) -> bool {
    |x: Move| x != m
}

/// Every element of a filtered sequence comes from the sequence.
proof fn lemma_filter_within<A>(s: Seq<A>, pred: spec_fn(A) -> bool)
    ensures
        forall|i: int| 0 <= i < s.filter(pred).len() ==> s.contains(#[trigger] s.filter(pred)[i]),
    decreases s.len(),
{
    reveal(Seq::filter);
    if s.len() > 0 {
        lemma_filter_within(s.drop_last(), pred);
        let sub = s.drop_last().filter(pred);
        assert forall|i: int| 0 <= i < s.filter(pred).len() implies s.contains(
            #[trigger] s.filter(pred)[i],
        ) by {
            if i < sub.len() {
                assert(s.filter(pred)[i] == sub[i]);
                let j = choose|j: int| 0 <= j < s.drop_last().len() && s.drop_last()[j] == sub[i];
                assert(s[j] == sub[i]);
            } else {
                assert(s.filter(pred)[i] == s.last());
                assert(s[s.len() - 1] == s.last());
            }
        }
    }
}

/// Puts `m` first and drops its other occurrences: the root moves for the next
/// iteration, the best move of the last one searched first.
pub fn promote(moves: &mut Vec<Move>, m: &Move)
    ensures
        final(moves)@ == seq![*m] + old(moves)@.filter(other_than(*m)),
{
    let mut kept: Vec<Move> = Vec::new();
    kept.push(clone_move(m));
    let mut i: usize = 0;
    while i < moves.len()
        invariant
            i <= moves@.len(),
            moves@ == old(moves)@,
            kept@ == seq![*m] + moves@.take(i as int).filter(other_than(*m)),
        decreases moves@.len() - i,
    {
        proof {
            assert(moves@.take(i + 1) =~= moves@.take(i as int).push(moves@[i as int]));
            moves@.take(i as int).lemma_filter_push(moves@[i as int], other_than(*m));
        }
        if !same_move(&moves[i], m) {
            kept.push(clone_move(&moves[i]));
        }
        i += 1;
    }
    assert(moves@.take(moves@.len() as int) =~= moves@);
    *moves = kept;
}

/// The static evaluation that a deterministic evaluator gives a position.
pub open spec fn eval_of<E: Fn(&Chess) -> i32>(eval: &E, pos: Chess) -> int {
    (choose|v: i32| call_ensures(*eval, (&pos,), v)) as int
}

/// The order in which the search tries the moves of `pos`: every move, or (`all` false)
/// only captures and promotions, by descending MVV-LVA key, ties in generation order.
pub open spec fn order_of(pos: Chess, all: bool) -> Seq<usize> {
    choose|o: Seq<usize>|
        #[trigger] is_search_order(facts_seq(legal_moves_of(pos)), all, o)
}

/// The fail-hard quiescence value of `pos` at `ply` in the window `[alpha, beta]`: the
/// static evaluation at the ply limit; being mated (`-MATE + ply`) or a draw (scored with
/// contempt) with no legal move; otherwise, out of check, standing pat on the static
/// evaluation (cut off at `beta`), then the negated values of the positions after the
/// captures and promotions (every move when in check), in search order, with a cutoff
/// at `beta`.
pub open spec fn q_value<E: Fn(&Chess) -> i32>(
    eval: &E,
    contempt: int,
    pos: Chess,
    alpha: int,
    beta: int,
    ply: int,
) -> int
    decreases MAX_PLY - ply, 1int, 0int,
{
    if ply >= MAX_PLY {
        eval_of(eval, pos)
    } else if legal_moves_of(pos).len() == 0 {
        if in_check_of(pos) {
            -MATE + ply
        } else {
            spec_draw_score(contempt, ply)
        }
    } else if !in_check_of(pos) && eval_of(eval, pos) >= beta {
        beta
    } else {
        let a = if !in_check_of(pos) && eval_of(eval, pos) > alpha {
            eval_of(eval, pos)
        } else {
            alpha
        };
        q_fold(eval, contempt, pos, order_of(pos, in_check_of(pos)), 0, a, beta, ply)
    }
}

/// The quiescence loop from the `k`-th move of `order` on, with lower bound `a`.
pub open spec fn q_fold<E: Fn(&Chess) -> i32>(
    eval: &E,
    contempt: int,
    pos: Chess,
    order: Seq<usize>,
    k: int,
    a: int,
    beta: int,
    ply: int,
) -> int
    decreases MAX_PLY - ply, 0int, order.len() - k,
{
    if k >= order.len() || ply >= MAX_PLY || k < 0 {
        a
    } else {
        let child = played(pos, legal_moves_of(pos)[order[k] as int]);
        let score = -q_value(eval, contempt, child, -beta, -a, ply + 1);
        if score >= beta {
            beta
        } else {
            q_fold(eval, contempt, pos, order, k + 1, if score > a { score } else { a }, beta, ply)
        }
    }
}

/// Whether `pos`, entered after the hashes `line`, is a draw by rule: fifty moves without
/// a capture or pawn move, insufficient material, or a repetition (`repeats`).
pub open spec fn drawn_by_rule(line: Seq<u64>, pos: Chess) -> bool {
    halfmoves_of(pos) >= 100 || insufficient_of(pos) || repeats(
        line,
        zobrist_of(pos),
        halfmoves_of(pos),
    )
}

/// The fail-hard alpha-beta value of `pos` searched `depth` plies deep at `ply`, in the
/// window `[alpha, beta]`, when the hashes before it are `line` (the game, then the search
/// line to its parent): being mated or a draw with no legal move; a draw by rule (below
/// the root); the quiescence value at depth 0; otherwise the negated values of the
/// positions after each move, in search order, with a cutoff at `beta`.
pub open spec fn n_value<E: Fn(&Chess) -> i32>(
    eval: &E,
    contempt: int,
    line: Seq<u64>,
    pos: Chess,
    depth: int,
    alpha: int,
    beta: int,
    ply: int,
) -> int
    decreases depth, 1int, 0int,
{
    if legal_moves_of(pos).len() == 0 {
        if in_check_of(pos) {
            -MATE + ply
        } else {
            spec_draw_score(contempt, ply)
        }
    } else if ply > 0 && drawn_by_rule(line, pos) {
        spec_draw_score(contempt, ply)
    } else if depth <= 0 {
        q_value(eval, contempt, pos, alpha, beta, ply)
    } else {
        let child_line = if ply > 0 {
            line.push(zobrist_of(pos))
        } else {
            line
        };
        n_fold(eval, contempt, child_line, pos, order_of(pos, true), 0, alpha, beta, depth, ply)
    }
}

/// The alpha-beta loop from the `k`-th move of `order` on, with lower bound `a`.
pub open spec fn n_fold<E: Fn(&Chess) -> i32>(
    eval: &E,
    contempt: int,
    child_line: Seq<u64>,
    pos: Chess,
    order: Seq<usize>,
    k: int,
    a: int,
    beta: int,
    depth: int,
    ply: int,
) -> int
    decreases depth, 0int, order.len() - k,
{
    if k >= order.len() || depth <= 0 || k < 0 {
        a
    } else {
        let child = played(pos, legal_moves_of(pos)[order[k] as int]);
        let score = -n_value(eval, contempt, child_line, child, depth - 1, -beta, -a, ply + 1);
        if score >= beta {
            beta
        } else {
            n_fold(
                eval,
                contempt,
                child_line,
                pos,
                order,
                k + 1,
                if score > a { score } else { a },
                beta,
                depth,
                ply,
            )
        }
    }
}

/// The end of a line: a node without a legal move is lost by mate at its ply when in
/// check and a draw (scored with contempt) otherwise, at any depth and in any window, even
/// if it is also a draw by rule.
pub proof fn lemma_no_move_ends_the_line<E: Fn(&Chess) -> i32>(
    eval: &E,
    contempt: int,
    line: Seq<u64>,
    pos: Chess,
    depth: int,
    alpha: int,
    beta: int,
    ply: int,
)
    requires
        legal_moves_of(pos).len() == 0,
    ensures
        n_value(eval, contempt, line, pos, depth, alpha, beta, ply) == if in_check_of(pos) {
            -MATE + ply
        } else {
            spec_draw_score(contempt, ply)
        },
        ply < MAX_PLY ==> q_value(eval, contempt, pos, alpha, beta, ply) == if in_check_of(pos) {
            -MATE + ply
        } else {
            spec_draw_score(contempt, ply)
        },
{
}

/// Draws by rule: below the root, a node with a legal move that has gone fifty moves
/// without a capture or pawn move, has insufficient material to mate, or repeats a
/// position of the line since the last irreversible move scores the draw score of its
/// ply, at any depth and in any window.
pub proof fn lemma_draws_by_rule<E: Fn(&Chess) -> i32>(
    eval: &E,
    contempt: int,
    line: Seq<u64>,
    pos: Chess,
    depth: int,
    alpha: int,
    beta: int,
    ply: int,
)
    requires
        ply > 0,
        legal_moves_of(pos).len() > 0,
        halfmoves_of(pos) >= 100 || insufficient_of(pos) || repeats(line, zobrist_of(pos), halfmoves_of(pos)),
    ensures
        n_value(eval, contempt, line, pos, depth, alpha, beta, ply) == spec_draw_score(contempt, ply),
{
}

/// In check there is no standing pat: below the ply limit, with a legal move, the
/// quiescence value is the fail-hard loop over every move (in search order) from `alpha`,
/// the static evaluation of the position itself left out.
pub proof fn lemma_no_stand_pat_in_check<E: Fn(&Chess) -> i32>(
    eval: &E,
    contempt: int,
    pos: Chess,
    alpha: int,
    beta: int,
    ply: int,
)
    requires
        ply < MAX_PLY,
        in_check_of(pos),
        legal_moves_of(pos).len() > 0,
    ensures
        q_value(eval, contempt, pos, alpha, beta, ply) == q_fold(
            eval,
            contempt,
            pos,
            order_of(pos, true),
            0,
            alpha,
            beta,
            ply,
        ),
{
}

/// Out of check the side to move may stand pat: below the ply limit, with a legal move,
/// the quiescence value never falls below the static evaluation (nor below `alpha`), and
/// never rises above `beta`; an evaluation at or above `beta` answers `beta` at once.
pub proof fn lemma_stand_pat_floor<E: Fn(&Chess) -> i32>(
    eval: &E,
    contempt: int,
    pos: Chess,
    alpha: int,
    beta: int,
    ply: int,
)
    requires
        ply < MAX_PLY,
        !in_check_of(pos),
        legal_moves_of(pos).len() > 0,
        alpha <= beta,
    ensures
        q_value(eval, contempt, pos, alpha, beta, ply) <= beta,
        q_value(eval, contempt, pos, alpha, beta, ply) >= alpha,
        eval_of(eval, pos) < beta ==> q_value(eval, contempt, pos, alpha, beta, ply) >= eval_of(eval, pos),
        eval_of(eval, pos) >= beta ==> q_value(eval, contempt, pos, alpha, beta, ply) == beta,
{
    let e = eval_of(eval, pos);
    if e < beta {
        let a = if e > alpha { e } else { alpha };
        lemma_q_fold_bounds(eval, contempt, pos, order_of(pos, false), 0, a, beta, ply);
    }
}

/// `w`, a score searched in the window `[alpha, beta]`, agrees with `f`, the same score
/// searched in a window at least as wide: equal inside the window, and on the same side of
/// it outside.
pub open spec fn agrees(w: int, f: int, alpha: int, beta: int) -> bool {
    &&& f <= alpha ==> w <= alpha
    &&& f >= beta ==> w >= beta
    &&& alpha < f < beta ==> w == f
}

/// `v` brought into `[lo, hi]`.
pub open spec fn clamp(v: int, lo: int, hi: int) -> int {
    if v < lo {
        lo
    } else if v > hi {
        hi
    } else {
        v
    }
}

/// The quiescence loop ends between its lower bound and `beta`.
proof fn lemma_q_fold_bounds<E: Fn(&Chess) -> i32>(
    eval: &E,
    contempt: int,
    pos: Chess,
    order: Seq<usize>,
    k: int,
    a: int,
    beta: int,
    ply: int,
)
    requires
        a <= beta,
    ensures
        a <= q_fold(eval, contempt, pos, order, k, a, beta, ply) <= beta,
    decreases order.len() - k,
{
    if k >= order.len() || ply >= MAX_PLY || k < 0 {
    } else {
        let child = played(pos, legal_moves_of(pos)[order[k] as int]);
        let score = -q_value(eval, contempt, child, -beta, -a, ply + 1);
        if score < beta {
            lemma_q_fold_bounds(eval, contempt, pos, order, k + 1, if score > a { score } else { a }, beta, ply);
        }
    }
}

/// The alpha-beta loop ends between its lower bound and `beta`.
proof fn lemma_n_fold_bounds<E: Fn(&Chess) -> i32>(
    eval: &E,
    contempt: int,
    child_line: Seq<u64>,
    pos: Chess,
    order: Seq<usize>,
    k: int,
    a: int,
    beta: int,
    depth: int,
    ply: int,
)
    requires
        a <= beta,
    ensures
        a <= n_fold(eval, contempt, child_line, pos, order, k, a, beta, depth, ply) <= beta,
    decreases order.len() - k,
{
    if k >= order.len() || depth <= 0 || k < 0 {
    } else {
        let child = played(pos, legal_moves_of(pos)[order[k] as int]);
        let score = -n_value(eval, contempt, child_line, child, depth - 1, -beta, -a, ply + 1);
        if score < beta {
            lemma_n_fold_bounds(
                eval,
                contempt,
                child_line,
                pos,
                order,
                k + 1,
                if score > a { score } else { a },
                beta,
                depth,
                ply,
            );
        }
    }
}

/// The quiescence loop run with the window `[alpha, beta]` (bound `a`) agrees with the same
/// loop run with a wider window (bound `a2`, upper `beta2`), while `a` is `a2` raised to
/// `alpha`.
proof fn lemma_q_fold_window<E: Fn(&Chess) -> i32>(
    eval: &E,
    contempt: int,
    pos: Chess,
    order: Seq<usize>,
    k: int,
    alpha: int,
    a: int,
    beta: int,
    a2: int,
    beta2: int,
    ply: int,
)
    requires
        alpha <= a < beta <= beta2,
        a2 <= a,
        a == (if a2 > alpha { a2 } else { alpha }),
    ensures
        agrees(
            q_fold(eval, contempt, pos, order, k, a, beta, ply),
            q_fold(eval, contempt, pos, order, k, a2, beta2, ply),
            alpha,
            beta,
        ),
    decreases MAX_PLY - ply, 0int, order.len() - k,
{
    if k >= order.len() || ply >= MAX_PLY || k < 0 {
    } else {
        let child = played(pos, legal_moves_of(pos)[order[k] as int]);
        lemma_quiesce_window(eval, contempt, child, -beta, -a, -beta2, -a2, ply + 1);
        let s2 = -q_value(eval, contempt, child, -beta2, -a2, ply + 1);
        if s2 >= beta {
            if s2 < beta2 {
                lemma_q_fold_bounds(eval, contempt, pos, order, k + 1, if s2 > a2 { s2 } else { a2 }, beta2, ply);
            }
        } else if s2 <= a {
            lemma_q_fold_window(eval, contempt, pos, order, k + 1, alpha, a, beta, if s2 > a2 { s2 } else { a2 }, beta2, ply);
        } else {
            lemma_q_fold_window(eval, contempt, pos, order, k + 1, alpha, s2, beta, s2, beta2, ply);
        }
    }
}

/// Searching a position in a narrower window changes nothing that the window can show:
/// the quiescence value in `[alpha, beta]` agrees with the value in any window
/// `[alpha2, beta2]` around it.
pub proof fn lemma_quiesce_window<E: Fn(&Chess) -> i32>(
    eval: &E,
    contempt: int,
    pos: Chess,
    alpha: int,
    beta: int,
    alpha2: int,
    beta2: int,
    ply: int,
)
    requires
        alpha2 <= alpha < beta <= beta2,
    ensures
        agrees(
            q_value(eval, contempt, pos, alpha, beta, ply),
            q_value(eval, contempt, pos, alpha2, beta2, ply),
            alpha,
            beta,
        ),
    decreases MAX_PLY - ply, 1int, 0int,
{
    if ply >= MAX_PLY || legal_moves_of(pos).len() == 0 {
    } else {
        let e = eval_of(eval, pos);
        let ch = in_check_of(pos);
        let order = order_of(pos, ch);
        if !ch && e >= beta2 {
        } else if !ch && e >= beta {
            lemma_q_fold_bounds(eval, contempt, pos, order, 0, e, beta2, ply);
        } else {
            let a = if !ch && e > alpha { e } else { alpha };
            let a2 = if !ch && e > alpha2 { e } else { alpha2 };
            lemma_q_fold_window(eval, contempt, pos, order, 0, alpha, a, beta, a2, beta2, ply);
        }
    }
}

/// The alpha-beta loop run with the window `[alpha, beta]` (bound `a`) agrees with the same
/// loop run with a wider window (bound `a2`, upper `beta2`), while `a` is `a2` raised to
/// `alpha`.
proof fn lemma_n_fold_window<E: Fn(&Chess) -> i32>(
    eval: &E,
    contempt: int,
    child_line: Seq<u64>,
    pos: Chess,
    order: Seq<usize>,
    k: int,
    alpha: int,
    a: int,
    beta: int,
    a2: int,
    beta2: int,
    depth: int,
    ply: int,
)
    requires
        alpha <= a < beta <= beta2,
        a2 <= a,
        a == (if a2 > alpha { a2 } else { alpha }),
    ensures
        agrees(
            n_fold(eval, contempt, child_line, pos, order, k, a, beta, depth, ply),
            n_fold(eval, contempt, child_line, pos, order, k, a2, beta2, depth, ply),
            alpha,
            beta,
        ),
    decreases depth, 0int, order.len() - k,
{
    if k >= order.len() || depth <= 0 || k < 0 {
    } else {
        let child = played(pos, legal_moves_of(pos)[order[k] as int]);
        lemma_negamax_window(eval, contempt, child_line, child, depth - 1, -beta, -a, -beta2, -a2, ply + 1);
        let s2 = -n_value(eval, contempt, child_line, child, depth - 1, -beta2, -a2, ply + 1);
        if s2 >= beta {
            if s2 < beta2 {
                lemma_n_fold_bounds(
                    eval,
                    contempt,
                    child_line,
                    pos,
                    order,
                    k + 1,
                    if s2 > a2 { s2 } else { a2 },
                    beta2,
                    depth,
                    ply,
                );
            }
        } else if s2 <= a {
            lemma_n_fold_window(
                eval,
                contempt,
                child_line,
                pos,
                order,
                k + 1,
                alpha,
                a,
                beta,
                if s2 > a2 { s2 } else { a2 },
                beta2,
                depth,
                ply,
            );
        } else {
            lemma_n_fold_window(eval, contempt, child_line, pos, order, k + 1, alpha, s2, beta, s2, beta2, depth, ply);
        }
    }
}

/// Searching a position in a narrower window changes nothing that the window can show:
/// the alpha-beta value in `[alpha, beta]` agrees with the value in any window
/// `[alpha2, beta2]` around it.
pub proof fn lemma_negamax_window<E: Fn(&Chess) -> i32>(
    eval: &E,
    contempt: int,
    line: Seq<u64>,
    pos: Chess,
    depth: int,
    alpha: int,
    beta: int,
    alpha2: int,
    beta2: int,
    ply: int,
)
    requires
        alpha2 <= alpha < beta <= beta2,
    ensures
        agrees(
            n_value(eval, contempt, line, pos, depth, alpha, beta, ply),
            n_value(eval, contempt, line, pos, depth, alpha2, beta2, ply),
            alpha,
            beta,
        ),
    decreases depth, 1int, 0int,
{
    if legal_moves_of(pos).len() == 0 {
    } else if ply > 0 && drawn_by_rule(line, pos) {
    } else if depth <= 0 {
        lemma_quiesce_window(eval, contempt, pos, alpha, beta, alpha2, beta2, ply);
    } else {
        let child_line = if ply > 0 {
            line.push(zobrist_of(pos))
        } else {
            line
        };
        lemma_n_fold_window(
            eval,
            contempt,
            child_line,
            pos,
            order_of(pos, true),
            0,
            alpha,
            alpha,
            beta,
            alpha2,
            beta2,
            depth,
            ply,
        );
    }
}

/// Fail-hard quiescence: below the ply limit, at a node with a legal move, the value
/// searched in a window inside `[-INF, INF]` is the full-window value clamped to it.
pub proof fn lemma_quiesce_clamped<E: Fn(&Chess) -> i32>(
    eval: &E,
    contempt: int,
    pos: Chess,
    alpha: int,
    beta: int,
    ply: int,
)
    requires
        -INF <= alpha < beta <= INF,
        ply < MAX_PLY,
        legal_moves_of(pos).len() > 0,
    ensures
        q_value(eval, contempt, pos, alpha, beta, ply) == clamp(
            q_value(eval, contempt, pos, -INF as int, INF as int, ply),
            alpha,
            beta,
        ),
{
    lemma_quiesce_window(eval, contempt, pos, alpha, beta, -INF as int, INF as int, ply);
    let e = eval_of(eval, pos);
    let ch = in_check_of(pos);
    if !(!ch && e >= beta) {
        let a = if !ch && e > alpha { e } else { alpha };
        lemma_q_fold_bounds(eval, contempt, pos, order_of(pos, ch), 0, a, beta, ply);
    }
}

/// Fail-hard alpha-beta: below the ply limit, at a node with a legal move that is not a
/// draw by rule, the value searched in a window inside `[-INF, INF]` is the full-window
/// value clamped to it.
pub proof fn lemma_negamax_clamped<E: Fn(&Chess) -> i32>(
    eval: &E,
    contempt: int,
    line: Seq<u64>,
    pos: Chess,
    depth: int,
    alpha: int,
    beta: int,
    ply: int,
)
    requires
        -INF <= alpha < beta <= INF,
        ply < MAX_PLY,
        legal_moves_of(pos).len() > 0,
        !(ply > 0 && drawn_by_rule(line, pos)),
    ensures
        n_value(eval, contempt, line, pos, depth, alpha, beta, ply) == clamp(
            n_value(eval, contempt, line, pos, depth, -INF as int, INF as int, ply),
            alpha,
            beta,
        ),
{
    lemma_negamax_window(eval, contempt, line, pos, depth, alpha, beta, -INF as int, INF as int, ply);
    if depth <= 0 {
        lemma_quiesce_clamped(eval, contempt, pos, alpha, beta, ply);
        lemma_quiesce_window(eval, contempt, pos, alpha, beta, -INF as int, INF as int, ply);
        let e = eval_of(eval, pos);
        let ch = in_check_of(pos);
        if !(!ch && e >= beta) {
            let a = if !ch && e > alpha { e } else { alpha };
            lemma_q_fold_bounds(eval, contempt, pos, order_of(pos, ch), 0, a, beta, ply);
        }
    } else {
        let child_line = if ply > 0 {
            line.push(zobrist_of(pos))
        } else {
            line
        };
        lemma_n_fold_bounds(eval, contempt, child_line, pos, order_of(pos, true), 0, alpha, beta, depth, ply);
    }
}

/// The hashes a node at `ply` sees before it: the path cut back to its parent's line
/// (below the root), or the game (at the root).
pub open spec fn node_line(path: Seq<u64>, n_hist: int, ply: int) -> Seq<u64> {
    if ply > 0 {
        truncated(path, n_hist + ply - 1)
    } else {
        path.subrange(0, n_hist)
    }
}

/// How much of the path a node at `ply` keeps: the line to its parent.
pub open spec fn kept_len(n_hist: int, ply: int) -> int {
    if ply > 0 {
        n_hist + ply - 1
    } else {
        n_hist
    }
}

proof fn lemma_keeps_trans(a: Seq<u64>, b: Seq<u64>, c: Seq<u64>, len: int, len2: int)
    requires
        0 <= len <= len2,
        b.len() >= len2,
        c.len() >= len2,
        c.subrange(0, len2) == b.subrange(0, len2),
        a.len() >= len ==> (b.len() >= len && b.subrange(0, len) == a.subrange(0, len)),
    ensures
        a.len() >= len ==> (c.len() >= len && c.subrange(0, len) == a.subrange(0, len)),
{
    if a.len() >= len {
        assert(c.subrange(0, len) =~= c.subrange(0, len2).subrange(0, len));
        assert(b.subrange(0, len) =~= b.subrange(0, len2).subrange(0, len));
    }
}

proof fn lemma_eval_of<E: Fn(&Chess) -> i32>(eval: &E, pos: &Chess, v: i32)
    requires
        evaluates(eval),
        call_ensures(*eval, (pos,), v),
    ensures
        v as int == eval_of(eval, *pos),
{
    let w = choose|w: i32| call_ensures(*eval, (pos,), w);
    assert(call_ensures(*eval, (pos,), w));
}

proof fn lemma_order_of(moves: Seq<Move>, pos: Chess, all: bool, facts: Seq<MoveFacts>, order: Seq<usize>)
    requires
        moves == legal_moves_of(pos),
        facts == facts_seq(moves),
        is_search_order(facts, all, order),
    ensures
        order == order_of(pos, all),
{
    let o = order_of(pos, all);
    assert(is_search_order(facts, all, o));
    lemma_search_order_unique(facts, all, order, o);
}

/// Counting is additive: two stretches of counting make one, and a stop that the second
/// allows (a poll within it) is a poll within the whole.
proof fn lemma_counts_compose(a: Search, b: Search, c: Search)
    requires
        b.counted_since(&a),
        c.counted_since(&b),
    ensures
        c.counted_since(&a),
{
    let m = counter_modulus();
    let k1 = b.visited@ - a.visited@;
    let k2 = c.visited@ - b.visited@;
    let x = a.nodes + k1;
    lemma_fundamental_div_mod(x, m);
    let q = x / m;
    assert(b.nodes == x - m * q);
    assert(m * (-q) + (x + k2) == b.nodes + k2) by (nonlinear_arith)
        requires
            b.nodes == x - m * q,
    ;
    lemma_mod_multiples_vanish(-q, x + k2, m);
    if c.stopped && !a.stopped {
        if b.stopped {
            let n = choose|n: int| a.nodes < n <= a.nodes + k1 && #[trigger] on_poll(n);
            assert(on_poll(n));
        } else {
            let n = choose|n: int| b.nodes < n <= b.nodes + k2 && #[trigger] on_poll(n);
            let j: int = 9007199254740992 * q;
            assert(m * q == 2048 * j) by (nonlinear_arith)
                requires
                    m == 0x1_0000_0000_0000_0000,
                    j == 9007199254740992 * q,
            ;
            lemma_mod_multiples_vanish(j, n, 2048);
            assert(on_poll(n + m * q));
        }
    }
}

/// The first of a list of moves, if any.
pub open spec fn first_of(moves: Seq<Move>) -> Option<Move> {
    if moves.len() > 0 {
        Some(moves[0])
    } else {
        None
    }
}

/// One iteration of the root search at `depth`, from the `k`-th root move on: `a` is the
/// best score so far (from `-INF`) and `best` the first move that reached it; each root
/// move scores the negated `n_value` of the position after it, at ply 1, searched
/// `depth - 1` plies in the window `[-INF, -a]`. Returns the best move of the iteration.
pub open spec fn iteration<E: Fn(&Chess) -> i32>(
    eval: &E,
    contempt: int,
    game: Seq<u64>,
    pos: Chess,
    moves: Seq<Move>,
    depth: int,
    k: int,
    a: int,
    best: Option<Move>,
) -> Option<Move>
    decreases moves.len() - k,
{
    if k >= moves.len() || k < 0 {
        best
    } else {
        let score = -n_value(eval, contempt, game, played(pos, moves[k]), depth - 1, -INF, -a, 1);
        if score > a {
            iteration(eval, contempt, game, pos, moves, depth, k + 1, score, Some(moves[k]))
        } else {
            iteration(eval, contempt, game, pos, moves, depth, k + 1, a, best)
        }
    }
}

/// Iterative deepening at the depths from `depth` up to (not including) `until`: each
/// iteration that finds a best move makes it the answer and searches it first in the next
/// one. Returns the last answer (`best` if no iteration ran or none found a move).
pub open spec fn deepen<E: Fn(&Chess) -> i32>(
    eval: &E,
    contempt: int,
    game: Seq<u64>,
    pos: Chess,
    moves: Seq<Move>,
    depth: int,
    until: int,
    best: Option<Move>,
) -> Option<Move>
    decreases until - depth,
{
    if depth >= until {
        best
    } else {
        match iteration(eval, contempt, game, pos, moves, depth, 0, -INF, None) {
            Some(m) => deepen(
                eval,
                contempt,
                game,
                pos,
                seq![m] + moves.filter(other_than(m)),
                depth + 1,
                until,
                Some(m),
            ),
            None => deepen(eval, contempt, game, pos, moves, depth + 1, until, best),
        }
    }
}

/// Whether `n` is a node count at which the clock is read.
pub open spec fn on_poll(n: int) -> bool {
    n % 2048 == 0
}

/// Whether counting `k` nodes on from `from` reaches a count at which the clock is read.
pub open spec fn polls_clock(from: int, k: int) -> bool {
    exists|n: int| from < n <= from + k && #[trigger] on_poll(n)
}

/// 2^64: the node counter wraps around here.
pub open spec fn counter_modulus() -> int {
    0x1_0000_0000_0000_0000
}

/// State of one search: the deadline, the node count, whether time ran out, and the
/// path of position hashes (the game so far, root last, then the current search line).
pub struct Search {
    pub deadline: Instant,
    pub nodes: u64,
    pub stopped: bool,
    /// Zobrist hashes of every position in the game so far (root last), followed by the
    /// hashes of the current search path. Used for repetition detection.
    pub path: Vec<u64>,
    pub n_hist: usize,
    pub contempt: i32,
    /// The number of nodes counted since the search began, without wrapping.
    pub visited: Ghost<nat>,
}

impl Search {
    /// The path starts with the game.
    pub open spec fn wf(&self) -> bool {
        self.n_hist <= self.path@.len()
    }

    /// The positions of the game before the search.
    pub open spec fn game(&self) -> Seq<u64> {
        self.path@.subrange(0, self.n_hist as int)
    }

    /// `self` searches the same game as `other`: same deadline, contempt and game record.
    pub open spec fn same_game(&self, other: &Search) -> bool {
        &&& self.deadline == other.deadline
        &&& self.n_hist == other.n_hist
        &&& self.contempt == other.contempt
        &&& self.game() == other.game()
    }

    /// `self`'s path starts with the first `len` hashes of `other`'s.
    pub open spec fn keeps_path(&self, other: &Search, len: int) -> bool {
        other.path@.len() >= len ==> (self.path@.len() >= len && self.path@.subrange(0, len)
            == other.path@.subrange(0, len))
    }

    /// Since `before`, the search has counted `self.visited@ - before.visited@` more nodes,
    /// the node counter has moved on by as many (wrapping at 2^64), and the search has
    /// stopped only if it had stopped already or the count passed a multiple of 2048, the
    /// only counts at which the clock is read.
    pub open spec fn counted_since(&self, before: &Search) -> bool {
        let k = self.visited@ - before.visited@;
        &&& k >= 0
        &&& self.nodes as int == (before.nodes + k) % counter_modulus()
        &&& self.stopped ==> before.stopped || polls_clock(before.nodes as int, k)
    }

    /// A search of the game `history` (root last) that stops at `deadline`.
    pub fn new(deadline: Instant, history: &[u64], contempt: i32) -> (s: Search)
        ensures
            s.wf(),
            s.deadline == deadline,
            s.nodes == 0,
            !s.stopped,
            s.path@ == history@,
            s.n_hist == history@.len(),
            s.contempt == contempt,
            s.visited@ == 0,
    {
        Search {
            deadline,
            nodes: 0,
            stopped: false,
            path: vstd::slice::slice_to_vec(history),
            n_hist: history.len(),
            contempt,
            visited: Ghost(0),
        }
    }

    /// Draw score from the perspective of the side to move at `ply` (root side = even plies).
    pub fn draw_score(&self, ply: i32) -> (r: i32)
        requires
            self.contempt > i32::MIN,
        ensures
            r == spec_draw_score(self.contempt as int, ply as int),
    {
        if ply % 2 == 0 {
            -self.contempt
        } else {
            self.contempt
        }
    }

    /// Has the position with hash `h` (about to be pushed onto `path`) already occurred since the
    /// last irreversible move? Any earlier occurrence counts (two-fold), as usual in search.
    pub fn is_repetition(&self, h: u64, halfmoves: u32) -> (r: bool)
        ensures
            r == repeats(self.path@, h, halfmoves),
    {
        let n = self.path.len();
        let limit: usize = if (halfmoves as usize) < n {
            n - halfmoves as usize
        } else {
            0
        };
        let mut i: usize = n;
        while i >= 2 && i - 2 >= limit
            invariant
                n == self.path@.len(),
                limit <= i <= n,
                (n - i) % 2 == 0,
                limit == (if halfmoves < n { n - halfmoves } else { 0 }),
                forall|j: int|
                    i <= j <= n - 2 && (n - j) % 2 == 0 ==> self.path@[j] != h,
            decreases i,
        {
            if self.path[i - 2] == h {
                assert((n - (i - 2)) % 2 == 0);
                return true;
            }
            i -= 2;
        }
        proof {
            assert forall|j: int|
                limit <= j <= n - 2 && (n - j) % 2 == 0 implies self.path@[j] != h by {
                if j >= i {
                } else {
                    assert((i - j) % 2 == 0);
                    assert(j <= i - 2);
                }
            }
        }
        false
    }

    /// Counts a node; `past` tells whether the clock, read when the new count is a
    /// multiple of 2048, was at or past the deadline. Returns whether the search has run
    /// out of time.
    pub fn count_node(&mut self, past: bool) -> (stopped: bool)
        ensures
            final(self).nodes == old(self).nodes.wrapping_add(1),
            final(self).stopped == (old(self).stopped || (final(self).nodes & 2047 == 0 && past)),
            stopped == final(self).stopped,
            final(self).visited@ == old(self).visited@ + 1,
            final(self).counted_since(old(self)),
            final(self).path == old(self).path,
            final(self).deadline == old(self).deadline,
            final(self).n_hist == old(self).n_hist,
            final(self).contempt == old(self).contempt,
    {
        self.nodes = self.nodes.wrapping_add(1);
        self.visited = Ghost(self.visited@ + 1);
        if self.nodes & 2047 == 0 && past {
            self.stopped = true;
        }
        proof {
            let n = self.nodes;
            let from = old(self).nodes as int;
            assert(n & 2047 == 0 ==> n % 2048 == 0) by (bit_vector);
            if from + 1 < counter_modulus() {
                assert(n == from + 1);
                lemma_small_mod((from + 1) as nat, counter_modulus() as nat);
            } else {
                assert(n == 0);
            }
            if self.stopped && !old(self).stopped {
                assert(on_poll(from + 1));
            }
        }
        self.stopped
    }

    /// Counts a node, and every 2048 nodes checks the clock; returns whether the search
    /// has run out of time.
    pub fn tick(&mut self) -> (stopped: bool)
        ensures
            final(self).nodes == old(self).nodes.wrapping_add(1),
            final(self).stopped == old(self).stopped || (final(self).stopped && final(self).nodes & 2047 == 0),
            old(self).stopped ==> final(self).stopped,
            stopped == final(self).stopped,
            final(self).visited@ == old(self).visited@ + 1,
            final(self).counted_since(old(self)),
            final(self).path == old(self).path,
            final(self).deadline == old(self).deadline,
            final(self).n_hist == old(self).n_hist,
            final(self).contempt == old(self).contempt,
    {
        let due = self.nodes.wrapping_add(1) & 2047 == 0;
        let past = if due {
            let now = clock_now();
            at_or_past(&now, &self.deadline)
        } else {
            false
        };
        self.count_node(past)
    }

    /// Enters the node at `ply` (> 0) whose position has hash `h`: drops the entries of
    /// abandoned search lines from the path (keeping the game and the line to this node's
    /// parent), then decides whether the node is a draw by rule: fifty moves without a
    /// capture or pawn move, insufficient material, or a repetition. A node that is not
    /// a draw is appended to the path.
    pub fn visit(&mut self, h: u64, halfmoves: u32, insufficient: bool, ply: i32) -> (drawn: bool)
        requires
            old(self).wf(),
            1 <= ply,
            old(self).n_hist + ply <= usize::MAX,
        ensures
            ({
                let kept = truncated(old(self).path@, old(self).n_hist + ply - 1);
                &&& drawn == (halfmoves >= 100 || insufficient || repeats(kept, h, halfmoves))
                &&& final(self).path@ == if drawn { kept } else { kept.push(h) }
            }),
            final(self).wf(),
            final(self).same_game(old(self)),
            final(self).nodes == old(self).nodes,
            final(self).stopped == old(self).stopped,
            final(self).visited == old(self).visited,
    {
        let keep = self.n_hist + ply as usize - 1;
        self.path.truncate(keep);
        assert(self.game() =~= old(self).game());
        if halfmoves >= 100 || insufficient || self.is_repetition(h, halfmoves) {
            return true;
        }
        self.path.push(h);
        assert(self.game() =~= old(self).game());
        false
    }

    /// Alpha-beta (negamax, fail-hard) search of `pos` to `depth` plies at distance `ply`
    /// from the root, with quiescence search at the horizon, `eval` as the static
    /// evaluation. Returns 0 once time has run out; when time did not run out, the result
    /// is `n_value` of the position, given a path that holds the line to its parent.
    pub fn negamax<E: Fn(&Chess) -> i32>(
        &mut self,
        pos: &Chess,
        depth: u32,
        alpha: i32,
        beta: i32,
        ply: i32,
        eval: &E,
    ) -> (r: i32)
        requires
            old(self).wf(),
            old(self).contempt > i32::MIN,
            evaluates(eval),
            alpha > i32::MIN,
            beta > i32::MIN,
            0 <= ply,
            ply + depth <= i32::MAX,
            old(self).n_hist + ply + depth <= usize::MAX,
        ensures
            final(self).wf(),
            final(self).same_game(old(self)),
            final(self).keeps_path(old(self), kept_len(old(self).n_hist as int, ply as int)),
            old(self).stopped ==> final(self).stopped && r == 0,
            old(self).stopped ==> final(self).nodes == old(self).nodes.wrapping_add(1),
            old(self).stopped || legal_moves_of(*pos).len() == 0 ==> final(self).path == old(self).path,
            r > i32::MIN,
            !final(self).stopped && old(self).path@.len() >= kept_len(old(self).n_hist as int, ply as int)
                ==> r == n_value(
                eval,
                old(self).contempt as int,
                node_line(old(self).path@, old(self).n_hist as int, ply as int),
                *pos,
                depth as int,
                alpha as int,
                beta as int,
                ply as int,
            ),
            ply < MAX_PLY && alpha <= beta ==> settled(r as int, alpha as int, beta as int, ply as int)
                || r == old(self).contempt || r == -old(self).contempt,
            !final(self).stopped && legal_moves_of(*pos).len() == 0 ==> r == if in_check_of(*pos) {
                -MATE + ply
            } else {
                spec_draw_score(old(self).contempt as int, ply as int)
            },
            !final(self).stopped && ply > 0 && legal_moves_of(*pos).len() > 0 && (halfmoves_of(*pos) >= 100
                || insufficient_of(*pos) || repeats(
                truncated(old(self).path@, old(self).n_hist + ply - 1),
                zobrist_of(*pos),
                halfmoves_of(*pos),
            )) ==> r == spec_draw_score(old(self).contempt as int, ply as int),
            final(self).counted_since(old(self)),
            final(self).visited@ > old(self).visited@,
            old(self).stopped || legal_moves_of(*pos).len() == 0 || (ply > 0 && drawn_by_rule(
                node_line(old(self).path@, old(self).n_hist as int, ply as int),
                *pos,
            )) ==> final(self).visited@ == old(self).visited@ + 1,
            !final(self).stopped && ply > 0 && legal_moves_of(*pos).len() > 0 && drawn_by_rule(
                node_line(old(self).path@, old(self).n_hist as int, ply as int),
                *pos,
            ) ==> final(self).path@ == node_line(old(self).path@, old(self).n_hist as int, ply as int),
            !final(self).stopped && ply > 0 && legal_moves_of(*pos).len() > 0 && !drawn_by_rule(
                node_line(old(self).path@, old(self).n_hist as int, ply as int),
                *pos,
            ) && old(self).path@.len() >= kept_len(old(self).n_hist as int, ply as int) ==> final(self).path@.len()
                >= old(self).n_hist + ply && final(self).path@[old(self).n_hist + ply - 1] == zobrist_of(*pos),
        decreases depth,
    {
        if self.tick() {
            return 0;
        }
        let moves = legal_moves(pos);
        if moves.len() == 0 {
            return if is_check(pos) {
                -MATE + ply
            } else {
                self.draw_score(ply)
            };
        }
        let ghost line = node_line(old(self).path@, old(self).n_hist as int, ply as int);
        let ghost big_l = kept_len(old(self).n_hist as int, ply as int);
        let ghost shaped = old(self).path@.len() >= big_l;
        if ply > 0 {
            let h = hash(pos);
            let hm = halfmoves(pos);
            let insufficient = is_insufficient_material(pos);
            let drawn = self.visit(h, hm, insufficient, ply);
            proof {
                if shaped {
                    assert(line =~= old(self).path@.subrange(0, big_l));
                    assert(self.path@.subrange(0, big_l) =~= old(self).path@.subrange(0, big_l));
                }
            }
            if drawn {
                return self.draw_score(ply);
            }
            proof {
                if shaped {
                    assert(self.path@.subrange(0, self.n_hist + ply) =~= line.push(zobrist_of(*pos)));
                    assert(self.path@.subrange(0, self.n_hist + ply)[self.n_hist + ply - 1]
                        == self.path@[self.n_hist + ply - 1]);
                }
            }
        }
        assert(ply > 0 ==> !drawn_by_rule(line, *pos));
        if depth == 0 {
            let ghost before = *self;
            let v = self.quiesce(pos, alpha, beta, ply, eval);
            proof {
                lemma_counts_compose(*old(self), before, *self);
            }
            return v;
        }
        let facts = facts_of_all(&moves);
        let order = search_order(&facts, true);
        proof {
            lemma_order_of(moves@, *pos, true, facts@, order@);
        }
        let ghost child_line = if ply > 0 {
            line.push(zobrist_of(*pos))
        } else {
            line
        };
        let ghost c = self.contempt as int;
        assert(shaped ==> n_value(eval, c, line, *pos, depth as int, alpha as int, beta as int, ply as int)
            == n_fold(eval, c, child_line, *pos, order@, 0, alpha as int, beta as int, depth as int, ply as int));
        let ghost start = *self;
        let mut a = alpha;
        let mut k: usize = 0;
        while k < order.len()
            invariant
                self.wf(),
                self.same_game(&start),
                start.same_game(old(self)),
                self.contempt > i32::MIN,
                c == self.contempt,
                evaluates(eval),
                !old(self).stopped,
                alpha > i32::MIN,
                alpha <= a,
                alpha <= beta ==> a <= beta,
                beta > i32::MIN,
                1 <= depth,
                0 <= ply,
                ply + depth <= i32::MAX,
                self.n_hist + ply + depth <= usize::MAX,
                moves@ == legal_moves_of(*pos),
                order@ == order_of(*pos, true),
                is_search_order(facts@, true, order@),
                facts@.len() == moves@.len(),
                big_l == kept_len(old(self).n_hist as int, ply as int),
                shaped == (old(self).path@.len() >= big_l),
                big_l <= self.n_hist + ply,
                shaped ==> self.path@.len() >= self.n_hist + ply,
                shaped ==> self.path@.subrange(0, self.n_hist + ply) == child_line,
                self.keeps_path(old(self), big_l),
                self.counted_since(old(self)),
                self.visited@ > old(self).visited@,
                line == node_line(old(self).path@, old(self).n_hist as int, ply as int),
                shaped ==> n_value(eval, c, line, *pos, depth as int, alpha as int, beta as int, ply as int)
                    == n_fold(eval, c, child_line, *pos, order@, 0, alpha as int, beta as int, depth as int, ply as int),
                shaped && !self.stopped ==> n_fold(eval, c, child_line, *pos, order@, 0, alpha as int, beta as int, depth as int, ply as int)
                    == n_fold(eval, c, child_line, *pos, order@, k as int, a as int, beta as int, depth as int, ply as int),
                moves@.len() > 0,
                ply > 0 ==> !drawn_by_rule(line, *pos),
                shaped && ply > 0 ==> self.path@[self.n_hist + ply - 1] == zobrist_of(*pos),
            decreases order@.len() - k,
        {
            let mut child = copy_position(pos);
            let m = &moves[order[k]];
            proof {
                assert(moves@.contains(moves@[order@[k as int] as int]));
            }
            play_move(&mut child, m);
            let ghost before = *self;
            let r = self.negamax(&child, depth - 1, -beta, -a, ply + 1, eval);
            proof {
                if shaped {
                    assert(node_line(before.path@, before.n_hist as int, ply + 1) =~= child_line);
                    lemma_keeps_trans(old(self).path@, before.path@, self.path@, big_l, self.n_hist + ply);
                }
                lemma_counts_compose(*old(self), before, *self);
                if shaped && ply > 0 {
                    assert(line.len() == self.n_hist + ply - 1);
                    assert(child_line[self.n_hist + ply - 1] == zobrist_of(*pos));
                    assert(self.path@.subrange(0, self.n_hist + ply) == child_line);
                    assert(self.path@.subrange(0, self.n_hist + ply)[self.n_hist + ply - 1]
                        == self.path@[self.n_hist + ply - 1]);
                }
            }
            let score = -r;
            if score >= beta {
                return beta;
            }
            if score > a {
                a = score;
            }
            k += 1;
        }
        a
    }

    /// Quiescence search: at the horizon, keep resolving captures/promotions so the
    /// evaluation is never taken in the middle of an exchange. Every move is tried when
    /// in check; otherwise the side to move may stand pat on the static evaluation.
    /// Returns 0 once time has run out, and otherwise `q_value` of the position.
    pub fn quiesce<E: Fn(&Chess) -> i32>(&mut self, pos: &Chess, alpha: i32, beta: i32, ply: i32, eval: &E) -> (r: i32)
        requires
            old(self).wf(),
            old(self).contempt > i32::MIN,
            evaluates(eval),
            alpha > i32::MIN,
            beta > i32::MIN,
            0 <= ply,
        ensures
            final(self).wf(),
            final(self).same_game(old(self)),
            final(self).path == old(self).path,
            old(self).stopped ==> final(self).stopped && r == 0,
            old(self).stopped || ply >= MAX_PLY ==> final(self).nodes == old(self).nodes.wrapping_add(1),
            r > i32::MIN,
            !final(self).stopped ==> r == q_value(eval, old(self).contempt as int, *pos, alpha as int, beta as int, ply as int),
            ply < MAX_PLY && alpha <= beta ==> settled(r as int, alpha as int, beta as int, ply as int)
                || r == old(self).contempt || r == -old(self).contempt,
            !final(self).stopped && ply < MAX_PLY && in_check_of(*pos) && legal_moves_of(*pos).len() > 0
                ==> r == q_fold(
                eval,
                old(self).contempt as int,
                *pos,
                order_of(*pos, true),
                0,
                alpha as int,
                beta as int,
                ply as int,
            ),
            final(self).counted_since(old(self)),
            final(self).visited@ > old(self).visited@,
            old(self).stopped || ply >= MAX_PLY || legal_moves_of(*pos).len() == 0 || (!in_check_of(*pos)
                && eval_of(eval, *pos) >= beta) ==> final(self).visited@ == old(self).visited@ + 1,
        decreases MAX_PLY - ply,
    {
        if self.tick() {
            return 0;
        }
        if ply >= MAX_PLY {
            let v = eval(pos);
            proof {
                lemma_eval_of(eval, pos, v);
            }
            return v;
        }
        let in_check = is_check(pos);
        let moves = legal_moves(pos);
        if moves.len() == 0 {
            return if in_check {
                -MATE + ply
            } else {
                self.draw_score(ply)
            };
        }
        let mut a = alpha;
        if !in_check {
            let stand = eval(pos);
            proof {
                lemma_eval_of(eval, pos, stand);
            }
            if stand >= beta {
                return beta;
            }
            if stand > a {
                a = stand;
            }
        }
        let facts = facts_of_all(&moves);
        let order = search_order(&facts, in_check);
        proof {
            lemma_order_of(moves@, *pos, in_check, facts@, order@);
        }
        let ghost a0 = a as int;
        let ghost c = self.contempt as int;
        assert(q_value(eval, c, *pos, alpha as int, beta as int, ply as int) == q_fold(
            eval,
            c,
            *pos,
            order@,
            0,
            a0,
            beta as int,
            ply as int,
        ));
        let ghost start = *self;
        let mut k: usize = 0;
        while k < order.len()
            invariant
                self.wf(),
                self.same_game(&start),
                start.same_game(old(self)),
                self.path == old(self).path,
                self.contempt > i32::MIN,
                c == self.contempt,
                evaluates(eval),
                !old(self).stopped,
                alpha > i32::MIN,
                alpha <= a,
                alpha <= beta ==> a <= beta,
                beta > i32::MIN,
                0 <= ply < MAX_PLY,
                moves@ == legal_moves_of(*pos),
                in_check == in_check_of(*pos),
                order@ == order_of(*pos, in_check),
                is_search_order(facts@, in_check, order@),
                facts@.len() == moves@.len(),
                q_value(eval, c, *pos, alpha as int, beta as int, ply as int) == q_fold(eval, c, *pos, order@, 0, a0, beta as int, ply as int),
                !self.stopped ==> q_fold(eval, c, *pos, order@, 0, a0, beta as int, ply as int)
                    == q_fold(eval, c, *pos, order@, k as int, a as int, beta as int, ply as int),
                self.counted_since(old(self)),
                self.visited@ > old(self).visited@,
                legal_moves_of(*pos).len() > 0,
                !(!in_check_of(*pos) && eval_of(eval, *pos) >= beta),
            decreases order@.len() - k,
        {
            let mut child = copy_position(pos);
            let m = &moves[order[k]];
            proof {
                assert(moves@.contains(moves@[order@[k as int] as int]));
            }
            play_move(&mut child, m);
            let ghost before = *self;
            let r = self.quiesce(&child, -beta, -a, ply + 1, eval);
            let score = -r;
            proof {
                lemma_counts_compose(*old(self), before, *self);
                assert(child == played(*pos, legal_moves_of(*pos)[order@[k as int] as int]));
                if !self.stopped {
                    assert(r == q_value(eval, c, child, -beta as int, -a as int, ply + 1));
                    assert(score == -q_value(eval, c, child, -beta as int, -a as int, ply + 1));
                }
            }
            if score >= beta {
                proof {
                    if !self.stopped {
                        assert(q_fold(eval, c, *pos, order@, k as int, a as int, beta as int, ply as int) == beta as int);
                    }
                }
                return beta;
            }
            if score > a {
                a = score;
            }
            k += 1;
        }
        a
    }

    /// Iterative deepening over the root moves `root_moves` of `pos` (depths 1 to 63): each
    /// completed iteration reports its depth, best score and node count, and moves its best
    /// move to the front for the next one. An iteration cut short by the deadline is
    /// discarded. Returns the best move of the last completed iteration, or the first root
    /// move if none completed; `None` when there are no moves.
    pub fn best_move_among<E: Fn(&Chess) -> i32, R: Fn(u32, i32, u64)>(
        &mut self,
        pos: &Chess,
        root_moves: Vec<Move>,
        eval: &E,
        report: &R,
    ) -> (r: Option<Move>)
        requires
            old(self).wf(),
            old(self).contempt > i32::MIN,
            evaluates(eval),
            reports(report),
            old(self).n_hist + 64 <= usize::MAX,
            forall|i: int|
                0 <= i < root_moves@.len() ==> legal_moves_of(*pos).contains(#[trigger] root_moves@[i]),
        ensures
            final(self).wf(),
            final(self).same_game(old(self)),
            r is Some <==> root_moves@.len() > 0,
            r matches Some(m) ==> root_moves@.contains(m),
            old(self).stopped && root_moves@.len() > 0 ==> r == Some(root_moves@[0]),
            final(self).counted_since(old(self)),
            exists|d: int|
                1 <= d <= 64 && (d < 64 ==> final(self).stopped) && r == #[trigger] deepen(
                    eval,
                    old(self).contempt as int,
                    old(self).game(),
                    *pos,
                    root_moves@,
                    1,
                    d,
                    first_of(root_moves@),
                ),
            !final(self).stopped ==> r == deepen(
                eval,
                old(self).contempt as int,
                old(self).game(),
                *pos,
                root_moves@,
                1,
                64,
                first_of(root_moves@),
            ),
    {
        let ghost root = root_moves@;
        let ghost c = self.contempt as int;
        let ghost game = self.game();
        let mut moves = root_moves;
        let mut best = if moves.len() > 0 {
            Some(clone_move(&moves[0]))
        } else {
            None
        };
        let ghost start = *self;
        proof {
            lemma_small_mod(self.nodes as nat, counter_modulus() as nat);
        }
        let mut depth: u32 = 1;
        while depth < 64
            invariant
                1 <= depth <= 64,
                self.wf(),
                self.same_game(&start),
                start.same_game(old(self)),
                self.contempt > i32::MIN,
                c == self.contempt,
                game == self.game(),
                evaluates(eval),
                reports(report),
                self.n_hist + 64 <= usize::MAX,
                moves@.len() > 0 <==> root.len() > 0,
                forall|i: int| 0 <= i < moves@.len() ==> root.contains(#[trigger] moves@[i]),
                forall|i: int| 0 <= i < root.len() ==> legal_moves_of(*pos).contains(#[trigger] root[i]),
                best is Some <==> root.len() > 0,
                best matches Some(b) ==> root.contains(b),
                old(self).stopped ==> (self.stopped && (root.len() > 0 ==> best == Some(root[0]))),
                self.counted_since(old(self)),
                forall|l: int|
                    depth <= l <= 64 ==> #[trigger] deepen(eval, c, game, *pos, root, 1, l, first_of(root))
                        == deepen(eval, c, game, *pos, moves@, depth as int, l, best),
            ensures
                self.stopped || depth == 64,
            decreases 64 - depth,
        {
            let ghost was_stopped = self.stopped;
            let mut a: i32 = -INF;
            let mut depth_best: Option<Move> = None;
            let mut k: usize = 0;
            while k < moves.len()
                invariant
                    1 <= depth < 64,
                    self.wf(),
                    self.same_game(&start),
                    self.contempt > i32::MIN,
                    c == self.contempt,
                    game == self.game(),
                    evaluates(eval),
                    self.n_hist + 64 <= usize::MAX,
                    a >= -INF,
                    k <= moves@.len(),
                    was_stopped ==> self.stopped,
                    forall|i: int| 0 <= i < moves@.len() ==> root.contains(#[trigger] moves@[i]),
                    forall|i: int| 0 <= i < root.len() ==> legal_moves_of(*pos).contains(#[trigger] root[i]),
                    depth_best matches Some(b) ==> root.contains(b),
                    old(self).stopped ==> (self.stopped && depth_best is None),
                    self.counted_since(old(self)),
                    !self.stopped ==> iteration(eval, c, game, *pos, moves@, depth as int, 0, -INF, None)
                        == iteration(eval, c, game, *pos, moves@, depth as int, k as int, a as int, depth_best),
                ensures
                    self.stopped || k == moves@.len(),
                decreases moves@.len() - k,
            {
                let mut child = copy_position(pos);
                proof {
                    assert(root.contains(moves@[k as int]));
                    let j = choose|j: int| 0 <= j < root.len() && root[j] == moves@[k as int];
                    assert(legal_moves_of(*pos).contains(root[j]));
                }
                play_move(&mut child, &moves[k]);
                let ghost before = *self;
                let r = self.negamax(&child, depth - 1, -INF, -a, 1, eval);
                proof {
                    assert(node_line(before.path@, before.n_hist as int, 1) =~= game);
                    lemma_counts_compose(*old(self), before, *self);
                }
                let score = -r;
                if self.stopped {
                    break;
                }
                if score > a {
                    a = score;
                    depth_best = Some(clone_move(&moves[k]));
                }
                k += 1;
            }
            if self.stopped {
                break;
            }
            assert(iteration(eval, c, game, *pos, moves@, depth as int, 0, -INF, None) == depth_best);
            let ghost mv0 = moves@;
            let ghost b0 = best;
            match depth_best {
                Some(m) => {
                    report(depth, a, self.nodes);
                    let ghost before = moves@;
                    promote(&mut moves, &m);
                    proof {
                        assert(moves@[0] == m);
                        assert forall|i: int| 0 <= i < moves@.len() implies root.contains(
                            #[trigger] moves@[i],
                        ) by {
                            if i > 0 {
                                let f = before.filter(other_than(m));
                                assert(moves@[i] == f[i - 1]);
                                lemma_filter_within(before, other_than(m));
                                assert(before.contains(f[i - 1]));
                                let j = choose|j: int| 0 <= j < before.len() && before[j] == f[i - 1];
                                assert(root.contains(before[j]));
                            }
                        }
                    }
                    best = Some(m);
                },
                None => {},
            }
            assert forall|l: int| depth + 1 <= l <= 64 implies #[trigger] deepen(
                eval,
                c,
                game,
                *pos,
                root,
                1,
                l,
                first_of(root),
            ) == deepen(eval, c, game, *pos, moves@, depth + 1, l, best) by {
                assert(deepen(eval, c, game, *pos, mv0, depth as int, l, b0) == deepen(
                    eval,
                    c,
                    game,
                    *pos,
                    moves@,
                    depth + 1,
                    l,
                    best,
                ));
            }
            depth += 1;
        }
        assert(deepen(eval, c, game, *pos, root, 1, depth as int, first_of(root)) == best);
        best
    }

    /// The best move for the side to move in `pos`, by iterative deepening until the
    /// deadline (see `best_move_among`); `None` when there is no legal move.
    pub fn best_move<E: Fn(&Chess) -> i32, R: Fn(u32, i32, u64)>(
        &mut self,
        pos: &Chess,
        eval: &E,
        report: &R,
    ) -> (r: Option<Move>)
        requires
            old(self).wf(),
            old(self).contempt > i32::MIN,
            evaluates(eval),
            reports(report),
            old(self).n_hist + 64 <= usize::MAX,
        ensures
            final(self).wf(),
            final(self).same_game(old(self)),
            r is Some <==> legal_moves_of(*pos).len() > 0,
            r matches Some(m) ==> legal_moves_of(*pos).contains(m),
            final(self).counted_since(old(self)),
            exists|d: int|
                1 <= d <= 64 && (d < 64 ==> final(self).stopped) && r == #[trigger] deepen(
                    eval,
                    old(self).contempt as int,
                    old(self).game(),
                    *pos,
                    legal_moves_of(*pos),
                    1,
                    d,
                    first_of(legal_moves_of(*pos)),
                ),
            !final(self).stopped ==> r == deepen(
                eval,
                old(self).contempt as int,
                old(self).game(),
                *pos,
                legal_moves_of(*pos),
                1,
                64,
                first_of(legal_moves_of(*pos)),
            ),
    {
        let moves = legal_moves(pos);
        proof {
            assert forall|i: int| 0 <= i < moves@.len() implies legal_moves_of(*pos).contains(
                #[trigger] moves@[i],
            ) by {}
        }
        self.best_move_among(pos, moves, eval, report)
    }
}

} // verus!
