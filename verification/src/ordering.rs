//! Move ordering: piece values, most-valuable-victim / least-valuable-attacker keys,
//! and the stable order in which the search tries moves.
use vstd::prelude::*;

verus! {

/// The kinds of chess pieces.
#[derive(Clone, Copy, PartialEq, Eq, Debug, Structural)]
pub enum PieceKind {
    Pawn,
    Knight,
    Bishop,
    Rook,
    Queen,
    King,
}

/// Material value of a piece in centipawns; the king has none.
pub open spec fn spec_piece_value(role: PieceKind) -> int {
    match role {
        PieceKind::Pawn => 100,
        PieceKind::Knight => 320,
        PieceKind::Bishop => 330,
        PieceKind::Rook => 500,
        PieceKind::Queen => 900,
        PieceKind::King => 0,
    }
}

/// Material value of a piece in centipawns; the king has none.
pub fn piece_value(role: PieceKind) -> (v: i32)
    ensures
        v == spec_piece_value(role),
{
    match role {
        PieceKind::Pawn => 100,
        PieceKind::Knight => 320,
        PieceKind::Bishop => 330,
        PieceKind::Rook => 500,
        PieceKind::Queen => 900,
        PieceKind::King => 0,
    }
}

/// What move ordering reads of a move: the moving piece, the captured piece (a pawn for
/// en passant) and the piece promoted to. A move captures when it has a captured piece
/// and promotes when it has a promotion piece.
#[derive(Clone, Copy, PartialEq, Eq, Debug)]
pub struct MoveFacts {
    pub role: PieceKind,
    pub capture: Option<PieceKind>,
    pub promotion: Option<PieceKind>,
}

/// Ordering key: most valuable victim first, least valuable attacker as tiebreak;
/// quiet promotions by the value of the new piece; other quiet moves 0.
pub open spec fn spec_mvv_lva(m: MoveFacts) -> int {
    match m.capture {
        Some(victim) => 10 * spec_piece_value(victim) - spec_piece_value(m.role) / 10,
        None => match m.promotion {
            Some(r) => spec_piece_value(r),
            None => 0,
        },
    }
}

/// Move ordering key: most valuable victim first, least valuable attacker as tiebreak.
pub fn mvv_lva(m: &MoveFacts) -> (k: i32)
    ensures
        k == spec_mvv_lva(*m),
{
    match m.capture {
        Some(victim) => 10 * piece_value(victim) - piece_value(m.role) / 10,
        None => match m.promotion {
            Some(r) => piece_value(r),
            None => 0,
        },
    }
}

/// Most valuable victim first: a capture of a more valuable piece orders before the
/// capture of a less valuable one, whatever pieces capture; the same victim taken by a
/// less valuable piece orders first; and a capture of anything but a king orders before
/// every move that captures nothing, promotions included.
pub proof fn lemma_victim_first(a: MoveFacts, b: MoveFacts)
    ensures
        (a.capture matches Some(va) && b.capture matches Some(vb) && spec_piece_value(va)
            > spec_piece_value(vb)) ==> spec_mvv_lva(a) > spec_mvv_lva(b),
        (a.capture matches Some(va) && b.capture == Some(va) && spec_piece_value(a.role)
            < spec_piece_value(b.role)) ==> spec_mvv_lva(a) > spec_mvv_lva(b),
        (a.capture matches Some(va) && va != PieceKind::King && b.capture is None) ==> spec_mvv_lva(
            a,
        ) > spec_mvv_lva(b),
{
}

/// Whether the search considers move `i`: every move, or (in quiescence) only
/// captures and promotions.
pub open spec fn considered(facts: Seq<MoveFacts>, all: bool, i: int) -> bool {
    all || facts[i].capture is Some || facts[i].promotion is Some
}

/// `order` lists exactly the considered moves, by decreasing ordering key, moves with
/// equal keys in the order they were generated: a stable sort by descending key.
pub open spec fn is_search_order(facts: Seq<MoveFacts>, all: bool, order: Seq<usize>) -> bool {
    &&& forall|k: int|
        0 <= k < order.len() ==> (#[trigger] order[k] as int) < facts.len() && considered(
            facts,
            all,
            order[k] as int,
        )
    &&& forall|i: int|
        0 <= i < facts.len() && #[trigger] considered(facts, all, i) ==> order.contains(
            i as usize,
        )
    &&& forall|a: int, b: int|
        0 <= a < b < order.len() ==> spec_mvv_lva(facts[order[a] as int]) >= spec_mvv_lva(
            facts[order[b] as int],
        )
    &&& forall|a: int, b: int|
        0 <= a < b < order.len() && spec_mvv_lva(facts[order[a] as int]) == spec_mvv_lva(
            facts[order[b] as int],
        ) ==> order[a] < order[b]
}

/// Search order of `i` before `j`: a larger key first, equal keys in generation order.
pub open spec fn goes_before(facts: Seq<MoveFacts>, i: int, j: int) -> bool {
    spec_mvv_lva(facts[i]) > spec_mvv_lva(facts[j]) || (spec_mvv_lva(facts[i]) == spec_mvv_lva(
        facts[j],
    ) && i < j)
}

proof fn lemma_order_increasing(facts: Seq<MoveFacts>, all: bool, o: Seq<usize>, a: int, b: int)
    requires
        is_search_order(facts, all, o),
        0 <= a < b < o.len(),
    ensures
        goes_before(facts, o[a] as int, o[b] as int),
        o[a] != o[b],
{
}

proof fn lemma_orders_agree(facts: Seq<MoveFacts>, all: bool, o1: Seq<usize>, o2: Seq<usize>, k: int)
    requires
        is_search_order(facts, all, o1),
        is_search_order(facts, all, o2),
        0 <= k <= o1.len(),
        k <= o2.len(),
    ensures
        forall|j: int| 0 <= j < k ==> o1[j] == o2[j],
    decreases k,
{
    if k > 0 {
        lemma_orders_agree(facts, all, o1, o2, k - 1);
        let x = o1[k - 1];
        let y = o2[k - 1];
        assert(considered(facts, all, x as int));
        assert(o2.contains(x));
        let j2 = choose|j: int| 0 <= j < o2.len() && o2[j] == x;
        if j2 < k - 1 {
            lemma_order_increasing(facts, all, o1, j2, k - 1);
        }
        assert(considered(facts, all, y as int));
        assert(o1.contains(y));
        let i1 = choose|j: int| 0 <= j < o1.len() && o1[j] == y;
        if i1 < k - 1 {
            lemma_order_increasing(facts, all, o2, i1, k - 1);
        }
        if x != y {
            lemma_order_increasing(facts, all, o2, k - 1, j2);
            lemma_order_increasing(facts, all, o1, k - 1, i1);
        }
    }
}

/// There is one search order of a move list: the stable sort is unique.
pub proof fn lemma_search_order_unique(facts: Seq<MoveFacts>, all: bool, o1: Seq<usize>, o2: Seq<usize>)
    requires
        is_search_order(facts, all, o1),
        is_search_order(facts, all, o2),
    ensures
        o1 == o2,
{
    if o1.len() <= o2.len() {
        lemma_orders_agree(facts, all, o1, o2, o1.len() as int);
        if o1.len() < o2.len() {
            let y = o2[o1.len() as int];
            assert(considered(facts, all, y as int));
            assert(o1.contains(y));
            let i = choose|j: int| 0 <= j < o1.len() && o1[j] == y;
            lemma_order_increasing(facts, all, o2, i, o1.len() as int);
        }
    } else {
        lemma_orders_agree(facts, all, o2, o1, o2.len() as int);
        let y = o1[o2.len() as int];
        assert(considered(facts, all, y as int));
        assert(o2.contains(y));
        let i = choose|j: int| 0 <= j < o2.len() && o2[j] == y;
        lemma_order_increasing(facts, all, o1, i, o2.len() as int);
    }
    assert(o1 =~= o2);
}

/// Which moves a search order holds: in quiescence (`all` false) exactly the captures and
/// the promotions, quiet promotions included; otherwise every move.
pub proof fn lemma_searched_moves(facts: Seq<MoveFacts>, all: bool, order: Seq<usize>)
    requires
        is_search_order(facts, all, order),
        facts.len() <= usize::MAX,
    ensures
        forall|i: int|
            0 <= i < facts.len() ==> (order.contains(i as usize) <==> (all || facts[i].capture is Some
                || facts[i].promotion is Some)),
{
    assert forall|i: int| 0 <= i < facts.len() implies (order.contains(i as usize) <==> (all
        || facts[i].capture is Some || facts[i].promotion is Some)) by {
        if order.contains(i as usize) {
            let k = choose|k: int| 0 <= k < order.len() && order[k] == i as usize;
            assert(order[k] as int == i);
            assert(considered(facts, all, order[k] as int));
        } else {
            if considered(facts, all, i) {
                assert(order.contains(i as usize));
            }
        }
    }
}

/// The indices of the moves to search, in search order: the considered moves sorted by
/// descending `mvv_lva`, stably (an insertion sort).
pub fn search_order(facts: &Vec<MoveFacts>, all: bool) -> (order: Vec<usize>)
    ensures
        is_search_order(facts@, all, order@),
        forall|i: int|
            0 <= i < facts@.len() ==> (order@.contains(i as usize) <==> (all || facts@[i].capture
                is Some || facts@[i].promotion is Some)),
{
    let n = facts.len();
    let mut order: Vec<usize> = Vec::new();
    let mut t: usize = 0;
    while t < n
        invariant
            t <= n,
            n == facts@.len(),
            forall|k: int|
                0 <= k < order@.len() ==> (#[trigger] order@[k] as int) < t && considered(
                    facts@,
                    all,
                    order@[k] as int,
                ),
            forall|i: int|
                0 <= i < t && #[trigger] considered(facts@, all, i) ==> order@.contains(
                    i as usize,
                ),
            forall|a: int, b: int|
                0 <= a < b < order@.len() ==> spec_mvv_lva(facts@[order@[a] as int])
                    >= spec_mvv_lva(facts@[order@[b] as int]),
            forall|a: int, b: int|
                0 <= a < b < order@.len() && spec_mvv_lva(facts@[order@[a] as int])
                    == spec_mvv_lva(facts@[order@[b] as int]) ==> order@[a] < order@[b],
        decreases n - t,
    {
        if all || facts[t].capture.is_some() || facts[t].promotion.is_some() {
            let key = mvv_lva(&facts[t]);
            let mut p = order.len();
            while p > 0 && mvv_lva(&facts[order[p - 1]]) < key
                invariant
                    p <= order@.len(),
                    t < n,
                    n == facts@.len(),
                    forall|k: int| 0 <= k < order@.len() ==> (#[trigger] order@[k] as int) < t,
                    forall|q: int|
                        p <= q < order@.len() ==> spec_mvv_lva(facts@[#[trigger] order@[q] as int])
                            < key,
                decreases p,
            {
                p -= 1;
            }
            let ghost old_order = order@;
            order.insert(p, t);
            proof {
                old_order.insert_ensures(p as int, t);
                let ins = order@;
                assert forall|k: int| 0 <= k < ins.len() implies (#[trigger] ins[k] as int) < t + 1
                    && considered(facts@, all, ins[k] as int) by {
                    if k < p {
                        assert(ins[k] == old_order[k]);
                    } else if k > p {
                        assert(ins[k] == old_order[k - 1]);
                    }
                }
                assert forall|i: int|
                    0 <= i < t + 1 && #[trigger] considered(facts@, all, i) implies ins.contains(
                    i as usize,
                ) by {
                    if i == t {
                        assert(ins[p as int] == t);
                    } else {
                        let w = choose|w: int| 0 <= w < old_order.len() && old_order[w] == i as usize;
                        if w < p {
                            assert(ins[w] == old_order[w]);
                        } else {
                            assert(ins[w + 1] == old_order[w]);
                        }
                    }
                }
                assert forall|a: int, b: int| 0 <= a < b < ins.len() implies spec_mvv_lva(
                    facts@[ins[a] as int],
                ) >= spec_mvv_lva(facts@[ins[b] as int]) && (spec_mvv_lva(facts@[ins[a] as int])
                    == spec_mvv_lva(facts@[ins[b] as int]) ==> ins[a] < ins[b]) by {
                    let oa = if a < p { a } else { a - 1 };
                    let ob = if b < p { b } else { b - 1 };
                    if a == p {
                        assert(ins[b] == old_order[ob]);
                    } else if b == p {
                        assert(ins[a] == old_order[oa]);
                        if p > 0 {
                            assert(spec_mvv_lva(facts@[old_order[p - 1] as int]) >= key);
                        }
                    } else {
                        assert(ins[a] == old_order[oa]);
                        assert(ins[b] == old_order[ob]);
                    }
                }
            }
        }
        t += 1;
    }
    proof {
        lemma_searched_moves(facts@, all, order@);
    }
    order
}

} // verus!
