//! Static evaluation by material count, from the side to move's point of view.
use vstd::prelude::*;
use shakmaty::Chess;

use crate::INF;
use crate::chess::{material, white_to_move, material_of, white_of};
use crate::ordering::{PieceKind, piece_value, spec_piece_value};

verus! {

/// Material of one side: counts of pawns, knights, bishops, rooks, queens and kings,
/// each weighed by its piece value.
pub open spec fn side_material(c: [u8; 6]) -> int {
    c@[0] * spec_piece_value(PieceKind::Pawn) + c@[1] * spec_piece_value(PieceKind::Knight)
        + c@[2] * spec_piece_value(PieceKind::Bishop) + c@[3] * spec_piece_value(PieceKind::Rook)
        + c@[4] * spec_piece_value(PieceKind::Queen) + c@[5] * spec_piece_value(PieceKind::King)
}

/// Where the count of a piece kind stands among a side's counts (pawn, knight, bishop,
/// rook, queen, king).
pub open spec fn kind_slot(k: PieceKind) -> int {
    match k {
        PieceKind::Pawn => 0,
        PieceKind::Knight => 1,
        PieceKind::Bishop => 2,
        PieceKind::Rook => 3,
        PieceKind::Queen => 4,
        PieceKind::King => 5,
    }
}

/// Material is counted piece by piece: a side with no pieces has none, and one more piece
/// of kind `k` raises a side's material by exactly that piece's value.
pub proof fn lemma_material_per_piece(c: [u8; 6], d: [u8; 6], k: PieceKind)
    requires
        c@[kind_slot(k)] < 255,
        d@ == c@.update(kind_slot(k), (c@[kind_slot(k)] + 1) as u8),
    ensures
        side_material(d) == side_material(c) + spec_piece_value(k),
        (forall|j: int| 0 <= j < 6 ==> c@[j] == 0) ==> side_material(c) == 0,
{
    assert(spec_piece_value(PieceKind::Pawn) == 100);
    assert(spec_piece_value(PieceKind::Knight) == 320);
    assert(spec_piece_value(PieceKind::Bishop) == 330);
    assert(spec_piece_value(PieceKind::Rook) == 500);
    assert(spec_piece_value(PieceKind::Queen) == 900);
    assert(spec_piece_value(PieceKind::King) == 0);
    assert(d@[0] == c@[0] + if kind_slot(k) == 0 { 1int } else { 0 });
    assert(d@[1] == c@[1] + if kind_slot(k) == 1 { 1int } else { 0 });
    assert(d@[2] == c@[2] + if kind_slot(k) == 2 { 1int } else { 0 });
    assert(d@[3] == c@[3] + if kind_slot(k) == 3 { 1int } else { 0 });
    assert(d@[4] == c@[4] + if kind_slot(k) == 4 { 1int } else { 0 });
    assert(d@[5] == c@[5] + if kind_slot(k) == 5 { 1int } else { 0 });
    if forall|j: int| 0 <= j < 6 ==> c@[j] == 0 {
        assert(c@[0] == 0 && c@[1] == 0 && c@[2] == 0 && c@[3] == 0 && c@[4] == 0 && c@[5] == 0);
    }
}

/// The balance is the same game seen from either side: swapping the sides' material and
/// the side to move changes nothing, and the other side to move sees its negation.
pub proof fn lemma_balance_symmetric(white: [u8; 6], black: [u8; 6], white_to_move: bool)
    ensures
        spec_material_balance(white, black, white_to_move) == spec_material_balance(
            black,
            white,
            !white_to_move,
        ),
        spec_material_balance(white, black, !white_to_move) == -spec_material_balance(
            white,
            black,
            white_to_move,
        ),
{
}

/// Material balance for the side to move.
pub open spec fn spec_material_balance(white: [u8; 6], black: [u8; 6], white_to_move: bool) -> int {
    if white_to_move {
        side_material(white) - side_material(black)
    } else {
        side_material(black) - side_material(white)
    }
}

/// Weighed material of one side.
fn side_total(c: &[u8; 6]) -> (t: i32)
    ensures
        t == side_material(*c),
        0 <= t <= 255 * 2150,
{
    c[0] as i32 * piece_value(PieceKind::Pawn) + c[1] as i32 * piece_value(PieceKind::Knight)
        + c[2] as i32 * piece_value(PieceKind::Bishop) + c[3] as i32 * piece_value(PieceKind::Rook)
        + c[4] as i32 * piece_value(PieceKind::Queen) + c[5] as i32 * piece_value(PieceKind::King)
}

/// Material balance, in centipawns, for the side to move.
pub fn material_balance(white: &[u8; 6], black: &[u8; 6], white_to_move: bool) -> (r: i32)
    ensures
        r == spec_material_balance(*white, *black, white_to_move),
        -INF < r < INF,
{
    let w = side_total(white);
    let b = side_total(black);
    if white_to_move {
        w - b
    } else {
        b - w
    }
}

/// Static evaluation of a position by material, for the side to move.
pub open spec fn spec_evaluate_material(pos: Chess) -> int {
    spec_material_balance(material_of(pos).0, material_of(pos).1, white_of(pos))
}

/// Static evaluation of a position by material, for the side to move.
pub fn evaluate_material(pos: &Chess) -> (r: i32)
    ensures
        r == spec_evaluate_material(*pos),
        -INF < r < INF,
{
    let (white, black) = material(pos);
    material_balance(&white, &black, white_to_move(pos))
}

} // verus!
