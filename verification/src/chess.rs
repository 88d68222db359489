//! The boundary to `shakmaty`: its types, as Verus sees them, the calls that the
//! engine makes into it, and names for what those calls return. Positions and moves
//! are opaque here; each call's result is a function of its arguments, named by an
//! uninterpreted spec function, and what move ordering reads of a move is turned into
//! plain values (`MoveFacts`).
use vstd::prelude::*;
use shakmaty::{Chess, Move, Position, EnPassantMode, CastlingMode};
use shakmaty::fen::Fen;
use shakmaty::uci::UciMove;
use shakmaty::zobrist::{Zobrist64, ZobristHash};

use crate::ordering::{PieceKind, MoveFacts};

verus! {

/// A chess position with its game state (side to move, castling, clocks).
#[verifier::external_type_specification]
#[verifier::external_body]
pub struct ExChess(Chess);

/// A move as generated by `shakmaty`.
#[verifier::external_type_specification]
#[verifier::external_body]
pub struct ExMove(Move);

/// A parsed FEN record.
#[verifier::external_type_specification]
#[verifier::external_body]
pub struct ExFen(Fen);

/// A parsed UCI move, not yet checked against a position.
#[verifier::external_type_specification]
#[verifier::external_body]
pub struct ExUciMove(UciMove);

/// The legal moves of a position, in `shakmaty`'s generation order.
pub uninterp spec fn legal_moves_of(pos: Chess) -> Seq<Move>;

/// The position after a move.
pub uninterp spec fn played(pos: Chess, m: Move) -> Chess;

/// Whether the side to move is in check.
pub uninterp spec fn in_check_of(pos: Chess) -> bool;

/// Plies since the last capture or pawn move.
pub uninterp spec fn halfmoves_of(pos: Chess) -> u32;

/// Whether neither side can ever mate.
pub uninterp spec fn insufficient_of(pos: Chess) -> bool;

/// The 64-bit Zobrist hash of a position.
pub uninterp spec fn zobrist_of(pos: Chess) -> u64;

/// Whether White is to move.
pub uninterp spec fn white_of(pos: Chess) -> bool;

/// Piece counts of White and of Black (pawn, knight, bishop, rook, queen, king).
pub uninterp spec fn material_of(pos: Chess) -> ([u8; 6], [u8; 6]);

/// The moving piece of a move.
pub uninterp spec fn role_of(m: Move) -> PieceKind;

/// The captured piece of a move, if any (a pawn for en passant).
pub uninterp spec fn capture_of(m: Move) -> Option<PieceKind>;

/// The piece a move promotes to, if any.
pub uninterp spec fn promotion_of(m: Move) -> Option<PieceKind>;

/// The FEN record a text parses as, if any.
pub uninterp spec fn fen_parse_of(s: Seq<char>) -> Option<Fen>;

/// The standard-chess position a FEN record sets up, if it is legal.
pub uninterp spec fn fen_position_of(fen: Fen) -> Option<Chess>;

/// The UCI move a text parses as, if any.
pub uninterp spec fn uci_parse_of(s: Seq<char>) -> Option<UciMove>;

/// The legal move of a position that a UCI move names, if any.
pub uninterp spec fn uci_move_of(u: UciMove, pos: Chess) -> Option<Move>;

/// What move ordering reads of a move.
pub open spec fn facts_spec(m: Move) -> MoveFacts {
    MoveFacts { role: role_of(m), capture: capture_of(m), promotion: promotion_of(m) }
}

/// What move ordering reads of each move of a list.
pub open spec fn facts_seq(moves: Seq<Move>) -> Seq<MoveFacts> {
    moves.map_values(|m: Move| facts_spec(m))
}

/// `Move::clone`. `Move` derives `Clone` over plain fields (roles, squares),
/// so the copy is the same move.
#[verifier::external_body]
pub(crate) fn clone_move(m: &Move) -> (r: Move)
    ensures
        r == *m,
{
    m.clone()
}

/// A copy of an optional move.
pub fn clone_opt_move(m: &Option<Move>) -> (r: Option<Move>)
    ensures
        r == *m,
{
    match m {
        Some(x) => Some(clone_move(x)),
        None => None,
    }
}

/// `Move == Move`. `Move` derives `PartialEq` over plain fields (roles, squares),
/// so two moves compare equal exactly when they are the same move.
#[verifier::external_body]
pub(crate) fn same_move(a: &Move, b: &Move) -> (r: bool)
    ensures
        r == (*a == *b),
{
    a == b
}

/// What is known of the standard starting position: its documented Zobrist hash, White
/// to move, no capture or pawn move yet, not in check, and eight pawns, two knights, two
/// bishops, two rooks, a queen and a king on each side.
pub open spec fn is_start(p: Chess) -> bool {
    &&& zobrist_of(p) == 0x463b96181691fc9c
    &&& white_of(p)
    &&& halfmoves_of(p) == 0
    &&& !in_check_of(p)
    &&& material_of(p).0@ == seq![8u8, 2, 2, 2, 1, 1]
    &&& material_of(p).1@ == seq![8u8, 2, 2, 2, 1, 1]
}

/// `Chess::default()`, that is `Chess::new()`: the standard starting position, built from
/// `Board::new()` with White to move and both clocks at their start. Its Zobrist hash is
/// the one `shakmaty`'s documentation gives for it. The position itself is not named (the
/// call has no argument), so only these properties are stated.
#[verifier::external_body]
pub(crate) fn start_position() -> (r: Chess)
    ensures
        is_start(r),
{
    Chess::default()
}

/// `Chess::clone`: a copy of the position (`Chess` derives `Clone`).
#[verifier::external_body]
pub(crate) fn copy_position(pos: &Chess) -> (r: Chess)
    ensures
        r == *pos,
{
    pos.clone()
}

/// `Position::play_unchecked`: plays a move, which must be legal in the position (an
/// illegal one may corrupt the position).
#[verifier::external_body]
pub(crate) fn play_move(pos: &mut Chess, m: &Move)
    requires
        legal_moves_of(*old(pos)).contains(*m),
    ensures
        *final(pos) == played(*old(pos), *m),
{
    pos.play_unchecked(m)
}

/// `Position::legal_moves`, collected into a vector in generation order.
#[verifier::external_body]
pub(crate) fn legal_moves(pos: &Chess) -> (r: Vec<Move>)
    ensures
        r@ == legal_moves_of(*pos),
{
    pos.legal_moves().into_iter().collect()
}

/// `Position::is_check`: whether the side to move is in check.
#[verifier::external_body]
pub(crate) fn is_check(pos: &Chess) -> (r: bool)
    ensures
        r == in_check_of(*pos),
{
    pos.is_check()
}

/// `Position::halfmoves`: plies since the last capture or pawn move.
#[verifier::external_body]
pub(crate) fn halfmoves(pos: &Chess) -> (r: u32)
    ensures
        r == halfmoves_of(*pos),
{
    pos.halfmoves()
}

/// `Position::is_insufficient_material`: neither side can ever mate.
#[verifier::external_body]
pub(crate) fn is_insufficient_material(pos: &Chess) -> (r: bool)
    ensures
        r == insufficient_of(*pos),
{
    pos.is_insufficient_material()
}

/// `ZobristHash::zobrist_hash` with 64-bit keys, en passant counted only when legal.
#[verifier::external_body]
pub(crate) fn hash(pos: &Chess) -> (r: u64)
    ensures
        r == zobrist_of(*pos),
{
    pos.zobrist_hash::<Zobrist64>(EnPassantMode::Legal).0
}

/// `Position::turn`, told apart by `Color::is_white`: whether White is to move.
#[verifier::external_body]
pub(crate) fn white_to_move(pos: &Chess) -> (r: bool)
    ensures
        r == white_of(*pos),
{
    pos.turn().is_white()
}

/// `Board::material` of the position's board: the number of pieces of each kind for
/// each side, in the order pawn, knight, bishop, rook, queen, king.
#[verifier::external_body]
pub(crate) fn material(pos: &Chess) -> (r: ([u8; 6], [u8; 6]))
    ensures
        r == material_of(*pos),
{
    let m = pos.board().material();
    let w = m.white;
    let b = m.black;
    ([w.pawn, w.knight, w.bishop, w.rook, w.queen, w.king],
     [b.pawn, b.knight, b.bishop, b.rook, b.queen, b.king])
}

/// `Move::role`, told apart variant for variant: the moving piece.
#[verifier::external_body]
pub(crate) fn move_role(m: &Move) -> (r: PieceKind)
    ensures
        r == role_of(*m),
{
    match m.role() {
        shakmaty::Role::Pawn => PieceKind::Pawn,
        shakmaty::Role::Knight => PieceKind::Knight,
        shakmaty::Role::Bishop => PieceKind::Bishop,
        shakmaty::Role::Rook => PieceKind::Rook,
        shakmaty::Role::Queen => PieceKind::Queen,
        shakmaty::Role::King => PieceKind::King,
    }
}

/// `Move::capture`, told apart variant for variant: the captured piece, if any.
#[verifier::external_body]
pub(crate) fn move_capture(m: &Move) -> (r: Option<PieceKind>)
    ensures
        r == capture_of(*m),
{
    match m.capture() {
        None => None,
        Some(shakmaty::Role::Pawn) => Some(PieceKind::Pawn),
        Some(shakmaty::Role::Knight) => Some(PieceKind::Knight),
        Some(shakmaty::Role::Bishop) => Some(PieceKind::Bishop),
        Some(shakmaty::Role::Rook) => Some(PieceKind::Rook),
        Some(shakmaty::Role::Queen) => Some(PieceKind::Queen),
        Some(shakmaty::Role::King) => Some(PieceKind::King),
    }
}

/// `Move::promotion`, told apart variant for variant: the piece promoted to, if any.
#[verifier::external_body]
pub(crate) fn move_promotion(m: &Move) -> (r: Option<PieceKind>)
    ensures
        r == promotion_of(*m),
{
    match m.promotion() {
        None => None,
        Some(shakmaty::Role::Pawn) => Some(PieceKind::Pawn),
        Some(shakmaty::Role::Knight) => Some(PieceKind::Knight),
        Some(shakmaty::Role::Bishop) => Some(PieceKind::Bishop),
        Some(shakmaty::Role::Rook) => Some(PieceKind::Rook),
        Some(shakmaty::Role::Queen) => Some(PieceKind::Queen),
        Some(shakmaty::Role::King) => Some(PieceKind::King),
    }
}

/// `Fen::from_str`: `None` where the text is not a FEN record.
#[verifier::external_body]
pub(crate) fn parse_fen(s: &str) -> (r: Option<Fen>)
    ensures
        r == fen_parse_of(s@),
{
    s.parse::<Fen>().ok()
}

/// `Fen::into_position` for standard chess: `None` where the setup is not a legal position.
#[verifier::external_body]
pub(crate) fn fen_position(fen: Fen) -> (r: Option<Chess>)
    ensures
        r == fen_position_of(fen),
{
    fen.into_position(CastlingMode::Standard).ok()
}

/// `UciMove::from_str`: `None` where the text is not a UCI move.
#[verifier::external_body]
pub(crate) fn parse_uci_move(s: &str) -> (r: Option<UciMove>)
    ensures
        r == uci_parse_of(s@),
{
    s.parse::<UciMove>().ok()
}

/// `UciMove::to_move`: the move of the position that the UCI move names, if it is
/// legal there (`to_move` checks `is_legal`, i.e. that the candidate is among the
/// legal moves).
#[verifier::external_body]
pub(crate) fn uci_to_move(u: &UciMove, pos: &Chess) -> (r: Option<Move>)
    ensures
        r == uci_move_of(*u, *pos),
        r matches Some(m) ==> legal_moves_of(*pos).contains(m),
{
    u.to_move(pos).ok()
}

/// What move ordering reads of a move.
pub fn facts_of(m: &Move) -> (r: MoveFacts)
    ensures
        r == facts_spec(*m),
{
    MoveFacts { role: move_role(m), capture: move_capture(m), promotion: move_promotion(m) }
}

/// The ordering facts of every move in a list, in the same order.
pub fn facts_of_all(moves: &Vec<Move>) -> (facts: Vec<MoveFacts>)
    ensures
        facts@ == facts_seq(moves@),
{
    let mut facts: Vec<MoveFacts> = Vec::new();
    let mut i: usize = 0;
    while i < moves.len()
        invariant
            i <= moves@.len(),
            facts@ == moves@.take(i as int).map_values(|m: Move| facts_spec(m)),
        decreases moves@.len() - i,
    {
        facts.push(facts_of(&moves[i]));
        proof {
            assert(moves@.take(i + 1).map_values(|m: Move| facts_spec(m)) =~= moves@.take(
                i as int,
            ).map_values(|m: Move| facts_spec(m)).push(facts_spec(moves@[i as int])));
        }
        i += 1;
    }
    assert(moves@.take(moves@.len() as int) =~= moves@);
    facts
}

} // verus!
