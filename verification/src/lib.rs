//! A UCI chess engine core: alpha-beta search with quiescence, repetition and
//! fifty-move draw detection with contempt, capture ordering, a transposition
//! table with ply-relative mate scores, and the UCI argument handling around it.
//! Positions and move generation come from `shakmaty`.
use vstd::prelude::*;

pub mod chess;
pub mod material;
pub mod ordering;
pub mod search;
pub mod tt;
pub mod uci;

pub use material::evaluate_material;
pub use ordering::{mvv_lva, piece_value, MoveFacts, PieceKind};
pub use search::Search;
pub use tt::{Bound, Entry, Table};
pub use uci::{parse_position, think_time, Command};

verus! {

/// Score of being checkmated at the root; a mate found `n` plies from the
/// root scores `-MATE + n` for the side that is mated.
pub const MATE: i32 = 100_000;

/// A bound larger than any score the search produces.
pub const INF: i32 = 1_000_000;

/// Deepest ply the quiescence search goes to before it stops and evaluates.
pub const MAX_PLY: i32 = 96;

/// Draws are worth nothing to the engine: they score as this small loss for
/// the side that was to move at the root.
pub const CONTEMPT: i32 = 30;

} // verus!
