//! The closed set of piece kinds.

use vstd::prelude::*;

verus! {

/// A piece kind, in the fixed total order used for move derivation: the
/// move generator derives an index in `0..=5` and maps it to a kind in this
/// declaration order.
#[derive(Clone, Copy, Debug, PartialEq, Eq, Structural)]
pub enum Piece {
    PAWN,
    KNIGHT,
    BISHOP,
    CASTLE,
    QUEEN,
    KING,
}

/// The kind a derived index stands for.
pub open spec fn spec_piece_from_index(i: u64) -> Piece {
    if i == 0 {
        Piece::PAWN
    } else if i == 1 {
        Piece::KNIGHT
    } else if i == 2 {
        Piece::BISHOP
    } else if i == 3 {
        Piece::CASTLE
    } else if i == 4 {
        Piece::QUEEN
    } else {
        Piece::KING
    }
}

/// Maps a derived index in `0..=5` to its piece kind.
pub fn piece_from_index(i: u64) -> (r: Piece)
    requires
        i < 6,
    ensures
        r == spec_piece_from_index(i),
{
    if i == 0 {
        Piece::PAWN
    } else if i == 1 {
        Piece::KNIGHT
    } else if i == 2 {
        Piece::BISHOP
    } else if i == 3 {
        Piece::CASTLE
    } else if i == 4 {
        Piece::QUEEN
    } else {
        Piece::KING
    }
}

/// A sliding piece attacks along a line only if no other piece occupies an
/// intervening cell.
pub open spec fn is_slider(p: Piece) -> bool {
    p == Piece::CASTLE || p == Piece::BISHOP || p == Piece::QUEEN
}

} // verus!
