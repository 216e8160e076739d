//! The board: which piece, placed by which nonce, occupies which position.
//!
//! Placement has last-write-wins semantics: placing onto an occupied position
//! overwrites the previous entry, which from then on contributes nothing to
//! any threat computation.  There is no other way to clear a position.

use vstd::prelude::*;

use crate::piece::Piece;

verus! {

/// Whether position `p` is currently occupied.
pub open spec fn occ_at(cells: Seq<Option<(Piece, u32)>>, p: int) -> bool {
    0 <= p < cells.len() && cells[p] is Some
}

/// The kind of the piece at an occupied position `p`.
pub open spec fn kind_at(cells: Seq<Option<(Piece, u32)>>, p: int) -> Piece
    recommends
        occ_at(cells, p),
{
    match cells[p] {
        Some((k, _)) => k,
        None => Piece::PAWN,
    }
}

/// The nonce of the piece at an occupied position `p`.
pub open spec fn nonce_at(cells: Seq<Option<(Piece, u32)>>, p: int) -> u32
    recommends
        occ_at(cells, p),
{
    match cells[p] {
        Some((_, n)) => n,
        None => 0,
    }
}

/// A dense store of the board cells, indexed by position.
pub struct Board {
    cells: Vec<Option<(Piece, u32)>>,
}

impl View for Board {
    type V = Seq<Option<(Piece, u32)>>;

    closed spec fn view(&self) -> Seq<Option<(Piece, u32)>> {
        self.cells@
    }
}

impl Board {
    /// Creates an empty board with `board_size` cells.
    pub fn new(board_size: u32) -> (r: Board)
        ensures
            r@.len() == board_size,
            forall|p: int| 0 <= p < board_size ==> r@[p] is None,
    {
        let mut cells: Vec<Option<(Piece, u32)>> = Vec::new();
        let mut i: u32 = 0;
        while i < board_size
            invariant
                cells@.len() == i,
                i <= board_size,
                forall|p: int| 0 <= p < i ==> cells@[p] is None,
            decreases board_size - i,
        {
            cells.push(None);
            i = i + 1;
        }
        Board { cells }
    }

    /// Number of cells on the board.
    pub fn size(&self) -> (r: usize)
        ensures
            r == self@.len(),
    {
        self.cells.len()
    }

    /// The most recently placed piece and nonce at `pos`, if any.
    pub fn get(&self, pos: u32) -> (r: Option<(Piece, u32)>)
        requires
            (pos as int) < self@.len(),
        ensures
            r == self@[pos as int],
    {
        self.cells[pos as usize]
    }

    /// Unconditionally overwrites whatever was at `pos`, returning the
    /// previous occupant so callers can adjust acceleration structures.
    pub fn place(&mut self, pos: u32, piece: Piece, nonce: u32) -> (prev: Option<(Piece, u32)>)
        requires
            (pos as int) < old(self)@.len(),
        ensures
            prev == old(self)@[pos as int],
            final(self)@ == old(self)@.update(pos as int, Some((piece, nonce))),
    {
        let prev = self.cells[pos as usize];
        self.cells.set(pos as usize, Some((piece, nonce)));
        prev
    }
}

} // verus!
