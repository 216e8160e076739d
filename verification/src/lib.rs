//! A deterministic puzzle solver over a virtual chess board.
//!
//! Starting from a seed, the solver derives for each nonce a pseudo-random
//! move (a piece kind and a board position) from a keyed hash, places the
//! piece on the board (overwriting whatever was there), and stops as soon as
//! the most recently placed king is attacked by at least `checks_needed`
//! pieces at once.  It returns the smallest nonce among the attackers and the
//! king itself, together with the iteration at which the condition was first
//! detected.
//!
//! The result is a pure function of the seed and the starting nonce: the
//! contract of [`search::solve_with`] pins the answer to the specification
//! model, so any two implementations of that contract agree bit for bit.

use vstd::prelude::*;

pub mod board;
pub mod counts;
pub mod geometry;
pub mod hashing;
pub mod piece;
pub mod search;
pub mod threats;

pub use board::Board;
pub use piece::Piece;
pub use search::{solve, solve_with, SolveConfig};
pub use threats::ThreatTracker;

verus! {

/// Total number of cells on the default board.
pub const BOARD_SIZE: u32 = 0x1FFFF;

/// Iteration ceiling of the default search.
pub const MAX_TRIES: u32 = 10_000;

/// Number of simultaneous attackers that ends the default search.
pub const CHECKS_NEEDED: u32 = 2;

/// What the program shell reports where execution cannot continue: the empty
/// failure payload its caller surfaces.  The library's own functions are
/// verified never to reach such a state, so nothing in this crate calls it.
pub fn panic() -> (r: Vec<u8>)
    ensures
        r@.len() == 0,
{
    Vec::new()
}

} // verus!
