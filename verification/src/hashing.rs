//! The move generator: a keyed hash of the seed drives, per nonce, the
//! choice of piece kind and board position.

use vstd::prelude::*;

use crate::piece::{piece_from_index, spec_piece_from_index, Piece};

verus! {

/// The 64-bit pseudo-random value that drives move derivation, as a function
/// of the seed bytes and the nonce alone.
pub uninterp spec fn hash_of(seed: Seq<u8>, nonce: u32) -> u64;

/// Relies on `libbucharesthashing::prover::hash`: a SipHash-1-3 digest of the
/// seed bytes, keyed by a 16-byte buffer that is all zero except for its last
/// four bytes, which hold the big-endian encoding of the nonce.  The result
/// is a function of the seed bytes and the nonce alone.
#[verifier::external_body]
fn keyed_hash(seed: &[u8], nonce: u32) -> (r: u64)
    ensures
        r == hash_of(seed@, nonce),
{
    libbucharesthashing::prover::hash(seed, nonce)
}

/// The piece kind a hash value derives: the hash modulo the number of kinds.
pub open spec fn spec_piece_of(h: u64) -> Piece {
    spec_piece_from_index(h % 6)
}

/// The position a hash value derives: its upper 32 bits modulo the board
/// size.
pub open spec fn spec_pos_of(h: u64, board_size: u32) -> u32
    recommends
        board_size > 0,
{
    (((h / 0x1_0000_0000) as u64) % (board_size as u64)) as u32
}

/// The piece kind derived for a nonce.
pub open spec fn spec_move_piece(seed: Seq<u8>, nonce: u32) -> Piece {
    spec_piece_of(hash_of(seed, nonce))
}

/// The position derived for a nonce.
pub open spec fn spec_move_pos(seed: Seq<u8>, nonce: u32, board_size: u32) -> u32
    recommends
        board_size > 0,
{
    spec_pos_of(hash_of(seed, nonce), board_size)
}

/// A derived position always lies on the board.
pub proof fn lemma_move_pos_bound(seed: Seq<u8>, nonce: u32, board_size: u32)
    requires
        board_size > 0,
    ensures
        spec_move_pos(seed, nonce, board_size) < board_size,
{
    let h = hash_of(seed, nonce);
    let q = (h / 0x1_0000_0000) as u64;
    assert(q % (board_size as u64) < board_size as u64);
}

/// Derives the move for a nonce: a piece kind and a board position.  Pure
/// and side-effect free: the same seed and nonce always give the same move.
pub fn derive_move(starting_hash: &[u8], nonce: u32, board_size: u32) -> (r: (Piece, u32))
    requires
        board_size > 0,
    ensures
        r.0 == spec_move_piece(starting_hash@, nonce),
        r.1 == spec_move_pos(starting_hash@, nonce, board_size),
        r.1 < board_size,
{
    let e = keyed_hash(starting_hash, nonce);
    let p_id = e % 6;
    let p = piece_from_index(p_id);
    proof {
        vstd::arithmetic::power2::lemma2_to64();
        vstd::bits::lemma_u64_shr_is_div(e, 32);
    }
    let offset_64 = e >> 32;
    let offset = (offset_64 % (board_size as u64)) as u32;
    (p, offset)
}

} // verus!
