//! Unit tests of the coordinate helpers and the move generator.

use kingsearch::geometry::{
    get_anti_diagonal, get_diagonal, get_y_on_anti_diagonal, in_bounds, isqrt, pos_to_xy,
    xy_to_pos,
};
use kingsearch::hashing::derive_move;
use kingsearch::{Piece, BOARD_SIZE};

#[test]
fn coordinate_round_trip() {
    assert_eq!(pos_to_xy(10, 57), (7, 5));
    assert_eq!(xy_to_pos(10, 7, 5), 57);
    assert_eq!(pos_to_xy(362, 0), (0, 0));
    for p in [0u32, 1, 9, 99, 361, 1000] {
        let (x, y) = pos_to_xy(362, p);
        assert_eq!(xy_to_pos(362, x, y), p);
    }
}

#[test]
fn bounds_check_is_strict() {
    assert!(in_bounds(10, 9, 9));
    assert!(!in_bounds(10, 10, 0));
    assert!(!in_bounds(10, 0, 10));
    assert!(!in_bounds(10, u32::MAX, 0));
}

#[test]
fn diagonal_indices() {
    assert_eq!(get_diagonal(0, 0), 0);
    assert_eq!(get_diagonal(3, 4), 7);
    assert_eq!(get_anti_diagonal(0, 0, 10), 9);
    assert_eq!(get_anti_diagonal(9, 0, 10), 18);
    assert_eq!(get_anti_diagonal(0, 9, 10), 0);
    assert_eq!(get_anti_diagonal(3, 4, 10), 8);
}

#[test]
fn y_on_anti_diagonal() {
    // anti-diagonal 8 crosses column 3 at row 4 on a 10-wide square
    assert_eq!(get_y_on_anti_diagonal(3, 8, 10), Some(4));
    // anti-diagonal 0 crosses column 0 at row 9
    assert_eq!(get_y_on_anti_diagonal(0, 0, 10), Some(9));
    // anti-diagonal 18 does not reach column 0
    assert_eq!(get_y_on_anti_diagonal(0, 18, 10), None);
}

#[test]
fn isqrt_exact_values() {
    assert_eq!(isqrt(0), 0);
    assert_eq!(isqrt(1), 1);
    assert_eq!(isqrt(3), 1);
    assert_eq!(isqrt(4), 2);
    assert_eq!(isqrt(99), 9);
    assert_eq!(isqrt(100), 10);
    assert_eq!(isqrt(0x1FFFF), 362);
    assert_eq!(isqrt(u32::MAX), 65535);
}

#[test]
fn derive_move_follows_keyed_hash() {
    // The derived move must be the keyed hash taken modulo the number of
    // kinds and, from its upper half, modulo the board size.  This fails if
    // the hash wrapper returned anything but the real digest.
    let kinds = [
        Piece::PAWN,
        Piece::KNIGHT,
        Piece::BISHOP,
        Piece::CASTLE,
        Piece::QUEEN,
        Piece::KING,
    ];
    for b in [0u8, 1, 42] {
        let seed = [b; 32];
        for nonce in 0..50u32 {
            let e = libbucharesthashing::prover::hash(&seed, nonce);
            let expected_kind = kinds[(e % 6) as usize];
            let expected_pos = ((e >> 32) as u32) % BOARD_SIZE;
            assert_eq!(derive_move(&seed, nonce, BOARD_SIZE), (expected_kind, expected_pos));
        }
    }
}

#[test]
fn derive_move_depends_on_nonce() {
    let seed = [0u8; 32];
    let mut distinct = false;
    for nonce in 1..20u32 {
        if derive_move(&seed, nonce, BOARD_SIZE) != derive_move(&seed, 0, BOARD_SIZE) {
            distinct = true;
        }
    }
    assert!(distinct);
}
