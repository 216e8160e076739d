//! Scenario tests of the board, the attack predicate and the threat
//! detector, on a 10 by 10 board (100 cells, row size 10).

use kingsearch::threats::is_checking;
use kingsearch::{Board, Piece, ThreatTracker};

const RS: u32 = 10;

fn pos(x: u32, y: u32) -> u32 {
    y * RS + x
}

fn setup() -> (Board, ThreatTracker) {
    (Board::new(100), ThreatTracker::new(100))
}

#[test]
fn board_place_and_get() {
    let (mut board, _) = setup();
    assert_eq!(board.get(pos(3, 4)), None);
    let prev = board.place(pos(3, 4), Piece::QUEEN, 7);
    assert_eq!(prev, None);
    assert_eq!(board.get(pos(3, 4)), Some((Piece::QUEEN, 7)));
    // last write wins: overwriting returns the previous occupant
    let prev = board.place(pos(3, 4), Piece::PAWN, 9);
    assert_eq!(prev, Some((Piece::QUEEN, 7)));
    assert_eq!(board.get(pos(3, 4)), Some((Piece::PAWN, 9)));
}

#[test]
fn pawn_attack_geometry() {
    let (mut board, mut tracker) = setup();
    let king = pos(5, 5);
    tracker.place_piece(&mut board, pos(4, 4), Piece::PAWN, 0);
    tracker.place_piece(&mut board, pos(6, 4), Piece::PAWN, 1);
    tracker.place_piece(&mut board, pos(4, 6), Piece::PAWN, 2);
    tracker.place_piece(&mut board, pos(5, 4), Piece::PAWN, 3);
    assert!(is_checking(&board, RS, king, pos(4, 4), Piece::PAWN));
    assert!(is_checking(&board, RS, king, pos(6, 4), Piece::PAWN));
    assert!(!is_checking(&board, RS, king, pos(4, 6), Piece::PAWN));
    assert!(!is_checking(&board, RS, king, pos(5, 4), Piece::PAWN));
    let mut threats = tracker.calculate_threats(&board, king);
    threats.sort();
    assert_eq!(threats, vec![0, 1]);
}

#[test]
fn knight_attack_geometry() {
    let (mut board, mut tracker) = setup();
    let king = pos(5, 5);
    tracker.place_piece(&mut board, pos(6, 7), Piece::KNIGHT, 0);
    tracker.place_piece(&mut board, pos(3, 4), Piece::KNIGHT, 1);
    tracker.place_piece(&mut board, pos(6, 6), Piece::KNIGHT, 2);
    assert!(is_checking(&board, RS, king, pos(6, 7), Piece::KNIGHT));
    assert!(is_checking(&board, RS, king, pos(3, 4), Piece::KNIGHT));
    assert!(!is_checking(&board, RS, king, pos(6, 6), Piece::KNIGHT));
    let mut threats = tracker.calculate_threats(&board, king);
    threats.sort();
    assert_eq!(threats, vec![0, 1]);
}

#[test]
fn sliders_blocked_by_intervening_piece() {
    let (mut board, mut tracker) = setup();
    let king = pos(5, 5);
    // a castle down the column attacks until a pawn stands in between
    tracker.place_piece(&mut board, pos(5, 9), Piece::CASTLE, 0);
    assert!(is_checking(&board, RS, king, pos(5, 9), Piece::CASTLE));
    assert_eq!(tracker.calculate_threats(&board, king), vec![0]);
    tracker.place_piece(&mut board, pos(5, 7), Piece::PAWN, 1);
    assert!(!is_checking(&board, RS, king, pos(5, 9), Piece::CASTLE));
    assert_eq!(tracker.calculate_threats(&board, king), Vec::<u32>::new());
}

#[test]
fn bishop_and_queen_diagonals() {
    let (mut board, mut tracker) = setup();
    let king = pos(5, 5);
    tracker.place_piece(&mut board, pos(2, 2), Piece::BISHOP, 0);
    tracker.place_piece(&mut board, pos(8, 2), Piece::QUEEN, 1);
    tracker.place_piece(&mut board, pos(2, 8), Piece::CASTLE, 2);
    assert!(is_checking(&board, RS, king, pos(2, 2), Piece::BISHOP));
    assert!(is_checking(&board, RS, king, pos(8, 2), Piece::QUEEN));
    // a castle does not attack along a diagonal
    assert!(!is_checking(&board, RS, king, pos(2, 8), Piece::CASTLE));
    let mut threats = tracker.calculate_threats(&board, king);
    threats.sort();
    assert_eq!(threats, vec![0, 1]);
    // blocking the bishop's diagonal removes it from the threats (a knight
    // there blocks without attacking)
    tracker.place_piece(&mut board, pos(4, 4), Piece::KNIGHT, 3);
    let threats = tracker.calculate_threats(&board, king);
    assert_eq!(threats, vec![1]);
}

#[test]
fn queen_on_row_and_column() {
    let (mut board, mut tracker) = setup();
    let king = pos(5, 5);
    tracker.place_piece(&mut board, pos(0, 5), Piece::QUEEN, 4);
    tracker.place_piece(&mut board, pos(5, 0), Piece::CASTLE, 5);
    let mut threats = tracker.calculate_threats(&board, king);
    threats.sort();
    assert_eq!(threats, vec![4, 5]);
}

#[test]
fn king_adjacent_to_previous_king() {
    // A king placed next to an earlier king is attacked by it.
    let (mut board, mut tracker) = setup();
    tracker.place_piece(&mut board, pos(5, 5), Piece::KING, 0);
    tracker.place_piece(&mut board, pos(5, 6), Piece::KING, 1);
    let threats = tracker.calculate_threats(&board, pos(5, 6));
    assert_eq!(threats, vec![0]);
    // and the earlier king is likewise attacked by the new one
    let threats = tracker.calculate_threats(&board, pos(5, 5));
    assert_eq!(threats, vec![1]);
}

#[test]
fn overwritten_attacker_stops_counting() {
    // A piece landing on a counted attacker's square removes that attacker:
    // the threat set is recomputed from the current board.
    let (mut board, mut tracker) = setup();
    let king = pos(5, 5);
    tracker.place_piece(&mut board, pos(5, 9), Piece::CASTLE, 0);
    tracker.place_piece(&mut board, pos(1, 1), Piece::KNIGHT, 1);
    assert_eq!(tracker.calculate_threats(&board, king), vec![0]);
    tracker.place_piece(&mut board, pos(5, 9), Piece::KNIGHT, 2);
    assert_eq!(tracker.calculate_threats(&board, king), Vec::<u32>::new());
}

#[test]
fn no_attack_from_or_to_same_cell() {
    let (mut board, _) = setup();
    board.place(pos(5, 5), Piece::QUEEN, 0);
    assert!(!is_checking(&board, RS, pos(5, 5), pos(5, 5), Piece::QUEEN));
}

#[test]
fn out_of_square_positions_never_attack() {
    // Board of 110 cells: row size 10, positions 100..=109 fall outside the
    // 10 by 10 square and neither attack nor are attacked.
    let mut board = Board::new(110);
    let mut tracker = ThreatTracker::new(110);
    let king = pos(5, 5);
    tracker.place_piece(&mut board, 105, Piece::QUEEN, 0);
    assert!(!is_checking(&board, RS, king, 105, Piece::QUEEN));
    assert_eq!(tracker.calculate_threats(&board, king), Vec::<u32>::new());
    // a king standing outside the square has no attackers at all
    tracker.place_piece(&mut board, pos(5, 5), Piece::QUEEN, 1);
    assert_eq!(tracker.calculate_threats(&board, 105), Vec::<u32>::new());
}

#[test]
fn full_recompute_matches_predicate() {
    // Every currently placed piece that the predicate says attacks the king,
    // and no other, shows up in the computed threat set.
    let (mut board, mut tracker) = setup();
    let king = pos(4, 4);
    let placements = [
        (pos(3, 3), Piece::PAWN, 10u32),
        (pos(5, 3), Piece::KNIGHT, 11),
        (pos(2, 6), Piece::KNIGHT, 12),
        (pos(4, 0), Piece::CASTLE, 13),
        (pos(0, 0), Piece::BISHOP, 14),
        (pos(8, 8), Piece::QUEEN, 15),
        (pos(3, 4), Piece::KING, 16),
        (pos(9, 4), Piece::QUEEN, 17),
        (pos(6, 4), Piece::PAWN, 18),
    ];
    for (p, k, n) in placements {
        tracker.place_piece(&mut board, p, k, n);
    }
    let mut expected: Vec<u32> = Vec::new();
    for (p, k, n) in placements {
        if board.get(p) == Some((k, n)) && is_checking(&board, RS, king, p, k) {
            expected.push(n);
        }
    }
    let mut threats = tracker.calculate_threats(&board, king);
    threats.sort();
    expected.sort();
    assert_eq!(threats, expected);
}
