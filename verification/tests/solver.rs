//! End-to-end tests of the search loop.

use kingsearch::{solve, solve_with, SolveConfig, MAX_TRIES};

#[test]
fn zero_seed_scenario() {
    let seed = [0u8; 32];
    match solve(&seed, 0) {
        Some((l, h)) => {
            assert!(l <= h);
            assert!(h < MAX_TRIES);
        }
        None => {}
    }
}

#[test]
fn determinism_zero_seed() {
    let seed = [0u8; 32];
    assert_eq!(solve(&seed, 0), solve(&seed, 0));
}

#[test]
fn determinism_other_seeds() {
    for b in [1u8, 7, 42, 200] {
        let seed = [b; 32];
        assert_eq!(solve(&seed, 0), solve(&seed, 0));
    }
}

#[test]
fn resumability_zero_seed() {
    let seed = [0u8; 32];
    if let Some((l, h)) = solve(&seed, 0) {
        assert_eq!(solve(&seed, l), Some((l, h)));
    }
}

#[test]
fn resumability_small_boards() {
    for b in [0u8, 3, 9, 77, 250] {
        let seed = [b; 32];
        let cfg = SolveConfig { board_size: 400, checks_needed: 2, max_tries: 1000 };
        if let Some((l, h)) = solve_with(&cfg, &seed, 0) {
            assert_eq!(solve_with(&cfg, &seed, l), Some((l, h)));
        }
    }
}

#[test]
fn small_board_finds_solution() {
    // On a tiny board pieces pile up quickly, so a double check arises fast.
    let seed = [5u8; 32];
    let cfg = SolveConfig { board_size: 100, checks_needed: 2, max_tries: 1000 };
    let r = solve_with(&cfg, &seed, 0);
    assert!(r.is_some());
    let (l, h) = r.unwrap();
    assert!(l <= h);
    assert!(h < 1000);
}

#[test]
fn exhausted_when_no_tries() {
    let seed = [1u8; 32];
    let cfg = SolveConfig { board_size: 100, checks_needed: 2, max_tries: 0 };
    assert_eq!(solve_with(&cfg, &seed, 0), None);
}

#[test]
fn exhausted_when_threshold_unreachable() {
    let seed = [1u8; 32];
    let cfg = SolveConfig { board_size: 100, checks_needed: 1000, max_tries: 50 };
    assert_eq!(solve_with(&cfg, &seed, 0), None);
}

#[test]
fn start_beyond_ceiling_returns_none() {
    let seed = [1u8; 32];
    let cfg = SolveConfig { board_size: 100, checks_needed: 2, max_tries: 10 };
    assert_eq!(solve_with(&cfg, &seed, 10), None);
    assert_eq!(solve_with(&cfg, &seed, 11), None);
}

#[test]
fn zero_checks_needed_stops_at_first_king() {
    let seed = [9u8; 32];
    let cfg = SolveConfig { board_size: 100, checks_needed: 0, max_tries: 200 };
    // With a threshold of zero, the search stops as soon as a king exists.
    if let Some((l, h)) = solve_with(&cfg, &seed, 0) {
        assert!(l <= h);
        assert!(h < 200);
    }
}

#[test]
fn zero_seed_exact_answer() {
    let seed = [0u8; 32];
    assert_eq!(solve(&seed, 0), Some((53, 93)));
    // resuming at the winning nonce reproduces the same pair
    assert_eq!(solve(&seed, 53), Some((53, 93)));
}

#[test]
fn fixed_seed_exact_answers() {
    assert_eq!(solve(&[1u8; 32], 0), Some((81, 110)));
    assert_eq!(solve(&[2u8; 32], 0), Some((169, 273)));
    assert_eq!(solve(&[3u8; 32], 0), Some((31, 193)));
    assert_eq!(solve(&[42u8; 32], 0), Some((22, 117)));
}

#[test]
fn agrees_with_reference_prover_when_no_blocking_arises() {
    // This engine honors line-of-sight blocking for sliding pieces, while
    // libbucharesthashing's prover counts sliders through intervening
    // pieces; on seeds where no blocking situation arises before
    // termination the two return the same pair.
    for b in [0u8, 1, 42] {
        let seed = [b; 32];
        assert_eq!(solve(&seed, 0), libbucharesthashing::prover::default_solve(&seed, 0));
    }
}

#[test]
fn failure_payload_is_empty() {
    assert!(kingsearch::panic().is_empty());
}
