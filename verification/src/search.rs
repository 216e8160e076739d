//! The search loop: drives nonce generation, board mutation and termination
//! checking, and its full specification model.
//!
//! The model pins the search down as a pure function of the seed and the
//! starting nonce: `board_after` and `king_after` describe the board and the
//! active king after a prefix of nonces, `found_at` is the termination
//! predicate, and `solve_from` is the answer itself.  The executable solver
//! is proved to return exactly `solve_from`, so any two implementations of
//! this contract agree bit for bit.
//!
//! When a placement overwrites the square of a previously counted attacker,
//! this engine drops that attacker: the threat set is recomputed from the
//! current board on every iteration, so it always holds exactly the nonces
//! of the pieces standing on the board that attack the active king.

use vstd::prelude::*;

use crate::board::{nonce_at, occ_at, Board};
use crate::geometry::{spec_isqrt};
use crate::hashing::{derive_move, lemma_move_pos_bound, spec_move_piece, spec_move_pos};
use crate::piece::Piece;
use crate::threats::{spec_attacks, threat_nonces, ThreatTracker};
use crate::{BOARD_SIZE, CHECKS_NEEDED, MAX_TRIES};

verus! {

/// The configuration constants a search runs with.
#[derive(Clone, Copy, Debug, PartialEq, Eq, Structural)]
pub struct SolveConfig {
    /// Total number of board cells.
    pub board_size: u32,
    /// Minimum number of distinct attacking nonces required to terminate.
    pub checks_needed: u32,
    /// Iteration ceiling: nonces strictly below it are tried.
    pub max_tries: u32,
}

/// The configuration the plain `solve` entry point runs with.
pub open spec fn default_config() -> SolveConfig {
    SolveConfig { board_size: BOARD_SIZE, checks_needed: CHECKS_NEEDED, max_tries: MAX_TRIES }
}

/// Side of the virtual square for this configuration.
pub open spec fn cfg_row_size(cfg: SolveConfig) -> int {
    spec_isqrt(cfg.board_size as int)
}

/// The board contents after the moves of nonces `0..n` have been placed.
pub open spec fn board_after(seed: Seq<u8>, cfg: SolveConfig, n: nat) -> Seq<Option<(Piece, u32)>>
    decreases n,
{
    if n == 0 {
        Seq::new(cfg.board_size as nat, |i: int| None::<(Piece, u32)>)
    } else {
        let nonce = (n - 1) as u32;
        board_after(seed, cfg, (n - 1) as nat).update(
            spec_move_pos(seed, nonce, cfg.board_size) as int,
            Some((spec_move_piece(seed, nonce), nonce)),
        )
    }
}

/// The position and nonce of the active king after nonces `0..n`: those of
/// the most recently placed king piece, whether or not its square has since
/// been overwritten.
pub open spec fn king_after(seed: Seq<u8>, cfg: SolveConfig, n: nat) -> Option<(u32, u32)>
    decreases n,
{
    if n == 0 {
        None
    } else if spec_move_piece(seed, (n - 1) as u32) == Piece::KING {
        Some((spec_move_pos(seed, (n - 1) as u32, cfg.board_size), (n - 1) as u32))
    } else {
        king_after(seed, cfg, (n - 1) as nat)
    }
}

/// Whether, right after the move of nonce `i` has been placed, an active
/// king exists and is attacked by at least `checks_needed` distinct pieces.
pub open spec fn found_at(seed: Seq<u8>, cfg: SolveConfig, i: u32) -> bool {
    match king_after(seed, cfg, i as nat + 1) {
        Some((kpos, _)) => threat_nonces(
            board_after(seed, cfg, i as nat + 1),
            cfg_row_size(cfg),
            kpos as int,
        ).len() >= cfg.checks_needed as nat,
        None => false,
    }
}

/// The nonces the reported minimum ranges over when the search stops right
/// after nonce `h`: the attackers of the active king, and the king itself.
pub open spec fn result_set(seed: Seq<u8>, cfg: SolveConfig, h: u32) -> Set<u32> {
    match king_after(seed, cfg, h as nat + 1) {
        Some((kpos, knonce)) => threat_nonces(
            board_after(seed, cfg, h as nat + 1),
            cfg_row_size(cfg),
            kpos as int,
        ).insert(knonce),
        None => Set::empty(),
    }
}

/// The least element of a set of nonces.
pub open spec fn set_min_u32(s: Set<u32>) -> u32 {
    choose|m: u32| s.contains(m) && forall|x: u32| s.contains(x) ==> m <= x
}

/// The pair reported when the search stops right after nonce `h`.
pub open spec fn result_at(seed: Seq<u8>, cfg: SolveConfig, h: u32) -> (u32, u32) {
    (set_min_u32(result_set(seed, cfg, h)), h)
}

/// What a conforming search started at nonce `i` returns: the result at the
/// first iteration at or after `i` whose termination predicate holds, and no
/// result if none exists below `max_tries`.
pub open spec fn solve_from(seed: Seq<u8>, cfg: SolveConfig, i: u32) -> Option<(u32, u32)>
    decreases cfg.max_tries as int - i as int,
{
    if i >= cfg.max_tries {
        None
    } else if found_at(seed, cfg, i) {
        Some(result_at(seed, cfg, i))
    } else {
        solve_from(seed, cfg, (i + 1) as u32)
    }
}

/// A value witnessing the minimum of a set is what `set_min_u32` returns.
pub proof fn lemma_set_min_unique(s: Set<u32>, m: u32)
    requires
        s.contains(m),
        forall|x: u32| s.contains(x) ==> m <= x,
    ensures
        set_min_u32(s) == m,
{
    assert(s.contains(m) && (forall|x: u32| s.contains(x) ==> m <= x));
    let q = set_min_u32(s);
    assert(s.contains(q) && (forall|x: u32| s.contains(x) ==> q <= x)) by {
        assert(exists|c: u32| s.contains(c) && (forall|x: u32| s.contains(x) ==> c <= x));
    }
}

/// Every set of nonces with an element has a least element.
pub proof fn lemma_u32_set_has_min(s: Set<u32>, a: u32)
    requires
        s.contains(a),
    ensures
        s.contains(set_min_u32(s)),
        forall|x: u32| s.contains(x) ==> set_min_u32(s) <= x,
    decreases a,
{
    if exists|x: u32| s.contains(x) && x < a {
        let x = choose|x: u32| s.contains(x) && x < a;
        lemma_u32_set_has_min(s, x);
    } else {
        lemma_set_min_unique(s, a);
    }
}

/// If no iteration in `i..max_tries` satisfies the termination predicate,
/// the search from `i` reports no result.
proof fn lemma_solve_from_none(seed: Seq<u8>, cfg: SolveConfig, i: u32)
    requires
        forall|j: u32| i <= j < cfg.max_tries ==> !found_at(seed, cfg, j),
    ensures
        solve_from(seed, cfg, i) == None::<(u32, u32)>,
    decreases cfg.max_tries as int - i as int,
{
    if i < cfg.max_tries {
        lemma_solve_from_none(seed, cfg, (i + 1) as u32);
    }
}

/// If `h` is the first iteration at or after `i` whose termination predicate
/// holds, the search from `i` reports the result at `h`.
proof fn lemma_solve_from_found(seed: Seq<u8>, cfg: SolveConfig, i: u32, h: u32)
    requires
        i <= h < cfg.max_tries,
        found_at(seed, cfg, h),
        forall|j: u32| i <= j < h ==> !found_at(seed, cfg, j),
    ensures
        solve_from(seed, cfg, i) == Some(result_at(seed, cfg, h)),
    decreases h as int - i as int,
{
    if i < h {
        lemma_solve_from_found(seed, cfg, (i + 1) as u32, h);
    }
}

/// Everything a reported result says: its iteration is the first at or after
/// the start whose predicate holds, and the pair is the result there.
proof fn lemma_solve_from_inv(seed: Seq<u8>, cfg: SolveConfig, i: u32, l: u32, h: u32)
    requires
        solve_from(seed, cfg, i) == Some((l, h)),
    ensures
        i <= h < cfg.max_tries,
        found_at(seed, cfg, h),
        forall|j: u32| i <= j < h ==> !found_at(seed, cfg, j),
        (l, h) == result_at(seed, cfg, h),
    decreases cfg.max_tries as int - i as int,
{
    if i >= cfg.max_tries {
    } else if found_at(seed, cfg, i) {
    } else {
        lemma_solve_from_inv(seed, cfg, (i + 1) as u32, l, h);
    }
}

/// The board model always has exactly `board_size` cells.
proof fn lemma_board_after_len(seed: Seq<u8>, cfg: SolveConfig, n: nat)
    requires
        cfg.board_size >= 1,
    ensures
        board_after(seed, cfg, n).len() == cfg.board_size,
    decreases n,
{
    if n > 0 {
        lemma_board_after_len(seed, cfg, (n - 1) as nat);
        lemma_move_pos_bound(seed, (n - 1) as u32, cfg.board_size);
    }
}

/// The active king, if any, stands at a position on the board and carries a
/// nonce already tried.
proof fn lemma_king_facts(seed: Seq<u8>, cfg: SolveConfig, n: nat)
    requires
        cfg.board_size >= 1,
        n <= u32::MAX + 1,
    ensures
        match king_after(seed, cfg, n) {
            Some((kpos, knonce)) => kpos < cfg.board_size && (knonce as nat) < n,
            None => true,
        },
    decreases n,
{
    if n > 0 {
        lemma_king_facts(seed, cfg, (n - 1) as nat);
        lemma_move_pos_bound(seed, (n - 1) as u32, cfg.board_size);
    }
}

/// Every nonce on the board model is one already tried.
proof fn lemma_board_nonce_bound(seed: Seq<u8>, cfg: SolveConfig, n: nat)
    requires
        cfg.board_size >= 1,
        n <= u32::MAX + 1,
    ensures
        forall|p: int|
            occ_at(board_after(seed, cfg, n), p) ==> (#[trigger] nonce_at(
                board_after(seed, cfg, n),
                p,
            ) as nat) < n,
    decreases n,
{
    if n > 0 {
        lemma_board_nonce_bound(seed, cfg, (n - 1) as nat);
        lemma_board_after_len(seed, cfg, (n - 1) as nat);
        lemma_board_after_len(seed, cfg, n);
        lemma_move_pos_bound(seed, (n - 1) as u32, cfg.board_size);
        assert forall|p: int| occ_at(board_after(seed, cfg, n), p) implies (#[trigger] nonce_at(
            board_after(seed, cfg, n),
            p,
        ) as nat) < n by {
            let prev = board_after(seed, cfg, (n - 1) as nat);
            let pos = spec_move_pos(seed, (n - 1) as u32, cfg.board_size) as int;
            if p != pos {
                assert(occ_at(prev, p));
                assert(nonce_at(board_after(seed, cfg, n), p) == nonce_at(prev, p));
            }
        }
    }
}

/// The least nonce among a duplicate-free list of attackers and the king's
/// own nonce.
fn min_with_king(threats: &Vec<u32>, king_nonce: u32) -> (m: u32)
    ensures
        threats@.to_set().insert(king_nonce).contains(m),
        forall|x: u32| threats@.to_set().insert(king_nonce).contains(x) ==> m <= x,
{
    let ghost s = threats@.to_set().insert(king_nonce);
    let mut m: u32 = king_nonce;
    let mut t: usize = 0;
    while t < threats.len()
        invariant
            t <= threats@.len(),
            s == threats@.to_set().insert(king_nonce),
            s.contains(m),
            m <= king_nonce,
            forall|u: int| 0 <= u < t ==> m <= threats@[u],
        decreases threats@.len() - t,
    {
        if threats[t] < m {
            m = threats[t];
            proof {
                assert(threats@.to_set().contains(threats@[t as int]));
            }
        }
        t = t + 1;
    }
    proof {
        assert forall|x: u32| s.contains(x) implies m <= x by {
            if x != king_nonce {
                assert(threats@.to_set().contains(x));
                let u = choose|u: int| 0 <= u < threats@.len() && threats@[u] == x;
                assert(m <= threats@[u]);
            }
        }
    }
    m
}

/// Searches for the first nonce at or after `start` at which the active king
/// is attacked by at least `checks_needed` pieces at once, replaying nonces
/// `0..start` first to reconstruct the board state.  Returns the smallest
/// nonce among those attackers and the king itself, together with the
/// iteration at which the condition was detected; or nothing if the search
/// exhausts `max_tries` iterations.
pub fn solve_with(cfg: &SolveConfig, starting_hash: &[u8], start: u32) -> (r: Option<(u32, u32)>)
    requires
        cfg.board_size >= 1,
    ensures
        r == solve_from(starting_hash@, *cfg, start),
        match r {
            Some((l, h)) => {
                &&& start <= h < cfg.max_tries
                &&& found_at(starting_hash@, *cfg, h)
                &&& forall|j: u32| start <= j < h ==> !found_at(starting_hash@, *cfg, j)
                &&& result_set(starting_hash@, *cfg, h).contains(l)
                &&& forall|x: u32| result_set(starting_hash@, *cfg, h).contains(x) ==> l <= x
            },
            None => forall|j: u32| start <= j < cfg.max_tries ==> !found_at(starting_hash@, *cfg, j),
        },
{
    let ghost seed = starting_hash@;
    let ghost c = *cfg;
    let mut board = Board::new(cfg.board_size);
    let mut tracker = ThreatTracker::new(cfg.board_size);
    let mut last_king: Option<(u32, u32)> = None;
    proof {
        assert(board@ =~= Seq::new(cfg.board_size as nat, |i: int| None::<(Piece, u32)>));
        assert(board@ =~= board_after(seed, c, 0));
    }
    let mut j: u32 = 0;
    while j < start
        invariant
            cfg.board_size >= 1,
            c == *cfg,
            seed == starting_hash@,
            j <= start,
            board@ == board_after(seed, c, j as nat),
            board@.len() == cfg.board_size,
            tracker.consistent_with(board@),
            tracker.spec_row_size() as int == cfg_row_size(c),
            last_king == king_after(seed, c, j as nat),
        decreases start - j,
    {
        let (piece, pos) = derive_move(starting_hash, j, cfg.board_size);
        tracker.place_piece(&mut board, pos, piece, j);
        if piece == Piece::KING {
            last_king = Some((pos, j));
        }
        proof {
            lemma_board_after_len(seed, c, j as nat + 1);
        }
        j = j + 1;
    }
    let mut i: u32 = start;
    while i < cfg.max_tries
        invariant
            cfg.board_size >= 1,
            c == *cfg,
            seed == starting_hash@,
            start <= i,
            board@ == board_after(seed, c, i as nat),
            board@.len() == cfg.board_size,
            tracker.consistent_with(board@),
            tracker.spec_row_size() as int == cfg_row_size(c),
            last_king == king_after(seed, c, i as nat),
            forall|j2: u32| start <= j2 < i ==> !found_at(seed, c, j2),
        decreases cfg.max_tries as int - i as int,
    {
        let (piece, pos) = derive_move(starting_hash, i, cfg.board_size);
        tracker.place_piece(&mut board, pos, piece, i);
        if piece == Piece::KING {
            last_king = Some((pos, i));
        }
        proof {
            lemma_board_after_len(seed, c, i as nat + 1);
            assert(board@ == board_after(seed, c, i as nat + 1));
            assert(last_king == king_after(seed, c, i as nat + 1));
        }
        if let Some((king_pos, king_nonce)) = last_king {
            proof {
                lemma_king_facts(seed, c, i as nat + 1);
            }
            let threats = tracker.calculate_threats(&board, king_pos);
            proof {
                threats@.unique_seq_to_set();
            }
            if threats.len() >= cfg.checks_needed as usize {
                proof {
                    assert(found_at(seed, c, i));
                }
                let ghost s = result_set(seed, c, i);
                let m = min_with_king(&threats, king_nonce);
                proof {
                    assert(s == threats@.to_set().insert(king_nonce));
                    lemma_set_min_unique(s, m);
                    assert(result_at(seed, c, i) == (m, i));
                    lemma_solve_from_found(seed, c, start, i);
                }
                return Some((m, i));
            } else {
                proof {
                    assert(!found_at(seed, c, i));
                }
            }
        } else {
            proof {
                assert(!found_at(seed, c, i));
            }
        }
        i = i + 1;
    }
    proof {
        lemma_solve_from_none(seed, c, start);
    }
    None
}

/// Searches with the default configuration: the fixed board size, attacker
/// threshold and iteration ceiling.
pub fn solve(starting_hash: &[u8], start: u32) -> (r: Option<(u32, u32)>)
    ensures
        r == solve_from(starting_hash@, default_config(), start),
        match r {
            Some((l, h)) => {
                &&& start <= h < MAX_TRIES
                &&& found_at(starting_hash@, default_config(), h)
                &&& forall|j: u32| start <= j < h ==> !found_at(starting_hash@, default_config(), j)
                &&& result_set(starting_hash@, default_config(), h).contains(l)
                &&& forall|x: u32|
                    result_set(starting_hash@, default_config(), h).contains(x) ==> l <= x
            },
            None => forall|j: u32|
                start <= j < MAX_TRIES ==> !found_at(starting_hash@, default_config(), j),
        },
{
    let cfg = SolveConfig { board_size: BOARD_SIZE, checks_needed: CHECKS_NEEDED, max_tries: MAX_TRIES };
    solve_with(&cfg, starting_hash, start)
}

/// Determinism: for one seed, configuration and starting nonce there is one
/// answer, `solve_from`; any two results meeting `solve_with`'s contract are
/// therefore identical.
pub proof fn lemma_deterministic(
    seed: Seq<u8>,
    cfg: SolveConfig,
    start: u32,
    r1: Option<(u32, u32)>,
    r2: Option<(u32, u32)>,
)
    requires
        r1 == solve_from(seed, cfg, start),
        r2 == solve_from(seed, cfg, start),
    ensures
        r1 == r2,
{
}

/// Resumability: if the search from nonce zero stops at `(l, h)`, then
/// restarting the search at the winning nonce `l` reproduces exactly the
/// same answer.
pub proof fn lemma_resumable(seed: Seq<u8>, cfg: SolveConfig, l: u32, h: u32)
    requires
        cfg.board_size >= 1,
        solve_from(seed, cfg, 0) == Some((l, h)),
    ensures
        solve_from(seed, cfg, l) == Some((l, h)),
{
    lemma_solve_from_inv(seed, cfg, 0, l, h);
    let s = result_set(seed, cfg, h);
    lemma_king_facts(seed, cfg, h as nat + 1);
    lemma_board_nonce_bound(seed, cfg, h as nat + 1);
    match king_after(seed, cfg, h as nat + 1) {
        Some((kpos, knonce)) => {
            lemma_u32_set_has_min(s, knonce);
            assert(l == set_min_u32(s));
            assert(s.contains(l));
            assert forall|x: u32| s.contains(x) implies x <= h by {
                if x != knonce {
                    let b = board_after(seed, cfg, h as nat + 1);
                    let p = choose|p: int|
                        #[trigger] spec_attacks(b, cfg_row_size(cfg), kpos as int, p) && nonce_at(
                            b,
                            p,
                        ) == x;
                }
            }
            assert(l <= h);
            lemma_solve_from_found(seed, cfg, l, h);
        },
        None => {
            assert(false);
        },
    }
}

/// Cross-implementation agreement: any two results that both satisfy the
/// termination characterization for the same seed, configuration and start
/// are the same pair.  Together with the contract of `solve_with`, all
/// conforming implementations return identical results.
pub proof fn lemma_conforming_unique(
    seed: Seq<u8>,
    cfg: SolveConfig,
    start: u32,
    l1: u32,
    h1: u32,
    l2: u32,
    h2: u32,
)
    requires
        start <= h1 < cfg.max_tries,
        found_at(seed, cfg, h1),
        forall|j: u32| start <= j < h1 ==> !found_at(seed, cfg, j),
        result_set(seed, cfg, h1).contains(l1),
        forall|x: u32| result_set(seed, cfg, h1).contains(x) ==> l1 <= x,
        start <= h2 < cfg.max_tries,
        found_at(seed, cfg, h2),
        forall|j: u32| start <= j < h2 ==> !found_at(seed, cfg, j),
        result_set(seed, cfg, h2).contains(l2),
        forall|x: u32| result_set(seed, cfg, h2).contains(x) ==> l2 <= x,
    ensures
        l1 == l2,
        h1 == h2,
{
    assert(h1 == h2);
    assert(l1 <= l2 && l2 <= l1);
}

} // verus!
