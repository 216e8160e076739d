//! The threat detector: whether a piece attacks the king, and the
//! enumeration of all current attackers of a king.

use vstd::prelude::*;

use crate::board::{kind_at, nonce_at, occ_at, Board};
use crate::counts::{
    counts_on, lemma_all_counts_update, lemma_count_empty, lemma_count_le, lemma_count_member,
    lemma_count_zero, slider_count, Line,
};
use crate::geometry::{
    abs_diff, get_anti_diagonal, get_diagonal, grid_wf, in_square, isqrt, kind_geometry_ok,
    lemma_row_size_bound, pos_to_xy, sgn, spec_isqrt, spec_x, spec_y, xy_to_pos,
};
use crate::piece::{is_slider, Piece};

verus! {

/// The cell at in-square coordinates `(x, y)`.
pub open spec fn cell_at(cells: Seq<Option<(Piece, u32)>>, rs: int, x: int, y: int) -> Option<
    (Piece, u32),
>
    recommends
        in_square(rs, x, y),
{
    cells[y * rs + x]
}

/// The cell `k` steps away from `(ax, ay)` along direction `(sx, sy)`.
pub open spec fn ray_cell(
    cells: Seq<Option<(Piece, u32)>>,
    rs: int,
    ax: int,
    ay: int,
    sx: int,
    sy: int,
    k: int,
) -> Option<(Piece, u32)> {
    cell_at(cells, rs, ax + k * sx, ay + k * sy)
}

/// Whether the cell `k` steps from `(ax, ay)` along `(sx, sy)` is on the
/// square.
pub open spec fn ray_in_square(rs: int, ax: int, ay: int, sx: int, sy: int, k: int) -> bool {
    in_square(rs, ax + k * sx, ay + k * sy)
}

/// Number of steps between two aligned cells along their shared line.
pub open spec fn seg_dist(ax: int, ay: int, bx: int, by: int) -> int {
    if abs_diff(ax, bx) >= abs_diff(ay, by) {
        abs_diff(ax, bx)
    } else {
        abs_diff(ay, by)
    }
}

/// No occupied cell strictly between `(ax, ay)` and `(bx, by)` along their
/// shared row, column or diagonal.  Occupancy by any piece blocks.
pub open spec fn seg_clear(
    cells: Seq<Option<(Piece, u32)>>,
    rs: int,
    ax: int,
    ay: int,
    bx: int,
    by: int,
) -> bool {
    forall|k: int|
        1 <= k < seg_dist(ax, ay, bx, by) ==> !((#[trigger] ray_cell(
            cells,
            rs,
            ax,
            ay,
            sgn(bx - ax),
            sgn(by - ay),
            k,
        )) is Some)
}

/// Whether a piece of kind `piece` standing at `piece_pos` attacks a king at
/// `king_pos`: the per-kind geometric condition, plus line-of-sight for
/// sliding pieces.  Cells outside the virtual square neither attack nor are
/// attacked.
pub open spec fn spec_is_checking(
    cells: Seq<Option<(Piece, u32)>>,
    rs: int,
    king_pos: int,
    piece_pos: int,
    piece: Piece,
) -> bool {
    let kx = spec_x(rs, king_pos);
    let ky = spec_y(rs, king_pos);
    let px = spec_x(rs, piece_pos);
    let py = spec_y(rs, piece_pos);
    &&& 0 <= king_pos
    &&& 0 <= piece_pos
    &&& in_square(rs, kx, ky)
    &&& in_square(rs, px, py)
    &&& king_pos != piece_pos
    &&& kind_geometry_ok(piece, kx, ky, px, py)
    &&& (is_slider(piece) ==> seg_clear(cells, rs, kx, ky, px, py))
}

/// Whether the piece currently occupying `p` attacks a king at `king_pos`.
pub open spec fn spec_attacks(
    cells: Seq<Option<(Piece, u32)>>,
    rs: int,
    king_pos: int,
    p: int,
) -> bool {
    occ_at(cells, p) && spec_is_checking(cells, rs, king_pos, p, kind_at(cells, p))
}

/// The set of nonces of the pieces currently attacking a king at `king_pos`.
pub open spec fn threat_nonces(cells: Seq<Option<(Piece, u32)>>, rs: int, king_pos: int) -> Set<
    u32,
> {
    Set::new(
        |n: u32|
            exists|p: int|
                #[trigger] spec_attacks(cells, rs, king_pos, p) && nonce_at(cells, p) == n,
    )
}

/// The attacking nonces contributed by pieces of one kind.
pub open spec fn threat_nonces_kind(
    cells: Seq<Option<(Piece, u32)>>,
    rs: int,
    king_pos: int,
    pc: Piece,
) -> Set<u32> {
    Set::new(
        |n: u32|
            exists|p: int|
                #[trigger] spec_attacks(cells, rs, king_pos, p) && kind_at(cells, p) == pc
                    && nonce_at(cells, p) == n,
    )
}

/// The attacking nonces contributed by sliding pieces that stand in
/// direction `(sx, sy)` from the king.
pub open spec fn slider_dir_class(
    cells: Seq<Option<(Piece, u32)>>,
    rs: int,
    king_pos: int,
    sx: int,
    sy: int,
) -> Set<u32> {
    Set::new(
        |n: u32|
            exists|p: int|
                #[trigger] spec_attacks(cells, rs, king_pos, p) && is_slider(kind_at(cells, p))
                    && sgn(spec_x(rs, p) - spec_x(rs, king_pos)) == sx && sgn(
                    spec_y(rs, p) - spec_y(rs, king_pos),
                ) == sy && nonce_at(cells, p) == n,
    )
}

/// The first occupied in-square cell along a ray from `(kx, ky)`, as its
/// piece, nonce and distance in steps.
fn scan_ray(board: &Board, rs: u32, kx: u32, ky: u32, sx: i32, sy: i32) -> (r: Option<
    (Piece, u32, u32),
>)
    requires
        grid_wf(rs as int, board@.len() as int),
        in_square(rs as int, kx as int, ky as int),
        -1 <= sx <= 1,
        -1 <= sy <= 1,
        !(sx == 0 && sy == 0),
    ensures
        match r {
            Some((pc, n, d)) => {
                &&& 1 <= d
                &&& ray_in_square(rs as int, kx as int, ky as int, sx as int, sy as int, d as int)
                &&& ray_cell(board@, rs as int, kx as int, ky as int, sx as int, sy as int, d as int)
                    == Some((pc, n))
                &&& forall|k: int|
                    1 <= k < d ==> !((#[trigger] ray_cell(
                        board@,
                        rs as int,
                        kx as int,
                        ky as int,
                        sx as int,
                        sy as int,
                        k,
                    )) is Some)
            },
            None => forall|k: int|
                1 <= k && ray_in_square(rs as int, kx as int, ky as int, sx as int, sy as int, k)
                    ==> !((#[trigger] ray_cell(
                    board@,
                    rs as int,
                    kx as int,
                    ky as int,
                    sx as int,
                    sy as int,
                    k,
                )) is Some),
        },
{
    let mut cx = kx;
    let mut cy = ky;
    let mut k: u32 = 0;
    loop
        invariant
            grid_wf(rs as int, board@.len() as int),
            in_square(rs as int, kx as int, ky as int),
            -1 <= sx <= 1,
            -1 <= sy <= 1,
            !(sx == 0 && sy == 0),
            cx as int == kx as int + k as int * sx as int,
            cy as int == ky as int + k as int * sy as int,
            in_square(rs as int, cx as int, cy as int),
            k <= rs,
            forall|j: int|
                1 <= j <= k ==> !((#[trigger] ray_cell(
                    board@,
                    rs as int,
                    kx as int,
                    ky as int,
                    sx as int,
                    sy as int,
                    j,
                )) is Some),
        decreases 2 * rs as int - k as int,
    {
        let nx: u32;
        let ny: u32;
        if sx > 0 {
            if cx + 1 >= rs {
                proof {
                    assert forall|j: int|
                        1 <= j && ray_in_square(
                            rs as int,
                            kx as int,
                            ky as int,
                            sx as int,
                            sy as int,
                            j,
                        ) implies !((ray_cell(
                        board@,
                        rs as int,
                        kx as int,
                        ky as int,
                        sx as int,
                        sy as int,
                        j,
                    )) is Some) by {
                        if j > k as int {
                            assert(kx as int + j * sx as int >= cx as int + 1) by (nonlinear_arith)
                                requires
                                    sx as int == 1,
                                    j >= k as int + 1,
                                    cx as int == kx as int + k as int * sx as int,
                            ;
                        }
                    }
                }
                return None;
            }
            nx = cx + 1;
        } else if sx < 0 {
            if cx == 0 {
                proof {
                    assert forall|j: int|
                        1 <= j && ray_in_square(
                            rs as int,
                            kx as int,
                            ky as int,
                            sx as int,
                            sy as int,
                            j,
                        ) implies !((ray_cell(
                        board@,
                        rs as int,
                        kx as int,
                        ky as int,
                        sx as int,
                        sy as int,
                        j,
                    )) is Some) by {
                        if j > k as int {
                            assert(kx as int + j * sx as int <= cx as int - 1) by (nonlinear_arith)
                                requires
                                    sx as int == -1,
                                    j >= k as int + 1,
                                    cx as int == kx as int + k as int * sx as int,
                            ;
                        }
                    }
                }
                return None;
            }
            nx = cx - 1;
        } else {
            nx = cx;
        }
        if sy > 0 {
            if cy + 1 >= rs {
                proof {
                    assert forall|j: int|
                        1 <= j && ray_in_square(
                            rs as int,
                            kx as int,
                            ky as int,
                            sx as int,
                            sy as int,
                            j,
                        ) implies !((ray_cell(
                        board@,
                        rs as int,
                        kx as int,
                        ky as int,
                        sx as int,
                        sy as int,
                        j,
                    )) is Some) by {
                        if j > k as int {
                            assert(ky as int + j * sy as int >= cy as int + 1) by (nonlinear_arith)
                                requires
                                    sy as int == 1,
                                    j >= k as int + 1,
                                    cy as int == ky as int + k as int * sy as int,
                            ;
                        }
                    }
                }
                return None;
            }
            ny = cy + 1;
        } else if sy < 0 {
            if cy == 0 {
                proof {
                    assert forall|j: int|
                        1 <= j && ray_in_square(
                            rs as int,
                            kx as int,
                            ky as int,
                            sx as int,
                            sy as int,
                            j,
                        ) implies !((ray_cell(
                        board@,
                        rs as int,
                        kx as int,
                        ky as int,
                        sx as int,
                        sy as int,
                        j,
                    )) is Some) by {
                        if j > k as int {
                            assert(ky as int + j * sy as int <= cy as int - 1) by (nonlinear_arith)
                                requires
                                    sy as int == -1,
                                    j >= k as int + 1,
                                    cy as int == ky as int + k as int * sy as int,
                            ;
                        }
                    }
                }
                return None;
            }
            ny = cy - 1;
        } else {
            ny = cy;
        }
        proof {
            assert(nx as int == kx as int + (k as int + 1) * sx as int) by (nonlinear_arith)
                requires
                    nx as int == cx as int + sx as int || (sx as int == 0 && nx == cx),
                    cx as int == kx as int + k as int * sx as int,
            ;
            assert(ny as int == ky as int + (k as int + 1) * sy as int) by (nonlinear_arith)
                requires
                    ny as int == cy as int + sy as int || (sy as int == 0 && ny == cy),
                    cy as int == ky as int + k as int * sy as int,
            ;
            if sx != 0 {
                if sx > 0 {
                    assert(k as int + 1 <= nx as int);
                } else {
                    assert(k as int + 1 <= kx as int);
                }
            } else {
                if sy > 0 {
                    assert(k as int + 1 <= ny as int);
                } else {
                    assert(k as int + 1 <= ky as int);
                }
            }
        }
        k = k + 1;
        cx = nx;
        cy = ny;
        let q = xy_to_pos(rs, cx, cy);
        let cell = board.get(q);
        if let Some((pc, n)) = cell {
            proof {
                assert(ray_cell(board@, rs as int, kx as int, ky as int, sx as int, sy as int, k
                    as int) == Some((pc, n)));
            }
            return Some((pc, n, k));
        }
    }
}

/// Appends a nonce unless it is already present, keeping the vector free of
/// duplicates.
fn push_unique(threats: &mut Vec<u32>, n: u32)
    requires
        old(threats)@.no_duplicates(),
    ensures
        final(threats)@.no_duplicates(),
        final(threats)@.to_set() == old(threats)@.to_set().insert(n),
{
    let mut i: usize = 0;
    while i < threats.len()
        invariant
            i <= threats@.len(),
            threats@ == old(threats)@,
            old(threats)@.no_duplicates(),
            forall|j: int| 0 <= j < i ==> threats@[j] != n,
        decreases threats@.len() - i,
    {
        if threats[i] == n {
            proof {
                assert(old(threats)@.to_set().contains(n));
                assert(old(threats)@.to_set() =~= old(threats)@.to_set().insert(n));
            }
            return;
        }
        i += 1;
    }
    proof {
        assert(!old(threats)@.contains(n));
    }
    threats.push(n);
    proof {
        old(threats)@.lemma_push_to_set_commute(n);
        assert forall|i2: int, j2: int|
            0 <= i2 < threats@.len() && 0 <= j2 < threats@.len() && i2 != j2 implies threats@[i2]
            != threats@[j2] by {
            if i2 == threats@.len() - 1 {
                assert(old(threats)@[j2] != n);
            }
            if j2 == threats@.len() - 1 {
                assert(old(threats)@[i2] != n);
            }
        }
    }
}

/// The nonce contributed by one candidate cell: a singleton when the
/// in-square cell `(x, y)` holds a piece of kind `want`, empty otherwise.
pub open spec fn point_cell_class(
    cells: Seq<Option<(Piece, u32)>>,
    rs: int,
    x: int,
    y: int,
    want: Piece,
) -> Set<u32> {
    if in_square(rs, x, y) {
        match cell_at(cells, rs, x, y) {
            Some((k, n)) => if k == want {
                Set::empty().insert(n)
            } else {
                Set::empty()
            },
            None => Set::empty(),
        }
    } else {
        Set::empty()
    }
}

/// Appends the nonce at in-square cell `(x, y)` if that cell holds a piece
/// of kind `want`.
fn check_cell_for(board: &Board, rs: u32, x: u32, y: u32, want: Piece, threats: &mut Vec<u32>)
    requires
        grid_wf(rs as int, board@.len() as int),
        in_square(rs as int, x as int, y as int),
        old(threats)@.no_duplicates(),
    ensures
        final(threats)@.no_duplicates(),
        final(threats)@.to_set() == (match cell_at(board@, rs as int, x as int, y as int) {
            Some((pc, n)) => if pc == want {
                old(threats)@.to_set().insert(n)
            } else {
                old(threats)@.to_set()
            },
            None => old(threats)@.to_set(),
        }),
        final(threats)@.to_set() == old(threats)@.to_set().union(
            point_cell_class(board@, rs as int, x as int, y as int, want),
        ),
{
    let q = xy_to_pos(rs, x, y);
    if let Some((pc, n)) = board.get(q) {
        if pc == want {
            push_unique(threats, n);
            proof {
                assert(threats@.to_set() =~= old(threats)@.to_set().union(
                    point_cell_class(board@, rs as int, x as int, y as int, want),
                ));
            }
            return;
        }
    }
    proof {
        assert(threats@.to_set() =~= old(threats)@.to_set().union(
            point_cell_class(board@, rs as int, x as int, y as int, want),
        ));
    }
}

/// A candidate cell holding the wanted non-sliding kind in attacking
/// geometry is an attacker: its nonce belongs to the kind's class.
proof fn lemma_point_witness(
    cells: Seq<Option<(Piece, u32)>>,
    rs: int,
    king_pos: int,
    x: int,
    y: int,
    pc: Piece,
)
    requires
        grid_wf(rs, cells.len() as int),
        0 <= king_pos < cells.len(),
        in_square(rs, x, y),
        in_square(rs, spec_x(rs, king_pos), spec_y(rs, king_pos)),
        kind_geometry_ok(pc, spec_x(rs, king_pos), spec_y(rs, king_pos), x, y),
        !is_slider(pc),
        (match cell_at(cells, rs, x, y) {
            Some((k, _)) => k == pc,
            None => false,
        }),
    ensures
        (match cell_at(cells, rs, x, y) {
            Some((_, n)) => threat_nonces_kind(cells, rs, king_pos, pc).contains(n),
            None => false,
        }),
{
    let p = y * rs + x;
    crate::geometry::lemma_xy_pos_bound(rs, x, y);
    crate::geometry::lemma_pos_xy_inverse(rs, x, y);
    assert(0 <= p < cells.len());
    assert(occ_at(cells, p));
    let kx = spec_x(rs, king_pos);
    let ky = spec_y(rs, king_pos);
    if p == king_pos {
        assert(x == kx && y == ky);
        if pc == Piece::KNIGHT {
            assert(abs_diff(kx, x) * abs_diff(ky, y) == 0) by (nonlinear_arith)
                requires abs_diff(kx, x) == 0;
        }
        assert(false);
    }
    assert(spec_is_checking(cells, rs, king_pos, p, pc));
    assert(spec_attacks(cells, rs, king_pos, p));
    assert(threat_nonces_kind(cells, rs, king_pos, pc).contains(nonce_at(cells, p)));
}

/// A position equals its row times the row size plus its column.
proof fn lemma_pos_decompose(rs: int, p: int)
    requires
        0 < rs,
        0 <= p,
    ensures
        p == spec_y(rs, p) * rs + spec_x(rs, p),
{
    vstd::arithmetic::div_mod::lemma_fundamental_div_mod(p, rs);
    assert(rs * (p / rs) == (p / rs) * rs) by (nonlinear_arith);
}

/// The only cells a knight attacks from are the eight knight-move offsets.
proof fn lemma_knight_candidates(kx: int, ky: int, px: int, py: int)
    requires
        kind_geometry_ok(Piece::KNIGHT, kx, ky, px, py),
    ensures
        (px == kx - 1 && py == ky - 2) || (px == kx + 1 && py == ky - 2) || (px == kx - 2 && py
            == ky - 1) || (px == kx + 2 && py == ky - 1) || (px == kx - 2 && py == ky + 1) || (px
            == kx + 2 && py == ky + 1) || (px == kx - 1 && py == ky + 2) || (px == kx + 1 && py
            == ky + 2),
{
    let dx = abs_diff(kx, px);
    let dy = abs_diff(ky, py);
    assert((dx == 1 && dy == 2) || (dx == 2 && dy == 1)) by (nonlinear_arith)
        requires dx * dy == 2 && dx >= 0 && dy >= 0;
}

/// A candidate cell at one of the point-attack offsets that holds the wanted
/// kind contributes its nonce to the kind's class.
proof fn lemma_candidate_covered(
    cells: Seq<Option<(Piece, u32)>>,
    rs: int,
    king_pos: int,
    x: int,
    y: int,
    pc: Piece,
)
    requires
        grid_wf(rs, cells.len() as int),
        0 <= king_pos < cells.len(),
        in_square(rs, x, y),
        in_square(rs, spec_x(rs, king_pos), spec_y(rs, king_pos)),
        (match pc {
            Piece::PAWN => y + 1 == spec_y(rs, king_pos) && (x == spec_x(rs, king_pos) - 1 || x
                == spec_x(rs, king_pos) + 1),
            Piece::KNIGHT => {
                let kx = spec_x(rs, king_pos);
                let ky = spec_y(rs, king_pos);
                (x == kx - 1 && y == ky - 2) || (x == kx + 1 && y == ky - 2) || (x == kx - 2 && y
                    == ky - 1) || (x == kx + 2 && y == ky - 1) || (x == kx - 2 && y == ky + 1) || (
                x == kx + 2 && y == ky + 1) || (x == kx - 1 && y == ky + 2) || (x == kx + 1 && y
                    == ky + 2)
            },
            Piece::KING => {
                let kx = spec_x(rs, king_pos);
                let ky = spec_y(rs, king_pos);
                abs_diff(kx, x) <= 1 && abs_diff(ky, y) <= 1 && !(x == kx && y == ky)
            },
            _ => false,
        }),
    ensures
        (match cell_at(cells, rs, x, y) {
            Some((k, n)) => k == pc ==> threat_nonces_kind(cells, rs, king_pos, pc).contains(n),
            None => true,
        }),
{
    let kx = spec_x(rs, king_pos);
    let ky = spec_y(rs, king_pos);
    if pc == Piece::KNIGHT {
        assert(abs_diff(kx, x) * abs_diff(ky, y) == 2) by (nonlinear_arith)
            requires (abs_diff(kx, x) == 1 && abs_diff(ky, y) == 2) || (abs_diff(kx, x) == 2
                && abs_diff(ky, y) == 1);
    }
    assert(kind_geometry_ok(pc, kx, ky, x, y));
    match cell_at(cells, rs, x, y) {
        Some((k, n)) => {
            if k == pc {
                lemma_point_witness(cells, rs, king_pos, x, y, pc);
            }
        },
        None => {},
    }
}

/// The knight attackers are exactly the knights on the eight knight-move
/// cells around the king.
#[verifier::rlimit(100)]
proof fn lemma_knight_class_union(
    cells: Seq<Option<(Piece, u32)>>,
    rs: int,
    king_pos: int,
    kx: int,
    ky: int,
)
    requires
        grid_wf(rs, cells.len() as int),
        0 <= king_pos < cells.len(),
        kx == spec_x(rs, king_pos),
        ky == spec_y(rs, king_pos),
        in_square(rs, kx, ky),
    ensures
        threat_nonces_kind(cells, rs, king_pos, Piece::KNIGHT) =~= point_cell_class(
            cells,
            rs,
            kx - 1,
            ky - 2,
            Piece::KNIGHT,
        ).union(point_cell_class(cells, rs, kx + 1, ky - 2, Piece::KNIGHT)).union(
            point_cell_class(cells, rs, kx - 2, ky - 1, Piece::KNIGHT),
        ).union(point_cell_class(cells, rs, kx + 2, ky - 1, Piece::KNIGHT)).union(
            point_cell_class(cells, rs, kx - 2, ky + 1, Piece::KNIGHT),
        ).union(point_cell_class(cells, rs, kx + 2, ky + 1, Piece::KNIGHT)).union(
            point_cell_class(cells, rs, kx - 1, ky + 2, Piece::KNIGHT),
        ).union(point_cell_class(cells, rs, kx + 1, ky + 2, Piece::KNIGHT)),
{
    let class = threat_nonces_kind(cells, rs, king_pos, Piece::KNIGHT);
    if in_square(rs, kx - 1, ky - 2) {
        lemma_candidate_covered(cells, rs, king_pos, kx - 1, ky - 2, Piece::KNIGHT);
    }
    if in_square(rs, kx + 1, ky - 2) {
        lemma_candidate_covered(cells, rs, king_pos, kx + 1, ky - 2, Piece::KNIGHT);
    }
    if in_square(rs, kx - 2, ky - 1) {
        lemma_candidate_covered(cells, rs, king_pos, kx - 2, ky - 1, Piece::KNIGHT);
    }
    if in_square(rs, kx + 2, ky - 1) {
        lemma_candidate_covered(cells, rs, king_pos, kx + 2, ky - 1, Piece::KNIGHT);
    }
    if in_square(rs, kx - 2, ky + 1) {
        lemma_candidate_covered(cells, rs, king_pos, kx - 2, ky + 1, Piece::KNIGHT);
    }
    if in_square(rs, kx + 2, ky + 1) {
        lemma_candidate_covered(cells, rs, king_pos, kx + 2, ky + 1, Piece::KNIGHT);
    }
    if in_square(rs, kx - 1, ky + 2) {
        lemma_candidate_covered(cells, rs, king_pos, kx - 1, ky + 2, Piece::KNIGHT);
    }
    if in_square(rs, kx + 1, ky + 2) {
        lemma_candidate_covered(cells, rs, king_pos, kx + 1, ky + 2, Piece::KNIGHT);
    }
    assert forall|n: u32| class.contains(n) implies point_cell_class(
        cells,
        rs,
        kx - 1,
        ky - 2,
        Piece::KNIGHT,
    ).union(point_cell_class(cells, rs, kx + 1, ky - 2, Piece::KNIGHT)).union(
        point_cell_class(cells, rs, kx - 2, ky - 1, Piece::KNIGHT),
    ).union(point_cell_class(cells, rs, kx + 2, ky - 1, Piece::KNIGHT)).union(
        point_cell_class(cells, rs, kx - 2, ky + 1, Piece::KNIGHT),
    ).union(point_cell_class(cells, rs, kx + 2, ky + 1, Piece::KNIGHT)).union(
        point_cell_class(cells, rs, kx - 1, ky + 2, Piece::KNIGHT),
    ).union(point_cell_class(cells, rs, kx + 1, ky + 2, Piece::KNIGHT)).contains(n) by {
        let p = choose|p: int|
            #[trigger] spec_attacks(cells, rs, king_pos, p) && kind_at(cells, p) == Piece::KNIGHT
                && nonce_at(cells, p) == n;
        let px = spec_x(rs, p);
        let py = spec_y(rs, p);
        lemma_pos_decompose(rs, p);
        assert(cell_at(cells, rs, px, py) == cells[p]);
        lemma_knight_candidates(kx, ky, px, py);
        assert(point_cell_class(cells, rs, px, py, Piece::KNIGHT).contains(n));
    }
}

/// Collects the pawns attacking the king: the two diagonal cells one rank
/// below it.
fn add_pawn_attackers(board: &Board, rs: u32, king_pos: u32, kx: u32, ky: u32, threats: &mut Vec<
    u32,
>)
    requires
        grid_wf(rs as int, board@.len() as int),
        king_pos < board@.len(),
        kx as int == spec_x(rs as int, king_pos as int),
        ky as int == spec_y(rs as int, king_pos as int),
        in_square(rs as int, kx as int, ky as int),
        old(threats)@.no_duplicates(),
    ensures
        final(threats)@.no_duplicates(),
        final(threats)@.to_set() == old(threats)@.to_set().union(
            threat_nonces_kind(board@, rs as int, king_pos as int, Piece::PAWN),
        ),
{
    let ghost class = threat_nonces_kind(board@, rs as int, king_pos as int, Piece::PAWN);
    if ky >= 1 {
        if kx >= 1 {
            check_cell_for(board, rs, kx - 1, ky - 1, Piece::PAWN, threats);
        }
        if kx + 1 < rs {
            check_cell_for(board, rs, kx + 1, ky - 1, Piece::PAWN, threats);
        }
    }
    proof {
        if ky as int >= 1 {
            if kx as int >= 1 {
                match cell_at(board@, rs as int, kx as int - 1, ky as int - 1) {
                    Some((pc, n)) => {
                        if pc == Piece::PAWN {
                            lemma_point_witness(
                                board@,
                                rs as int,
                                king_pos as int,
                                kx as int - 1,
                                ky as int - 1,
                                Piece::PAWN,
                            );
                        }
                    },
                    None => {},
                }
            }
            if kx as int + 1 < rs as int {
                match cell_at(board@, rs as int, kx as int + 1, ky as int - 1) {
                    Some((pc, n)) => {
                        if pc == Piece::PAWN {
                            lemma_point_witness(
                                board@,
                                rs as int,
                                king_pos as int,
                                kx as int + 1,
                                ky as int - 1,
                                Piece::PAWN,
                            );
                        }
                    },
                    None => {},
                }
            }
        }
        assert(threats@.to_set() =~= old(threats)@.to_set().union(class)) by {
            assert forall|n: u32| class.contains(n) implies threats@.to_set().contains(n) by {
                let p = choose|p: int|
                    #[trigger] spec_attacks(board@, rs as int, king_pos as int, p) && kind_at(
                        board@,
                        p,
                    ) == Piece::PAWN && nonce_at(board@, p) == n;
                let px = spec_x(rs as int, p);
                let py = spec_y(rs as int, p);
                lemma_pos_decompose(rs as int, p);
                assert(cell_at(board@, rs as int, px, py) == board@[p]);
                assert(py + 1 == ky as int && abs_diff(kx as int, px) == 1);
            }
        }
    }
}

/// Collects the knights attacking the king: the eight knight-move cells.
fn add_knight_attackers(board: &Board, rs: u32, king_pos: u32, kx: u32, ky: u32, threats: &mut Vec<
    u32,
>)
    requires
        grid_wf(rs as int, board@.len() as int),
        king_pos < board@.len(),
        kx as int == spec_x(rs as int, king_pos as int),
        ky as int == spec_y(rs as int, king_pos as int),
        in_square(rs as int, kx as int, ky as int),
        old(threats)@.no_duplicates(),
    ensures
        final(threats)@.no_duplicates(),
        final(threats)@.to_set() == old(threats)@.to_set().union(
            threat_nonces_kind(board@, rs as int, king_pos as int, Piece::KNIGHT),
        ),
{
    let ghost class = threat_nonces_kind(board@, rs as int, king_pos as int, Piece::KNIGHT);
    proof {
        crate::geometry::lemma_row_size_bound(rs as int, board@.len() as int);
        lemma_knight_class_union(board@, rs as int, king_pos as int, kx as int, ky as int);
    }
    if kx >= 1 && ky >= 2 {
        check_cell_for(board, rs, kx - 1, ky - 2, Piece::KNIGHT, threats);
    }
    if kx + 1 < rs && ky >= 2 {
        check_cell_for(board, rs, kx + 1, ky - 2, Piece::KNIGHT, threats);
    }
    if kx >= 2 && ky >= 1 {
        check_cell_for(board, rs, kx - 2, ky - 1, Piece::KNIGHT, threats);
    }
    if kx + 2 < rs && ky >= 1 {
        check_cell_for(board, rs, kx + 2, ky - 1, Piece::KNIGHT, threats);
    }
    if kx >= 2 && ky + 1 < rs {
        check_cell_for(board, rs, kx - 2, ky + 1, Piece::KNIGHT, threats);
    }
    if kx + 2 < rs && ky + 1 < rs {
        check_cell_for(board, rs, kx + 2, ky + 1, Piece::KNIGHT, threats);
    }
    if kx >= 1 && ky + 2 < rs {
        check_cell_for(board, rs, kx - 1, ky + 2, Piece::KNIGHT, threats);
    }
    if kx + 1 < rs && ky + 2 < rs {
        check_cell_for(board, rs, kx + 1, ky + 2, Piece::KNIGHT, threats);
    }
    proof {
        assert(threats@.to_set() =~= old(threats)@.to_set().union(class));
    }
}

/// Collects the kings attacking the king: the eight neighboring cells.
#[verifier::rlimit(100)]
fn add_king_attackers(board: &Board, rs: u32, king_pos: u32, kx: u32, ky: u32, threats: &mut Vec<
    u32,
>)
    requires
        grid_wf(rs as int, board@.len() as int),
        king_pos < board@.len(),
        kx as int == spec_x(rs as int, king_pos as int),
        ky as int == spec_y(rs as int, king_pos as int),
        in_square(rs as int, kx as int, ky as int),
        old(threats)@.no_duplicates(),
    ensures
        final(threats)@.no_duplicates(),
        final(threats)@.to_set() == old(threats)@.to_set().union(
            threat_nonces_kind(board@, rs as int, king_pos as int, Piece::KING),
        ),
{
    let ghost class = threat_nonces_kind(board@, rs as int, king_pos as int, Piece::KING);
    if kx >= 1 && ky >= 1 {
        check_cell_for(board, rs, kx - 1, ky - 1, Piece::KING, threats);
    }
    if ky >= 1 {
        check_cell_for(board, rs, kx, ky - 1, Piece::KING, threats);
    }
    if kx + 1 < rs && ky >= 1 {
        check_cell_for(board, rs, kx + 1, ky - 1, Piece::KING, threats);
    }
    if kx >= 1 {
        check_cell_for(board, rs, kx - 1, ky, Piece::KING, threats);
    }
    if kx + 1 < rs {
        check_cell_for(board, rs, kx + 1, ky, Piece::KING, threats);
    }
    if kx >= 1 && ky + 1 < rs {
        check_cell_for(board, rs, kx - 1, ky + 1, Piece::KING, threats);
    }
    if ky + 1 < rs {
        check_cell_for(board, rs, kx, ky + 1, Piece::KING, threats);
    }
    if kx + 1 < rs && ky + 1 < rs {
        check_cell_for(board, rs, kx + 1, ky + 1, Piece::KING, threats);
    }
    proof {
        let kxi = kx as int;
        let kyi = ky as int;
        let rsi = rs as int;
        if kxi >= 1 && kyi >= 1 {
            lemma_candidate_covered(board@, rsi, king_pos as int, kxi - 1, kyi - 1, Piece::KING);
        }
        if kyi >= 1 {
            lemma_candidate_covered(board@, rsi, king_pos as int, kxi, kyi - 1, Piece::KING);
        }
        if kxi + 1 < rsi && kyi >= 1 {
            lemma_candidate_covered(board@, rsi, king_pos as int, kxi + 1, kyi - 1, Piece::KING);
        }
        if kxi >= 1 {
            lemma_candidate_covered(board@, rsi, king_pos as int, kxi - 1, kyi, Piece::KING);
        }
        if kxi + 1 < rsi {
            lemma_candidate_covered(board@, rsi, king_pos as int, kxi + 1, kyi, Piece::KING);
        }
        if kxi >= 1 && kyi + 1 < rsi {
            lemma_candidate_covered(board@, rsi, king_pos as int, kxi - 1, kyi + 1, Piece::KING);
        }
        if kyi + 1 < rsi {
            lemma_candidate_covered(board@, rsi, king_pos as int, kxi, kyi + 1, Piece::KING);
        }
        if kxi + 1 < rsi && kyi + 1 < rsi {
            lemma_candidate_covered(board@, rsi, king_pos as int, kxi + 1, kyi + 1, Piece::KING);
        }
        assert(threats@.to_set() =~= old(threats)@.to_set().union(class)) by {
            assert forall|n: u32| class.contains(n) implies threats@.to_set().contains(n) by {
                let p = choose|p: int|
                    #[trigger] spec_attacks(board@, rs as int, king_pos as int, p) && kind_at(
                        board@,
                        p,
                    ) == Piece::KING && nonce_at(board@, p) == n;
                let px = spec_x(rs as int, p);
                let py = spec_y(rs as int, p);
                lemma_pos_decompose(rs as int, p);
                assert(cell_at(board@, rs as int, px, py) == board@[p]);
            }
        }
    }
}

/// Collects all point attackers of the king: the pawns, knights and kings
/// whose attack needs no line of sight, read off the fixed candidate cells
/// around the king.
fn add_point_attackers(board: &Board, rs: u32, king_pos: u32, kx: u32, ky: u32, threats: &mut Vec<
    u32,
>)
    requires
        grid_wf(rs as int, board@.len() as int),
        king_pos < board@.len(),
        kx as int == spec_x(rs as int, king_pos as int),
        ky as int == spec_y(rs as int, king_pos as int),
        in_square(rs as int, kx as int, ky as int),
        old(threats)@.no_duplicates(),
    ensures
        final(threats)@.no_duplicates(),
        final(threats)@.to_set() == old(threats)@.to_set().union(
            threat_nonces_kind(board@, rs as int, king_pos as int, Piece::PAWN),
        ).union(threat_nonces_kind(board@, rs as int, king_pos as int, Piece::KNIGHT)).union(
            threat_nonces_kind(board@, rs as int, king_pos as int, Piece::KING),
        ),
{
    add_pawn_attackers(board, rs, king_pos, kx, ky, threats);
    add_knight_attackers(board, rs, king_pos, kx, ky, threats);
    add_king_attackers(board, rs, king_pos, kx, ky, threats);
}

/// A sliding attacker stands on the ray from the king given by the signs of
/// its coordinate differences, at distance `seg_dist`.
proof fn lemma_slider_on_ray(rs: int, kx: int, ky: int, px: int, py: int, pc: Piece)
    requires
        in_square(rs, kx, ky),
        in_square(rs, px, py),
        is_slider(pc),
        kind_geometry_ok(pc, kx, ky, px, py),
    ensures
        1 <= seg_dist(kx, ky, px, py),
        px == kx + seg_dist(kx, ky, px, py) * sgn(px - kx),
        py == ky + seg_dist(kx, ky, px, py) * sgn(py - ky),
        !(sgn(px - kx) == 0 && sgn(py - ky) == 0),
{
    let e = seg_dist(kx, ky, px, py);
    assert(e * 1 == e) by (nonlinear_arith);
    assert(e * (-1) == -e) by (nonlinear_arith);
    assert(e * 0 == 0) by (nonlinear_arith);
}

/// Everything known about a sliding attacker in direction `(sx, sy)`: it is
/// the cell at distance `seg_dist` on that ray, every strictly nearer ray
/// cell is empty, and its kind fits the ray's line type.
proof fn lemma_member_ray_facts(
    cells: Seq<Option<(Piece, u32)>>,
    rs: int,
    king_pos: int,
    kx: int,
    ky: int,
    sx: int,
    sy: int,
    p: int,
)
    requires
        grid_wf(rs, cells.len() as int),
        0 <= king_pos < cells.len(),
        kx == spec_x(rs, king_pos),
        ky == spec_y(rs, king_pos),
        in_square(rs, kx, ky),
        spec_attacks(cells, rs, king_pos, p),
        is_slider(kind_at(cells, p)),
        sgn(spec_x(rs, p) - kx) == sx,
        sgn(spec_y(rs, p) - ky) == sy,
    ensures
        ({
            let e = seg_dist(kx, ky, spec_x(rs, p), spec_y(rs, p));
            &&& 1 <= e
            &&& ray_in_square(rs, kx, ky, sx, sy, e)
            &&& ray_cell(cells, rs, kx, ky, sx, sy, e) == cells[p]
            &&& forall|k: int|
                1 <= k < e ==> !((#[trigger] ray_cell(cells, rs, kx, ky, sx, sy, k)) is Some)
            &&& ((sx != 0 && sy != 0) ==> (kind_at(cells, p) == Piece::BISHOP || kind_at(cells, p)
                == Piece::QUEEN))
            &&& ((sx == 0 || sy == 0) ==> (kind_at(cells, p) == Piece::CASTLE || kind_at(cells, p)
                == Piece::QUEEN))
        }),
{
    let px = spec_x(rs, p);
    let py = spec_y(rs, p);
    let pc = kind_at(cells, p);
    let e = seg_dist(kx, ky, px, py);
    lemma_slider_on_ray(rs, kx, ky, px, py, pc);
    lemma_pos_decompose(rs, p);
    assert(ray_cell(cells, rs, kx, ky, sx, sy, e) == cell_at(cells, rs, px, py));
    assert(cell_at(cells, rs, px, py) == cells[p]);
    assert(seg_clear(cells, rs, kx, ky, px, py));
    assert forall|k: int| 1 <= k < e implies !((#[trigger] ray_cell(
        cells,
        rs,
        kx,
        ky,
        sx,
        sy,
        k,
    )) is Some) by {
        assert(!(ray_cell(cells, rs, kx, ky, sgn(px - kx), sgn(py - ky), k) is Some));
    }
}

/// When the first occupied cell on a ray is a slider fitting the ray's line
/// type, its nonce is the whole of that direction's attacker class.
proof fn lemma_found_is_attacker(
    cells: Seq<Option<(Piece, u32)>>,
    rs: int,
    king_pos: int,
    kx: int,
    ky: int,
    sx: int,
    sy: int,
    pc: Piece,
    n: u32,
    d: int,
)
    requires
        grid_wf(rs, cells.len() as int),
        0 <= king_pos < cells.len(),
        kx == spec_x(rs, king_pos),
        ky == spec_y(rs, king_pos),
        in_square(rs, kx, ky),
        -1 <= sx <= 1,
        -1 <= sy <= 1,
        !(sx == 0 && sy == 0),
        1 <= d,
        ray_in_square(rs, kx, ky, sx, sy, d),
        ray_cell(cells, rs, kx, ky, sx, sy, d) == Some((pc, n)),
        forall|k: int| 1 <= k < d ==> !((#[trigger] ray_cell(cells, rs, kx, ky, sx, sy, k)) is Some),
        if sx != 0 && sy != 0 {
            pc == Piece::BISHOP || pc == Piece::QUEEN
        } else {
            pc == Piece::CASTLE || pc == Piece::QUEEN
        },
    ensures
        slider_dir_class(cells, rs, king_pos, sx, sy).contains(n),
        slider_dir_class(cells, rs, king_pos, sx, sy) =~= Set::<u32>::empty().insert(n),
{
    let px = kx + d * sx;
    let py = ky + d * sy;
    assert(sx != 0 ==> (px != kx && abs_diff(kx, px) == d && sgn(px - kx) == sx))
        by (nonlinear_arith)
        requires 1 <= d && (-1 <= sx <= 1) && px == kx + d * sx;
    assert(sx == 0 ==> (px == kx && abs_diff(kx, px) == 0 && sgn(px - kx) == 0))
        by (nonlinear_arith)
        requires px == kx + d * sx;
    assert(sy != 0 ==> (py != ky && abs_diff(ky, py) == d && sgn(py - ky) == sy))
        by (nonlinear_arith)
        requires 1 <= d && (-1 <= sy <= 1) && py == ky + d * sy;
    assert(sy == 0 ==> (py == ky && abs_diff(ky, py) == 0 && sgn(py - ky) == 0))
        by (nonlinear_arith)
        requires py == ky + d * sy;
    let p = py * rs + px;
    crate::geometry::lemma_pos_xy_inverse(rs, px, py);
    crate::geometry::lemma_xy_pos_bound(rs, px, py);
    assert(cells[p] == Some((pc, n)));
    assert(occ_at(cells, p));
    assert(p != king_pos);
    assert(kind_geometry_ok(pc, kx, ky, px, py));
    assert(seg_dist(kx, ky, px, py) == d);
    assert(seg_clear(cells, rs, kx, ky, px, py));
    assert(spec_attacks(cells, rs, king_pos, p));
    assert(slider_dir_class(cells, rs, king_pos, sx, sy).contains(n));
    assert forall|m: u32| slider_dir_class(cells, rs, king_pos, sx, sy).contains(m) implies m
        == n by {
        let q = choose|q: int|
            #[trigger] spec_attacks(cells, rs, king_pos, q) && is_slider(kind_at(cells, q)) && sgn(
                spec_x(rs, q) - spec_x(rs, king_pos),
            ) == sx && sgn(spec_y(rs, q) - spec_y(rs, king_pos)) == sy && nonce_at(cells, q) == m;
        lemma_member_ray_facts(cells, rs, king_pos, kx, ky, sx, sy, q);
        let e = seg_dist(kx, ky, spec_x(rs, q), spec_y(rs, q));
        if e < d {
            assert(!(ray_cell(cells, rs, kx, ky, sx, sy, e) is Some));
        }
        if e > d {
            assert(!(ray_cell(cells, rs, kx, ky, sx, sy, d) is Some));
        }
        assert(e == d);
        lemma_pos_decompose(rs, q);
    }
}

/// A ray whose in-square cells are all empty, or whose first occupied cell
/// does not fit the ray's line type, contributes no attacker.
proof fn lemma_ray_class_empty(
    cells: Seq<Option<(Piece, u32)>>,
    rs: int,
    king_pos: int,
    kx: int,
    ky: int,
    sx: int,
    sy: int,
    found: Option<(Piece, u32, u32)>,
)
    requires
        grid_wf(rs, cells.len() as int),
        0 <= king_pos < cells.len(),
        kx == spec_x(rs, king_pos),
        ky == spec_y(rs, king_pos),
        in_square(rs, kx, ky),
        -1 <= sx <= 1,
        -1 <= sy <= 1,
        !(sx == 0 && sy == 0),
        match found {
            Some((pc, n, d)) => {
                &&& 1 <= d
                &&& ray_cell(cells, rs, kx, ky, sx, sy, d as int) == Some((pc, n))
                &&& forall|k: int|
                    1 <= k < d as int ==> !((#[trigger] ray_cell(cells, rs, kx, ky, sx, sy, k))
                        is Some)
                &&& if sx != 0 && sy != 0 {
                    pc != Piece::BISHOP && pc != Piece::QUEEN
                } else {
                    pc != Piece::CASTLE && pc != Piece::QUEEN
                }
            },
            None => forall|k: int|
                1 <= k && ray_in_square(rs, kx, ky, sx, sy, k) ==> !((#[trigger] ray_cell(
                    cells,
                    rs,
                    kx,
                    ky,
                    sx,
                    sy,
                    k,
                )) is Some),
        },
    ensures
        slider_dir_class(cells, rs, king_pos, sx, sy) =~= Set::<u32>::empty(),
{
    assert forall|m: u32| !slider_dir_class(cells, rs, king_pos, sx, sy).contains(m) by {
        if slider_dir_class(cells, rs, king_pos, sx, sy).contains(m) {
            let q = choose|q: int|
                #[trigger] spec_attacks(cells, rs, king_pos, q) && is_slider(kind_at(cells, q))
                    && sgn(spec_x(rs, q) - spec_x(rs, king_pos)) == sx && sgn(
                    spec_y(rs, q) - spec_y(rs, king_pos),
                ) == sy && nonce_at(cells, q) == m;
            lemma_member_ray_facts(cells, rs, king_pos, kx, ky, sx, sy, q);
            let e = seg_dist(kx, ky, spec_x(rs, q), spec_y(rs, q));
            match found {
                Some((pc, n, d)) => {
                    if e < d as int {
                        assert(!(ray_cell(cells, rs, kx, ky, sx, sy, e) is Some));
                    }
                    if e > d as int {
                        assert(!(ray_cell(cells, rs, kx, ky, sx, sy, d as int) is Some));
                    }
                    assert(e == d as int);
                },
                None => {
                    assert(!(ray_cell(cells, rs, kx, ky, sx, sy, e) is Some));
                },
            }
        }
    }
}

/// Scans one ray from the king and collects the sliding attacker standing on
/// it, if any.
fn add_slider_ray(
    board: &Board,
    rs: u32,
    king_pos: u32,
    kx: u32,
    ky: u32,
    sx: i32,
    sy: i32,
    threats: &mut Vec<u32>,
)
    requires
        grid_wf(rs as int, board@.len() as int),
        king_pos < board@.len(),
        kx as int == spec_x(rs as int, king_pos as int),
        ky as int == spec_y(rs as int, king_pos as int),
        in_square(rs as int, kx as int, ky as int),
        -1 <= sx <= 1,
        -1 <= sy <= 1,
        !(sx == 0 && sy == 0),
        old(threats)@.no_duplicates(),
    ensures
        final(threats)@.no_duplicates(),
        final(threats)@.to_set() == old(threats)@.to_set().union(
            slider_dir_class(board@, rs as int, king_pos as int, sx as int, sy as int),
        ),
{
    let ghost class = slider_dir_class(board@, rs as int, king_pos as int, sx as int, sy as int);
    let diag = sx != 0 && sy != 0;
    let found = scan_ray(board, rs, kx, ky, sx, sy);
    match found {
        Some((pc, n, d)) => {
            let matched = if diag {
                pc == Piece::BISHOP || pc == Piece::QUEEN
            } else {
                pc == Piece::CASTLE || pc == Piece::QUEEN
            };
            if matched {
                push_unique(threats, n);
                proof {
                    lemma_found_is_attacker(
                        board@,
                        rs as int,
                        king_pos as int,
                        kx as int,
                        ky as int,
                        sx as int,
                        sy as int,
                        pc,
                        n,
                        d as int,
                    );
                    assert(threats@.to_set() =~= old(threats)@.to_set().union(class));
                }
            } else {
                proof {
                    lemma_ray_class_empty(
                        board@,
                        rs as int,
                        king_pos as int,
                        kx as int,
                        ky as int,
                        sx as int,
                        sy as int,
                        Some((pc, n, d)),
                    );
                    assert(threats@.to_set() =~= old(threats)@.to_set().union(class));
                }
            }
        },
        None => {
            proof {
                lemma_ray_class_empty(
                    board@,
                    rs as int,
                    king_pos as int,
                    kx as int,
                    ky as int,
                    sx as int,
                    sy as int,
                    None,
                );
                assert(threats@.to_set() =~= old(threats)@.to_set().union(class));
            }
        },
    }
}

/// Checks that no occupied cell lies strictly between two aligned in-square
/// cells.
fn seg_clear_exec(board: &Board, rs: u32, ax: u32, ay: u32, bx: u32, by: u32) -> (r: bool)
    requires
        grid_wf(rs as int, board@.len() as int),
        in_square(rs as int, ax as int, ay as int),
        in_square(rs as int, bx as int, by as int),
        abs_diff(ax as int, bx as int) == 0 || abs_diff(ay as int, by as int) == 0 || abs_diff(
            ax as int,
            bx as int,
        ) == abs_diff(ay as int, by as int),
    ensures
        r == seg_clear(board@, rs as int, ax as int, ay as int, bx as int, by as int),
{
    let dx = if ax >= bx {
        ax - bx
    } else {
        bx - ax
    };
    let dy = if ay >= by {
        ay - by
    } else {
        by - ay
    };
    let dist = if dx >= dy {
        dx
    } else {
        dy
    };
    let ghost sx = sgn(bx as int - ax as int);
    let ghost sy = sgn(by as int - ay as int);
    let mut k: u32 = 1;
    while k < dist
        invariant
            grid_wf(rs as int, board@.len() as int),
            in_square(rs as int, ax as int, ay as int),
            in_square(rs as int, bx as int, by as int),
            sx == sgn(bx as int - ax as int),
            sy == sgn(by as int - ay as int),
            dist == seg_dist(ax as int, ay as int, bx as int, by as int),
            abs_diff(ax as int, bx as int) == 0 || abs_diff(ay as int, by as int) == 0
                || abs_diff(ax as int, bx as int) == abs_diff(ay as int, by as int),
            1 <= k,
            forall|j: int|
                1 <= j < k ==> !((#[trigger] ray_cell(
                    board@,
                    rs as int,
                    ax as int,
                    ay as int,
                    sx,
                    sy,
                    j,
                )) is Some),
        decreases dist - k,
    {
        let cx = if bx > ax {
            ax + k
        } else if bx < ax {
            ax - k
        } else {
            ax
        };
        let cy = if by > ay {
            ay + k
        } else if by < ay {
            ay - k
        } else {
            ay
        };
        proof {
            assert(cx as int == ax as int + k * sx);
            assert(cy as int == ay as int + k * sy);
            assert(in_square(rs as int, cx as int, cy as int));
        }
        let q = xy_to_pos(rs, cx, cy);
        if board.get(q).is_some() {
            proof {
                assert(ray_cell(board@, rs as int, ax as int, ay as int, sx, sy, k as int)
                    is Some);
            }
            return false;
        }
        k = k + 1;
    }
    true
}

/// Decides whether a piece of kind `piece` at `piece_pos` attacks a king at
/// `king_pos`, honoring line-of-sight blocking for sliding pieces.
pub fn is_checking(board: &Board, row_size: u32, king_pos: u32, piece_pos: u32, piece: Piece) -> (r:
    bool)
    requires
        grid_wf(row_size as int, board@.len() as int),
    ensures
        r == spec_is_checking(
            board@,
            row_size as int,
            king_pos as int,
            piece_pos as int,
            piece,
        ),
{
    if king_pos == piece_pos {
        return false;
    }
    let (kx, ky) = pos_to_xy(row_size, king_pos);
    let (px, py) = pos_to_xy(row_size, piece_pos);
    if ky >= row_size || py >= row_size {
        return false;
    }
    let dx = if kx >= px {
        kx - px
    } else {
        px - kx
    };
    let dy = if ky >= py {
        ky - py
    } else {
        py - ky
    };
    let geom = match piece {
        Piece::PAWN => py + 1 == ky && dx == 1,
        Piece::KNIGHT => (dx == 1 && dy == 2) || (dx == 2 && dy == 1),
        Piece::BISHOP => dx == dy && dx != 0,
        Piece::CASTLE => (dx == 0 || dy == 0) && !(dx == 0 && dy == 0),
        Piece::QUEEN => (dx == 0 || dy == 0 || dx == dy) && !(dx == 0 && dy == 0),
        Piece::KING => dx <= 1 && dy <= 1 && !(dx == 0 && dy == 0),
    };
    proof {
        assert(dx as int * dy as int == 2 <==> ((dx == 1 && dy == 2) || (dx == 2 && dy == 1)))
            by (nonlinear_arith);
        assert(geom == kind_geometry_ok(
            piece,
            kx as int,
            ky as int,
            px as int,
            py as int,
        ));
    }
    if !geom {
        return false;
    }
    let slider = piece == Piece::CASTLE || piece == Piece::BISHOP || piece == Piece::QUEEN;
    if slider {
        seg_clear_exec(board, row_size, kx, ky, px, py)
    } else {
        true
    }
}

/// Every attacker is a pawn, knight or king on a candidate cell, or a slider
/// on one of the eight rays from the king.
#[verifier::rlimit(100)]
proof fn lemma_threat_partition(cells: Seq<Option<(Piece, u32)>>, rs: int, king_pos: int)
    requires
        grid_wf(rs, cells.len() as int),
        0 <= king_pos < cells.len(),
        in_square(rs, spec_x(rs, king_pos), spec_y(rs, king_pos)),
    ensures
        threat_nonces(cells, rs, king_pos) =~= threat_nonces_kind(cells, rs, king_pos, Piece::PAWN)
            .union(threat_nonces_kind(cells, rs, king_pos, Piece::KNIGHT)).union(
            threat_nonces_kind(cells, rs, king_pos, Piece::KING),
        ).union(slider_dir_class(cells, rs, king_pos, 1, 0)).union(
            slider_dir_class(cells, rs, king_pos, -1, 0),
        ).union(slider_dir_class(cells, rs, king_pos, 0, 1)).union(
            slider_dir_class(cells, rs, king_pos, 0, -1),
        ).union(slider_dir_class(cells, rs, king_pos, 1, 1)).union(
            slider_dir_class(cells, rs, king_pos, 1, -1),
        ).union(slider_dir_class(cells, rs, king_pos, -1, 1)).union(
            slider_dir_class(cells, rs, king_pos, -1, -1),
        ),
{
    let rhs = threat_nonces_kind(cells, rs, king_pos, Piece::PAWN).union(
        threat_nonces_kind(cells, rs, king_pos, Piece::KNIGHT),
    ).union(threat_nonces_kind(cells, rs, king_pos, Piece::KING)).union(
        slider_dir_class(cells, rs, king_pos, 1, 0),
    ).union(slider_dir_class(cells, rs, king_pos, -1, 0)).union(
        slider_dir_class(cells, rs, king_pos, 0, 1),
    ).union(slider_dir_class(cells, rs, king_pos, 0, -1)).union(
        slider_dir_class(cells, rs, king_pos, 1, 1),
    ).union(slider_dir_class(cells, rs, king_pos, 1, -1)).union(
        slider_dir_class(cells, rs, king_pos, -1, 1),
    ).union(slider_dir_class(cells, rs, king_pos, -1, -1));
    assert forall|n: u32| threat_nonces(cells, rs, king_pos).contains(n) implies rhs.contains(
        n,
    ) by {
        let p = choose|p: int|
            #[trigger] spec_attacks(cells, rs, king_pos, p) && nonce_at(cells, p) == n;
        let pc = kind_at(cells, p);
        if is_slider(pc) {
            lemma_pos_decompose(rs, p);
            lemma_pos_decompose(rs, king_pos);
            let sx = sgn(spec_x(rs, p) - spec_x(rs, king_pos));
            let sy = sgn(spec_y(rs, p) - spec_y(rs, king_pos));
            assert(!(sx == 0 && sy == 0));
            assert(slider_dir_class(cells, rs, king_pos, sx, sy).contains(n));
        } else {
            assert(threat_nonces_kind(cells, rs, king_pos, pc).contains(n));
        }
    }
    assert forall|n: u32| rhs.contains(n) implies threat_nonces(cells, rs, king_pos).contains(
        n,
    ) by {
    }
}

/// The counter family a ray direction is gated by: its row, column,
/// diagonal or anti-diagonal through the king.
pub open spec fn dir_line(rs: int, kx: int, ky: int, sx: int, sy: int) -> Line {
    if sy == 0 {
        Line::Row(ky)
    } else if sx == 0 {
        Line::Col(kx)
    } else if sx == sy {
        Line::Anti(kx + rs - 1 - ky)
    } else {
        Line::Diag(kx + ky)
    }
}

/// A ray whose gating counter is zero holds no sliding attacker.
proof fn lemma_gate_empty(
    cells: Seq<Option<(Piece, u32)>>,
    rs: int,
    king_pos: int,
    kx: int,
    ky: int,
    sx: int,
    sy: int,
)
    requires
        grid_wf(rs, cells.len() as int),
        0 <= king_pos < cells.len(),
        kx == spec_x(rs, king_pos),
        ky == spec_y(rs, king_pos),
        in_square(rs, kx, ky),
        -1 <= sx <= 1,
        -1 <= sy <= 1,
        !(sx == 0 && sy == 0),
        slider_count(cells, rs, dir_line(rs, kx, ky, sx, sy)) == 0,
    ensures
        slider_dir_class(cells, rs, king_pos, sx, sy) =~= Set::<u32>::empty(),
{
    let line = dir_line(rs, kx, ky, sx, sy);
    lemma_count_zero(cells, rs, line, cells.len() as int);
    assert forall|m: u32| !slider_dir_class(cells, rs, king_pos, sx, sy).contains(m) by {
        if slider_dir_class(cells, rs, king_pos, sx, sy).contains(m) {
            let q = choose|q: int|
                #[trigger] spec_attacks(cells, rs, king_pos, q) && is_slider(kind_at(cells, q))
                    && sgn(spec_x(rs, q) - spec_x(rs, king_pos)) == sx && sgn(
                    spec_y(rs, q) - spec_y(rs, king_pos),
                ) == sy && nonce_at(cells, q) == m;
            lemma_member_ray_facts(cells, rs, king_pos, kx, ky, sx, sy, q);
            let e = seg_dist(kx, ky, spec_x(rs, q), spec_y(rs, q));
            assert(e * 0 == 0) by (nonlinear_arith);
            if sx == sy {
                assert(e * sx - e * sy == 0) by (nonlinear_arith)
                    requires sx == sy;
            }
            if sx == 0 - sy {
                assert(e * sx + e * sy == 0) by (nonlinear_arith)
                    requires sx == 0 - sy;
            }
            assert(counts_on(cells, rs, line, q));
        }
    }
}

/// Acceleration structure for threat detection: per-row, per-column,
/// per-diagonal and per-anti-diagonal counts of the sliding pieces currently
/// on the board, kept exactly consistent with every overwrite so that lines
/// without sliders can be skipped when attackers are enumerated.
pub struct ThreatTracker {
    rows: Vec<u32>,
    cols: Vec<u32>,
    diags: Vec<u32>,
    anti_diags: Vec<u32>,
    row_size: u32,
}

/// A vector of `n` zeroed counters.
fn zeros(n: u32) -> (r: Vec<u32>)
    ensures
        r@.len() == n,
        forall|i: int| 0 <= i < n ==> r@[i] == 0u32,
{
    let mut v: Vec<u32> = Vec::new();
    let mut i: u32 = 0;
    while i < n
        invariant
            v@.len() == i,
            i <= n,
            forall|k: int| 0 <= k < i ==> v@[k] == 0u32,
        decreases n - i,
    {
        v.push(0);
        i = i + 1;
    }
    v
}

impl ThreatTracker {
    /// Side of the virtual square this tracker was built for.
    pub closed spec fn spec_row_size(&self) -> u32 {
        self.row_size
    }

    /// The tracker's counters describe exactly the given board contents.
    pub closed spec fn consistent_with(&self, cells: Seq<Option<(Piece, u32)>>) -> bool {
        let rs = self.row_size as int;
        &&& grid_wf(rs, cells.len() as int)
        &&& rs == spec_isqrt(cells.len() as int)
        &&& self.rows@.len() == rs
        &&& self.cols@.len() == rs
        &&& self.diags@.len() == 2 * rs - 1
        &&& self.anti_diags@.len() == 2 * rs - 1
        &&& forall|y: int|
            0 <= y < rs ==> (#[trigger] self.rows@[y]) as nat == slider_count(
                cells,
                rs,
                Line::Row(y),
            )
        &&& forall|x: int|
            0 <= x < rs ==> (#[trigger] self.cols@[x]) as nat == slider_count(
                cells,
                rs,
                Line::Col(x),
            )
        &&& forall|d: int|
            0 <= d < 2 * rs - 1 ==> (#[trigger] self.diags@[d]) as nat == slider_count(
                cells,
                rs,
                Line::Diag(d),
            )
        &&& forall|a: int|
            0 <= a < 2 * rs - 1 ==> (#[trigger] self.anti_diags@[a]) as nat == slider_count(
                cells,
                rs,
                Line::Anti(a),
            )
    }

    /// Creates the tracker for an empty board of `board_size` cells.
    pub fn new(board_size: u32) -> (r: ThreatTracker)
        requires
            board_size >= 1,
        ensures
            r.spec_row_size() == spec_isqrt(board_size as int),
            r.consistent_with(Seq::new(board_size as nat, |i: int| None::<(Piece, u32)>)),
    {
        let row_size = isqrt(board_size);
        proof {
            if row_size == 0 {
                assert((row_size as int + 1) * (row_size as int + 1) == 1) by (nonlinear_arith)
                    requires row_size as int == 0;
                assert(board_size < 1);
            }
            lemma_row_size_bound(row_size as int, board_size as int);
        }
        let diag_count = 2 * row_size - 1;
        let r = ThreatTracker {
            rows: zeros(row_size),
            cols: zeros(row_size),
            diags: zeros(diag_count),
            anti_diags: zeros(diag_count),
            row_size,
        };
        proof {
            let cells = Seq::new(board_size as nat, |i: int| None::<(Piece, u32)>);
            let rs = row_size as int;
            assert forall|y: int| 0 <= y < rs implies (#[trigger] r.rows@[y]) as nat
                == slider_count(cells, rs, Line::Row(y)) by {
                lemma_count_empty(cells, rs, Line::Row(y), cells.len() as int);
            }
            assert forall|x: int| 0 <= x < rs implies (#[trigger] r.cols@[x]) as nat
                == slider_count(cells, rs, Line::Col(x)) by {
                lemma_count_empty(cells, rs, Line::Col(x), cells.len() as int);
            }
            assert forall|d: int| 0 <= d < 2 * rs - 1 implies (#[trigger] r.diags@[d]) as nat
                == slider_count(cells, rs, Line::Diag(d)) by {
                lemma_count_empty(cells, rs, Line::Diag(d), cells.len() as int);
            }
            assert forall|a: int| 0 <= a < 2 * rs - 1 implies (#[trigger] r.anti_diags@[a]) as nat
                == slider_count(cells, rs, Line::Anti(a)) by {
                lemma_count_empty(cells, rs, Line::Anti(a), cells.len() as int);
            }
        }
        r
    }

    /// Adds a newly placed piece's contribution to the line counters.
    /// `cells` is the board before the placement, whose cell at `pos` is
    /// still empty, and `cells2` the board right after it.
    fn add_piece_threats(
        &mut self,
        pos: u32,
        piece: Piece,
        Ghost(cells): Ghost<Seq<Option<(Piece, u32)>>>,
        Ghost(cells2): Ghost<Seq<Option<(Piece, u32)>>>,
    )
        requires
            old(self).consistent_with(cells),
            (pos as int) < cells.len(),
            cells[pos as int] is None,
            cells2.len() == cells.len(),
            cells2 == cells.update(pos as int, cells2[pos as int]),
            cells2[pos as int] is Some,
            kind_at(cells2, pos as int) == piece,
        ensures
            final(self).consistent_with(cells2),
            final(self).spec_row_size() == old(self).spec_row_size(),
    {
        let rs = self.row_size;
        let ghost rsi = rs as int;
        let (x, y) = pos_to_xy(rs, pos);
        proof {
            lemma_row_size_bound(rsi, cells.len() as int);
            lemma_all_counts_update(cells, rsi, pos as int, cells2[pos as int]);
        }
        if y >= rs {
            return;
        }
        match piece {
            Piece::CASTLE => {
                let ry = self.rows[y as usize];
                proof {
                    lemma_count_le(cells2, rsi, Line::Row(y as int), cells2.len() as int);
                    assert(counts_on(cells2, rsi, Line::Row(y as int), pos as int));
                    assert(slider_count(cells2, rsi, Line::Row(y as int)) == slider_count(
                        cells,
                        rsi,
                        Line::Row(y as int),
                    ) + 1);
                }
                self.rows.set(y as usize, ry + 1);
                let cx = self.cols[x as usize];
                proof {
                    lemma_count_le(cells2, rsi, Line::Col(x as int), cells2.len() as int);
                    assert(counts_on(cells2, rsi, Line::Col(x as int), pos as int));
                    assert(slider_count(cells2, rsi, Line::Col(x as int)) == slider_count(
                        cells,
                        rsi,
                        Line::Col(x as int),
                    ) + 1);
                }
                self.cols.set(x as usize, cx + 1);
            },
            Piece::BISHOP => {
                let d = get_diagonal(x, y);
                let a = get_anti_diagonal(x, y, rs);
                let dv = self.diags[d as usize];
                proof {
                    lemma_count_le(cells2, rsi, Line::Diag(d as int), cells2.len() as int);
                    assert(counts_on(cells2, rsi, Line::Diag(d as int), pos as int));
                    assert(slider_count(cells2, rsi, Line::Diag(d as int)) == slider_count(
                        cells,
                        rsi,
                        Line::Diag(d as int),
                    ) + 1);
                }
                self.diags.set(d as usize, dv + 1);
                let av = self.anti_diags[a as usize];
                proof {
                    lemma_count_le(cells2, rsi, Line::Anti(a as int), cells2.len() as int);
                    assert(counts_on(cells2, rsi, Line::Anti(a as int), pos as int));
                    assert(slider_count(cells2, rsi, Line::Anti(a as int)) == slider_count(
                        cells,
                        rsi,
                        Line::Anti(a as int),
                    ) + 1);
                }
                self.anti_diags.set(a as usize, av + 1);
            },
            Piece::QUEEN => {
                let ry = self.rows[y as usize];
                proof {
                    lemma_count_le(cells2, rsi, Line::Row(y as int), cells2.len() as int);
                    assert(counts_on(cells2, rsi, Line::Row(y as int), pos as int));
                    assert(slider_count(cells2, rsi, Line::Row(y as int)) == slider_count(
                        cells,
                        rsi,
                        Line::Row(y as int),
                    ) + 1);
                }
                self.rows.set(y as usize, ry + 1);
                let cx = self.cols[x as usize];
                proof {
                    lemma_count_le(cells2, rsi, Line::Col(x as int), cells2.len() as int);
                    assert(counts_on(cells2, rsi, Line::Col(x as int), pos as int));
                    assert(slider_count(cells2, rsi, Line::Col(x as int)) == slider_count(
                        cells,
                        rsi,
                        Line::Col(x as int),
                    ) + 1);
                }
                self.cols.set(x as usize, cx + 1);
                let d = get_diagonal(x, y);
                let a = get_anti_diagonal(x, y, rs);
                let dv = self.diags[d as usize];
                proof {
                    lemma_count_le(cells2, rsi, Line::Diag(d as int), cells2.len() as int);
                    assert(counts_on(cells2, rsi, Line::Diag(d as int), pos as int));
                    assert(slider_count(cells2, rsi, Line::Diag(d as int)) == slider_count(
                        cells,
                        rsi,
                        Line::Diag(d as int),
                    ) + 1);
                }
                self.diags.set(d as usize, dv + 1);
                let av = self.anti_diags[a as usize];
                proof {
                    lemma_count_le(cells2, rsi, Line::Anti(a as int), cells2.len() as int);
                    assert(counts_on(cells2, rsi, Line::Anti(a as int), pos as int));
                    assert(slider_count(cells2, rsi, Line::Anti(a as int)) == slider_count(
                        cells,
                        rsi,
                        Line::Anti(a as int),
                    ) + 1);
                }
                self.anti_diags.set(a as usize, av + 1);
            },
            _ => {},
        }
    }

    /// Removes an overwritten piece's contribution from the line counters.
    /// `cells` is the board still holding the piece, `cells2` the board with
    /// its cell cleared.
    fn remove_piece_threats(
        &mut self,
        pos: u32,
        piece: Piece,
        Ghost(cells): Ghost<Seq<Option<(Piece, u32)>>>,
        Ghost(cells2): Ghost<Seq<Option<(Piece, u32)>>>,
    )
        requires
            old(self).consistent_with(cells),
            (pos as int) < cells.len(),
            cells[pos as int] is Some,
            kind_at(cells, pos as int) == piece,
            cells2.len() == cells.len(),
            cells2 == cells.update(pos as int, None),
        ensures
            final(self).consistent_with(cells2),
            final(self).spec_row_size() == old(self).spec_row_size(),
    {
        let rs = self.row_size;
        let ghost rsi = rs as int;
        let (x, y) = pos_to_xy(rs, pos);
        proof {
            lemma_row_size_bound(rsi, cells.len() as int);
            lemma_all_counts_update(cells, rsi, pos as int, None);
        }
        if y >= rs {
            return;
        }
        match piece {
            Piece::CASTLE => {
                let ry = self.rows[y as usize];
                proof {
                    lemma_count_member(cells, rsi, Line::Row(y as int), pos as int);
                    assert(slider_count(cells2, rsi, Line::Row(y as int)) == slider_count(
                        cells,
                        rsi,
                        Line::Row(y as int),
                    ) - 1);
                }
                self.rows.set(y as usize, ry - 1);
                let cx = self.cols[x as usize];
                proof {
                    lemma_count_member(cells, rsi, Line::Col(x as int), pos as int);
                    assert(slider_count(cells2, rsi, Line::Col(x as int)) == slider_count(
                        cells,
                        rsi,
                        Line::Col(x as int),
                    ) - 1);
                }
                self.cols.set(x as usize, cx - 1);
            },
            Piece::BISHOP => {
                let d = get_diagonal(x, y);
                let a = get_anti_diagonal(x, y, rs);
                let dv = self.diags[d as usize];
                proof {
                    lemma_count_member(cells, rsi, Line::Diag(d as int), pos as int);
                    assert(slider_count(cells2, rsi, Line::Diag(d as int)) == slider_count(
                        cells,
                        rsi,
                        Line::Diag(d as int),
                    ) - 1);
                }
                self.diags.set(d as usize, dv - 1);
                let av = self.anti_diags[a as usize];
                proof {
                    lemma_count_member(cells, rsi, Line::Anti(a as int), pos as int);
                    assert(slider_count(cells2, rsi, Line::Anti(a as int)) == slider_count(
                        cells,
                        rsi,
                        Line::Anti(a as int),
                    ) - 1);
                }
                self.anti_diags.set(a as usize, av - 1);
            },
            Piece::QUEEN => {
                let ry = self.rows[y as usize];
                proof {
                    lemma_count_member(cells, rsi, Line::Row(y as int), pos as int);
                    assert(slider_count(cells2, rsi, Line::Row(y as int)) == slider_count(
                        cells,
                        rsi,
                        Line::Row(y as int),
                    ) - 1);
                }
                self.rows.set(y as usize, ry - 1);
                let cx = self.cols[x as usize];
                proof {
                    lemma_count_member(cells, rsi, Line::Col(x as int), pos as int);
                    assert(slider_count(cells2, rsi, Line::Col(x as int)) == slider_count(
                        cells,
                        rsi,
                        Line::Col(x as int),
                    ) - 1);
                }
                self.cols.set(x as usize, cx - 1);
                let d = get_diagonal(x, y);
                let a = get_anti_diagonal(x, y, rs);
                let dv = self.diags[d as usize];
                proof {
                    lemma_count_member(cells, rsi, Line::Diag(d as int), pos as int);
                    assert(slider_count(cells2, rsi, Line::Diag(d as int)) == slider_count(
                        cells,
                        rsi,
                        Line::Diag(d as int),
                    ) - 1);
                }
                self.diags.set(d as usize, dv - 1);
                let av = self.anti_diags[a as usize];
                proof {
                    lemma_count_member(cells, rsi, Line::Anti(a as int), pos as int);
                    assert(slider_count(cells2, rsi, Line::Anti(a as int)) == slider_count(
                        cells,
                        rsi,
                        Line::Anti(a as int),
                    ) - 1);
                }
                self.anti_diags.set(a as usize, av - 1);
            },
            _ => {},
        }
    }

    /// Places a piece on the board, overwriting any previous occupant, and
    /// keeps the counters in step: the overwritten piece's contribution is
    /// removed before the new piece's contribution is added.
    pub fn place_piece(&mut self, board: &mut Board, pos: u32, piece: Piece, nonce: u32)
        requires
            old(self).consistent_with(old(board)@),
            pos < old(board)@.len(),
        ensures
            final(board)@ == old(board)@.update(pos as int, Some((piece, nonce))),
            final(self).consistent_with(final(board)@),
            final(self).spec_row_size() == old(self).spec_row_size(),
    {
        let ghost cells0 = board@;
        let prev = board.get(pos);
        if let Some((old_piece, _)) = prev {
            let ghost cells_mid = cells0.update(pos as int, None);
            self.remove_piece_threats(pos, old_piece, Ghost(cells0), Ghost(cells_mid));
            let _ = board.place(pos, piece, nonce);
            proof {
                assert(board@ =~= cells_mid.update(pos as int, board@[pos as int]));
            }
            self.add_piece_threats(pos, piece, Ghost(cells_mid), Ghost(board@));
        } else {
            let _ = board.place(pos, piece, nonce);
            self.add_piece_threats(pos, piece, Ghost(cells0), Ghost(board@));
        }
    }

    /// Collects all sliding attackers of the king by scanning the eight rays
    /// from it, skipping in constant time every line whose slider counter is
    /// zero.
    fn add_sliding_piece_attackers(
        &self,
        board: &Board,
        king_pos: u32,
        kx: u32,
        ky: u32,
        threats: &mut Vec<u32>,
    )
        requires
            self.consistent_with(board@),
            king_pos < board@.len(),
            kx as int == spec_x(self.spec_row_size() as int, king_pos as int),
            ky as int == spec_y(self.spec_row_size() as int, king_pos as int),
            in_square(self.spec_row_size() as int, kx as int, ky as int),
            old(threats)@.no_duplicates(),
        ensures
            final(threats)@.no_duplicates(),
            final(threats)@.to_set() == old(threats)@.to_set().union(
                slider_dir_class(board@, self.spec_row_size() as int, king_pos as int, 1, 0),
            ).union(slider_dir_class(board@, self.spec_row_size() as int, king_pos as int, -1, 0))
                .union(slider_dir_class(board@, self.spec_row_size() as int, king_pos as int, 0, 1))
                .union(
                slider_dir_class(board@, self.spec_row_size() as int, king_pos as int, 0, -1),
            ).union(slider_dir_class(board@, self.spec_row_size() as int, king_pos as int, 1, 1))
                .union(
                slider_dir_class(board@, self.spec_row_size() as int, king_pos as int, 1, -1),
            ).union(slider_dir_class(board@, self.spec_row_size() as int, king_pos as int, -1, 1))
                .union(
                slider_dir_class(board@, self.spec_row_size() as int, king_pos as int, -1, -1),
            ),
    {
        let rs = self.row_size;
        let ghost rsi = rs as int;
        let ghost kp = king_pos as int;
        proof {
            lemma_row_size_bound(rsi, board@.len() as int);
        }
        if self.rows[ky as usize] > 0 {
            add_slider_ray(board, rs, king_pos, kx, ky, 1, 0, threats);
            add_slider_ray(board, rs, king_pos, kx, ky, -1, 0, threats);
        } else {
            proof {
                lemma_gate_empty(board@, rsi, kp, kx as int, ky as int, 1, 0);
                lemma_gate_empty(board@, rsi, kp, kx as int, ky as int, -1, 0);
                assert(threats@.to_set() =~= threats@.to_set().union(
                    slider_dir_class(board@, rsi, kp, 1, 0),
                ).union(slider_dir_class(board@, rsi, kp, -1, 0)));
            }
        }
        if self.cols[kx as usize] > 0 {
            add_slider_ray(board, rs, king_pos, kx, ky, 0, 1, threats);
            add_slider_ray(board, rs, king_pos, kx, ky, 0, -1, threats);
        } else {
            proof {
                lemma_gate_empty(board@, rsi, kp, kx as int, ky as int, 0, 1);
                lemma_gate_empty(board@, rsi, kp, kx as int, ky as int, 0, -1);
                assert(threats@.to_set() =~= threats@.to_set().union(
                    slider_dir_class(board@, rsi, kp, 0, 1),
                ).union(slider_dir_class(board@, rsi, kp, 0, -1)));
            }
        }
        let diag = get_diagonal(kx, ky);
        if self.diags[diag as usize] > 0 {
            add_slider_ray(board, rs, king_pos, kx, ky, 1, -1, threats);
            add_slider_ray(board, rs, king_pos, kx, ky, -1, 1, threats);
        } else {
            proof {
                lemma_gate_empty(board@, rsi, kp, kx as int, ky as int, 1, -1);
                lemma_gate_empty(board@, rsi, kp, kx as int, ky as int, -1, 1);
                assert(threats@.to_set() =~= threats@.to_set().union(
                    slider_dir_class(board@, rsi, kp, 1, -1),
                ).union(slider_dir_class(board@, rsi, kp, -1, 1)));
            }
        }
        let anti = get_anti_diagonal(kx, ky, rs);
        if self.anti_diags[anti as usize] > 0 {
            add_slider_ray(board, rs, king_pos, kx, ky, 1, 1, threats);
            add_slider_ray(board, rs, king_pos, kx, ky, -1, -1, threats);
        } else {
            proof {
                lemma_gate_empty(board@, rsi, kp, kx as int, ky as int, 1, 1);
                lemma_gate_empty(board@, rsi, kp, kx as int, ky as int, -1, -1);
                assert(threats@.to_set() =~= threats@.to_set().union(
                    slider_dir_class(board@, rsi, kp, 1, 1),
                ).union(slider_dir_class(board@, rsi, kp, -1, -1)));
            }
        }
    }

    /// Enumerates the nonces of all pieces currently attacking a king at
    /// `king_pos`: a full recomputation from the current board, skipping in
    /// constant time every line whose slider counter is zero.
    pub fn calculate_threats(&self, board: &Board, king_pos: u32) -> (r: Vec<u32>)
        requires
            self.consistent_with(board@),
            king_pos < board@.len(),
        ensures
            r@.no_duplicates(),
            r@.to_set() == threat_nonces(board@, self.spec_row_size() as int, king_pos as int),
    {
        let rs = self.row_size;
        let ghost rsi = rs as int;
        let ghost kp = king_pos as int;
        let (kx, ky) = pos_to_xy(rs, king_pos);
        let mut threats: Vec<u32> = Vec::new();
        if ky >= rs {
            proof {
                assert(threat_nonces(board@, rsi, kp) =~= threats@.to_set()) by {
                    assert forall|n: u32| !threat_nonces(board@, rsi, kp).contains(n) by {
                        if threat_nonces(board@, rsi, kp).contains(n) {
                            let p = choose|p: int|
                                #[trigger] spec_attacks(board@, rsi, kp, p) && nonce_at(board@, p)
                                    == n;
                        }
                    }
                    assert forall|n: u32| !threats@.to_set().contains(n) by {}
                }
            }
            return threats;
        }
        add_point_attackers(board, rs, king_pos, kx, ky, &mut threats);
        self.add_sliding_piece_attackers(board, king_pos, kx, ky, &mut threats);
        proof {
            lemma_threat_partition(board@, rsi, kp);
            assert(threats@.to_set() =~= threat_nonces(board@, rsi, kp));
        }
        threats
    }
}

} // verus!
