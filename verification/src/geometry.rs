//! Coordinates on the virtual square grid, and the per-kind attack geometry.
//!
//! A position is an integer in `0..board_size`, read row-major over a square
//! of side `row_size = isqrt(board_size)`.  Since `row_size * row_size` may
//! be less than `board_size`, a position can fall outside the square; such a
//! position never attacks and is never attacked.

use vstd::prelude::*;

use crate::piece::Piece;

verus! {

/// Column of position `p`.
pub open spec fn spec_x(row_size: int, p: int) -> int {
    p % row_size
}

/// Row of position `p`.
pub open spec fn spec_y(row_size: int, p: int) -> int {
    p / row_size
}

/// Whether a coordinate pair lies on the virtual square.
pub open spec fn in_square(row_size: int, x: int, y: int) -> bool {
    0 <= x < row_size && 0 <= y < row_size
}

/// `|a - b|`.
pub open spec fn abs_diff(a: int, b: int) -> int {
    if a >= b {
        a - b
    } else {
        b - a
    }
}

/// Sign of `a`, in `{-1, 0, 1}`.
pub open spec fn sgn(a: int) -> int {
    if a > 0 {
        1
    } else if a < 0 {
        -1
    } else {
        0
    }
}

/// The grid parameters a search works with: a positive row size whose square
/// fits inside the board, and a board small enough for `u32` positions.
pub open spec fn grid_wf(row_size: int, board_size: int) -> bool {
    &&& 0 < row_size
    &&& row_size * row_size <= board_size
    &&& board_size <= u32::MAX
}

/// The purely geometric part of "a piece of this kind at `(px, py)` attacks a
/// king at `(kx, ky)`", without the line-of-sight condition for sliders.
/// Never true when the two cells coincide.
pub open spec fn kind_geometry_ok(piece: Piece, kx: int, ky: int, px: int, py: int) -> bool {
    let dx = abs_diff(kx, px);
    let dy = abs_diff(ky, py);
    match piece {
        Piece::PAWN => py + 1 == ky && dx == 1,
        Piece::KNIGHT => dx * dy == 2,
        Piece::BISHOP => dx == dy && dx != 0,
        Piece::CASTLE => (dx == 0 || dy == 0) && !(dx == 0 && dy == 0),
        Piece::QUEEN => (dx == 0 || dy == 0 || dx == dy) && !(dx == 0 && dy == 0),
        Piece::KING => dx <= 1 && dy <= 1 && !(dx == 0 && dy == 0),
    }
}

/// Splits a position into its `(x, y)` coordinates.
pub fn pos_to_xy(row_size: u32, p: u32) -> (r: (u32, u32))
    requires
        row_size > 0,
    ensures
        r.0 == spec_x(row_size as int, p as int),
        r.1 == spec_y(row_size as int, p as int),
        r.0 < row_size,
{
    (p % row_size, p / row_size)
}

/// Joins in-square coordinates back into a position.
pub fn xy_to_pos(row_size: u32, x: u32, y: u32) -> (r: u32)
    requires
        x < row_size,
        y < row_size,
        row_size as int * row_size as int <= u32::MAX as int + 1,
    ensures
        r == y as int * row_size as int + x as int,
        r < row_size as int * row_size as int,
{
    proof {
        lemma_xy_pos_bound(row_size as int, x as int, y as int);
    }
    y * row_size + x
}

/// In-square coordinates always give a position below `row_size * row_size`.
pub proof fn lemma_xy_pos_bound(row_size: int, x: int, y: int)
    requires
        0 <= x < row_size,
        0 <= y < row_size,
    ensures
        y * row_size + x < row_size * row_size,
{
    assert(y * row_size <= (row_size - 1) * row_size) by (nonlinear_arith)
        requires 0 <= y <= row_size - 1;
    assert((row_size - 1) * row_size + x < row_size * row_size) by (nonlinear_arith)
        requires 0 <= x < row_size;
}

/// Round trip: the coordinates of `y * row_size + x` are `(x, y)` again.
pub proof fn lemma_pos_xy_inverse(row_size: int, x: int, y: int)
    requires
        0 <= x < row_size,
        0 <= y < row_size,
    ensures
        spec_x(row_size, y * row_size + x) == x,
        spec_y(row_size, y * row_size + x) == y,
{
    let p = y * row_size + x;
    lemma_xy_pos_bound(row_size, x, y);
    vstd::arithmetic::div_mod::lemma_fundamental_div_mod_converse(p, row_size, y, x);
}

/// Whether `(x, y)` lies on the virtual square.
pub fn in_bounds(row_size: u32, x: u32, y: u32) -> (r: bool)
    ensures
        r == in_square(row_size as int, x as int, y as int),
{
    x < row_size && y < row_size
}

/// Index of the `x + y` diagonal through `(x, y)`, in `0..2 * row_size - 1`.
pub fn get_diagonal(x: u32, y: u32) -> (r: u32)
    requires
        x < 0x8000_0000,
        y < 0x8000_0000,
    ensures
        r == x + y,
{
    x + y
}

/// Index of the anti-diagonal (constant `x - y`) through an in-square
/// `(x, y)`, in `0..2 * row_size - 1`.
pub fn get_anti_diagonal(x: u32, y: u32, row_size: u32) -> (r: u32)
    requires
        x < row_size,
        y < row_size,
        row_size < 0x8000_0000,
    ensures
        r == x + row_size - 1 - y,
{
    x + row_size - 1 - y
}

/// The row at which anti-diagonal `anti_diag` crosses column `x`, if that
/// crossing lies on the square.
pub fn get_y_on_anti_diagonal(x: u32, anti_diag: u32, row_size: u32) -> (r: Option<u32>)
    requires
        x < row_size,
        row_size < 0x8000_0000,
        anti_diag < 2 * row_size,
    ensures
        r == (if anti_diag <= x + row_size - 1 && x + row_size - 1 - anti_diag < row_size {
            Some((x + row_size - 1 - anti_diag) as u32)
        } else {
            None::<u32>
        }),
{
    if anti_diag <= x + row_size - 1 {
        let y = x + row_size - 1 - anti_diag;
        if y < row_size {
            return Some(y);
        }
    }
    None
}

/// The virtual square's side always fits in 16 bits.
pub proof fn lemma_row_size_bound(rs: int, bs: int)
    requires
        grid_wf(rs, bs),
    ensures
        rs <= 0xFFFF,
{
    assert(rs <= 0xFFFF) by (nonlinear_arith)
        requires rs * rs <= 0xFFFFFFFF && rs > 0;
}

/// Largest `r` with `r * r <= n`.
pub open spec fn is_isqrt(n: int, r: int) -> bool {
    &&& 0 <= r
    &&& r * r <= n
    &&& n < (r + 1) * (r + 1)
}

/// The integer square root of `n`.
pub open spec fn spec_isqrt(n: int) -> int {
    choose|r: int| is_isqrt(n, r)
}

/// Two integer square roots of the same number are equal.
pub proof fn lemma_isqrt_unique(n: int, a: int, b: int)
    requires
        is_isqrt(n, a),
        is_isqrt(n, b),
    ensures
        a == b,
{
    if a < b {
        assert((a + 1) * (a + 1) <= b * b) by (nonlinear_arith)
            requires 0 <= a && 0 <= b && a < b;
    }
    if b < a {
        assert((b + 1) * (b + 1) <= a * a) by (nonlinear_arith)
            requires 0 <= a && 0 <= b && b < a;
    }
}

/// `spec_isqrt` meets the defining property of the integer square root.
pub proof fn lemma_isqrt(n: int)
    requires
        0 <= n,
    ensures
        is_isqrt(n, spec_isqrt(n)),
    decreases n,
{
    if n == 0 {
        assert(is_isqrt(0, 0));
    } else {
        lemma_isqrt(n - 1);
        let r = spec_isqrt(n - 1);
        if (r + 1) * (r + 1) <= n {
            assert(n < (r + 2) * (r + 2)) by (nonlinear_arith)
                requires 0 <= r && n - 1 < (r + 1) * (r + 1) && (r + 1) * (r + 1) <= n;
            assert(is_isqrt(n, r + 1));
        } else {
            assert(is_isqrt(n, r));
        }
    }
}

/// Computes the integer square root of `n`.
pub fn isqrt(n: u32) -> (r: u32)
    ensures
        r == spec_isqrt(n as int),
        is_isqrt(n as int, r as int),
{
    let mut r: u32 = 0;
    let mut sq: u64 = 0;
    while sq + 2 * (r as u64) + 1 <= n as u64
        invariant
            sq == r as int * r as int,
            sq <= n as u64,
            r <= n,
        decreases n - r,
    {
        proof {
            assert((r as int + 1) * (r as int + 1) == sq + 2 * (r as int) + 1) by (nonlinear_arith)
                requires sq == r as int * r as int;
            assert(r as int + 1 <= sq + 2 * (r as int) + 1) by (nonlinear_arith)
                requires sq == r as int * r as int && r as int >= 0;
        }
        sq = sq + 2 * (r as u64) + 1;
        r = r + 1;
    }
    proof {
        assert((r as int + 1) * (r as int + 1) == sq + 2 * (r as int) + 1) by (nonlinear_arith)
            requires sq == r as int * r as int;
        assert(is_isqrt(n as int, r as int));
        lemma_isqrt(n as int);
        lemma_isqrt_unique(n as int, r as int, spec_isqrt(n as int));
    }
    r
}

} // verus!
