//! Per-line occupancy counts of sliding pieces, the invariant behind the
//! threat detector's acceleration counters: a line whose count is zero can
//! be skipped without looking at any of its cells.

use vstd::prelude::*;

use crate::board::{kind_at, occ_at};
use crate::geometry::{spec_x, spec_y};
use crate::piece::Piece;

verus! {

/// One family of lines on the grid: a row, a column, a diagonal of constant
/// `x + y`, or an anti-diagonal of constant `x - y` (shifted by
/// `row_size - 1` so indices start at zero).
pub enum Line {
    Row(int),
    Col(int),
    Diag(int),
    Anti(int),
}

/// Whether coordinates lie on the line.
pub open spec fn line_matches(line: Line, rs: int, x: int, y: int) -> bool {
    match line {
        Line::Row(r) => y == r,
        Line::Col(c) => x == c,
        Line::Diag(d) => x + y == d,
        Line::Anti(a) => x + rs - 1 - y == a,
    }
}

/// Which kinds a line family counts: rook-movers on rows and columns,
/// bishop-movers on diagonals.
pub open spec fn line_counts_kind(line: Line, pc: Piece) -> bool {
    match line {
        Line::Row(_) => pc == Piece::CASTLE || pc == Piece::QUEEN,
        Line::Col(_) => pc == Piece::CASTLE || pc == Piece::QUEEN,
        Line::Diag(_) => pc == Piece::BISHOP || pc == Piece::QUEEN,
        Line::Anti(_) => pc == Piece::BISHOP || pc == Piece::QUEEN,
    }
}

/// Whether the piece at position `p` contributes to the counter of `line`.
pub open spec fn counts_on(
    cells: Seq<Option<(Piece, u32)>>,
    rs: int,
    line: Line,
    p: int,
) -> bool {
    &&& occ_at(cells, p)
    &&& spec_y(rs, p) < rs
    &&& line_matches(line, rs, spec_x(rs, p), spec_y(rs, p))
    &&& line_counts_kind(line, kind_at(cells, p))
}

/// Number of contributing pieces among the positions below `end`.
pub open spec fn slider_count_to(
    cells: Seq<Option<(Piece, u32)>>,
    rs: int,
    line: Line,
    end: int,
) -> nat
    decreases end,
{
    if end <= 0 {
        0
    } else {
        slider_count_to(cells, rs, line, end - 1) + (if counts_on(cells, rs, line, end - 1) {
            1nat
        } else {
            0nat
        })
    }
}

/// Number of pieces contributing to the counter of `line`.
pub open spec fn slider_count(cells: Seq<Option<(Piece, u32)>>, rs: int, line: Line) -> nat {
    slider_count_to(cells, rs, line, cells.len() as int)
}

/// A counter never exceeds the number of positions it ranges over.
pub proof fn lemma_count_le(cells: Seq<Option<(Piece, u32)>>, rs: int, line: Line, end: int)
    ensures
        end >= 0 ==> slider_count_to(cells, rs, line, end) <= end,
    decreases end,
{
    if end > 0 {
        lemma_count_le(cells, rs, line, end - 1);
    }
}

/// Updating one cell changes a line's count by exactly the difference of the
/// old and new contributions of that cell.
pub proof fn lemma_count_update(
    cells: Seq<Option<(Piece, u32)>>,
    rs: int,
    line: Line,
    end: int,
    j: int,
    v: Option<(Piece, u32)>,
)
    requires
        0 <= j < cells.len(),
        end <= cells.len(),
    ensures
        slider_count_to(cells.update(j, v), rs, line, end) as int == slider_count_to(
            cells,
            rs,
            line,
            end,
        ) as int + (if j < end && counts_on(cells.update(j, v), rs, line, j) {
            1int
        } else {
            0int
        }) - (if j < end && counts_on(cells, rs, line, j) {
            1int
        } else {
            0int
        }),
    decreases end,
{
    if end > 0 {
        lemma_count_update(cells, rs, line, end - 1, j, v);
        if end - 1 != j {
            assert(counts_on(cells.update(j, v), rs, line, end - 1) == counts_on(
                cells,
                rs,
                line,
                end - 1,
            ));
        }
    }
}

/// Updating one cell changes every line's count by that cell's contribution.
pub proof fn lemma_all_counts_update(
    cells: Seq<Option<(Piece, u32)>>,
    rs: int,
    j: int,
    v: Option<(Piece, u32)>,
)
    requires
        0 <= j < cells.len(),
    ensures
        forall|line: Line|
            (#[trigger] slider_count(cells.update(j, v), rs, line)) as int == slider_count(
                cells,
                rs,
                line,
            ) as int + (if counts_on(cells.update(j, v), rs, line, j) {
                1int
            } else {
                0int
            }) - (if counts_on(cells, rs, line, j) {
                1int
            } else {
                0int
            }),
{
    assert forall|line: Line|
        (#[trigger] slider_count(cells.update(j, v), rs, line)) as int == slider_count(
            cells,
            rs,
            line,
        ) as int + (if counts_on(cells.update(j, v), rs, line, j) {
            1int
        } else {
            0int
        }) - (if counts_on(cells, rs, line, j) {
            1int
        } else {
            0int
        }) by {
        lemma_count_update(cells, rs, line, cells.len() as int, j, v);
    }
}

/// A zero counter means no contributing piece at all.
pub proof fn lemma_count_zero(cells: Seq<Option<(Piece, u32)>>, rs: int, line: Line, end: int)
    requires
        slider_count_to(cells, rs, line, end) == 0,
    ensures
        forall|p: int| 0 <= p < end ==> !counts_on(cells, rs, line, p),
    decreases end,
{
    if end > 0 {
        lemma_count_zero(cells, rs, line, end - 1);
    }
}

/// An occupied contributing cell makes its line's counter positive.
pub proof fn lemma_count_member(
    cells: Seq<Option<(Piece, u32)>>,
    rs: int,
    line: Line,
    p: int,
)
    requires
        0 <= p < cells.len(),
        counts_on(cells, rs, line, p),
    ensures
        slider_count(cells, rs, line) >= 1,
{
    if slider_count(cells, rs, line) == 0 {
        lemma_count_zero(cells, rs, line, cells.len() as int);
    }
}

/// Every counter of an empty board is zero.
pub proof fn lemma_count_empty(cells: Seq<Option<(Piece, u32)>>, rs: int, line: Line, end: int)
    requires
        forall|p: int| 0 <= p < cells.len() ==> !((#[trigger] cells[p]) is Some),
        end <= cells.len(),
    ensures
        slider_count_to(cells, rs, line, end) == 0,
    decreases end,
{
    if end > 0 {
        lemma_count_empty(cells, rs, line, end - 1);
    }
}

} // verus!
