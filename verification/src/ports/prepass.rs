//! Straight-edge pre-pass: edges whose end nodes face each other across a
//! free corridor get their ports pinned to a shared row or column, so that
//! they can be routed without a bend.
use vstd::prelude::*;
use std::collections::HashMap;

use crate::grid::{CellState, Grid, NodeFootprint};
use crate::placement::sugiyama::EdgeEnds;
use crate::ports::assignment::{EdgePorts, Port, Side};
use crate::ports::common::{coord_bound, footprint_ok, frame_ok};

verus! {

broadcast use vstd::std_specs::hash::group_hash_axioms;

/// Ports locked in before the main assigner runs.
#[derive(Debug, Clone, Copy, PartialEq, Eq, Structural)]
pub struct PinnedPorts {
    pub source: Port,
    pub target: Port,
}

/// An edge that could run straight, with the ports that would let it, and
/// its priority: the overlap of the two nodes' connector ranges
/// (`overlap_len`) over the narrower range (`span`).
#[derive(Debug, Clone, Copy, PartialEq, Eq, Structural)]
pub struct PrepassCandidate {
    pub edge_idx: usize,
    pub src_port: Port,
    pub tgt_port: Port,
    pub overlap_len: i64,
    pub span: i64,
    pub src_node: usize,
    pub tgt_node: usize,
}

// ─── corridor helpers ───────────────────────────────────────────────────────

/// Number of cells strictly between two node boundaries.
pub open spec fn corridor_len(start: int, end: int) -> int {
    if end < start {
        0
    } else {
        end - start + 1
    }
}

/// Number of cells in the corridor between rows or columns `start` and
/// `end` (both included), 0 when the nodes are adjacent.
pub fn required_corridor_len(start: i64, end: i64) -> (r: usize)
    requires
        end - start < i64::MAX,
        corridor_len(start as int, end as int) <= usize::MAX,
    ensures
        r == corridor_len(start as int, end as int),
{
    if end < start {
        0
    } else {
        (end - start + 1) as usize
    }
}

/// Cells free of nodes from `(row, col)` downward to row `end`, up to the
/// first blocked cell or the edge of the grid.
pub open spec fn clear_down(g: Grid, col: int, row: int, end: int) -> nat
    decreases end - row + 1,
{
    if row > end || !g.has(row, col) || g.cell(row, col).state == CellState::Blocked {
        0
    } else {
        1 + clear_down(g, col, row + 1, end)
    }
}

/// Cells free of nodes from `(row, col)` rightward to column `end`, up to
/// the first blocked cell or the edge of the grid.
pub open spec fn clear_right(g: Grid, row: int, col: int, end: int) -> nat
    decreases end - col + 1,
{
    if col > end || !g.has(row, col) || g.cell(row, col).state == CellState::Blocked {
        0
    } else {
        1 + clear_right(g, row, col + 1, end)
    }
}

/// Count the unobstructed cells going down column `col` from `start_row` to
/// `end_row`, stopping at the first blocked cell or the grid's edge.
pub fn unobstructed_vertical(grid: &Grid, col: i64, start_row: i64, end_row: i64) -> (r: usize)
    requires
        grid.wf(),
        end_row < i64::MAX,
    ensures
        r == clear_down(*grid, col as int, start_row as int, end_row as int),
{
    if end_row < start_row {
        return 0;
    }
    let mut count: usize = 0;
    let mut row = start_row;
    while row <= end_row
        invariant
            grid.wf(),
            end_row < i64::MAX,
            start_row <= row <= end_row + 1,
            count == (row - start_row),
            count > 0 ==> 0 <= start_row && row <= grid.rows,
            clear_down(*grid, col as int, start_row as int, end_row as int) == count + clear_down(
                *grid,
                col as int,
                row as int,
                end_row as int,
            ),
        decreases end_row + 1 - row,
    {
        if !grid.in_bounds(row, col) {
            return count;
        }
        if grid.cells[row as usize][col as usize].state == CellState::Blocked {
            return count;
        }
        count = count + 1;
        row = row + 1;
    }
    count
}

/// Count the unobstructed cells going right along row `row` from
/// `start_col` to `end_col`, stopping at the first blocked cell or the
/// grid's edge.
pub fn unobstructed_horizontal(grid: &Grid, row: i64, start_col: i64, end_col: i64) -> (r: usize)
    requires
        grid.wf(),
        end_col < i64::MAX,
    ensures
        r == clear_right(*grid, row as int, start_col as int, end_col as int),
{
    if end_col < start_col {
        return 0;
    }
    let mut count: usize = 0;
    let mut col = start_col;
    while col <= end_col
        invariant
            grid.wf(),
            end_col < i64::MAX,
            start_col <= col <= end_col + 1,
            count == (col - start_col),
            count > 0 ==> 0 <= start_col && col <= grid.cols,
            clear_right(*grid, row as int, start_col as int, end_col as int) == count + clear_right(
                *grid,
                row as int,
                col as int,
                end_col as int,
            ),
        decreases end_col + 1 - col,
    {
        if !grid.in_bounds(row, col) {
            return count;
        }
        if grid.cells[row as usize][col as usize].state == CellState::Blocked {
            return count;
        }
        count = count + 1;
        col = col + 1;
    }
    count
}


// ─── straight candidates ────────────────────────────────────────────────────

/// Half of `x`, rounded toward zero.
pub open spec fn half(x: int) -> int {
    if x >= 0 {
        x / 2
    } else {
        -((-x) / 2)
    }
}

/// Distance between two integers.
pub open spec fn abs_diff(a: int, b: int) -> int {
    if a >= b {
        a - b
    } else {
        b - a
    }
}

/// The larger of `a` and `b`.
pub open spec fn imax(a: int, b: int) -> int {
    if a >= b {
        a
    } else {
        b
    }
}

/// The smaller of `a` and `b`.
pub open spec fn imin(a: int, b: int) -> int {
    if a <= b {
        a
    } else {
        b
    }
}

/// The port at grid point `(row, col)` on `side`.
pub open spec fn port_at(row: int, col: int, side: Side, cell_size: i32, offset_x: i32, offset_y: i32) -> Port {
    Port {
        x: (col * cell_size + offset_x) as i64,
        y: (row * cell_size + offset_y) as i64,
        grid_row: row as i64,
        grid_col: col as i64,
        side,
    }
}

/// Among the columns `lo..=hi` whose corridor rows are clear, the one
/// nearest `center`, the first one on ties.
pub open spec fn best_col(g: Grid, lo: int, hi: int, center: int, c_start: int, c_end: int) -> Option<int>
    decreases hi - lo + 1,
{
    if hi < lo {
        None
    } else {
        let prev = best_col(g, lo, hi - 1, center, c_start, c_end);
        if clear_down(g, hi, c_start, c_end) >= corridor_len(c_start, c_end) && (prev is None
            || abs_diff(hi, center) < abs_diff(prev->0, center)) {
            Some(hi)
        } else {
            prev
        }
    }
}

/// Among the rows `lo..=hi` whose corridor columns are clear, the one
/// nearest `center`, the first one on ties.
pub open spec fn best_row(g: Grid, lo: int, hi: int, center: int, c_start: int, c_end: int) -> Option<int>
    decreases hi - lo + 1,
{
    if hi < lo {
        None
    } else {
        let prev = best_row(g, lo, hi - 1, center, c_start, c_end);
        if clear_right(g, hi, c_start, c_end) >= corridor_len(c_start, c_end) && (prev is None
            || abs_diff(hi, center) < abs_diff(prev->0, center)) {
            Some(hi)
        } else {
            prev
        }
    }
}

/// The straight vertical candidate of an edge: the two nodes one above the
/// other, their connector columns overlapping, and a column of the overlap
/// with a clear corridor (the one nearest the overlap's centre).
pub open spec fn spec_try_vertical(
    edge_idx: usize,
    si: usize,
    ti: usize,
    s: NodeFootprint,
    t: NodeFootprint,
    g: Grid,
    cell_size: i32,
    offset_x: i32,
    offset_y: i32,
) -> Option<PrepassCandidate> {
    let sb = s.gr + s.h_points - 1;
    let tb = t.gr + t.h_points - 1;
    if sb < t.gr || tb < s.gr {
        let below = sb < t.gr;
        let c_start = if below {
            sb + 1
        } else {
            tb + 1
        };
        let c_end = if below {
            t.gr - 1
        } else {
            s.gr - 1
        };
        let smin = s.gc + 1;
        let smax = s.gc + s.w_points - 2;
        let tmin = t.gc + 1;
        let tmax = t.gc + t.w_points - 2;
        let omin = imax(smin, tmin);
        let omax = imin(smax, tmax);
        if omin > omax {
            None
        } else {
            match best_col(g, omin, omax, half(omin + omax), c_start, c_end) {
                None => None,
                Some(col) => Some(
                    PrepassCandidate {
                        edge_idx,
                        src_port: port_at(
                            if below {
                                sb
                            } else {
                                s.gr as int
                            },
                            col,
                            if below {
                                Side::Bottom
                            } else {
                                Side::Top
                            },
                            cell_size,
                            offset_x,
                            offset_y,
                        ),
                        tgt_port: port_at(
                            if below {
                                t.gr as int
                            } else {
                                tb
                            },
                            col,
                            if below {
                                Side::Top
                            } else {
                                Side::Bottom
                            },
                            cell_size,
                            offset_x,
                            offset_y,
                        ),
                        overlap_len: (omax - omin + 1) as i64,
                        span: imin(imax(smax - smin + 1, 1), imax(tmax - tmin + 1, 1)) as i64,
                        src_node: si,
                        tgt_node: ti,
                    },
                ),
            }
        }
    } else {
        None
    }
}

/// The straight horizontal candidate of an edge: the two nodes side by
/// side, their connector rows overlapping, and a row of the overlap with a
/// clear corridor (the one nearest the overlap's centre).
pub open spec fn spec_try_horizontal(
    edge_idx: usize,
    si: usize,
    ti: usize,
    s: NodeFootprint,
    t: NodeFootprint,
    g: Grid,
    cell_size: i32,
    offset_x: i32,
    offset_y: i32,
) -> Option<PrepassCandidate> {
    let sr = s.gc + s.w_points - 1;
    let tr = t.gc + t.w_points - 1;
    if sr < t.gc || tr < s.gc {
        let left = sr < t.gc;
        let c_start = if left {
            sr + 1
        } else {
            tr + 1
        };
        let c_end = if left {
            t.gc - 1
        } else {
            s.gc - 1
        };
        let smin = s.gr + 1;
        let smax = s.gr + s.h_points - 2;
        let tmin = t.gr + 1;
        let tmax = t.gr + t.h_points - 2;
        let omin = imax(smin, tmin);
        let omax = imin(smax, tmax);
        if omin > omax {
            None
        } else {
            match best_row(g, omin, omax, half(omin + omax), c_start, c_end) {
                None => None,
                Some(row) => Some(
                    PrepassCandidate {
                        edge_idx,
                        src_port: port_at(
                            row,
                            if left {
                                sr
                            } else {
                                s.gc as int
                            },
                            if left {
                                Side::Right
                            } else {
                                Side::Left
                            },
                            cell_size,
                            offset_x,
                            offset_y,
                        ),
                        tgt_port: port_at(
                            row,
                            if left {
                                t.gc as int
                            } else {
                                tr
                            },
                            if left {
                                Side::Left
                            } else {
                                Side::Right
                            },
                            cell_size,
                            offset_x,
                            offset_y,
                        ),
                        overlap_len: (omax - omin + 1) as i64,
                        span: imin(imax(smax - smin + 1, 1), imax(tmax - tmin + 1, 1)) as i64,
                        src_node: si,
                        tgt_node: ti,
                    },
                ),
            }
        }
    } else {
        None
    }
}

proof fn lemma_clear_right_full(g: Grid, row: int, col: int, end: int)
    requires
        col <= end + 1,
    ensures
        clear_right(g, row, col, end) <= end - col + 1,
        clear_right(g, row, col, end) >= corridor_len(col, end) <==> forall|x: int|
            col <= x <= end ==> g.has(row, x) && (#[trigger] g.cell(row, x)).state != CellState::Blocked,
    decreases end - col + 1,
{
    if col <= end {
        lemma_clear_right_full(g, row, col + 1, end);
        if !(g.has(row, col) && g.cell(row, col).state != CellState::Blocked) {
            assert(clear_right(g, row, col, end) == 0);
        }
    }
}

proof fn lemma_clear_down_full(g: Grid, col: int, row: int, end: int)
    requires
        row <= end + 1,
    ensures
        clear_down(g, col, row, end) <= end - row + 1,
        clear_down(g, col, row, end) >= corridor_len(row, end) <==> forall|y: int|
            row <= y <= end ==> g.has(y, col) && (#[trigger] g.cell(y, col)).state != CellState::Blocked,
    decreases end - row + 1,
{
    if row <= end {
        lemma_clear_down_full(g, col, row + 1, end);
        if !(g.has(row, col) && g.cell(row, col).state != CellState::Blocked) {
            assert(clear_down(g, col, row, end) == 0);
        }
    }
}

/// The corridor of row `row` from column `c_start` to `c_end` has no
/// blocked cell and lies on the grid.
pub open spec fn row_corridor_clear(g: Grid, row: int, c_start: int, c_end: int) -> bool {
    forall|x: int| c_start <= x <= c_end ==> g.has(row, x) && (#[trigger] g.cell(row, x)).state != CellState::Blocked
}

/// The corridor of column `col` from row `r_start` to `r_end` has no
/// blocked cell and lies on the grid.
pub open spec fn col_corridor_clear(g: Grid, col: int, r_start: int, r_end: int) -> bool {
    forall|y: int| r_start <= y <= r_end ==> g.has(y, col) && (#[trigger] g.cell(y, col)).state != CellState::Blocked
}

proof fn lemma_best_row_in_range(g: Grid, lo: int, hi: int, center: int, c_start: int, c_end: int)
    requires
        c_start <= c_end + 1,
    ensures
        best_row(g, lo, hi, center, c_start, c_end) matches Some(r) ==> {
            &&& lo <= r <= hi
            &&& row_corridor_clear(g, r, c_start, c_end)
            &&& forall|x: int|
                lo <= x <= hi && #[trigger] row_corridor_clear(g, x, c_start, c_end) ==> abs_diff(r, center)
                    <= abs_diff(x, center)
            &&& forall|x: int|
                lo <= x < r && #[trigger] row_corridor_clear(g, x, c_start, c_end) ==> abs_diff(r, center)
                    < abs_diff(x, center)
        },
        best_row(g, lo, hi, center, c_start, c_end) is None ==> forall|x: int|
            lo <= x <= hi ==> !#[trigger] row_corridor_clear(g, x, c_start, c_end),
    decreases hi - lo + 1,
{
    if hi >= lo {
        lemma_best_row_in_range(g, lo, hi - 1, center, c_start, c_end);
        lemma_clear_right_full(g, hi, c_start, c_end);
    }
}

proof fn lemma_best_col_in_range(g: Grid, lo: int, hi: int, center: int, c_start: int, c_end: int)
    requires
        c_start <= c_end + 1,
    ensures
        best_col(g, lo, hi, center, c_start, c_end) matches Some(c) ==> {
            &&& lo <= c <= hi
            &&& col_corridor_clear(g, c, c_start, c_end)
            &&& forall|x: int|
                lo <= x <= hi && #[trigger] col_corridor_clear(g, x, c_start, c_end) ==> abs_diff(c, center)
                    <= abs_diff(x, center)
            &&& forall|x: int|
                lo <= x < c && #[trigger] col_corridor_clear(g, x, c_start, c_end) ==> abs_diff(c, center)
                    < abs_diff(x, center)
        },
        best_col(g, lo, hi, center, c_start, c_end) is None ==> forall|x: int|
            lo <= x <= hi ==> !#[trigger] col_corridor_clear(g, x, c_start, c_end),
    decreases hi - lo + 1,
{
    if hi >= lo {
        lemma_best_col_in_range(g, lo, hi - 1, center, c_start, c_end);
        lemma_clear_down_full(g, hi, c_start, c_end);
    }
}

/// Law: a horizontal straight candidate joins two nodes side by side with
/// ports that face each other on one grid row: when the target lies to the
/// right of the source, the source port is on the source's right side and
/// the target port on the target's left side; when it lies to the left,
/// the source port is on the source's left side and the target port on the
/// target's right side. The row is an inner row of both nodes.
pub proof fn lemma_horizontal_ports_face_each_other(
    edge_idx: usize,
    si: usize,
    ti: usize,
    s: NodeFootprint,
    t: NodeFootprint,
    g: Grid,
    cell_size: i32,
    offset_x: i32,
    offset_y: i32,
)
    requires
        footprint_ok(s),
        footprint_ok(t),
    ensures
        spec_try_horizontal(edge_idx, si, ti, s, t, g, cell_size, offset_x, offset_y) matches Some(c) ==> {
            &&& c.edge_idx == edge_idx && c.src_node == si && c.tgt_node == ti
            &&& s.gc + s.w_points - 1 < t.gc || t.gc + t.w_points - 1 < s.gc
            &&& c.src_port.grid_row == c.tgt_port.grid_row
            &&& s.gr < c.src_port.grid_row < s.gr + s.h_points - 1
            &&& t.gr < c.tgt_port.grid_row < t.gr + t.h_points - 1
            &&& s.gc + s.w_points - 1 < t.gc ==> c.src_port.side == Side::Right && c.src_port.grid_col
                == s.gc + s.w_points - 1 && c.tgt_port.side == Side::Left && c.tgt_port.grid_col == t.gc
            &&& t.gc + t.w_points - 1 < s.gc ==> c.src_port.side == Side::Left && c.src_port.grid_col
                == s.gc && c.tgt_port.side == Side::Right && c.tgt_port.grid_col == t.gc + t.w_points - 1
        },
        ({
            let lo = imax(s.gr + 1, t.gr + 1);
            let hi = imin(s.gr + s.h_points - 2, t.gr + t.h_points - 2);
            let c_start = if s.gc + s.w_points - 1 < t.gc { s.gc + s.w_points } else { t.gc + t.w_points };
            let c_end = if s.gc + s.w_points - 1 < t.gc { t.gc - 1 } else { s.gc - 1 };
            let r = spec_try_horizontal(edge_idx, si, ti, s, t, g, cell_size, offset_x, offset_y);
            &&& r matches Some(c) ==> {
                &&& row_corridor_clear(g, c.src_port.grid_row as int, c_start, c_end)
                &&& forall|x: int|
                    lo <= x <= hi && #[trigger] row_corridor_clear(g, x, c_start, c_end) ==> abs_diff(
                        c.src_port.grid_row as int,
                        half(lo + hi),
                    ) <= abs_diff(x, half(lo + hi))
            }
            &&& (s.gc + s.w_points - 1 < t.gc || t.gc + t.w_points - 1 < s.gc) && r is None ==> forall|x: int|
                lo <= x <= hi ==> !#[trigger] row_corridor_clear(g, x, c_start, c_end)
        }),
{
    let sr = s.gc + s.w_points - 1;
    let tr = t.gc + t.w_points - 1;
    if sr < t.gc || tr < s.gc {
        let left = sr < t.gc;
        let c_start = if left { sr + 1 } else { tr + 1 };
        let c_end = if left { t.gc - 1 } else { s.gc - 1 };
        let omin = imax(s.gr + 1, t.gr + 1);
        let omax = imin(s.gr + s.h_points - 2, t.gr + t.h_points - 2);
        lemma_best_row_in_range(g, omin, omax, half(omin + omax), c_start, c_end);
    }
}

/// Law: a vertical straight candidate joins two nodes one above the other
/// with ports that face each other in one grid column: when the target lies
/// below the source, the source port is on the source's bottom side and the
/// target port on the target's top side; when it lies above, the source port
/// is on the source's top side and the target port on the target's bottom
/// side. The column is an inner column of both nodes.
pub proof fn lemma_vertical_ports_face_each_other(
    edge_idx: usize,
    si: usize,
    ti: usize,
    s: NodeFootprint,
    t: NodeFootprint,
    g: Grid,
    cell_size: i32,
    offset_x: i32,
    offset_y: i32,
)
    requires
        footprint_ok(s),
        footprint_ok(t),
    ensures
        spec_try_vertical(edge_idx, si, ti, s, t, g, cell_size, offset_x, offset_y) matches Some(c) ==> {
            &&& c.edge_idx == edge_idx && c.src_node == si && c.tgt_node == ti
            &&& s.gr + s.h_points - 1 < t.gr || t.gr + t.h_points - 1 < s.gr
            &&& c.src_port.grid_col == c.tgt_port.grid_col
            &&& s.gc < c.src_port.grid_col < s.gc + s.w_points - 1
            &&& t.gc < c.tgt_port.grid_col < t.gc + t.w_points - 1
            &&& s.gr + s.h_points - 1 < t.gr ==> c.src_port.side == Side::Bottom && c.src_port.grid_row
                == s.gr + s.h_points - 1 && c.tgt_port.side == Side::Top && c.tgt_port.grid_row == t.gr
            &&& t.gr + t.h_points - 1 < s.gr ==> c.src_port.side == Side::Top && c.src_port.grid_row
                == s.gr && c.tgt_port.side == Side::Bottom && c.tgt_port.grid_row == t.gr + t.h_points - 1
        },
        ({
            let lo = imax(s.gc + 1, t.gc + 1);
            let hi = imin(s.gc + s.w_points - 2, t.gc + t.w_points - 2);
            let r_start = if s.gr + s.h_points - 1 < t.gr { s.gr + s.h_points } else { t.gr + t.h_points };
            let r_end = if s.gr + s.h_points - 1 < t.gr { t.gr - 1 } else { s.gr - 1 };
            let r = spec_try_vertical(edge_idx, si, ti, s, t, g, cell_size, offset_x, offset_y);
            &&& r matches Some(c) ==> {
                &&& col_corridor_clear(g, c.src_port.grid_col as int, r_start, r_end)
                &&& forall|x: int|
                    lo <= x <= hi && #[trigger] col_corridor_clear(g, x, r_start, r_end) ==> abs_diff(
                        c.src_port.grid_col as int,
                        half(lo + hi),
                    ) <= abs_diff(x, half(lo + hi))
            }
            &&& (s.gr + s.h_points - 1 < t.gr || t.gr + t.h_points - 1 < s.gr) && r is None ==> forall|x: int|
                lo <= x <= hi ==> !#[trigger] col_corridor_clear(g, x, r_start, r_end)
        }),
{
    let sb = s.gr + s.h_points - 1;
    let tb = t.gr + t.h_points - 1;
    if sb < t.gr || tb < s.gr {
        let below = sb < t.gr;
        let c_start = if below { sb + 1 } else { tb + 1 };
        let c_end = if below { t.gr - 1 } else { s.gr - 1 };
        let omin = imax(s.gc + 1, t.gc + 1);
        let omax = imin(s.gc + s.w_points - 2, t.gc + t.w_points - 2);
        lemma_best_col_in_range(g, omin, omax, half(omin + omax), c_start, c_end);
    }
}

fn make_port(row: i64, col: i64, side: Side, cell_size: i32, offset_x: i32, offset_y: i32) -> (p: Port)
    requires
        -4 * coord_bound() <= row <= 4 * coord_bound(),
        -4 * coord_bound() <= col <= 4 * coord_bound(),
        frame_ok(cell_size, offset_x, offset_y),
    ensures
        p == port_at(row as int, col as int, side, cell_size, offset_x, offset_y),
{
    assert(-0x4000_0000_0000_0000 <= col * cell_size <= 0x4000_0000_0000_0000) by (nonlinear_arith)
        requires
            -0x8000_0000 <= col <= 0x8000_0000,
            -0x8000_0000 <= cell_size <= 0x8000_0000,
    ;
    assert(-0x4000_0000_0000_0000 <= row * cell_size <= 0x4000_0000_0000_0000) by (nonlinear_arith)
        requires
            -0x8000_0000 <= row <= 0x8000_0000,
            -0x8000_0000 <= cell_size <= 0x8000_0000,
    ;
    let cs = cell_size as i64;
    Port { x: col * cs + offset_x as i64, y: row * cs + offset_y as i64, grid_row: row, grid_col: col, side }
}

fn half_exec(x: i64) -> (r: i64)
    requires
        -0x1_0000_0000 <= x <= 0x1_0000_0000,
    ensures
        r == half(x as int),
{
    if x >= 0 {
        let u = x as u64;
        (u / 2) as i64
    } else {
        let u = (-x) as u64;
        -((u / 2) as i64)
    }
}

fn abs_diff_exec(a: i64, b: i64) -> (r: i64)
    requires
        -0x1_0000_0000 <= a <= 0x1_0000_0000,
        -0x1_0000_0000 <= b <= 0x1_0000_0000,
    ensures
        r == abs_diff(a as int, b as int),
{
    if a >= b {
        a - b
    } else {
        b - a
    }
}

/// The vertical straight candidate of edge `edge_idx` from node `si` to
/// node `ti` (see `spec_try_vertical`).
pub fn try_vertical(
    edge_idx: usize,
    si: usize,
    ti: usize,
    s: NodeFootprint,
    t: NodeFootprint,
    grid: &Grid,
    cell_size: i32,
    offset_x: i32,
    offset_y: i32,
) -> (r: Option<PrepassCandidate>)
    requires
        grid.wf(),
        footprint_ok(s),
        footprint_ok(t),
        frame_ok(cell_size, offset_x, offset_y),
    ensures
        r == spec_try_vertical(edge_idx, si, ti, s, t, *grid, cell_size, offset_x, offset_y),
{
    let sb = s.gr + s.h_points - 1;
    let tb = t.gr + t.h_points - 1;
    let below = sb < t.gr;
    if !(below || tb < s.gr) {
        return None;
    }
    let c_start = if below {
        sb + 1
    } else {
        tb + 1
    };
    let c_end = if below {
        t.gr - 1
    } else {
        s.gr - 1
    };
    let smin = s.gc + 1;
    let smax = s.gc + s.w_points - 2;
    let tmin = t.gc + 1;
    let tmax = t.gc + t.w_points - 2;
    let omin = if smin >= tmin {
        smin
    } else {
        tmin
    };
    let omax = if smax <= tmax {
        smax
    } else {
        tmax
    };
    if omin > omax {
        return None;
    }
    let corridor = required_corridor_len(c_start, c_end);
    let center = half_exec(omin + omax);
    let ghost g = *grid;
    let mut best: Option<i64> = None;
    let mut col = omin;
    while col <= omax
        invariant
            grid.wf(),
            g == *grid,
            omin <= col <= omax + 1,
            -0x8000_0000 <= omin <= omax <= 0x8000_0000,
            -0x8000_0000 <= center <= 0x8000_0000,
            -0x8000_0000 <= c_end < 0x8000_0000,
            corridor == corridor_len(c_start as int, c_end as int),
            best == match best_col(g, omin as int, col - 1, center as int, c_start as int, c_end as int) {
                Some(b) => Some(b as i64),
                None => None::<i64>,
            },
            best_col(g, omin as int, col - 1, center as int, c_start as int, c_end as int) matches Some(
                b,
            ) ==> omin <= b < col,
        decreases omax + 1 - col,
    {
        let clear = unobstructed_vertical(grid, col, c_start, c_end) >= corridor;
        let better = match best {
            None => true,
            Some(b) => abs_diff_exec(col, center) < abs_diff_exec(b, center),
        };
        if clear && better {
            best = Some(col);
        }
        col = col + 1;
    }
    match best {
        None => None,
        Some(col) => {
            let src_row = if below {
                sb
            } else {
                s.gr
            };
            let tgt_row = if below {
                t.gr
            } else {
                tb
            };
            let src_side = if below {
                Side::Bottom
            } else {
                Side::Top
            };
            let tgt_side = if below {
                Side::Top
            } else {
                Side::Bottom
            };
            let src_span = if smax - smin + 1 >= 1 {
                smax - smin + 1
            } else {
                1
            };
            let tgt_span = if tmax - tmin + 1 >= 1 {
                tmax - tmin + 1
            } else {
                1
            };
            Some(
                PrepassCandidate {
                    edge_idx,
                    src_port: make_port(src_row, col, src_side, cell_size, offset_x, offset_y),
                    tgt_port: make_port(tgt_row, col, tgt_side, cell_size, offset_x, offset_y),
                    overlap_len: omax - omin + 1,
                    span: if src_span <= tgt_span {
                        src_span
                    } else {
                        tgt_span
                    },
                    src_node: si,
                    tgt_node: ti,
                },
            )
        },
    }
}

/// The horizontal straight candidate of edge `edge_idx` from node `si` to
/// node `ti` (see `spec_try_horizontal`).
pub fn try_horizontal(
    edge_idx: usize,
    si: usize,
    ti: usize,
    s: NodeFootprint,
    t: NodeFootprint,
    grid: &Grid,
    cell_size: i32,
    offset_x: i32,
    offset_y: i32,
) -> (r: Option<PrepassCandidate>)
    requires
        grid.wf(),
        footprint_ok(s),
        footprint_ok(t),
        frame_ok(cell_size, offset_x, offset_y),
    ensures
        r == spec_try_horizontal(edge_idx, si, ti, s, t, *grid, cell_size, offset_x, offset_y),
{
    let sb = s.gc + s.w_points - 1;
    let tb = t.gc + t.w_points - 1;
    let below = sb < t.gc;
    if !(below || tb < s.gc) {
        return None;
    }
    let c_start = if below {
        sb + 1
    } else {
        tb + 1
    };
    let c_end = if below {
        t.gc - 1
    } else {
        s.gc - 1
    };
    let smin = s.gr + 1;
    let smax = s.gr + s.h_points - 2;
    let tmin = t.gr + 1;
    let tmax = t.gr + t.h_points - 2;
    let omin = if smin >= tmin {
        smin
    } else {
        tmin
    };
    let omax = if smax <= tmax {
        smax
    } else {
        tmax
    };
    if omin > omax {
        return None;
    }
    let corridor = required_corridor_len(c_start, c_end);
    let center = half_exec(omin + omax);
    let ghost g = *grid;
    let mut best: Option<i64> = None;
    let mut line = omin;
    while line <= omax
        invariant
            grid.wf(),
            g == *grid,
            omin <= line <= omax + 1,
            -0x8000_0000 <= omin <= omax <= 0x8000_0000,
            -0x8000_0000 <= center <= 0x8000_0000,
            -0x8000_0000 <= c_end < 0x8000_0000,
            corridor == corridor_len(c_start as int, c_end as int),
            best == match best_row(g, omin as int, line - 1, center as int, c_start as int, c_end as int) {
                Some(b) => Some(b as i64),
                None => None::<i64>,
            },
            best_row(g, omin as int, line - 1, center as int, c_start as int, c_end as int) matches Some(
                b,
            ) ==> omin <= b < line,
        decreases omax + 1 - line,
    {
        let clear = unobstructed_horizontal(grid, line, c_start, c_end) >= corridor;
        let better = match best {
            None => true,
            Some(b) => abs_diff_exec(line, center) < abs_diff_exec(b, center),
        };
        if clear && better {
            best = Some(line);
        }
        line = line + 1;
    }
    match best {
        None => None,
        Some(row) => {
            let src_col = if below {
                sb
            } else {
                s.gc
            };
            let tgt_col = if below {
                t.gc
            } else {
                tb
            };
            let src_side = if below {
                Side::Right
            } else {
                Side::Left
            };
            let tgt_side = if below {
                Side::Left
            } else {
                Side::Right
            };
            let src_span = if smax - smin + 1 >= 1 {
                smax - smin + 1
            } else {
                1
            };
            let tgt_span = if tmax - tmin + 1 >= 1 {
                tmax - tmin + 1
            } else {
                1
            };
            Some(
                PrepassCandidate {
                    edge_idx,
                    src_port: make_port(row, src_col, src_side, cell_size, offset_x, offset_y),
                    tgt_port: make_port(row, tgt_col, tgt_side, cell_size, offset_x, offset_y),
                    overlap_len: omax - omin + 1,
                    span: if src_span <= tgt_span {
                        src_span
                    } else {
                        tgt_span
                    },
                    src_node: si,
                    tgt_node: ti,
                },
            )
        },
    }
}


// ─── the pre-pass ───────────────────────────────────────────────────────────

/// The straight candidate of edge `k`: vertical if there is one, else
/// horizontal; none for an edge with an end outside the graph.
pub open spec fn spec_try_edge(
    k: int,
    nodes: Seq<NodeFootprint>,
    edges: Seq<EdgeEnds>,
    g: Grid,
    cell_size: i32,
    offset_x: i32,
    offset_y: i32,
) -> Option<PrepassCandidate> {
    let e = edges[k];
    if e.from < nodes.len() && e.to < nodes.len() {
        match spec_try_vertical(
            k as usize,
            e.from,
            e.to,
            nodes[e.from as int],
            nodes[e.to as int],
            g,
            cell_size,
            offset_x,
            offset_y,
        ) {
            Some(c) => Some(c),
            None => spec_try_horizontal(
                k as usize,
                e.from,
                e.to,
                nodes[e.from as int],
                nodes[e.to as int],
                g,
                cell_size,
                offset_x,
                offset_y,
            ),
        }
    } else {
        None
    }
}

/// The straight candidates of the first `k` edges, in edge order.
pub open spec fn candidates_upto(
    nodes: Seq<NodeFootprint>,
    edges: Seq<EdgeEnds>,
    g: Grid,
    cell_size: i32,
    offset_x: i32,
    offset_y: i32,
    k: int,
) -> Seq<PrepassCandidate>
    decreases k,
{
    if k <= 0 {
        seq![]
    } else {
        let prev = candidates_upto(nodes, edges, g, cell_size, offset_x, offset_y, k - 1);
        match spec_try_edge(k - 1, nodes, edges, g, cell_size, offset_x, offset_y) {
            Some(c) => prev.push(c),
            None => prev,
        }
    }
}

/// `a` has the larger overlap fraction.
pub open spec fn outranks(a: PrepassCandidate, b: PrepassCandidate) -> bool {
    a.overlap_len * b.span > b.overlap_len * a.span
}

/// Overlap and span are positive and within the coordinate range.
pub open spec fn cand_ok(c: PrepassCandidate) -> bool {
    1 <= c.overlap_len <= 0x1_0000_0000 && 1 <= c.span <= 0x1_0000_0000
}

/// `order` lists every candidate once, larger overlap fractions first,
/// candidates of equal fraction in their original order (a stable sort).
pub open spec fn is_priority_order(cands: Seq<PrepassCandidate>, order: Seq<usize>) -> bool {
    &&& order.len() == cands.len()
    &&& order.no_duplicates()
    &&& forall|p: int| 0 <= p < order.len() ==> (#[trigger] order[p] as int) < cands.len()
    &&& forall|p: int, q: int|
        #![trigger order[p], order[q]]
        0 <= p < q < order.len() ==> !outranks(cands[order[q] as int], cands[order[p] as int]) && (
        !outranks(cands[order[p] as int], cands[order[q] as int]) ==> order[p] < order[q])
}

/// The slot a port takes on its node: the node, the side, and the column
/// (top and bottom) or row (left and right).
pub open spec fn slot_of(node: usize, port: Port) -> (usize, Side, i64) {
    (
        node,
        port.side,
        match port.side {
            Side::Top | Side::Bottom => port.grid_col,
            Side::Left | Side::Right => port.grid_row,
        },
    )
}

/// Pins after the first `k` candidates in `order`: a candidate is pinned
/// unless a slot of its ports is taken by an earlier pinned candidate.
pub open spec fn greedy_pins(cands: Seq<PrepassCandidate>, order: Seq<usize>, k: int) -> (Map<
    usize,
    PinnedPorts,
>, Seq<(usize, Side, i64)>)
    decreases k,
{
    if k <= 0 {
        (Map::empty(), seq![])
    } else {
        let (m, used) = greedy_pins(cands, order, k - 1);
        let c = cands[order[k - 1] as int];
        let ss = slot_of(c.src_node, c.src_port);
        let ts = slot_of(c.tgt_node, c.tgt_port);
        if used.contains(ss) || used.contains(ts) {
            (m, used)
        } else {
            (m.insert(c.edge_idx, PinnedPorts { source: c.src_port, target: c.tgt_port }), used.push(ss).push(
                ts,
            ))
        }
    }
}

/// The pre-pass books every port slot at most once: as long as no
/// candidate would put both its ends on the same slot, the slots booked by
/// the pinned edges are all different, so no two pinned edges share a slot.
pub proof fn lemma_prepass_slots_booked_once(cands: Seq<PrepassCandidate>, order: Seq<usize>, k: int)
    requires
        0 <= k <= order.len(),
        forall|i: int| 0 <= i < k ==> (#[trigger] order[i] as int) < cands.len(),
        forall|i: int|
            0 <= i < cands.len() ==> slot_of((#[trigger] cands[i]).src_node, cands[i].src_port) != slot_of(
                cands[i].tgt_node,
                cands[i].tgt_port,
            ),
    ensures
        greedy_pins(cands, order, k).1.no_duplicates(),
    decreases k,
{
    if k > 0 {
        lemma_prepass_slots_booked_once(cands, order, k - 1);
        let (m, used) = greedy_pins(cands, order, k - 1);
        let c = cands[order[k - 1] as int];
        let ss = slot_of(c.src_node, c.src_port);
        let ts = slot_of(c.tgt_node, c.tgt_port);
        if !(used.contains(ss) || used.contains(ts)) {
            let u2 = used.push(ss).push(ts);
            assert forall|a: int, b: int| 0 <= a < u2.len() && 0 <= b < u2.len() && a != b implies u2[a]
                != u2[b] by {
                if a < used.len() && b == used.len() {
                    assert(used.contains(used[a]));
                } else if a < used.len() && b == used.len() + 1 {
                    assert(used.contains(used[a]));
                } else if b < used.len() && a == used.len() {
                    assert(used.contains(used[b]));
                } else if b < used.len() && a == used.len() + 1 {
                    assert(used.contains(used[b]));
                }
            }
        }
    }
}

proof fn lemma_outranks_trans(a: PrepassCandidate, b: PrepassCandidate, c: PrepassCandidate)
    requires
        cand_ok(a),
        cand_ok(b),
        cand_ok(c),
        outranks(a, b),
        !outranks(c, b),
    ensures
        outranks(a, c),
{
    let (an, ad, bn, bd, cn, cd) = (
        a.overlap_len as int,
        a.span as int,
        b.overlap_len as int,
        b.span as int,
        c.overlap_len as int,
        c.span as int,
    );
    assert(an * cd > cn * ad) by (nonlinear_arith)
        requires
            an * bd > bn * ad,
            cn * bd <= bn * cd,
            ad > 0,
            bd > 0,
            cd > 0,
            an > 0,
            bn > 0,
            cn > 0,
    ;
}

fn outranks_exec(a: &PrepassCandidate, b: &PrepassCandidate) -> (r: bool)
    requires
        cand_ok(*a),
        cand_ok(*b),
    ensures
        r == outranks(*a, *b),
{
    let (an, ad, bn, bd) = (a.overlap_len as i128, a.span as i128, b.overlap_len as i128, b.span as i128);
    assert(0 < an * bd <= 0x1_0000_0000_0000_0000) by (nonlinear_arith)
        requires
            1 <= an <= 0x1_0000_0000,
            1 <= bd <= 0x1_0000_0000,
    ;
    assert(0 < bn * ad <= 0x1_0000_0000_0000_0000) by (nonlinear_arith)
        requires
            1 <= bn <= 0x1_0000_0000,
            1 <= ad <= 0x1_0000_0000,
    ;
    an * bd > bn * ad
}

/// A stable sort of the candidates by overlap fraction, larger first.
fn priority_order(cands: &Vec<PrepassCandidate>) -> (order: Vec<usize>)
    requires
        forall|k: int| 0 <= k < cands@.len() ==> cand_ok(#[trigger] cands@[k]),
    ensures
        is_priority_order(cands@, order@),
{
    let ghost cs = cands@;
    let mut order: Vec<usize> = Vec::new();
    let mut i: usize = 0;
    while i < cands.len()
        invariant
            cs == cands@,
            forall|k: int| 0 <= k < cs.len() ==> cand_ok(#[trigger] cs[k]),
            i <= cs.len(),
            order@.len() == i,
            order@.no_duplicates(),
            forall|p: int| 0 <= p < order@.len() ==> (#[trigger] order@[p] as int) < i,
            forall|p: int, q: int|
                #![trigger order@[p], order@[q]]
                0 <= p < q < order@.len() ==> !outranks(cs[order@[q] as int], cs[order@[p] as int]) && (
                !outranks(cs[order@[p] as int], cs[order@[q] as int]) ==> order@[p] < order@[q]),
        decreases cs.len() - i,
    {
        // the first position whose candidate candidate `i` outranks
        let mut pos: usize = 0;
        while pos < order.len() && !outranks_exec(&cands[i], &cands[order[pos]])
            invariant
                cs == cands@,
                forall|k: int| 0 <= k < cs.len() ==> cand_ok(#[trigger] cs[k]),
                i < cs.len(),
                pos <= order@.len(),
                forall|p: int| 0 <= p < order@.len() ==> (#[trigger] order@[p] as int) < i,
                forall|p: int| 0 <= p < pos ==> !outranks(cs[i as int], #[trigger] cs[order@[p] as int]),
            decreases order@.len() - pos,
        {
            pos = pos + 1;
        }
        let ghost before = order@;
        order.insert(pos, i);
        proof {
            assert(order@ == before.insert(pos as int, i));
            assert forall|p: int| 0 <= p < order@.len() implies (#[trigger] order@[p] as int) < i + 1 by {
                if p < pos {
                    assert(order@[p] == before[p]);
                } else if p > pos {
                    assert(order@[p] == before[p - 1]);
                }
            }
            assert forall|a: int, b: int| 0 <= a < order@.len() && 0 <= b < order@.len() && a != b implies order@[a]
                != order@[b] by {
                if a != pos as int && b != pos as int {
                    let a0 = if a < pos {
                        a
                    } else {
                        a - 1
                    };
                    let b0 = if b < pos {
                        b
                    } else {
                        b - 1
                    };
                    assert(order@[a] == before[a0]);
                    assert(order@[b] == before[b0]);
                } else if a == pos as int {
                    let b0 = if b < pos {
                        b
                    } else {
                        b - 1
                    };
                    assert(order@[b] == before[b0]);
                } else {
                    let a0 = if a < pos {
                        a
                    } else {
                        a - 1
                    };
                    assert(order@[a] == before[a0]);
                }
            }
            assert forall|p: int, q: int|
                #![trigger order@[p], order@[q]]
                0 <= p < q < order@.len() implies !outranks(cs[order@[q] as int], cs[order@[p] as int]) && (
                !outranks(cs[order@[p] as int], cs[order@[q] as int]) ==> order@[p] < order@[q]) by {
                let p0 = if p < pos {
                    p
                } else {
                    p - 1
                };
                let q0 = if q < pos {
                    q
                } else {
                    q - 1
                };
                if p != pos as int && q != pos as int {
                    assert(order@[p] == before[p0]);
                    assert(order@[q] == before[q0]);
                } else if p == pos as int {
                    // the new candidate before one it outranks, directly or through the next one
                    assert(order@[q] == before[q0]);
                    assert(pos < before.len());
                    let first = before[pos as int] as int;
                    assert(outranks(cs[i as int], cs[first]));
                    if q0 > pos {
                        assert(!outranks(cs[before[q0] as int], cs[first]));
                        lemma_outranks_trans(cs[i as int], cs[first], cs[before[q0] as int]);
                    }
                } else {
                    // q is the new candidate, after one it does not outrank
                    assert(order@[p] == before[p0]);
                    assert(!outranks(cs[i as int], cs[before[p0] as int]));
                }
            }
        }
        i = i + 1;
    }
    order
}

fn slot_exec(node: usize, port: &Port) -> (r: (usize, Side, i64))
    ensures
        r == slot_of(node, *port),
{
    let coord = match port.side {
        Side::Top | Side::Bottom => port.grid_col,
        Side::Left | Side::Right => port.grid_row,
    };
    (node, port.side, coord)
}

fn slot_taken(used: &Vec<(usize, Side, i64)>, slot: (usize, Side, i64)) -> (r: bool)
    ensures
        r == used@.contains(slot),
{
    let mut i: usize = 0;
    while i < used.len()
        invariant
            i <= used@.len(),
            forall|k: int| 0 <= k < i ==> used@[k] != slot,
        decreases used@.len() - i,
    {
        let (n, sd, c) = used[i];
        if n == slot.0 && sd == slot.1 && c == slot.2 {
            proof {
                assert(used@[i as int] == slot);
            }
            return true;
        }
        i = i + 1;
    }
    false
}

/// Run the straight-edge pre-pass: for each edge whose end nodes are one
/// above the other (else side by side) with overlapping connector ranges
/// and a clear corridor, a candidate with ports on the shared column (row);
/// candidates with larger overlap fractions first, each pinned unless one
/// of its port slots is taken by a candidate pinned before it.
pub fn straight_edge_prepass(
    nodes: &Vec<NodeFootprint>,
    edges: &Vec<EdgeEnds>,
    grid: &Grid,
    cell_size: i32,
    offset_x: i32,
    offset_y: i32,
) -> (pinned: HashMap<usize, PinnedPorts>)
    requires
        grid.wf(),
        forall|k: int| 0 <= k < nodes@.len() ==> footprint_ok(#[trigger] nodes@[k]),
        frame_ok(cell_size, offset_x, offset_y),
    ensures
        exists|order: Seq<usize>|
            is_priority_order(
                candidates_upto(
                    nodes@,
                    edges@,
                    *grid,
                    cell_size,
                    offset_x,
                    offset_y,
                    edges@.len() as int,
                ),
                order,
            ) && pinned@ == greedy_pins(
                candidates_upto(
                    nodes@,
                    edges@,
                    *grid,
                    cell_size,
                    offset_x,
                    offset_y,
                    edges@.len() as int,
                ),
                order,
                order.len() as int,
            ).0,
{
    let ghost g = *grid;
    let mut cands: Vec<PrepassCandidate> = Vec::new();
    let mut k: usize = 0;
    while k < edges.len()
        invariant
            g == *grid,
            grid.wf(),
            forall|j: int| 0 <= j < nodes@.len() ==> footprint_ok(#[trigger] nodes@[j]),
            frame_ok(cell_size, offset_x, offset_y),
            k <= edges@.len(),
            cands@ == candidates_upto(nodes@, edges@, g, cell_size, offset_x, offset_y, k as int),
            forall|j: int| 0 <= j < cands@.len() ==> cand_ok(#[trigger] cands@[j]),
        decreases edges@.len() - k,
    {
        let e = edges[k];
        if e.from < nodes.len() && e.to < nodes.len() {
            let s = nodes[e.from];
            let t = nodes[e.to];
            match try_vertical(k, e.from, e.to, s, t, grid, cell_size, offset_x, offset_y) {
                Some(c) => {
                    cands.push(c);
                },
                None => match try_horizontal(k, e.from, e.to, s, t, grid, cell_size, offset_x, offset_y) {
                    Some(c) => {
                        cands.push(c);
                    },
                    None => {},
                },
            }
        }
        k = k + 1;
    }
    let order = priority_order(&cands);
    let ghost cs = cands@;
    let mut pinned: HashMap<usize, PinnedPorts> = HashMap::new();
    let mut used: Vec<(usize, Side, i64)> = Vec::new();
    let mut i: usize = 0;
    while i < order.len()
        invariant
            cs == cands@,
            is_priority_order(cs, order@),
            i <= order@.len(),
            (pinned@, used@) == greedy_pins(cs, order@, i as int),
        decreases order@.len() - i,
    {
        let c = cands[order[i]];
        let ss = slot_exec(c.src_node, &c.src_port);
        let ts = slot_exec(c.tgt_node, &c.tgt_port);
        if !slot_taken(&used, ss) && !slot_taken(&used, ts) {
            used.push(ss);
            used.push(ts);
            pinned.insert(c.edge_idx, PinnedPorts { source: c.src_port, target: c.tgt_port });
        }
        i = i + 1;
    }
    pinned
}


/// The port pair of pinned ports.
pub open spec fn pinned_pair(pp: PinnedPorts) -> EdgePorts {
    EdgePorts { source_port: pp.source, target_port: pp.target }
}

/// Put the pinned ports over an assignment: every pinned edge gets its
/// pinned pair, every other edge keeps what it had.
pub fn apply_pinned(ports: &mut HashMap<usize, EdgePorts>, pinned: &HashMap<usize, PinnedPorts>)
    ensures
        forall|k: usize|
            #[trigger] final(ports)@.contains_key(k) <==> (old(ports)@.contains_key(k)
                || pinned@.contains_key(k)),
        forall|k: usize| #[trigger]
            pinned@.contains_key(k) ==> final(ports)@[k] == pinned_pair(pinned@[k]),
        forall|k: usize|
            !pinned@.contains_key(k) && #[trigger] old(ports)@.contains_key(k) ==> final(ports)@[k]
                == old(ports)@[k],
{
    let ghost start = ports@;
    for entry in it: pinned.iter()
        invariant
            forall|j: int|
                0 <= j < it.index() ==> ports@.contains_key(*(#[trigger] it.seq()[j]).0) && pinned@.contains_key(
                    *it.seq()[j].0,
                ) && ports@[*it.seq()[j].0] == pinned_pair(pinned@[*it.seq()[j].0]),
            forall|k: usize|
                #[trigger] ports@.contains_key(k) ==> start.contains_key(k) || pinned@.contains_key(k),
            forall|k: usize| #[trigger] start.contains_key(k) ==> ports@.contains_key(k),
            forall|k: usize|
                #[trigger] ports@.contains_key(k) && pinned@.contains_key(k) ==> ports@[k] == pinned_pair(
                    pinned@[k],
                ) || (start.contains_key(k) && ports@[k] == start[k]),
            forall|k: usize|
                !pinned@.contains_key(k) && #[trigger] start.contains_key(k) ==> ports@[k] == start[k],
    {
        let (k, pp) = entry;
        ports.insert(*k, EdgePorts { source_port: pp.source, target_port: pp.target });
    }
}

} // verus!
