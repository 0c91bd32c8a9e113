//! Node placement.
pub mod class;
pub mod ordering;
pub mod overlap;
pub mod row_flow;
pub mod snap;
pub mod subgraph;
pub mod sugiyama;

use vstd::prelude::*;

use crate::model::NodeShape;

verus! {

/// Spacing between placed nodes, in pixels.
pub const NODE_SPACING: i64 = 80;

/// Grid points a node spans, from the cells its text-based size covers
/// (`w_cells`, `h_cells`, each rounded up): one more point than cells, at
/// least 5 across and 3 down, always odd; circles are made square, and a
/// cylinder gets 2 more points down for its top cap.
pub open spec fn spec_grid_points(w_cells: int, h_cells: int, shape: NodeShape) -> (int, int) {
    let w0 = if w_cells + 1 > 5 {
        w_cells + 1
    } else {
        5
    };
    let h0 = if h_cells + 1 > 3 {
        h_cells + 1
    } else {
        3
    };
    let w1 = if w0 % 2 == 0 {
        w0 + 1
    } else {
        w0
    };
    let h1 = if h0 % 2 == 0 {
        h0 + 1
    } else {
        h0
    };
    let round = shape == NodeShape::Circle || shape == NodeShape::DoubleCircle;
    let m = if w1 > h1 {
        w1
    } else {
        h1
    };
    let w2 = if round {
        m
    } else {
        w1
    };
    let h2 = if round {
        m
    } else {
        h1
    };
    (w2, if shape == NodeShape::Cylinder {
        h2 + 2
    } else {
        h2
    })
}

/// The grid points a node spans (see `spec_grid_points`); its snapped
/// width and height are one cell less than its points, times the cell size.
pub fn snap_grid_points(w_cells: i32, h_cells: i32, shape: NodeShape) -> (r: (i32, i32))
    requires
        w_cells < i32::MAX,
        h_cells < i32::MAX,
        shape == NodeShape::Cylinder ==> h_cells < i32::MAX - 2,
    ensures
        (r.0 as int, r.1 as int) == spec_grid_points(w_cells as int, h_cells as int, shape),
{
    let mut w = if w_cells + 1 > 5 {
        w_cells + 1
    } else {
        5
    };
    let mut h = if h_cells + 1 > 3 {
        h_cells + 1
    } else {
        3
    };
    if w % 2 == 0 {
        w = w + 1;
    }
    if h % 2 == 0 {
        h = h + 1;
    }
    if shape == NodeShape::Circle || shape == NodeShape::DoubleCircle {
        let m = if w > h {
            w
        } else {
            h
        };
        w = m;
        h = m;
    }
    if shape == NodeShape::Cylinder {
        h = h + 2;
    }
    (w, h)
}

} // verus!
