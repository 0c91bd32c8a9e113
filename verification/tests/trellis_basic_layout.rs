//! Trellis Basic on small placed layouts: the inputs a placed graph gives
//! (footprints, edge ends in processing order with their side priorities and
//! corner orders), built here from node rectangles.
use std::collections::HashMap;
use trellis_core::grid::NodeFootprint;
use trellis_core::placement::sugiyama::EdgeEnds;
use trellis_core::ports::assignment::{Port, Side};
use trellis_core::ports::prepass::PinnedPorts;
use trellis_core::ports::trellis_basic::{
    assign_trellis_basic, build_priority_sides, corner_sides, BasicInput, BasicStep, Corner,
};

/// x, y, width, height.
type Rect = (f64, f64, f64, f64);

const CELL: f64 = 10.0;

fn footprint(r: Rect) -> NodeFootprint {
    NodeFootprint {
        gc: (r.0 / CELL).round() as i64,
        gr: (r.1 / CELL).round() as i64,
        w_points: (r.2 / CELL).round() as i64 + 1,
        h_points: (r.3 / CELL).round() as i64 + 1,
    }
}

fn center(r: Rect) -> (f64, f64) {
    (r.0 + r.2 / 2.0, r.1 + r.3 / 2.0)
}

fn normal(s: Side) -> (f64, f64) {
    match s {
        Side::Top => (0.0, -1.0),
        Side::Bottom => (0.0, 1.0),
        Side::Left => (-1.0, 0.0),
        Side::Right => (1.0, 0.0),
    }
}

fn angle_to_side(angle: f64) -> Side {
    let a = ((angle % 360.0) + 360.0) % 360.0;
    if !(45.0..315.0).contains(&a) {
        Side::Right
    } else if a < 135.0 {
        Side::Bottom
    } else if a < 225.0 {
        Side::Left
    } else {
        Side::Top
    }
}

/// The step of the end of `edge` on `node` (rectangle `n`) whose other end
/// is the rectangle `o`: corners ordered by distance to `o`'s centre, and
/// each corner's side facing `o` more, first occurrences kept.
fn step(node: usize, edge: usize, is_source: bool, n: Rect, o: Rect) -> BasicStep {
    let (ocx, ocy) = center(o);
    let (ncx, ncy) = center(n);
    let d = |x: f64, y: f64| (x - ocx).powi(2) + (y - ocy).powi(2);
    let mut corners = vec![
        (Corner::Tl, d(n.0, n.1)),
        (Corner::Tr, d(n.0 + n.2, n.1)),
        (Corner::Bl, d(n.0, n.1 + n.3)),
        (Corner::Br, d(n.0 + n.2, n.1 + n.3)),
    ];
    corners.sort_by(|a, b| a.1.partial_cmp(&b.1).unwrap());
    let (dx, dy) = (ocx - ncx, ocy - ncy);
    let v = if dx == 0.0 && dy == 0.0 { (1.0, 0.0) } else { (dx, dy) };
    let primary: Vec<Side> = corners
        .iter()
        .map(|(c, _)| {
            let (sa, sb) = corner_sides(*c);
            let score = |s: Side| normal(s).0 * v.0 + normal(s).1 * v.1;
            if score(sa) > score(sb) {
                sa
            } else if score(sb) > score(sa) {
                sb
            } else {
                angle_to_side(v.1.atan2(v.0).to_degrees())
            }
        })
        .collect();
    BasicStep {
        node,
        edge,
        is_source,
        priority_sides: build_priority_sides(&primary),
        corner_order: corners.iter().map(|(c, _)| *c).collect(),
    }
}

fn input(rects: &[Rect], diamonds: Vec<bool>, edges: Vec<EdgeEnds>, steps: Vec<BasicStep>, pinned: HashMap<usize, PinnedPorts>) -> BasicInput {
    BasicInput {
        footprints: rects.iter().map(|r| footprint(*r)).collect(),
        diamonds,
        edges,
        steps,
        pinned,
        cell_size: 10,
        offset_x: 0,
        offset_y: 0,
    }
}

#[test]
fn direct_right_gets_right_side() {
    let r = [(10.0, 80.0, 40.0, 20.0), (210.0, 80.0, 40.0, 20.0)];
    let steps = vec![step(0, 0, true, r[0], r[1]), step(1, 0, false, r[1], r[0])];
    let ports = assign_trellis_basic(&input(&r, vec![false; 2], vec![EdgeEnds { from: 0, to: 1 }], steps, HashMap::new()));
    assert_eq!(ports.len(), 1);
    assert_eq!(ports[&0].source_port.side, Side::Right, "A→B source should exit Right");
    assert_eq!(ports[&0].target_port.side, Side::Left, "A→B target should enter Left");
}

#[test]
fn center_port_preferred() {
    // A: 40×20 at (60,80); B: 40×20 at (60,0), directly above A.
    let r = [(60.0, 80.0, 40.0, 20.0), (60.0, 0.0, 40.0, 20.0)];
    let steps = vec![step(0, 0, true, r[0], r[1]), step(1, 0, false, r[1], r[0])];
    let ports = assign_trellis_basic(&input(&r, vec![false; 2], vec![EdgeEnds { from: 0, to: 1 }], steps, HashMap::new()));
    let src = &ports[&0].source_port;
    assert_eq!(src.side, Side::Top);
    assert_eq!(src.grid_col, 8, "center connector should be at col 8");
}

#[test]
fn second_edge_displaced_from_center() {
    let r = [(0.0, 80.0, 60.0, 20.0), (0.0, 0.0, 20.0, 20.0), (40.0, 0.0, 20.0, 20.0)];
    let es = vec![EdgeEnds { from: 0, to: 1 }, EdgeEnds { from: 0, to: 2 }];
    // A's ends by angle: to B1 (256°) before B2 (284°)
    let steps = vec![
        step(0, 0, true, r[0], r[1]),
        step(0, 1, true, r[0], r[2]),
        step(1, 0, false, r[1], r[0]),
        step(2, 1, false, r[2], r[0]),
    ];
    let ports = assign_trellis_basic(&input(&r, vec![false; 3], es, steps, HashMap::new()));
    assert_eq!(ports[&0].source_port.side, Side::Top);
    assert_eq!(ports[&1].source_port.side, Side::Top);
    assert_ne!(ports[&0].source_port.grid_col, ports[&1].source_port.grid_col, "two edges must not share the same connector");
}

#[test]
fn near_corner_direction() {
    let r = [(10.0, 80.0, 40.0, 60.0), (210.0, 100.0, 40.0, 20.0), (210.0, 40.0, 40.0, 20.0)];
    let es = vec![EdgeEnds { from: 0, to: 1 }, EdgeEnds { from: 0, to: 2 }];
    // A's ends by angle: to B1 (0°) before B2 (343°)
    let steps = vec![
        step(0, 0, true, r[0], r[1]),
        step(0, 1, true, r[0], r[2]),
        step(1, 0, false, r[1], r[0]),
        step(2, 1, false, r[2], r[0]),
    ];
    let ports = assign_trellis_basic(&input(&r, vec![false; 3], es, steps, HashMap::new()));
    let row_b1 = ports[&0].source_port.grid_row;
    let row_b2 = ports[&1].source_port.grid_row;
    assert_eq!(ports[&0].source_port.side, Side::Right);
    assert_eq!(ports[&1].source_port.side, Side::Right);
    assert_eq!(row_b1, 11, "B1 should get center row");
    assert!(row_b2 < row_b1, "B2 (upper-right) should be assigned above center (toward TR)");
}

#[test]
fn full_primary_side_spills_to_next() {
    let r = [(0.0, 0.0, 40.0, 20.0), (200.0, 0.0, 40.0, 20.0), (200.0, 20.0, 40.0, 20.0)];
    let es = vec![EdgeEnds { from: 0, to: 1 }, EdgeEnds { from: 0, to: 2 }];
    // A's ends by angle: to B1 (0°) before B2 (about 3°)
    let steps = vec![
        step(0, 0, true, r[0], r[1]),
        step(0, 1, true, r[0], r[2]),
        step(1, 0, false, r[1], r[0]),
        step(2, 1, false, r[2], r[0]),
    ];
    let ports = assign_trellis_basic(&input(&r, vec![false; 3], es, steps, HashMap::new()));
    let s0 = &ports[&0].source_port;
    let s1 = &ports[&1].source_port;
    assert_ne!((s0.grid_row, s0.grid_col), (s1.grid_row, s1.grid_col), "spilled edge must not reuse the full side's connector");
}

#[test]
fn diamond_single_port_per_side() {
    let r = [(0.0, 0.0, 40.0, 40.0), (200.0, 0.0, 40.0, 20.0)];
    let steps = vec![step(0, 0, true, r[0], r[1]), step(1, 0, false, r[1], r[0])];
    let ports = assign_trellis_basic(&input(&r, vec![true, false], vec![EdgeEnds { from: 0, to: 1 }], steps, HashMap::new()));
    assert_eq!(ports.len(), 1);
    assert_eq!(ports[&0].source_port.side, Side::Right);
}

#[test]
fn pinned_ports_not_reassigned() {
    let r = [(0.0, 80.0, 40.0, 20.0), (0.0, 0.0, 40.0, 20.0), (0.0, 0.0, 40.0, 20.0)];
    let es = vec![EdgeEnds { from: 0, to: 1 }, EdgeEnds { from: 0, to: 2 }];
    let pinned_src = Port { x: 20, y: 80, grid_row: 8, grid_col: 2, side: Side::Top };
    let pinned_tgt = Port { x: 20, y: 20, grid_row: 2, grid_col: 2, side: Side::Bottom };
    let mut pinned = HashMap::new();
    pinned.insert(0usize, PinnedPorts { source: pinned_src, target: pinned_tgt });
    // the pinned edge's ends take no step
    let steps = vec![step(0, 1, true, r[0], r[2]), step(2, 1, false, r[2], r[0])];
    let ports = assign_trellis_basic(&input(&r, vec![false; 3], es, steps, pinned));
    assert_eq!(ports[&0].source_port.grid_col, pinned_src.grid_col);
    assert_eq!(ports[&0].source_port.grid_row, pinned_src.grid_row);
    let s1 = &ports[&1].source_port;
    assert_ne!((s1.grid_row, s1.grid_col), (pinned_src.grid_row, pinned_src.grid_col), "edge 1 must not be assigned the pinned connector");
}
