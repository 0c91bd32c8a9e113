//! The two-phase ordering on small placed layouts: each node's ends on a side
//! ordered by the crossing-greedy pass and the global refinement, then placed
//! on connectors. The side each end takes and its other node's position
//! along the side are given here from node rectangles.
use std::collections::HashMap;
use trellis_core::grid::NodeFootprint;
use trellis_core::ports::assignment::{EdgePorts, Side};
use trellis_core::ports::distribute::{assign_connectors, SideEnd};
use trellis_core::ports::inversions::minimize_crossings;
use trellis_core::ports::two_phase::refine_side_orders;

/// x, y, width, height.
type Rect = (f64, f64, f64, f64);

fn footprint(r: Rect) -> NodeFootprint {
    NodeFootprint {
        gc: (r.0 / 10.0).round() as i64,
        gr: (r.1 / 10.0).round() as i64,
        w_points: (r.2 / 10.0).round() as i64 + 1,
        h_points: (r.3 / 10.0).round() as i64 + 1,
    }
}

fn end(edge: usize, is_source: bool) -> SideEnd {
    SideEnd {
        edge,
        is_source,
        boundary_top: 0,
        boundary_right: 0,
        boundary_bottom: 0,
        boundary_left: 0,
        center_top: 0,
        center_right: 0,
        center_bottom: 0,
        center_left: 0,
    }
}

fn slot(s: Side) -> usize {
    match s {
        Side::Top => 0,
        Side::Right => 1,
        Side::Bottom => 2,
        Side::Left => 3,
    }
}

/// Rank of each value among `v` (equal values share the smaller rank).
fn ranks(v: &[f64]) -> Vec<i64> {
    v.iter().map(|x| v.iter().filter(|y| *y < x).count() as i64).collect()
}

/// One node's ends: (edge, is_source, side, other node's position along the side).
type NodeEnds = (Rect, Vec<(usize, bool, Side, f64)>);

/// Orders every side of every node and places the ends on connectors.
fn two_phase(nodes: &[NodeEnds]) -> HashMap<usize, EdgePorts> {
    let mut prepared: Vec<(NodeFootprint, Vec<Vec<(SideEnd, f64)>>)> = Vec::new();
    let mut side_keys: Vec<Vec<i64>> = Vec::new();
    for (rect, ends) in nodes {
        let mut lists: Vec<Vec<(SideEnd, f64)>> = vec![Vec::new(); 4];
        for &(edge, is_source, side, pos) in ends {
            lists[slot(side)].push((end(edge, is_source), pos));
        }
        for list in lists.iter_mut() {
            let pos: Vec<f64> = list.iter().map(|e| e.1).collect();
            let order = minimize_crossings(&ranks(&pos));
            *list = order.iter().map(|&i| list[i]).collect();
            let ordered: Vec<f64> = list.iter().map(|e| e.1).collect();
            side_keys.push(ranks(&ordered));
        }
        prepared.push((footprint(*rect), lists));
    }
    let orders = refine_side_orders(&side_keys);
    let mut ports = HashMap::new();
    let mut s = 0;
    for (fp, lists) in &prepared {
        let mut placed: Vec<Vec<SideEnd>> = Vec::new();
        for list in lists {
            placed.push(orders[s].iter().map(|&i| list[i].0).collect());
            s += 1;
        }
        assign_connectors(&placed, *fp, false, 10, 0, 0, &mut ports);
    }
    ports
}

#[test]
fn two_phase_assigns_all_edges() {
    // A: 80×20 at (40,30); B1, B2, B3 below it, left to right.
    let a = (40.0, 30.0, 80.0, 20.0);
    let b = [(20.0, 180.0, 40.0, 20.0), (70.0, 180.0, 40.0, 20.0), (120.0, 180.0, 40.0, 20.0)];
    let mut nodes: Vec<NodeEnds> = vec![(a, (0..3).map(|i| (i, true, Side::Bottom, b[i].0 + 20.0)).collect())];
    for i in 0..3 {
        nodes.push((b[i], vec![(i, false, Side::Top, 80.0)]));
    }
    let ports = two_phase(&nodes);
    assert_eq!(ports.len(), 3);
    for i in 0..3 {
        assert_eq!(ports[&i].source_port.side, Side::Bottom);
    }
}

#[test]
fn two_phase_resolves_inversions() {
    // A: 80×20 at (60,0); B1 below right, B2 below left; edges A→B1, A→B2.
    let a = (60.0, 0.0, 80.0, 20.0);
    let b1 = (120.0, 100.0, 40.0, 20.0);
    let b2 = (20.0, 100.0, 40.0, 20.0);
    let nodes: Vec<NodeEnds> = vec![
        (a, vec![(0, true, Side::Bottom, 140.0), (1, true, Side::Bottom, 40.0)]),
        (b1, vec![(0, false, Side::Top, 100.0)]),
        (b2, vec![(1, false, Side::Top, 100.0)]),
    ];
    let ports = two_phase(&nodes);
    let x_b1 = ports[&0].source_port.x;
    let x_b2 = ports[&1].source_port.x;
    assert!(x_b2 < x_b1, "B2 (left target) should have leftward port: b2={} b1={}", x_b2, x_b1);
}

#[test]
fn two_phase_handles_diamond_chain() {
    // Start -> A, Start -> B, A -> B, A -> End, B -> End
    let start = (60.0, 0.0, 80.0, 20.0);
    let a = (30.0, 100.0, 40.0, 20.0);
    let b = (110.0, 100.0, 40.0, 20.0);
    let end_node = (60.0, 200.0, 80.0, 20.0);
    let nodes: Vec<NodeEnds> = vec![
        (start, vec![(0, true, Side::Bottom, 50.0), (1, true, Side::Bottom, 130.0)]),
        (a, vec![(0, false, Side::Top, 100.0), (2, true, Side::Right, 110.0), (3, true, Side::Bottom, 100.0)]),
        (b, vec![(1, false, Side::Top, 100.0), (2, false, Side::Left, 110.0), (4, true, Side::Bottom, 100.0)]),
        (end_node, vec![(3, false, Side::Top, 50.0), (4, false, Side::Top, 130.0)]),
    ];
    let ports = two_phase(&nodes);
    assert_eq!(ports.len(), 5);
}
