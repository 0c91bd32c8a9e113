use std::collections::HashMap;
use trellis_core::grid::{build_grid, Grid, NodeFootprint, PlacedNode};
use trellis_core::placement::sugiyama::EdgeEnds;
use trellis_core::ports::assignment::{EdgePorts, Port, Side};
use trellis_core::ports::prepass::{
    apply_pinned, required_corridor_len, straight_edge_prepass, try_vertical,
    unobstructed_horizontal, unobstructed_vertical, PinnedPorts,
};

/// Footprint of a node of `w` x `h` pixels at `(x, y)` with cell size 10.
fn fp(w: i64, h: i64, x: i64, y: i64) -> NodeFootprint {
    NodeFootprint { gc: x / 10, gr: y / 10, w_points: w / 10 + 1, h_points: h / 10 + 1 }
}

fn test_grid(nodes: &[NodeFootprint]) -> Grid {
    let placed: Vec<PlacedNode> = nodes
        .iter()
        .enumerate()
        .map(|(i, f)| PlacedNode { id: format!("N{i}"), footprint: *f })
        .collect();
    // a 500x500 extent with cell size 10
    build_grid(&placed, 50, 50, 10, 0, 0)
}

#[test]
fn prepass_pins_vertically_aligned_nodes() {
    // A: 40x20 at (60, 0) → gc=6, gr=0, bottom_row=2, conn_cols=7,8,9
    // B: 40x20 at (60, 100) → gc=6, gr=10, top_row=10, conn_cols=7,8,9
    let nodes = vec![fp(40, 20, 60, 0), fp(40, 20, 60, 100)];
    let edges = vec![EdgeEnds { from: 0, to: 1 }];
    let grid = test_grid(&nodes);
    let pinned = straight_edge_prepass(&nodes, &edges, &grid, 10, 0, 0);

    assert_eq!(pinned.len(), 1, "Edge A→B should be pinned");
    let pp = &pinned[&0];
    assert_eq!(pp.source.side, Side::Bottom, "Source port must be Bottom");
    assert_eq!(pp.target.side, Side::Top, "Target port must be Top");
    assert_eq!(pp.source.grid_col, pp.target.grid_col, "Source and target must share the same column");
    assert_eq!(pp.source.grid_col, 8, "Should pick the centre column (8), got {}", pp.source.grid_col);
    assert_eq!(pp.source.grid_row, 2, "Source row must be bottom of A");
    assert_eq!(pp.target.grid_row, 10, "Target row must be top of B");
}

#[test]
fn prepass_skips_blocked_corridor() {
    // A at (60, 0), B at (60, 200), C at (60, 90) — C blocks the corridor.
    let nodes = vec![fp(40, 20, 60, 0), fp(40, 20, 60, 200), fp(40, 20, 60, 90)];
    let edges = vec![EdgeEnds { from: 0, to: 1 }];
    let grid = test_grid(&nodes);
    let pinned = straight_edge_prepass(&nodes, &edges, &grid, 10, 0, 0);
    assert!(pinned.is_empty(), "Blocked corridor should produce no pinned ports");
}

#[test]
fn prepass_resolves_contention_by_overlap_fraction() {
    // A: 80x20 at (0, 0), B: 20x20 at (0, 100), C: 80x20 at (0, 200)
    let nodes = vec![fp(80, 20, 0, 0), fp(20, 20, 0, 100), fp(80, 20, 0, 200)];
    let edges = vec![EdgeEnds { from: 0, to: 1 }, EdgeEnds { from: 0, to: 2 }];
    let grid = test_grid(&nodes);
    let pinned = straight_edge_prepass(&nodes, &edges, &grid, 10, 0, 0);
    if pinned.contains_key(&0) && pinned.contains_key(&1) {
        let p0 = &pinned[&0];
        let p1 = &pinned[&1];
        assert_ne!(
            p0.source.grid_col, p1.source.grid_col,
            "Two pinned edges must not share the same source port column on A"
        );
    } else {
        assert!(pinned.len() <= 2, "No more than 2 edges can be pinned for 2 edges");
    }
}

#[test]
fn prepass_pins_horizontally_aligned_nodes() {
    // A: 40x20 at (0, 60) → gc=0, gr=6, right_col=4, conn_rows=7
    // B: 40x20 at (100, 60) → gc=10, gr=6, left_col=10, conn_rows=7
    let nodes = vec![fp(40, 20, 0, 60), fp(40, 20, 100, 60)];
    let edges = vec![EdgeEnds { from: 0, to: 1 }];
    let grid = test_grid(&nodes);
    let pinned = straight_edge_prepass(&nodes, &edges, &grid, 10, 0, 0);

    assert_eq!(pinned.len(), 1, "Edge A→B should be pinned");
    let pp = &pinned[&0];
    assert_eq!(pp.source.side, Side::Right, "Source port must be Right");
    assert_eq!(pp.target.side, Side::Left, "Target port must be Left");
    assert_eq!(pp.source.grid_row, pp.target.grid_row, "Source and target must share the same row");
    assert_eq!(pp.source.grid_col, 4, "Source col must be right edge of A");
    assert_eq!(pp.target.grid_col, 10, "Target col must be left edge of B");
}

#[test]
fn prepass_skips_non_overlapping_nodes() {
    let nodes = vec![fp(40, 20, 0, 0), fp(40, 20, 200, 100)];
    let edges = vec![EdgeEnds { from: 0, to: 1 }];
    let grid = test_grid(&nodes);
    let pinned = straight_edge_prepass(&nodes, &edges, &grid, 10, 0, 0);
    assert!(pinned.is_empty(), "No alignment → no pinned ports");
}

#[test]
fn larger_overlap_fraction_wins_the_slot() {
    // A: 80x20 at (0,0): connector cols 1..7. B: 20x20 at (0,100): col 1 only.
    // C: 40x20 at (0,200): cols 1..3. A→B overlaps 1 of 1 (fraction 1),
    // A→C overlaps 3 of 3 (fraction 1): equal, edge order decides.
    let nodes = vec![fp(80, 20, 0, 0), fp(20, 20, 0, 100)];
    let edges = vec![EdgeEnds { from: 0, to: 1 }, EdgeEnds { from: 1, to: 0 }];
    let grid = test_grid(&nodes);
    let pinned = straight_edge_prepass(&nodes, &edges, &grid, 10, 0, 0);
    // both edges want column 1 on both nodes: the first one keeps it
    assert_eq!(pinned.len(), 1);
    assert!(pinned.contains_key(&0));
    assert_eq!(pinned[&0].source.grid_col, 1);
    assert_eq!(pinned[&0].source.y, 20);
}

#[test]
fn back_edge_goes_up() {
    let nodes = vec![fp(40, 20, 60, 100), fp(40, 20, 60, 0)];
    let c = try_vertical(3, 0, 1, nodes[0], nodes[1], &test_grid(&nodes), 10, 0, 0).unwrap();
    assert_eq!(c.src_port.side, Side::Top);
    assert_eq!(c.tgt_port.side, Side::Bottom);
    assert_eq!((c.src_port.grid_row, c.tgt_port.grid_row), (10, 2));
    assert_eq!((c.overlap_len, c.span), (3, 3));
    assert_eq!(c.edge_idx, 3);
}

#[test]
fn corridor_helpers() {
    assert_eq!(required_corridor_len(3, 9), 7);
    assert_eq!(required_corridor_len(5, 4), 0);
    let nodes = vec![fp(40, 20, 60, 90)];
    let grid = test_grid(&nodes);
    // column 8 runs into the node's interior row 10 after rows 3..8 (its top row 9 is a free connector)
    assert_eq!(unobstructed_vertical(&grid, 8, 3, 19), 7);
    assert_eq!(unobstructed_vertical(&grid, 8, 3, 2), 0);
    assert_eq!(unobstructed_vertical(&grid, 60, 0, 5), 0);
    assert_eq!(unobstructed_horizontal(&grid, 0, 45, 60), 5);
}

#[test]
fn pinned_ports_override_assignment() {
    let port = |r: i64, c: i64, side: Side| Port { x: c * 10, y: r * 10, grid_row: r, grid_col: c, side };
    let mut ports = HashMap::new();
    ports.insert(0usize, EdgePorts { source_port: port(0, 0, Side::Top), target_port: port(1, 1, Side::Top) });
    ports.insert(1usize, EdgePorts { source_port: port(2, 2, Side::Left), target_port: port(3, 3, Side::Left) });
    let mut pinned = HashMap::new();
    pinned.insert(1usize, PinnedPorts { source: port(5, 5, Side::Bottom), target: port(9, 5, Side::Top) });
    pinned.insert(4usize, PinnedPorts { source: port(6, 6, Side::Right), target: port(6, 9, Side::Left) });
    apply_pinned(&mut ports, &pinned);
    assert_eq!(ports.len(), 3);
    assert_eq!(ports[&0].source_port, port(0, 0, Side::Top));
    assert_eq!(ports[&1].source_port, port(5, 5, Side::Bottom));
    assert_eq!(ports[&4].target_port, port(6, 9, Side::Left));
}
