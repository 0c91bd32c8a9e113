use std::collections::HashMap;
use trellis_core::grid::params::calculate_max_degree;
use trellis_core::grid::{CellState, Grid, NodeFootprint};
use trellis_core::model::{DiagramType, Direction, NodeShape};
use trellis_core::placement::sugiyama::EdgeEnds;
use trellis_core::ports::assignment::{EdgePorts, Port, Side};
use trellis_core::ports::auto::dense_or_skewed as degrees_dense_or_skewed;
use trellis_core::ports::auto::{
    auto_needs_refinement, count_hubs_with_threshold, effective_hub_count, select_strategy, SelectedStrategy, StrategyInputs,
};
use trellis_core::ports::common::{
    clockwise_neighbor, compute_topo_rank, counter_clockwise_neighbor, enumerate_connectors,
    is_back_edge, override_side_for_back_edge, Connector,
};
use trellis_core::ports::distribute::{
    assign_connectors, connector_index, handle_overflow, rebalance_sides, SideEnd,
};
use trellis_core::ports::inversions::{
    count_inversions, estimate_inversions, minimize_crossings, would_cross,
};
use trellis_core::ports::iterative::{apply_port_swaps, find_crossing_edge_pairs, find_shared_node};
use trellis_core::ports::stats::{bidirectional_edge_count, multi_edge_count, side_load, SideLoad};
use trellis_core::ports::shape_bias::{shape_side_priority, ShapePortContext};
use trellis_core::ports::prepass::PinnedPorts;
use trellis_core::ports::two_phase::refine_side_orders;
use trellis_core::ports::trellis_basic::{
    assign_trellis_basic, build_priority_sides, claim_connector, try_assign_trellis_basic, find_connector, first_unclaimed, near_far_end_indices,
    BasicInput, BasicStep, Corner,
};

// ─── back edges ─────────────────────────────────────────────────────────────

#[test]
fn back_edge_detected_by_rank() {
    // A=0 (rank 0), B=1 (rank 1), C=2 (rank 2)
    let rank = vec![0usize, 1, 2];
    assert!(!is_back_edge(0, 1, &rank));
    assert!(!is_back_edge(1, 2, &rank));
    assert!(is_back_edge(2, 0, &rank));
    assert!(is_back_edge(1, 0, &rank));
}

#[test]
fn back_edge_unranked_node_counts_as_zero() {
    let rank = vec![3usize];
    assert!(is_back_edge(0, 5, &rank));
    assert!(!is_back_edge(5, 0, &rank));
}

#[test]
fn topo_rank_linear_chain() {
    // A=0 → B=1 → C=2
    let es = vec![EdgeEnds { from: 0, to: 1 }, EdgeEnds { from: 1, to: 2 }];
    let rank = compute_topo_rank(3, &es);
    assert_eq!(rank[0], 0);
    assert_eq!(rank[1], 1);
    assert_eq!(rank[2], 2);
}

#[test]
fn topo_rank_back_edge_in_chain_plus_cycle() {
    // A → B → C, plus C → B (back edge from layer 2 to layer 1)
    let es = vec![
        EdgeEnds { from: 0, to: 1 },
        EdgeEnds { from: 1, to: 2 },
        EdgeEnds { from: 2, to: 1 },
    ];
    let rank = compute_topo_rank(3, &es);
    assert!(rank[2] > rank[1], "C should have higher rank than B");
    assert!(is_back_edge(2, 1, &rank));
    assert!(!is_back_edge(0, 1, &rank));
    assert!(!is_back_edge(1, 2, &rank));
}

#[test]
fn topo_rank_takes_longest_discovery_before_visit() {
    // sources 0 and 3; 0 → 1 → 2 and 3 → 2: node 2 is reached from 3
    // (rank 1) and then from 1 (rank 2) before it is taken off the queue.
    let es = vec![
        EdgeEnds { from: 0, to: 1 },
        EdgeEnds { from: 1, to: 2 },
        EdgeEnds { from: 3, to: 2 },
    ];
    assert_eq!(compute_topo_rank(4, &es), vec![0, 1, 2, 0]);
}

#[test]
fn topo_rank_settled_node_keeps_rank() {
    // 0 → 1, 0 → 2, 2 → 1: node 1 is taken off the queue (rank 1) before 2
    // reaches it
    let es = vec![
        EdgeEnds { from: 0, to: 1 },
        EdgeEnds { from: 0, to: 2 },
        EdgeEnds { from: 2, to: 1 },
    ];
    assert_eq!(compute_topo_rank(3, &es), vec![0, 1, 1]);
}

#[test]
fn topo_rank_pure_cycle_is_zero() {
    // 0 is a source; 1 ⇄ 2 is a cycle reached from nowhere
    let es = vec![EdgeEnds { from: 1, to: 2 }, EdgeEnds { from: 2, to: 1 }];
    assert_eq!(compute_topo_rank(3, &es), vec![0, 0, 0]);
}

#[test]
fn back_edge_override_tb() {
    assert_eq!(override_side_for_back_edge(true, Direction::TB), Side::Top);
    assert_eq!(override_side_for_back_edge(false, Direction::TB), Side::Bottom);
}

#[test]
fn back_edge_override_lr() {
    assert_eq!(override_side_for_back_edge(true, Direction::LR), Side::Left);
    assert_eq!(override_side_for_back_edge(false, Direction::LR), Side::Right);
}

#[test]
fn back_edge_override_bt_rl() {
    assert_eq!(override_side_for_back_edge(true, Direction::BT), Side::Bottom);
    assert_eq!(override_side_for_back_edge(false, Direction::BT), Side::Top);
    assert_eq!(override_side_for_back_edge(true, Direction::RL), Side::Right);
    assert_eq!(override_side_for_back_edge(false, Direction::RL), Side::Left);
}

#[test]
fn neighbours_go_round() {
    for side in [Side::Top, Side::Right, Side::Bottom, Side::Left] {
        assert_eq!(counter_clockwise_neighbor(clockwise_neighbor(side)), side);
        let mut s = side;
        for _ in 0..4 {
            s = clockwise_neighbor(s);
        }
        assert_eq!(s, side);
    }
    assert_eq!(clockwise_neighbor(Side::Top), Side::Right);
    assert_eq!(counter_clockwise_neighbor(Side::Top), Side::Left);
}

// ─── connectors ─────────────────────────────────────────────────────────────

fn rect() -> NodeFootprint {
    // a 40x20 node at (30, 40) with cell size 10
    NodeFootprint { gc: 3, gr: 4, w_points: 5, h_points: 3 }
}

#[test]
fn connectors_skip_corners() {
    let top = enumerate_connectors(rect(), false, Side::Top, 10, 0, 0);
    let cols: Vec<i64> = top.iter().map(|c| c.grid_col).collect();
    assert_eq!(cols, vec![4, 5, 6]);
    assert!(top.iter().all(|c| c.grid_row == 4));
    assert_eq!(top[0], Connector { grid_row: 4, grid_col: 4, x: 40, y: 40 });
    let right = enumerate_connectors(rect(), false, Side::Right, 10, 5, 7);
    assert_eq!(right, vec![Connector { grid_row: 5, grid_col: 7, x: 75, y: 57 }]);
    let bottom = enumerate_connectors(rect(), false, Side::Bottom, 10, 0, 0);
    assert!(bottom.iter().all(|c| c.grid_row == 6));
}

#[test]
fn test_enumerate_connectors_top() {
    // a 40x20 node at (0, 0), cell size 10
    let node = NodeFootprint { gc: 0, gr: 0, w_points: 5, h_points: 3 };
    let connectors = enumerate_connectors(node, false, Side::Top, 10, 0, 0);
    assert_eq!(connectors.len(), 3);
    assert_eq!(connectors[0].grid_col, 1);
    assert_eq!(connectors[1].grid_col, 2);
    assert_eq!(connectors[2].grid_col, 3);
    assert_eq!(connectors[0].grid_row, 0);
}

#[test]
fn test_enumerate_connectors_left() {
    let node = NodeFootprint { gc: 0, gr: 0, w_points: 5, h_points: 3 };
    let connectors = enumerate_connectors(node, false, Side::Left, 10, 0, 0);
    assert_eq!(connectors.len(), 1);
    assert_eq!(connectors[0].grid_row, 1);
    assert_eq!(connectors[0].grid_col, 0);
}

#[test]
fn test_enumerate_connectors_with_offset() {
    // a 40x20 node at (50, 30), cell size 10
    let node = NodeFootprint { gc: 5, gr: 3, w_points: 5, h_points: 3 };
    let connectors = enumerate_connectors(node, false, Side::Bottom, 10, 0, 0);
    assert_eq!(connectors.len(), 3);
    assert_eq!(connectors[0].grid_row, 5);
    assert_eq!(connectors[0].grid_col, 6);
    assert_eq!(connectors[0].x, 60);
    assert_eq!(connectors[0].y, 50);
}

#[test]
fn diamond_single_connector_per_side() {
    let fp = NodeFootprint { gc: 0, gr: 0, w_points: 5, h_points: 5 };
    let top = enumerate_connectors(fp, true, Side::Top, 10, 0, 0);
    assert_eq!(top, vec![Connector { grid_row: 0, grid_col: 2, x: 20, y: 0 }]);
    let left = enumerate_connectors(fp, true, Side::Left, 10, 0, 0);
    assert_eq!(left, vec![Connector { grid_row: 2, grid_col: 0, x: 0, y: 20 }]);
}

#[test]
fn tiny_node_has_no_side_connectors() {
    let fp = NodeFootprint { gc: 0, gr: 0, w_points: 2, h_points: 1 };
    assert!(enumerate_connectors(fp, false, Side::Top, 10, 0, 0).is_empty());
    assert!(enumerate_connectors(fp, false, Side::Left, 10, 0, 0).is_empty());
}

// ─── Trellis Basic connector search ─────────────────────────────────────────

fn order(c: [Corner; 4]) -> Vec<Corner> {
    c.to_vec()
}

#[test]
fn near_end_follows_corner_order() {
    let o = order([Corner::Tr, Corner::Br, Corner::Tl, Corner::Bl]);
    assert_eq!(near_far_end_indices(Side::Top, &o, 3), (2, 0));
    assert_eq!(near_far_end_indices(Side::Left, &o, 3), (0, 2));
    assert_eq!(near_far_end_indices(Side::Right, &o, 4), (0, 3));
}

#[test]
fn first_unclaimed_walks_both_ways() {
    let conns = enumerate_connectors(rect(), false, Side::Top, 10, 0, 0);
    let claimed = vec![(4i64, 5i64)];
    assert_eq!(first_unclaimed(&conns, 1, 0, &claimed), Some(0));
    assert_eq!(first_unclaimed(&conns, 1, 2, &claimed), Some(2));
    let all = vec![(4i64, 4i64), (4, 5), (4, 6)];
    assert_eq!(first_unclaimed(&conns, 0, 2, &all), None);
    assert_eq!(first_unclaimed(&Vec::new(), 0, 0, &all), None);
}

#[test]
fn center_connector_comes_first() {
    let o = order([Corner::Tr, Corner::Br, Corner::Tl, Corner::Bl]);
    let sides = vec![Side::Top];
    let (side, c) = find_connector(rect(), false, &sides, &o, &Vec::new(), 10, 0, 0);
    assert_eq!(side, Side::Top);
    assert_eq!((c.grid_row, c.grid_col), (4, 5));
}

#[test]
fn second_claim_moves_toward_near_end() {
    let o = order([Corner::Tr, Corner::Br, Corner::Tl, Corner::Bl]);
    let sides = vec![Side::Top];
    let mut claimed: Vec<(i64, i64)> = Vec::new();
    let (_, first) = claim_connector(rect(), false, &sides, &o, &mut claimed, 10, 0, 0);
    let (_, second) = claim_connector(rect(), false, &sides, &o, &mut claimed, 10, 0, 0);
    let (_, third) = claim_connector(rect(), false, &sides, &o, &mut claimed, 10, 0, 0);
    assert_eq!(first.grid_col, 5);
    // the top-right corner is nearest: walk toward the right end first
    assert_eq!(second.grid_col, 6);
    assert_eq!(third.grid_col, 4);
    assert_eq!(claimed, vec![(4, 5), (4, 6), (4, 4)]);
}

#[test]
fn full_side_spills_to_next_priority() {
    let o = order([Corner::Tl, Corner::Tr, Corner::Bl, Corner::Br]);
    let sides = vec![Side::Top, Side::Right];
    let claimed = vec![(4i64, 4i64), (4, 5), (4, 6)];
    let (side, c) = find_connector(rect(), false, &sides, &o, &claimed, 10, 0, 0);
    assert_eq!(side, Side::Right);
    assert_eq!((c.grid_row, c.grid_col), (5, 7));
}

#[test]
fn scan_and_last_resort() {
    let o = order([Corner::Tl, Corner::Tr, Corner::Bl, Corner::Br]);
    let sides = vec![Side::Top];
    // top full: the scan finds the right side
    let claimed = vec![(4i64, 4i64), (4, 5), (4, 6)];
    let (side, c) = find_connector(rect(), false, &sides, &o, &claimed, 10, 0, 0);
    assert_eq!((side, c.grid_row, c.grid_col), (Side::Right, 5, 7));
    // everything claimed: the middle of the top side
    let all = vec![(4i64, 4i64), (4, 5), (4, 6), (5, 7), (6, 4), (6, 5), (6, 6), (5, 3)];
    let (side, c) = find_connector(rect(), false, &sides, &o, &all, 10, 0, 0);
    assert_eq!((side, c.grid_row, c.grid_col), (Side::Top, 4, 5));
}

fn step(node: usize, edge: usize, is_source: bool, sides: [Side; 4], corners: [Corner; 4]) -> BasicStep {
    BasicStep {
        node,
        edge,
        is_source,
        priority_sides: sides.to_vec(),
        corner_order: corners.to_vec(),
    }
}

fn two_stacked(edges: Vec<EdgeEnds>, steps: Vec<BasicStep>, pinned: HashMap<usize, PinnedPorts>) -> BasicInput {
    BasicInput {
        footprints: vec![
            NodeFootprint { gc: 0, gr: 0, w_points: 5, h_points: 3 },
            NodeFootprint { gc: 0, gr: 10, w_points: 5, h_points: 3 },
        ],
        diamonds: vec![false, false],
        edges,
        steps,
        pinned,
        cell_size: 10,
        offset_x: 0,
        offset_y: 0,
    }
}

fn down_steps(edge: usize) -> Vec<BasicStep> {
    vec![
        step(0, edge, true, [Side::Bottom, Side::Left, Side::Right, Side::Top], [Corner::Bl, Corner::Br, Corner::Tl, Corner::Tr]),
        step(1, edge, false, [Side::Top, Side::Left, Side::Right, Side::Bottom], [Corner::Tl, Corner::Tr, Corner::Bl, Corner::Br]),
    ]
}

#[test]
fn basic_vertical_edge_uses_facing_centres() {
    let input = two_stacked(vec![EdgeEnds { from: 0, to: 1 }], down_steps(0), HashMap::new());
    let ports = assign_trellis_basic(&input);
    assert_eq!(ports.len(), 1);
    assert_eq!(
        ports[&0],
        EdgePorts {
            source_port: Port { x: 20, y: 20, grid_row: 2, grid_col: 2, side: Side::Bottom },
            target_port: Port { x: 20, y: 100, grid_row: 10, grid_col: 2, side: Side::Top },
        }
    );
}

#[test]
fn basic_pinned_edge_keeps_its_ports_and_books_them() {
    let pinned_pair = PinnedPorts {
        source: Port { x: 20, y: 20, grid_row: 2, grid_col: 2, side: Side::Bottom },
        target: Port { x: 20, y: 100, grid_row: 10, grid_col: 2, side: Side::Top },
    };
    let mut pinned = HashMap::new();
    pinned.insert(0usize, pinned_pair);
    let mut steps = down_steps(0);
    steps.extend(down_steps(1));
    let es = vec![EdgeEnds { from: 0, to: 1 }, EdgeEnds { from: 0, to: 1 }];
    let ports = assign_trellis_basic(&two_stacked(es, steps, pinned));
    assert_eq!(ports.len(), 2);
    assert_eq!(ports[&0], EdgePorts { source_port: pinned_pair.source, target_port: pinned_pair.target });
    // the centres are booked by the pinned edge: the next edge moves toward the near corner
    assert_eq!(ports[&1].source_port, Port { x: 10, y: 20, grid_row: 2, grid_col: 1, side: Side::Bottom });
    assert_eq!(ports[&1].target_port, Port { x: 10, y: 100, grid_row: 10, grid_col: 1, side: Side::Top });
}

#[test]
fn basic_unmatched_end_stays_unset() {
    let steps = vec![down_steps(0).remove(0)];
    let ports = assign_trellis_basic(&two_stacked(vec![EdgeEnds { from: 0, to: 1 }], steps, HashMap::new()));
    assert_eq!(ports[&0].target_port, Port { x: 0, y: 0, grid_row: 0, grid_col: 0, side: Side::Top });
}

// ─── shape bias ─────────────────────────────────────────────────────────────

fn ctx(shape: NodeShape, dir: Option<Direction>, is_source: bool) -> ShapePortContext {
    ShapePortContext { shape, effective_dir: dir, is_source }
}

#[test]
fn bias_none_returns_none() {
    assert!(shape_side_priority(&ctx(NodeShape::Diamond, None, false)).is_none());
}

#[test]
fn non_diamond_shape_returns_none() {
    assert!(shape_side_priority(&ctx(NodeShape::Rectangle, Some(Direction::TB), false)).is_none());
}

#[test]
fn diamond_tb_incoming_prefers_top() {
    let p = shape_side_priority(&ctx(NodeShape::Diamond, Some(Direction::TB), false)).unwrap();
    assert_eq!(p[0], Side::Top);
    assert_eq!(p[1], Side::Bottom);
}

#[test]
fn diamond_tb_outgoing_prefers_right() {
    let p = shape_side_priority(&ctx(NodeShape::Diamond, Some(Direction::TB), true)).unwrap();
    assert_eq!(p[0], Side::Right);
    assert_eq!(p[1], Side::Left);
}

#[test]
fn diamond_bt_incoming_prefers_bottom() {
    let p = shape_side_priority(&ctx(NodeShape::Diamond, Some(Direction::BT), false)).unwrap();
    assert_eq!(p[0], Side::Bottom);
    assert_eq!(p[1], Side::Top);
}

#[test]
fn diamond_bt_outgoing_prefers_right() {
    let p = shape_side_priority(&ctx(NodeShape::Diamond, Some(Direction::BT), true)).unwrap();
    assert_eq!(p[0], Side::Right);
    assert_eq!(p[1], Side::Left);
}

#[test]
fn diamond_lr_incoming_prefers_right() {
    let p = shape_side_priority(&ctx(NodeShape::Diamond, Some(Direction::LR), false)).unwrap();
    assert_eq!(p[0], Side::Right);
    assert_eq!(p[1], Side::Left);
}

#[test]
fn diamond_lr_outgoing_prefers_top() {
    let p = shape_side_priority(&ctx(NodeShape::Diamond, Some(Direction::LR), true)).unwrap();
    assert_eq!(p[0], Side::Top);
    assert_eq!(p[1], Side::Bottom);
}

#[test]
fn diamond_rl_incoming_prefers_left() {
    let p = shape_side_priority(&ctx(NodeShape::Diamond, Some(Direction::RL), false)).unwrap();
    assert_eq!(p[0], Side::Left);
    assert_eq!(p[1], Side::Right);
}

#[test]
fn diamond_rl_outgoing_prefers_top() {
    let p = shape_side_priority(&ctx(NodeShape::Diamond, Some(Direction::RL), true)).unwrap();
    assert_eq!(p[0], Side::Top);
    assert_eq!(p[1], Side::Bottom);
}

#[test]
fn diamond_priority_contains_all_four_sides() {
    for dir in [Direction::TB, Direction::BT, Direction::LR, Direction::RL] {
        for is_src in [false, true] {
            let p = shape_side_priority(&ctx(NodeShape::Diamond, Some(dir), is_src)).unwrap();
            let mut seen = [false; 4];
            for side in &p {
                match side {
                    Side::Top => seen[0] = true,
                    Side::Bottom => seen[1] = true,
                    Side::Left => seen[2] = true,
                    Side::Right => seen[3] = true,
                }
            }
            assert!(seen.iter().all(|&s| s), "missing side for dir={dir:?} is_src={is_src}");
        }
    }
}

// ─── Auto selection ─────────────────────────────────────────────────────────

fn base_stats() -> StrategyInputs {
    // avg degree 2.4 and deviation 0.8: neither dense nor skewed
    StrategyInputs {
        node_count: 10,
        edge_count: 12,
        max_degree: 3,
        hub_count: 0,
        max_edges_per_side: 2,
        overflow_count: 0,
        multi_edge_count: 0,
        dense_or_skewed: false,
    }
}

fn dense_or_skewed(avg_degree: f64, degree_std_dev: f64) -> bool {
    avg_degree > 3.0 || degree_std_dev > 2.0
}

#[test]
fn trivial_no_edges_uses_default() {
    let stats = StrategyInputs { edge_count: 0, ..base_stats() };
    assert_eq!(select_strategy(&stats), SelectedStrategy::Default);
}

#[test]
fn trivial_two_nodes_uses_default() {
    let stats = StrategyInputs { node_count: 2, edge_count: 1, ..base_stats() };
    assert_eq!(select_strategy(&stats), SelectedStrategy::Default);
}

#[test]
fn simple_chain_uses_default() {
    let stats = StrategyInputs { max_degree: 2, hub_count: 0, max_edges_per_side: 1, ..base_stats() };
    assert_eq!(select_strategy(&stats), SelectedStrategy::Default);
}

#[test]
fn large_node_count_uses_greedy() {
    let stats = StrategyInputs { node_count: 300, edge_count: 400, ..base_stats() };
    assert_eq!(select_strategy(&stats), SelectedStrategy::CrossingGreedy);
}

#[test]
fn large_edge_count_uses_greedy() {
    let stats = StrategyInputs { node_count: 100, edge_count: 600, ..base_stats() };
    assert_eq!(select_strategy(&stats), SelectedStrategy::CrossingGreedy);
}

#[test]
fn complex_small_graph_uses_twophase() {
    let stats = StrategyInputs {
        node_count: 20,
        hub_count: 3,
        max_edges_per_side: 5,
        max_degree: 6,
        ..base_stats()
    };
    assert_eq!(select_strategy(&stats), SelectedStrategy::TwoPhase);
}

#[test]
fn complex_large_graph_uses_greedy() {
    let stats = StrategyInputs {
        node_count: 100,
        hub_count: 3,
        max_edges_per_side: 5,
        max_degree: 6,
        ..base_stats()
    };
    assert_eq!(select_strategy(&stats), SelectedStrategy::CrossingGreedy);
}

#[test]
fn high_degree_uses_greedy() {
    let stats = StrategyInputs { max_degree: 7, ..base_stats() };
    assert_eq!(select_strategy(&stats), SelectedStrategy::CrossingGreedy);
}

#[test]
fn overflow_uses_greedy() {
    let stats = StrategyInputs { overflow_count: 3, ..base_stats() };
    assert_eq!(select_strategy(&stats), SelectedStrategy::CrossingGreedy);
}

#[test]
fn multi_edges_use_greedy() {
    let stats = StrategyInputs { multi_edge_count: 2, ..base_stats() };
    assert_eq!(select_strategy(&stats), SelectedStrategy::CrossingGreedy);
}

#[test]
fn dense_avg_degree_uses_greedy() {
    let stats = StrategyInputs { dense_or_skewed: dense_or_skewed(4.5, 0.8), ..base_stats() };
    assert_eq!(select_strategy(&stats), SelectedStrategy::CrossingGreedy);
}

#[test]
fn high_std_dev_uses_greedy() {
    let stats = StrategyInputs { dense_or_skewed: dense_or_skewed(2.4, 2.5), ..base_stats() };
    assert_eq!(select_strategy(&stats), SelectedStrategy::CrossingGreedy);
}

#[test]
fn moderate_graph_uses_default() {
    let stats = StrategyInputs { dense_or_skewed: dense_or_skewed(2.4, 0.8), ..base_stats() };
    assert_eq!(select_strategy(&stats), SelectedStrategy::Default);
}

#[test]
fn count_hubs_with_custom_threshold() {
    // A=0, B=1, C=2, D=3
    let es = vec![
        EdgeEnds { from: 0, to: 1 },
        EdgeEnds { from: 0, to: 2 },
        EdgeEnds { from: 0, to: 3 },
        EdgeEnds { from: 1, to: 2 },
    ];
    // With threshold 3: A (degree 3) is a hub
    assert_eq!(count_hubs_with_threshold(&es, 3), 1);
    // With threshold 4: no hubs
    assert_eq!(count_hubs_with_threshold(&es, 4), 0);
    // With threshold 2: A, B and C
    assert_eq!(count_hubs_with_threshold(&es, 2), 3);
}

#[test]
fn effective_hubs_follow_diagram_type() {
    let es = vec![
        EdgeEnds { from: 0, to: 1 },
        EdgeEnds { from: 0, to: 2 },
        EdgeEnds { from: 0, to: 3 },
    ];
    // flowcharts keep the given count
    assert_eq!(effective_hub_count(DiagramType::Flowchart, &es, 7), 7);
    // ER diagrams count degree >= 3
    assert_eq!(effective_hub_count(DiagramType::ErDiagram, &es, 7), 1);
    // C4 diagrams count degree >= 6
    assert_eq!(effective_hub_count(DiagramType::C4Diagram, &es, 7), 0);
}

// ─── iterative swaps ────────────────────────────────────────────────────────

#[test]
fn find_shared_node_finds_common_source() {
    // A=0, B=1, C=2
    let es = vec![EdgeEnds { from: 0, to: 1 }, EdgeEnds { from: 0, to: 2 }];
    assert_eq!(find_shared_node(0, 1, &es), Some(0));
}

#[test]
fn find_shared_node_none_when_unrelated() {
    let es = vec![EdgeEnds { from: 0, to: 1 }, EdgeEnds { from: 2, to: 3 }];
    assert_eq!(find_shared_node(0, 1, &es), None);
    assert_eq!(find_shared_node(0, 5, &es), None);
}

fn port(row: i64, col: i64, side: Side) -> Port {
    Port { x: col * 10, y: row * 10, grid_row: row, grid_col: col, side }
}

#[test]
fn swap_exchanges_ports_at_shared_node_only() {
    // edges 0: A→B and 1: A→C share A (node 0)
    let es = vec![EdgeEnds { from: 0, to: 1 }, EdgeEnds { from: 0, to: 2 }];
    let mut ports = HashMap::new();
    ports.insert(0, EdgePorts { source_port: port(1, 1, Side::Bottom), target_port: port(5, 1, Side::Top) });
    ports.insert(1, EdgePorts { source_port: port(1, 2, Side::Bottom), target_port: port(5, 4, Side::Top) });
    apply_port_swaps(&mut ports, &vec![(0, 1, 0)], &es);
    assert_eq!(ports[&0].source_port, port(1, 2, Side::Bottom));
    assert_eq!(ports[&1].source_port, port(1, 1, Side::Bottom));
    assert_eq!(ports[&0].target_port, port(5, 1, Side::Top));
    assert_eq!(ports[&1].target_port, port(5, 4, Side::Top));
    // a swap with an edge that has no ports changes nothing
    apply_port_swaps(&mut ports, &vec![(0, 9, 0)], &es);
    assert_eq!(ports[&0].source_port, port(1, 2, Side::Bottom));
}

// ─── priority sides and inversions ─────────────────────────────────────────

#[test]
fn priority_sides_drop_repeats() {
    let primary = vec![Side::Bottom, Side::Bottom, Side::Right, Side::Bottom];
    assert_eq!(build_priority_sides(&primary), vec![Side::Bottom, Side::Right]);
    assert!(build_priority_sides(&Vec::new()).is_empty());
}

#[test]
fn inversions_count_crossing_pairs() {
    assert_eq!(count_inversions(&vec![10, 20, 30]), 0);
    assert_eq!(count_inversions(&vec![30, 20, 10]), 3);
    assert_eq!(count_inversions(&vec![20, 10, 10, 30]), 2);
    // equal positions do not cross
    assert_eq!(count_inversions(&vec![5, 5]), 0);
}

#[test]
fn crossing_needs_the_earlier_end_further_along() {
    assert!(would_cross(30, 10));
    assert!(!would_cross(10, 30));
    assert!(!would_cross(7, 7));
}

#[test]
fn estimate_sums_every_side() {
    let sides = vec![vec![30, 20, 10], vec![1, 2], vec![], vec![20, 10, 10, 30]];
    assert_eq!(estimate_inversions(&sides), 5);
    assert_eq!(estimate_inversions(&Vec::new()), 0);
}

// ─── spreading ends over sides ──────────────────────────────────────────────

fn end(edge: usize, is_source: bool, top: i64) -> SideEnd {
    SideEnd {
        edge,
        is_source,
        boundary_top: top,
        boundary_right: 0,
        boundary_bottom: 0,
        boundary_left: 0,
        center_top: 0,
        center_right: 0,
        center_bottom: 0,
        center_left: 0,
    }
}

#[test]
fn connector_index_spreads_evenly() {
    assert_eq!(connector_index(0, 1, 3), 1);
    assert_eq!((connector_index(0, 2, 3), connector_index(1, 2, 3)), (1, 2));
    // 3/4, 6/4 and 9/4 of the way round to 1, 2 and 2
    assert_eq!(
        (connector_index(0, 3, 3), connector_index(1, 3, 3), connector_index(2, 3, 3)),
        (1, 2, 2)
    );
}

#[test]
fn overflow_moves_the_end_nearest_the_boundary_clockwise() {
    let fp = NodeFootprint { gc: 0, gr: 0, w_points: 5, h_points: 3 };
    let top = vec![end(0, true, 5), end(1, true, 1), end(2, true, 3), end(3, true, 1)];
    let mut lists = vec![top, Vec::new(), Vec::new(), Vec::new()];
    handle_overflow(&mut lists, fp, false, 10, 0, 0);
    // the top side has 3 connectors; the last of the two closest ends moves right
    assert_eq!(lists[0].iter().map(|e| e.edge).collect::<Vec<_>>(), vec![0, 1, 2]);
    assert_eq!(lists[1].iter().map(|e| e.edge).collect::<Vec<_>>(), vec![3]);
    assert!(lists[2].is_empty() && lists[3].is_empty());
}

#[test]
fn overflow_cascades_around_the_node() {
    let fp = NodeFootprint { gc: 0, gr: 0, w_points: 5, h_points: 3 };
    let right = vec![end(7, false, 0), end(8, false, 0)];
    let mut lists = vec![Vec::new(), right, Vec::new(), Vec::new()];
    handle_overflow(&mut lists, fp, false, 10, 0, 0);
    // one connector on the right side: the later of the tied ends goes to the bottom
    assert_eq!(lists[1].iter().map(|e| e.edge).collect::<Vec<_>>(), vec![7]);
    assert_eq!(lists[2].iter().map(|e| e.edge).collect::<Vec<_>>(), vec![8]);
}

#[test]
fn ends_take_evenly_spaced_connectors() {
    let fp = NodeFootprint { gc: 0, gr: 0, w_points: 5, h_points: 3 };
    let lists = vec![vec![end(0, true, 0)], Vec::new(), vec![end(0, false, 0), end(1, true, 0)], Vec::new()];
    let mut ports = HashMap::new();
    assign_connectors(&lists, fp, false, 10, 0, 0, &mut ports);
    assert_eq!(ports[&0].source_port, Port { x: 20, y: 0, grid_row: 0, grid_col: 2, side: Side::Top });
    assert_eq!(ports[&0].target_port, Port { x: 20, y: 20, grid_row: 2, grid_col: 2, side: Side::Bottom });
    assert_eq!(ports[&1].source_port, Port { x: 30, y: 20, grid_row: 2, grid_col: 3, side: Side::Bottom });
    assert_eq!(ports[&1].target_port, Port { x: 0, y: 0, grid_row: 0, grid_col: 0, side: Side::Top });
}

#[test]
fn exhaustive_search_finds_an_uncrossed_order() {
    // Heap's order reaches [2, 1, 0] as the first order without crossings
    assert_eq!(minimize_crossings(&vec![30, 20, 10]), vec![2, 1, 0]);
    assert_eq!(minimize_crossings(&vec![10, 20, 30]), vec![0, 1, 2]);
    assert_eq!(minimize_crossings(&vec![5]), vec![0]);
    assert!(minimize_crossings(&Vec::new()).is_empty());
}

#[test]
fn adjacent_swaps_sort_large_sides_stably() {
    let keys = vec![8, 7, 6, 5, 4, 3, 2, 1];
    assert_eq!(minimize_crossings(&keys), vec![7, 6, 5, 4, 3, 2, 1, 0]);
    let ties = vec![2, 1, 1, 0, 0, 0, 0, 0];
    assert_eq!(minimize_crossings(&ties), vec![3, 4, 5, 6, 7, 1, 2, 0]);
}

#[test]
fn rebalance_moves_one_end_to_the_roomier_neighbour() {
    let fp = NodeFootprint { gc: 0, gr: 0, w_points: 5, h_points: 3 };
    // top has 3 connectors and 3 ends (load 1.0 > 0.8); right and left have 1 each, both empty
    let mut a = end(0, true, 0);
    a.center_right = 5;
    let mut b = end(1, true, 0);
    b.center_right = 2;
    let mut c = end(2, true, 0);
    c.center_right = 2;
    let mut lists = vec![vec![a, b, c], Vec::new(), Vec::new(), Vec::new()];
    rebalance_sides(&mut lists, fp, false, 10, 0, 0, 4, 5, 2, 5);
    // both neighbours are empty: clockwise (right) wins; the first end nearest its middle moves
    assert_eq!(lists[0].iter().map(|e| e.edge).collect::<Vec<_>>(), vec![0, 2]);
    assert_eq!(lists[1].iter().map(|e| e.edge).collect::<Vec<_>>(), vec![1]);
}

#[test]
fn auto_refines_only_for_two_phase() {
    let complex = StrategyInputs { node_count: 20, hub_count: 3, max_edges_per_side: 5, max_degree: 6, ..base_stats() };
    // flowcharts use the default hub threshold: the graph's own hub count stands
    assert!(auto_needs_refinement(&complex, DiagramType::Flowchart, &Vec::new()));
    assert!(!auto_needs_refinement(&base_stats(), DiagramType::Flowchart, &Vec::new()));
    // C4 counts its own hubs at degree 6: without edges there are none
    assert!(!auto_needs_refinement(&complex, DiagramType::C4Diagram, &Vec::new()));
}

// ─── graph statistics ───────────────────────────────────────────────────────

fn ends(pairs: &[(usize, usize)]) -> Vec<EdgeEnds> {
    pairs.iter().map(|&(from, to)| EdgeEnds { from, to }).collect()
}

#[test]
fn empty_graph_stats() {
    let es = ends(&[]);
    assert_eq!(calculate_max_degree(0, &es), 0);
    assert_eq!(count_hubs_with_threshold(&es, 4), 0);
    assert_eq!(multi_edge_count(&es), 0);
}

#[test]
fn simple_chain_stats() {
    // A=0 -> B=1 -> C=2
    let es = ends(&[(0, 1), (1, 2)]);
    assert_eq!(calculate_max_degree(3, &es), 2); // B has degree 2
    assert_eq!(count_hubs_with_threshold(&es, 4), 0);
    assert_eq!(multi_edge_count(&es), 0);
    assert_eq!(bidirectional_edge_count(&es), 0);
}

#[test]
fn hub_detection() {
    // Hub node A connects to B, C, D, E (degree 4 = hub)
    let es = ends(&[(0, 1), (0, 2), (0, 3), (0, 4)]);
    assert_eq!(calculate_max_degree(5, &es), 4);
    assert_eq!(count_hubs_with_threshold(&es, 4), 1); // A is a hub
}

#[test]
fn multi_edge_and_bidirectional_detection() {
    // A=0, B=1: A->B twice (multi-edge), B->A (bidirectional)
    let es = ends(&[(0, 1), (0, 1), (1, 0)]);
    assert_eq!(multi_edge_count(&es), 1);
    assert_eq!(bidirectional_edge_count(&es), 1);
}

#[test]
fn repeated_pairs_and_loops() {
    let es = ends(&[(0, 1), (1, 0), (0, 2), (2, 3), (2, 3), (3, 3), (3, 3)]);
    // {0,1}, {2,3} and the loop at 3 are each joined twice
    assert_eq!(multi_edge_count(&es), 3);
    // (0,1), (1,0) and the loop (3,3) have their reverse: three halves
    assert_eq!(bidirectional_edge_count(&es), 1);
}

#[test]
fn overflow_counted_on_tiny_node() {
    // Very small nodes (10x10 = one cell, 2 grid points each way): A=0 at (50, 0),
    // B, C, D at (50, 100), (60, 100), (40, 100); A has 3 ends on its bottom side
    let fps = vec![
        NodeFootprint { gc: 5, gr: 0, w_points: 2, h_points: 2 },
        NodeFootprint { gc: 5, gr: 10, w_points: 2, h_points: 2 },
        NodeFootprint { gc: 6, gr: 10, w_points: 2, h_points: 2 },
        NodeFootprint { gc: 4, gr: 10, w_points: 2, h_points: 2 },
    ];
    let counts = vec![vec![0, 0, 3, 0], vec![1, 0, 0, 0], vec![1, 0, 0, 0], vec![1, 0, 0, 0]];
    let load = side_load(&fps, &vec![false; 4], &counts, 10, 0, 0);
    // All 3 edges point downward → same side, tiny node has few connectors
    assert!(load.overflow_count > 0 || load.max_edges_per_side >= 3);
    assert_eq!(
        load,
        SideLoad {
            max_edges_per_side: 3,
            overflow_count: 6,
            total_connectors: 0,
            occupied_side_count: 4,
            min_connectors_on_loaded_side: 0,
        }
    );
}

#[test]
fn side_load_counts_connectors_of_loaded_sides() {
    let fps = vec![NodeFootprint { gc: 0, gr: 0, w_points: 5, h_points: 3 }];
    // 2 ends on the top (3 connectors), 2 on the right (1 connector)
    let load = side_load(&fps, &vec![false], &vec![vec![2, 2, 0, 0]], 10, 0, 0);
    assert_eq!(
        load,
        SideLoad {
            max_edges_per_side: 2,
            overflow_count: 1,
            total_connectors: 4,
            occupied_side_count: 2,
            min_connectors_on_loaded_side: 1,
        }
    );
}

// ─── crossing pairs on the grid ─────────────────────────────────────────────

#[test]
fn find_crossing_pairs_empty_grid() {
    let grid = Grid::new(5, 5, 10, 0, 0);
    let pairs = find_crossing_edge_pairs(&grid);
    assert!(pairs.is_empty());
}

#[test]
fn find_crossing_pairs_detects_crossing() {
    let mut grid = Grid::new(5, 5, 10, 0, 0);
    // Simulate a crossing at (2,2)
    let cell = grid.get_mut(2, 2).unwrap();
    cell.state = CellState::Occupied;
    cell.owner = Some("edge_0".to_string());
    cell.crossing = true;
    cell.crossed_by = Some("edge_1".to_string());

    let pairs = find_crossing_edge_pairs(&grid);
    assert_eq!(pairs.len(), 1);
    let (a, b) = &pairs[0];
    assert!(
        (a == "edge_0" && b == "edge_1") || (a == "edge_1" && b == "edge_0"),
        "Pair should contain edge_0 and edge_1"
    );
}

fn mark_crossing(grid: &mut Grid, row: usize, col: usize, owner: &str, crossed_by: &str) {
    let cell = grid.get_mut(row, col).unwrap();
    cell.owner = Some(owner.to_string());
    cell.crossing = true;
    cell.crossed_by = Some(crossed_by.to_string());
}

#[test]
fn crossing_pairs_are_sorted_and_unique() {
    let mut grid = Grid::new(4, 4, 10, 0, 0);
    mark_crossing(&mut grid, 0, 0, "edge_3", "edge_1");
    mark_crossing(&mut grid, 1, 2, "edge_1", "edge_3");
    mark_crossing(&mut grid, 2, 1, "edge_10", "edge_2");
    mark_crossing(&mut grid, 3, 3, "edge_0", "edge_2");
    // a crossing flag without a second edge names no pair
    grid.get_mut(3, 0).unwrap().crossing = true;
    let pairs = find_crossing_edge_pairs(&grid);
    let expected: Vec<(String, String)> = vec![
        ("edge_0".to_string(), "edge_2".to_string()),
        ("edge_1".to_string(), "edge_3".to_string()),
        ("edge_10".to_string(), "edge_2".to_string()),
    ];
    assert_eq!(pairs, expected);
}

// ─── two-phase refinement ───────────────────────────────────────────────────

#[test]
fn refinement_swaps_until_no_side_crosses() {
    let sides = vec![vec![30, 10, 20], vec![1, 2], Vec::new()];
    assert_eq!(refine_side_orders(&sides), vec![vec![1, 2, 0], vec![0, 1], Vec::new()]);
}

#[test]
fn refinement_makes_at_most_three_passes() {
    let sides = vec![vec![5, 4, 3, 2, 1]];
    // each pass carries the largest remaining key to its place
    assert_eq!(refine_side_orders(&sides), vec![vec![3, 4, 2, 1, 0]]);
    // equal keys never cross, so nothing moves
    assert_eq!(refine_side_orders(&vec![vec![7, 7, 7]]), vec![vec![0, 1, 2]]);
}

#[test]
fn reordering_permutes_and_never_adds_crossings() {
    for keys in [vec![3, 1, 2], vec![9, 8, 7, 6, 5, 4, 3, 2, 1], vec![2, 2, 1, 3], vec![5]] {
        let order = minimize_crossings(&keys);
        let mut seen = order.clone();
        seen.sort();
        assert_eq!(seen, (0..keys.len()).collect::<Vec<usize>>());
        let reordered: Vec<i64> = order.iter().map(|&i| keys[i]).collect();
        assert!(count_inversions(&reordered) <= count_inversions(&keys));
    }
}

#[test]
fn density_and_skew_are_compared_exactly() {
    assert!(!degrees_dense_or_skewed(&Vec::new()));
    assert!(degrees_dense_or_skewed(&vec![4, 4])); // average 4
    assert!(degrees_dense_or_skewed(&vec![1, 1, 1, 7])); // standard deviation about 2.6
    assert!(!degrees_dense_or_skewed(&vec![3, 3, 3])); // average exactly 3
    assert!(!degrees_dense_or_skewed(&vec![1, 5])); // standard deviation exactly 2
    assert!(degrees_dense_or_skewed(&vec![5])); // one degree: only the average counts
}

fn narrow_pair(steps: Vec<BasicStep>, edges: Vec<EdgeEnds>) -> BasicInput {
    // two points across: no top or bottom connector, one on each of left and right
    BasicInput {
        footprints: vec![
            NodeFootprint { gc: 0, gr: 0, w_points: 2, h_points: 3 },
            NodeFootprint { gc: 0, gr: 10, w_points: 2, h_points: 3 },
        ],
        diamonds: vec![false, false],
        edges,
        steps,
        pinned: HashMap::new(),
        cell_size: 10,
        offset_x: 0,
        offset_y: 0,
    }
}

#[test]
fn checked_assignment_refuses_when_an_end_finds_no_connector() {
    let s = |edge| step(0, edge, true, [Side::Left, Side::Right, Side::Top, Side::Bottom], [Corner::Tl, Corner::Bl, Corner::Tr, Corner::Br]);
    let es = vec![EdgeEnds { from: 0, to: 1 }; 3];
    let two = try_assign_trellis_basic(&narrow_pair(vec![s(0), s(1)], es.clone()));
    let ports = two.expect("two ends fit on the two connectors");
    assert_eq!(ports[&0].source_port.side, Side::Left);
    assert_eq!(ports[&1].source_port.side, Side::Right);
    assert!(try_assign_trellis_basic(&narrow_pair(vec![s(0), s(1), s(2)], es)).is_none());
}

#[test]
fn basic_ends_on_one_node_take_distinct_points() {
    let es = vec![EdgeEnds { from: 0, to: 1 }; 4];
    let mut steps = Vec::new();
    for e in 0..4 {
        steps.extend(down_steps(e));
    }
    let ports = assign_trellis_basic(&two_stacked(es, steps, HashMap::new()));
    let mut sources: Vec<(i64, i64)> = (0..4usize)
        .map(|e| (ports[&e].source_port.grid_row, ports[&e].source_port.grid_col))
        .collect();
    let mut targets: Vec<(i64, i64)> = (0..4usize)
        .map(|e| (ports[&e].target_port.grid_row, ports[&e].target_port.grid_col))
        .collect();
    sources.sort();
    sources.dedup();
    targets.sort();
    targets.dedup();
    assert_eq!(sources.len(), 4);
    assert_eq!(targets.len(), 4);
    assert_eq!(ports[&0].source_port.grid_col, 2);
    assert_eq!(ports[&1].source_port.grid_col, 1);
}

#[test]
fn er_diagram_lower_hub_threshold() {
    let stats = StrategyInputs { node_count: 30, max_degree: 4, hub_count: 2, max_edges_per_side: 4, ..base_stats() };
    assert_eq!(select_strategy(&stats), SelectedStrategy::TwoPhase);
    // at the ER threshold, nodes of degree 3 count as hubs too
    let es = vec![
        EdgeEnds { from: 0, to: 1 },
        EdgeEnds { from: 0, to: 2 },
        EdgeEnds { from: 0, to: 3 },
        EdgeEnds { from: 1, to: 2 },
        EdgeEnds { from: 1, to: 3 },
    ];
    assert_eq!(effective_hub_count(DiagramType::ErDiagram, &es, 0), 2);
}

#[test]
fn c4_diagram_high_hub_threshold() {
    let stats = StrategyInputs { node_count: 30, max_degree: 5, hub_count: 2, max_edges_per_side: 4, ..base_stats() };
    assert_eq!(select_strategy(&stats), SelectedStrategy::TwoPhase);
    // at the C4 threshold of 6, degree-5 nodes are no hubs
    let es: Vec<EdgeEnds> = (1..6).map(|t| EdgeEnds { from: 0, to: t }).collect();
    assert_eq!(count_hubs_with_threshold(&es, 4), 1);
    assert_eq!(effective_hub_count(DiagramType::C4Diagram, &es, 1), 0);
}

#[test]
fn hub_count_falls_as_threshold_rises_and_counts_every_node_at_zero() {
    // A->B, A->C, A->D, B->C
    let es = vec![
        EdgeEnds { from: 0, to: 1 },
        EdgeEnds { from: 0, to: 2 },
        EdgeEnds { from: 0, to: 3 },
        EdgeEnds { from: 1, to: 2 },
    ];
    let counts: Vec<usize> = (0..6).map(|t| count_hubs_with_threshold(&es, t)).collect();
    assert_eq!(counts, vec![4, 4, 3, 1, 0, 0]);
}
