use trellis_core::model::NodeShape;
use trellis_core::placement::class::find_most_connected_placed_neighbour;
use trellis_core::placement::overlap::{find_free_position, overlaps_any, PlacedBox};
use trellis_core::placement::row_flow::{compute_row_heights, place_in_rows};
use trellis_core::placement::snap::{snap_cells, spiral_search, SnapRequest};
use trellis_core::placement::snap_grid_points;
use trellis_core::placement::subgraph::{
    build_containment_map, build_subgraph_tree_with_ownership, direct_nodes, find_owner, subgraph_owners,
    SubgraphTree,
};
use trellis_core::pipeline::count_layers;

// ─── grid points of a node ──────────────────────────────────────────────────

/// Snapped pixel size for a cell size of 10.
fn snapped(w_cells: i32, h_cells: i32, shape: NodeShape) -> (i32, i32) {
    let (w, h) = snap_grid_points(w_cells, h_cells, shape);
    ((w - 1) * 10, (h - 1) * 10)
}

#[test]
fn test_snap_dimensions_minimum() {
    // a 10x10 node at cell size 10 covers one cell each way
    let (width, height) = snapped(1, 1, NodeShape::Rectangle);
    // min 5 grid points wide = 4*10 = 40 pixels
    assert_eq!(width, 40);
    // min 3 grid points tall = 2*10 = 20 pixels
    assert_eq!(height, 20);
}

#[test]
fn test_snap_dimensions_rounds_up() {
    // width=55 needs ceil(55/10)+1 = 6+1 = 7 grid points = 60 pixels
    let (width, height) = snapped(6, 3, NodeShape::Rectangle);
    assert_eq!(width, 60);
    // height=25 needs ceil(25/10)+1 = 3+1+1 = 5 grid points = 40 pixels
    assert_eq!(height, 40);
}

#[test]
fn test_snap_dimensions_exact_multiple() {
    // width=40 = exactly 4 cell intervals, ceil(40/10)+1 = 5 grid points = 40 pixels
    let (width, height) = snapped(4, 2, NodeShape::Rectangle);
    assert_eq!(width, 40);
    assert_eq!(height, 20);
}

#[test]
fn test_snap_dimensions_cylinder_extra_height() {
    // Same size as in test_snap_dimensions_exact_multiple, but a cylinder
    let (width, height) = snapped(4, 2, NodeShape::Cylinder);
    // width unchanged
    assert_eq!(width, 40);
    // height: base h_points = 3 + 2 = 5 → (5-1)*10 = 40 px
    assert_eq!(height, 40);
}

#[test]
fn circles_are_made_square() {
    assert_eq!(snap_grid_points(8, 2, NodeShape::Circle), (9, 9));
    assert_eq!(snap_grid_points(1, 6, NodeShape::DoubleCircle), (7, 7));
    assert_eq!(snap_grid_points(8, 2, NodeShape::Rectangle), (9, 3));
}

// ─── spiral search ──────────────────────────────────────────────────────────

#[test]
fn test_spiral_search_finds_free() {
    let occupied = vec![(5i64, 5i64)];
    let result = spiral_search(5, 5, &occupied);
    assert!(result.is_some());
    let (x, y) = result.unwrap();
    assert!(!occupied.contains(&(x, y)));
    // the first candidate of the first ring: one step left
    assert_eq!((x, y), (4, 5));
}

#[test]
fn spiral_search_walks_the_ring_in_order() {
    // ring 1 in order: (-1,0) twice, (0,1), (0,-1), (1,0) twice
    let occupied = vec![(-1i64, 0i64), (0, 1)];
    assert_eq!(spiral_search(0, 0, &occupied), Some((0, -1)));
    let occupied = vec![(-1i64, 0i64), (0, 1), (0, -1), (1, 0)];
    // ring 2 starts at dx = -2, dy = 0
    assert_eq!(spiral_search(0, 0, &occupied), Some((-2, 0)));
}

#[test]
fn spiral_search_does_not_look_at_the_centre() {
    // the centre itself is never a candidate
    assert_eq!(spiral_search(3, 4, &Vec::new()), Some((2, 4)));
}

// ─── class placement ────────────────────────────────────────────────────────

#[test]
fn most_connected_placed_neighbour_wins() {
    // 0 is connected to 1, 2, 3; 1 and 3 are placed; 3 has two placed neighbours
    let adj = vec![vec![1, 2, 3], vec![0], vec![0], vec![0, 1, 4], vec![3]];
    let placed = vec![true, true, false, true, false];
    assert_eq!(find_most_connected_placed_neighbour(0, &adj, &placed), Some(3));
}

#[test]
fn tie_goes_to_the_last_neighbour() {
    let adj = vec![vec![1, 2], vec![0], vec![0]];
    let placed = vec![true, true, true];
    assert_eq!(find_most_connected_placed_neighbour(0, &adj, &placed), Some(2));
}

#[test]
fn no_placed_neighbour_gives_none() {
    let adj = vec![vec![1, 7], vec![0]];
    let placed = vec![false, false];
    assert_eq!(find_most_connected_placed_neighbour(0, &adj, &placed), None);
    assert_eq!(find_most_connected_placed_neighbour(5, &adj, &placed), None);
}

#[test]
fn layers_are_distinct_layer_coordinates() {
    assert_eq!(count_layers(&vec![0, 500, 500, 1000, 0]), 3);
    assert_eq!(count_layers(&Vec::new()), 0);
    assert_eq!(count_layers(&vec![-3, -3]), 1);
}

// ─── subgraph ownership ─────────────────────────────────────────────────────

#[test]
fn test_build_tree_b08_nested() {
    // graph TB; A-->B; subgraph S1; B-->C; subgraph S2; C-->D; end; end; D-->E
    // nodes A=0 B=1 C=2 D=3 E=4; subgraphs S1=0 (lists B, C) holding S2=1 (lists C, D)
    let tree = SubgraphTree { top: vec![0], children: vec![vec![1], vec![]], members: vec![vec![1, 2], vec![2, 3]] };
    let own = build_subgraph_tree_with_ownership(&tree, 5);
    // ROOT direct nodes: A, E (not in any subgraph)
    assert!(own.root_nodes.contains(&0));
    assert!(own.root_nodes.contains(&4));
    assert!(!own.root_nodes.contains(&1));
    // S1 direct nodes: B (C is in S2, not directly in S1)
    assert!(own.direct_nodes[0].contains(&1));
    assert!(!own.direct_nodes[0].contains(&2), "C should be in S2, not S1");
    // S2 direct nodes: C, D
    assert!(own.direct_nodes[1].contains(&2));
    assert!(own.direct_nodes[1].contains(&3));
    assert_eq!(own.root_nodes, vec![0, 4]);
    // the same through the owner list
    let owners = subgraph_owners(&tree, 5);
    assert_eq!(owners, vec![None, Some(0), Some(1), Some(1), None]);
    assert_eq!(direct_nodes(&owners, Some(1)), vec![2, 3]);
}

#[test]
fn test_build_tree_b09() {
    // graph TB; A-->S1; subgraph S1; B-->C; end; S1-->D
    // nodes A=0 B=1 C=2 D=3; S1=0 lists B and C
    let tree = SubgraphTree { top: vec![0], children: vec![vec![]], members: vec![vec![1, 2]] };
    let own = build_subgraph_tree_with_ownership(&tree, 4);
    // S1 direct nodes: B, C
    assert!(own.direct_nodes[0].contains(&1));
    assert!(own.direct_nodes[0].contains(&2));
    assert_eq!(own.root_nodes, vec![0, 3]);
}

#[test]
fn first_top_level_subgraph_wins() {
    // node 0 is listed by two sibling subgraphs: the earlier one owns it
    let tree = SubgraphTree { top: vec![0, 1], children: vec![vec![], vec![]], members: vec![vec![0], vec![0, 1]] };
    assert_eq!(find_owner(&tree, 0), Some(0));
    assert_eq!(find_owner(&tree, 1), Some(1));
    assert_eq!(find_owner(&tree, 2), None);
}

#[test]
fn containment_takes_the_last_listing_subgraph() {
    // S0 lists nodes 0 and 1; its child S1 lists node 1 again; node 2 is outside
    let tree = SubgraphTree { top: vec![0], children: vec![vec![1], vec![]], members: vec![vec![0, 1], vec![1]] };
    assert_eq!(build_containment_map(&tree, 3), vec![Some(0), Some(1), None]);
}

#[test]
fn row_heights_take_the_tallest_of_each_row() {
    let heights = vec![10, 30, 20, 5, 40];
    assert_eq!(compute_row_heights(&heights, &vec![0, 1, 2, 3, 4], 2), vec![30, 20, 40]);
    assert_eq!(compute_row_heights(&heights, &vec![4, 0], 3), vec![40]);
    assert!(compute_row_heights(&heights, &Vec::new(), 2).is_empty());
}

#[test]
fn rows_flow_left_to_right_then_down() {
    let widths = vec![100, 50, 80];
    let (pos, bottom) = place_in_rows(&widths, &vec![0, 1, 2], 10, 20, 2, &vec![30, 40]);
    assert_eq!(pos, vec![(10, 20), (150, 20), (10, 110)]);
    assert_eq!(bottom, 150);
    // a row past the heights given counts as 0 high
    let (pos, bottom) = place_in_rows(&widths, &vec![2, 1], 0, 0, 1, &vec![30]);
    assert_eq!(pos, vec![(0, 0), (0, 90)]);
    assert_eq!(bottom, 90);
    let (pos, bottom) = place_in_rows(&widths, &Vec::new(), 5, 7, 3, &Vec::new());
    assert!(pos.is_empty());
    assert_eq!(bottom, 7);
}

fn placed(cx: i64, cy: i64, w: u32, h: u32) -> PlacedBox {
    PlacedBox { cx, cy, w, h }
}

#[test]
fn overlap_counts_the_gap_around_nodes() {
    let others = vec![placed(100, 0, 100, 50)];
    // centres 100 apart, half sizes 100 plus a 10 pixel gap each side
    assert!(overlaps_any(0, 0, 100, 50, &others));
    assert!(!overlaps_any(-10, 0, 100, 50, &others));
    assert!(!overlaps_any(0, 120, 100, 50, &others));
    assert!(!overlaps_any(0, 0, 100, 50, &Vec::new()));
}

#[test]
fn free_position_keeps_a_free_spot_and_searches_rings() {
    let others = vec![placed(0, 0, 100, 50)];
    assert_eq!(find_free_position(500, 500, 100, 50, &others), (500, 500));
    // step is half the larger side plus the spacing: 130 to the right
    assert_eq!(find_free_position(0, 0, 100, 50, &others), (130, 0));
    // nothing within 40 rings is free: placed right of every node
    let wall = vec![placed(0, 0, 4_000_000_000, 4_000_000_000), placed(-7, 3, 1, 1)];
    assert_eq!(find_free_position(0, 0, 10, 10, &wall), (90, 0));
}

fn request(grid_x: i64, grid_y: i64, cells_w: i64, cells_h: i64) -> SnapRequest {
    SnapRequest { grid_x, grid_y, cells_w, cells_h }
}

#[test]
fn snapped_nodes_take_free_cells_in_turn() {
    let cells = snap_cells(&vec![request(0, 0, 1, 1), request(0, 0, 1, 1), request(5, 5, 1, 1)]);
    assert_eq!(cells, vec![Some((0, 0)), Some((-1, 0)), Some((5, 5))]);
}

#[test]
fn a_snapped_node_takes_the_block_it_spans() {
    let cells = snap_cells(&vec![request(0, 0, 2, 2), request(1, 1, 1, 1), request(0, 1, 1, 1)]);
    // (1, 1) lies in the first block; the spiral's first free cell is (1, 2)
    assert_eq!(cells[0], Some((0, 0)));
    assert_eq!(cells[1], Some((1, 2)));
    // (0, 1) is taken too: ring 1 tries (-1, 1) first
    assert_eq!(cells[2], Some((-1, 1)));
    assert!(snap_cells(&Vec::new()).is_empty());
}

#[test]
fn test_snap_nodes_no_collision() {
    // (100,100) and (200,200), 60×40, on a 20-pixel grid: cells (5,5) and
    // (10,10), 3 by 2 cells each; both free, so both keep their cells
    let reqs = vec![
        SnapRequest { grid_x: 5, grid_y: 5, cells_w: 3, cells_h: 2 },
        SnapRequest { grid_x: 10, grid_y: 10, cells_w: 3, cells_h: 2 },
    ];
    let cells = snap_cells(&reqs);
    assert_eq!(cells, vec![Some((5, 5)), Some((10, 10))]);
    for c in cells {
        let (x, y) = c.unwrap();
        assert_eq!((x * 20) % 20, 0);
        assert_eq!((y * 20) % 20, 0);
    }
}
