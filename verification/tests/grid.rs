use trellis_core::deadlock::rip_up::{restore_cell, save_and_free_cell};
use trellis_core::grid::{build_grid, CellState, Grid, GridPoint, NodeFootprint, PlacedNode};

#[test]
fn test_build_grid_basic() {
    // Top-left at (30, 40), size 40x20, cell_size=10
    // Grid points: gc=3, gr=4, w_points=5, h_points=3
    // Node spans grid rows 4..6, cols 3..7
    let nodes = vec![PlacedNode {
        id: "A".to_string(),
        footprint: NodeFootprint { gc: 3, gr: 4, w_points: 5, h_points: 3 },
    }];
    // extent 200x200 with cell size 10: 20 rows, 20 columns
    let grid = build_grid(&nodes, 20, 20, 10, 0, 0);
    assert_eq!(grid.rows, 20);
    assert_eq!(grid.cols, 20);

    // Outside the node → Free
    assert_eq!(grid.get(0, 0).unwrap().state, CellState::Free);
    // Interior cell (row 5, col 5) → Blocked
    assert_eq!(grid.get(5, 5).unwrap().state, CellState::Blocked);
    // Corner (top-left: row 4, col 3) → Blocked
    assert_eq!(grid.get(4, 3).unwrap().state, CellState::Blocked);
    // Corner (bottom-right: row 6, col 7) → Blocked
    assert_eq!(grid.get(6, 7).unwrap().state, CellState::Blocked);
    // Boundary non-corner (top edge, row 4, col 5) → Free (connector)
    assert_eq!(grid.get(4, 5).unwrap().state, CellState::Free);
    // Boundary non-corner (left edge, row 5, col 3) → Free (connector)
    assert_eq!(grid.get(5, 3).unwrap().state, CellState::Free);
    // Owner is set for all node grid points
    assert_eq!(grid.get(5, 5).unwrap().owner, Some("A".to_string()));
    assert_eq!(grid.get(4, 5).unwrap().owner, Some("A".to_string()));
}

#[test]
fn test_grid_utilization() {
    let grid = Grid::new(10, 10, 10, 0, 0);
    // utilization is the share of non-free cells: 0 of the 100 cells
    assert_eq!(grid.non_free_cell_count() as f64 / (grid.rows * grid.cols) as f64, 0.0);
    assert_eq!(grid.free_cell_count(), 100);
    assert_eq!(grid.blocked_cell_count(), 0);
}

#[test]
fn test_grid_to_world_conversion() {
    let grid = Grid::new(10, 10, 10, 5, 5);
    let (x, y) = grid.grid_to_world(3, 4);
    assert_eq!(x, 45); // 4*10 + 5
    assert_eq!(y, 35); // 3*10 + 5
}

#[test]
fn test_in_bounds() {
    let grid = Grid::new(5, 5, 10, 0, 0);
    assert!(grid.in_bounds(0, 0));
    assert!(grid.in_bounds(4, 4));
    assert!(!grid.in_bounds(5, 0));
    assert!(!grid.in_bounds(-1, 0));
}

#[test]
fn zero_sized_grid_gets_one_cell() {
    let grid = build_grid(&Vec::new(), 0, 0, 10, 0, 0);
    assert_eq!(grid.rows, 1);
    assert_eq!(grid.cols, 1);
    assert_eq!(grid.free_cell_count(), 1);
}

#[test]
fn node_partly_outside_is_clipped() {
    let nodes = vec![PlacedNode {
        id: "N".to_string(),
        footprint: NodeFootprint { gc: -2, gr: -2, w_points: 4, h_points: 4 },
    }];
    let grid = build_grid(&nodes, 3, 3, 10, 0, 0);
    // points (0..=1, 0..=1) are inside the node; (1, 1) is its bottom-right corner
    assert_eq!(grid.get(0, 0).unwrap().state, CellState::Blocked);
    assert_eq!(grid.get(1, 1).unwrap().state, CellState::Blocked);
    // (1, 0) lies on the bottom edge and (0, 1) on the right edge, not
    // corners: free connectors
    assert_eq!(grid.get(1, 0).unwrap().state, CellState::Free);
    assert_eq!(grid.get(0, 1).unwrap().state, CellState::Free);
    assert_eq!(grid.get(2, 2).unwrap().owner, None);
    assert_eq!(grid.blocked_cell_count(), 2);
    assert_eq!(grid.free_cell_count(), 7);
}

#[test]
fn later_node_owns_shared_points() {
    let nodes = vec![
        PlacedNode { id: "A".to_string(), footprint: NodeFootprint { gc: 0, gr: 0, w_points: 3, h_points: 3 } },
        PlacedNode { id: "B".to_string(), footprint: NodeFootprint { gc: 2, gr: 0, w_points: 3, h_points: 3 } },
    ];
    let grid = build_grid(&nodes, 5, 6, 10, 0, 0);
    assert_eq!(grid.get(1, 2).unwrap().owner, Some("B".to_string()));
    // (1, 2) is a side point of both nodes: stays free
    assert_eq!(grid.get(1, 2).unwrap().state, CellState::Free);
    // (0, 2) is a corner of both: blocked
    assert_eq!(grid.get(0, 2).unwrap().state, CellState::Blocked);
}

#[test]
fn save_then_restore_gives_back_blocked_cell() {
    let nodes = vec![PlacedNode {
        id: "A".to_string(),
        footprint: NodeFootprint { gc: 1, gr: 1, w_points: 3, h_points: 3 },
    }];
    let mut grid = build_grid(&nodes, 6, 6, 10, 0, 0);
    let p = GridPoint { row: 2, col: 2 };
    let saved = save_and_free_cell(&mut grid, p);
    assert_eq!(saved, Some(CellState::Blocked));
    assert_eq!(grid.get(2, 2).unwrap().state, CellState::Free);
    restore_cell(&mut grid, p, saved);
    assert_eq!(grid.get(2, 2).unwrap().state, CellState::Blocked);
}

#[test]
fn restore_keeps_an_occupied_cell() {
    let nodes = vec![PlacedNode {
        id: "A".to_string(),
        footprint: NodeFootprint { gc: 1, gr: 1, w_points: 3, h_points: 3 },
    }];
    let mut grid = build_grid(&nodes, 6, 6, 10, 0, 0);
    let p = GridPoint { row: 2, col: 2 };
    let saved = save_and_free_cell(&mut grid, p);
    if let Some(cell) = grid.get_mut(2, 2) {
        cell.state = CellState::Occupied;
    }
    restore_cell(&mut grid, p, saved);
    assert_eq!(grid.get(2, 2).unwrap().state, CellState::Occupied);
}

#[test]
fn save_outside_grid_is_none() {
    let mut grid = Grid::new(3, 3, 10, 0, 0);
    assert_eq!(save_and_free_cell(&mut grid, GridPoint { row: -1, col: 0 }), None);
    assert_eq!(save_and_free_cell(&mut grid, GridPoint { row: 0, col: 3 }), None);
    assert_eq!(save_and_free_cell(&mut grid, GridPoint { row: 0, col: 0 }), Some(CellState::Free));
}

#[test]
fn get_mut_outside_grid_is_none() {
    let mut grid = Grid::new(2, 2, 10, 0, 0);
    assert!(grid.get_mut(2, 0).is_none());
    assert!(grid.get(0, 2).is_none());
}

#[test]
fn test_world_to_grid_conversion() {
    let grid = Grid::new(10, 10, 10, 0, 0);
    let (row, col) = grid.world_to_grid(55, 35);
    assert_eq!(col, 6); // round(55/10) = 6
    assert_eq!(row, 4); // round(35/10) = 4 (note: was 3, let me check - 35/10=3.5 rounds to 4)
}

#[test]
fn world_to_grid_rounds_halves_away_from_zero() {
    let grid = Grid::new(3, 3, 10, 5, -5);
    assert_eq!(grid.world_to_grid(-10, 9), (1, -2)); // (-15/10, 14/10)
    assert_eq!(grid.world_to_grid(14, -5), (0, 1));
    let flat = Grid::new(1, 1, 0, 0, 0);
    assert_eq!(flat.world_to_grid(3, -3), (i64::MIN, i64::MAX));
    assert_eq!(flat.world_to_grid(0, 0), (0, 0));
    let flipped = Grid::new(1, 1, -10, 0, 0);
    assert_eq!(flipped.world_to_grid(25, -24), (2, -3));
}
