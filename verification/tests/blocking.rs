use std::collections::HashMap;
use trellis_core::deadlock::rip_up::find_blocking_edges;
use trellis_core::grid::{CellState, Grid};
use trellis_core::ports::assignment::{EdgePorts, Port, Side};

fn ports(r0: i64, c0: i64, r1: i64, c1: i64) -> EdgePorts {
    EdgePorts {
        source_port: Port { x: c0 * 10, y: r0 * 10, grid_row: r0, grid_col: c0, side: Side::Bottom },
        target_port: Port { x: c1 * 10, y: r1 * 10, grid_row: r1, grid_col: c1, side: Side::Top },
    }
}

fn occupy(grid: &mut Grid, row: usize, col: usize, owner: &str) {
    if let Some(cell) = grid.get_mut(row, col) {
        cell.state = CellState::Occupied;
        cell.owner = Some(owner.to_string());
    }
}

#[test]
fn test_find_blocking_edges_empty_grid() {
    let grid = Grid::new(10, 10, 10, 0, 0);
    let port_assignments = HashMap::new();
    let result = find_blocking_edges(&grid, 0, &port_assignments);
    assert!(result.is_empty());
}

#[test]
fn test_find_blocking_edges_with_occupied_cells() {
    let mut grid = Grid::new(10, 10, 10, 0, 0);
    // Mark some cells as occupied by edge_1
    for col in 2..8 {
        occupy(&mut grid, 5, col, "edge_1");
    }
    // edge 0 needs to cross from row 3 to row 7 at col 5
    let mut port_assignments = HashMap::new();
    port_assignments.insert(0, ports(3, 5, 7, 5));
    let blocking = find_blocking_edges(&grid, 0, &port_assignments);
    assert!(!blocking.is_empty());
    assert!(blocking.contains(&1));
}

#[test]
fn blocking_edges_most_cells_first_at_most_three() {
    let mut grid = Grid::new(12, 12, 10, 0, 0);
    // window for ports (4,4)-(6,6): rows 2..=8, cols 2..=8
    for col in 2..5 {
        occupy(&mut grid, 3, col, "edge_7"); // 3 cells
    }
    for col in 2..7 {
        occupy(&mut grid, 5, col, "edge_2"); // 5 cells
    }
    occupy(&mut grid, 7, 3, "edge_9"); // 1 cell
    occupy(&mut grid, 7, 4, "edge_4"); // 1 cell
    occupy(&mut grid, 8, 8, "node_A"); // not an edge
    occupy(&mut grid, 10, 10, "edge_5"); // outside the window
    let mut port_assignments = HashMap::new();
    port_assignments.insert(3, ports(4, 4, 6, 6));
    let blocking = find_blocking_edges(&grid, 3, &port_assignments);
    assert_eq!(blocking.len(), 3);
    assert_eq!(blocking[0], 2);
    assert_eq!(blocking[1], 7);
    // one of the two single-cell edges takes the last place
    assert!(blocking[2] == 9 || blocking[2] == 4);
    assert!(!blocking.contains(&5));
}

#[test]
fn blocking_edges_ignore_free_and_blocked_cells() {
    let mut grid = Grid::new(6, 6, 10, 0, 0);
    if let Some(cell) = grid.get_mut(2, 2) {
        cell.state = CellState::Blocked;
        cell.owner = Some("edge_1".to_string());
    }
    if let Some(cell) = grid.get_mut(2, 3) {
        cell.owner = Some("edge_2".to_string());
    }
    let mut port_assignments = HashMap::new();
    port_assignments.insert(0, ports(2, 1, 2, 4));
    assert!(find_blocking_edges(&grid, 0, &port_assignments).is_empty());
}
