//! Sides, ports and port pairs, and the port assignment strategies.
use vstd::prelude::*;

use crate::config::PortAssignmentStrategy;

verus! {

/// Side of a node where a port can be placed.
#[derive(Debug, Clone, Copy, PartialEq, Eq, Structural, Hash)]
pub enum Side {
    Top,
    Right,
    Bottom,
    Left,
}

/// A port: the grid point where an edge meets a node, with its world
/// coordinates (`col * cell_size + offset_x`, `row * cell_size + offset_y`).
#[derive(Debug, Clone, Copy, PartialEq, Eq, Structural)]
pub struct Port {
    pub x: i64,
    pub y: i64,
    pub grid_row: i64,
    pub grid_col: i64,
    pub side: Side,
}

/// Source and target ports of an edge.
#[derive(Debug, Clone, Copy, PartialEq, Eq, Structural)]
pub struct EdgePorts {
    pub source_port: Port,
    pub target_port: Port,
}

/// The angle-based port assignment strategy.
#[derive(Debug, Clone, Copy, PartialEq, Eq, Structural)]
pub struct DefaultPortAssigner;

/// Orders ports by the average position of the neighbourhood.
#[derive(Debug, Clone, Copy, PartialEq, Eq, Structural)]
pub struct BarycenterPortAssigner;

/// Orders ports by the median position of the neighbourhood.
#[derive(Debug, Clone, Copy, PartialEq, Eq, Structural)]
pub struct MedianPortAssigner;

/// Greedily minimises port inversions.
#[derive(Debug, Clone, Copy, PartialEq, Eq, Structural)]
pub struct CrossingGreedyPortAssigner;

/// Crossing estimate followed by targeted re-routing.
#[derive(Debug, Clone, Copy, PartialEq, Eq, Structural)]
pub struct TwoPhaseAssigner;

/// Selects one of the other strategies from graph statistics.
#[derive(Debug, Clone, Copy, PartialEq, Eq, Structural)]
pub struct AutoPortAssigner;

/// Route-then-swap strategy, seeded by another strategy.
#[derive(Debug, Clone, Copy, PartialEq, Eq, Structural)]
pub struct IterativeSwapAssigner {
    pub initial_strategy: PortAssignmentStrategy,
}

} // verus!
