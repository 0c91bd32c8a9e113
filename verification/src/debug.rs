//! Records of the pipeline's phases, as the debug log writes them.
use vstd::prelude::*;

verus! {

/// Grid dimensions and offsets.
#[derive(Debug, Default)]
pub struct GridPhase {
    pub cols: usize,
    pub rows: usize,
    pub offset_x: i32,
    pub offset_y: i32,
}

/// An edge pinned by the straight-edge pre-pass, and why.
#[derive(Debug)]
pub struct StraightEdgePin {
    pub edge_index: usize,
    pub reason: String,
}

/// The side and grid point chosen for an edge end.
#[derive(Debug)]
pub struct PortAssignment {
    pub side: String,
    pub connector: (i32, i32),
}

/// A connector that was passed over, and why.
#[derive(Debug)]
pub struct RejectionNote {
    pub connector: (i32, i32),
    pub reason: String,
}

/// Outcome of one routing attempt.
#[derive(Debug, Clone, Copy, PartialEq, Eq, Structural)]
pub enum RoutingAttemptResult {
    Success,
    Failed,
}

/// The quality reroute phase: threshold and rerouted edges.
#[derive(Debug, Default)]
pub struct QualityReroutePhase {
    pub threshold_used: usize,
    pub threshold_source: String,
    pub rerouted_edges: Vec<RerouteLog>,
}

/// One edge of the quality reroute phase.
#[derive(Debug)]
pub struct RerouteLog {
    pub edge_index: usize,
    pub original_bends: usize,
    pub best_alternative_bends: usize,
    pub outcome: String,
}

/// The port swap phase.
#[derive(Debug, Default)]
pub struct PortSwapPhase {
    pub swaps: Vec<PortSwapLog>,
}

/// One swap of two edges' ports on a node side.
#[derive(Debug)]
pub struct PortSwapLog {
    pub node_id: String,
    pub side: String,
    pub edge_a: usize,
    pub edge_b: usize,
    pub bends_before: usize,
    pub bends_after: usize,
}

/// The crossing reroute phase.
#[derive(Debug, Default)]
pub struct CrossingReroutePhase {
    pub enabled: bool,
    pub edges_rerouted: usize,
    pub details: Vec<CrossingRerouteLog>,
}

/// One edge of the crossing reroute phase.
#[derive(Debug)]
pub struct CrossingRerouteLog {
    pub edge_index: usize,
    pub crossings_before: usize,
    pub crossings_after: usize,
    pub outcome: String,
    pub attempts: Vec<CrossingAttempt>,
}

/// One source/target side combination tried in the crossing reroute.
#[derive(Debug)]
pub struct CrossingAttempt {
    pub src_side: String,
    pub tgt_side: String,
    pub result: CrossingAttemptResult,
    pub rejection_reason: Option<String>,
    pub crossings_after: Option<usize>,
    pub bend_count: Option<usize>,
    pub path_length: Option<usize>,
}

/// Outcome of one crossing reroute attempt.
#[derive(Debug, Clone, Copy, PartialEq, Eq, Structural)]
pub enum CrossingAttemptResult {
    /// The side has no connectors.
    NoConnectors,
    /// No path: every route is blocked.
    NoPath,
    /// A path, but over the bend or length budget.
    BudgetExceeded,
    /// A path that does not reduce crossings.
    StillCrossing,
    /// A path that reduces crossings: the new best.
    NewBest,
}

/// The deadlock phase.
#[derive(Debug, Default)]
pub struct DeadlockPhase {
    pub triggered: bool,
    pub resolution_method: Option<String>,
    pub edges_affected: Vec<usize>,
}

/// The crossings phase: style and crossings drawn.
#[derive(Debug, Default)]
pub struct CrossingsPhase {
    pub style: String,
    pub crossings: Vec<CrossingLog>,
}

/// One crossing of two edges on a cell.
#[derive(Debug)]
pub struct CrossingLog {
    pub owner_edge: String,
    pub hopper_edge: String,
    pub cell: (usize, usize),
    pub hop_rendered: bool,
}

} // verus!
