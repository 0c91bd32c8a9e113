//! Port assignment: choosing the grid points where edges leave and enter nodes.
pub mod assignment;
pub mod auto;
pub mod common;
pub mod distribute;
pub mod inversions;
pub mod iterative;
pub mod prepass;
pub mod shape_bias;
pub mod stats;
pub mod trellis_basic;
pub mod two_phase;

use vstd::prelude::*;

use crate::config::{FlowBias, PortAssignmentStrategy};
use crate::model::{DiagramType, Direction};

verus! {

/// Whether a strategy runs the pipeline's refinement loop: the two
/// multi-round strategies do; `Auto` decides by itself and answers no here.
pub fn needs_refinement(strategy: PortAssignmentStrategy) -> (r: bool)
    ensures
        r <==> (strategy == PortAssignmentStrategy::IterativeSwap || strategy
            == PortAssignmentStrategy::TwoPhase),
{
    match strategy {
        PortAssignmentStrategy::IterativeSwap | PortAssignmentStrategy::TwoPhase => true,
        _ => false,
    }
}

/// The layout direction that flow-aware side selection leans toward, or
/// `None` for uniform sectors.
pub open spec fn spec_effective_direction(
    flow_bias: FlowBias,
    direction: Direction,
    diagram_type: DiagramType,
) -> Option<Direction> {
    match flow_bias {
        FlowBias::Uniform => None,
        FlowBias::Strong => Some(direction),
        FlowBias::Auto => if diagram_type == DiagramType::Flowchart {
            Some(direction)
        } else {
            None
        },
    }
}

/// Resolve the effective layout direction for flow-aware port assignment:
/// `Strong` always leans, `Auto` leans for flowcharts only, `None` never.
pub fn effective_direction(flow_bias: FlowBias, direction: Direction, diagram_type: DiagramType) -> (r:
    Option<Direction>)
    ensures
        r == spec_effective_direction(flow_bias, direction, diagram_type),
{
    match flow_bias {
        FlowBias::Uniform => None,
        FlowBias::Strong => Some(direction),
        FlowBias::Auto => {
            if diagram_type == DiagramType::Flowchart {
                Some(direction)
            } else {
                None
            }
        },
    }
}

} // verus!
