//! Shape-specific side preferences (diamond poles).
use vstd::prelude::*;

use crate::model::{Direction, NodeShape};
use crate::ports::assignment::Side;

verus! {

/// Inputs to the shape-specific side preference: the node shape, the
/// direction that port selection leans toward (`None`: no lean), and
/// whether the edge leaves (`true`) or enters (`false`) the node.
#[derive(Debug, Clone, Copy, PartialEq, Eq, Structural)]
pub struct ShapePortContext {
    pub shape: NodeShape,
    pub effective_dir: Option<Direction>,
    pub is_source: bool,
}

/// Side preference of a diamond: edges entering along the main flow use
/// the poles on the flow axis (the one the flow comes from first), edges
/// leaving branch out through the perpendicular poles.
pub open spec fn spec_diamond_priority(dir: Direction, is_source: bool) -> Seq<Side> {
    match (dir, is_source) {
        (Direction::TB, false) => seq![Side::Top, Side::Bottom, Side::Right, Side::Left],
        (Direction::TB, true) => seq![Side::Right, Side::Left, Side::Top, Side::Bottom],
        (Direction::BT, false) => seq![Side::Bottom, Side::Top, Side::Right, Side::Left],
        (Direction::BT, true) => seq![Side::Right, Side::Left, Side::Bottom, Side::Top],
        (Direction::LR, false) => seq![Side::Right, Side::Left, Side::Top, Side::Bottom],
        (Direction::LR, true) => seq![Side::Top, Side::Bottom, Side::Right, Side::Left],
        (Direction::RL, false) => seq![Side::Left, Side::Right, Side::Top, Side::Bottom],
        (Direction::RL, true) => seq![Side::Top, Side::Bottom, Side::Left, Side::Right],
    }
}

/// Side-priority table of diamond nodes.
pub fn diamond_priority(dir: Direction, is_source: bool) -> (r: [Side; 4])
    ensures
        r@ == spec_diamond_priority(dir, is_source),
{
    let r = match (dir, is_source) {
        (Direction::TB, false) => [Side::Top, Side::Bottom, Side::Right, Side::Left],
        (Direction::TB, true) => [Side::Right, Side::Left, Side::Top, Side::Bottom],
        (Direction::BT, false) => [Side::Bottom, Side::Top, Side::Right, Side::Left],
        (Direction::BT, true) => [Side::Right, Side::Left, Side::Bottom, Side::Top],
        (Direction::LR, false) => [Side::Right, Side::Left, Side::Top, Side::Bottom],
        (Direction::LR, true) => [Side::Top, Side::Bottom, Side::Right, Side::Left],
        (Direction::RL, false) => [Side::Left, Side::Right, Side::Top, Side::Bottom],
        (Direction::RL, true) => [Side::Top, Side::Bottom, Side::Left, Side::Right],
    };
    proof {
        assert(r@ =~= spec_diamond_priority(dir, is_source));
    }
    r
}

/// A shape-specific side preference, or `None` to keep the caller's own
/// (corner-distance) order: only diamonds have one, and only when a flow
/// direction is in force.
pub fn shape_side_priority(ctx: &ShapePortContext) -> (r: Option<[Side; 4]>)
    ensures
        (ctx.effective_dir is Some && ctx.shape == NodeShape::Diamond) ==> r is Some && r->0@
            == spec_diamond_priority(ctx.effective_dir->0, ctx.is_source),
        !(ctx.effective_dir is Some && ctx.shape == NodeShape::Diamond) ==> r is None,
{
    match ctx.effective_dir {
        None => None,
        Some(dir) => match ctx.shape {
            NodeShape::Diamond => Some(diamond_priority(dir, ctx.is_source)),
            _ => None,
        },
    }
}

/// Law: every priority list of a diamond names each side exactly once.
pub proof fn lemma_diamond_priority_is_permutation(dir: Direction, is_source: bool)
    ensures
        spec_diamond_priority(dir, is_source).len() == 4,
        spec_diamond_priority(dir, is_source).no_duplicates(),
        spec_diamond_priority(dir, is_source).contains(Side::Top),
        spec_diamond_priority(dir, is_source).contains(Side::Right),
        spec_diamond_priority(dir, is_source).contains(Side::Bottom),
        spec_diamond_priority(dir, is_source).contains(Side::Left),
{
    let s = spec_diamond_priority(dir, is_source);
    assert(s[0] != s[1] && s[0] != s[2] && s[0] != s[3] && s[1] != s[2] && s[1] != s[3] && s[2] != s[3]);
    assert(s.contains(s[0]) && s.contains(s[1]) && s.contains(s[2]) && s.contains(s[3]));
}

} // verus!
