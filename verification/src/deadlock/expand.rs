//! Grid expansion: the scale by which node positions spread out when rip-up fails.
use vstd::prelude::*;

verus! {

/// Numerator of the grid expansion factor (3/2).
pub const EXPANSION_NUMERATOR: u32 = 3;

/// Denominator of the grid expansion factor (3/2).
pub const EXPANSION_DENOMINATOR: u32 = 2;

} // verus!
