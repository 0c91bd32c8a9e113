//! Cardinality glyphs of ER relations.
use vstd::prelude::*;

verus! {

/// Which end of an edge a glyph is drawn for.
#[derive(Debug, Clone, Copy, PartialEq, Eq, Structural)]
pub enum GlyphEnd {
    /// The source end.
    Start,
    /// The target end.
    End,
}

} // verus!
