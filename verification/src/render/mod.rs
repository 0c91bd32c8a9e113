//! Text-level helpers of the SVG writer.
pub mod c4_boundary;
pub mod c4_shapes;
pub mod class_shapes;
pub mod edges;
pub mod er_glyphs;
pub mod er_shapes;
pub mod fonts;
pub mod nodes;
pub mod subgraph;
pub mod text;
pub mod wrap;
