//! Edge label placement.
pub mod collision;
pub mod measure;
pub mod placement;
pub mod slide;
