//! Verified layout core of the Trellis diagram renderer.
//!
//! The crate holds the integer, grid-level part of the layout pipeline:
//! layering and ordering, grid construction, snapping, overlap and label
//! geometry in whole pixels, port slot selection and crossing reduction,
//! straight-edge pinning, deadlock helpers and the text helpers of the SVG
//! writer.
pub mod config;
pub mod deadlock;
pub mod debug;
pub mod grid;
pub mod labels;
pub mod model;
pub mod pipeline;
pub mod placement;
pub mod ports;
pub mod render;
