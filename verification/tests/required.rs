use trellis_core::config::PortAssignmentStrategy;
use trellis_core::deadlock::expand::{EXPANSION_DENOMINATOR, EXPANSION_NUMERATOR};
use trellis_core::deadlock::rip_up::parse_edge_index;
use trellis_core::ports::needs_refinement;
use trellis_core::render::c4_shapes::c4_marker_defs;
use trellis_core::render::class_shapes::escape_xml as class_escape_xml;
use trellis_core::render::nodes::escape_xml as nodes_escape_xml;
use trellis_core::render::subgraph::get_bg_color;

#[test]
fn test_expansion_factor() {
    let factor = EXPANSION_NUMERATOR as f64 / EXPANSION_DENOMINATOR as f64;
    assert!((factor - 1.5).abs() < 0.01);
}

#[test]
fn test_parse_edge_index() {
    assert_eq!(parse_edge_index("edge_0"), Some(0));
    assert_eq!(parse_edge_index("edge_42"), Some(42));
    assert_eq!(parse_edge_index("node_A"), None);
    assert_eq!(parse_edge_index("edge_"), None);
}

#[test]
fn parse_edge_index_valid() {
    assert_eq!(trellis_core::ports::iterative::parse_edge_index("edge_0"), Some(0));
    assert_eq!(trellis_core::ports::iterative::parse_edge_index("edge_42"), Some(42));
}

#[test]
fn parse_edge_index_invalid() {
    assert_eq!(trellis_core::ports::iterative::parse_edge_index("foo"), None);
    assert_eq!(trellis_core::ports::iterative::parse_edge_index("edge_"), None);
}

#[test]
fn needs_refinement_true_for_multi_round() {
    assert!(needs_refinement(PortAssignmentStrategy::IterativeSwap));
    assert!(needs_refinement(PortAssignmentStrategy::TwoPhase));
}

#[test]
fn needs_refinement_false_for_single_round() {
    assert!(!needs_refinement(PortAssignmentStrategy::Default));
    assert!(!needs_refinement(PortAssignmentStrategy::Barycenter));
    assert!(!needs_refinement(PortAssignmentStrategy::Median));
    assert!(!needs_refinement(PortAssignmentStrategy::CrossingGreedy));
    // Auto handles refinement by itself
    assert!(!needs_refinement(PortAssignmentStrategy::Auto));
}

#[test]
fn test_c4_marker_defs() {
    let defs = c4_marker_defs();
    assert!(defs.contains("c4-arrow"));
}

#[test]
fn class_shapes_test_escape_xml() {
    assert_eq!(class_escape_xml("A<B"), "A&lt;B");
    assert_eq!(class_escape_xml("A&B"), "A&amp;B");
    assert_eq!(class_escape_xml("normal"), "normal");
}

#[test]
fn nodes_test_escape_xml() {
    assert_eq!(nodes_escape_xml("A & B"), "A &amp; B");
    assert_eq!(nodes_escape_xml("<b>"), "&lt;b&gt;");
}

#[test]
fn test_depth_colors() {
    assert_eq!(get_bg_color(0), "#f0f4f8");
    assert_eq!(get_bg_color(1), "#e2e8f0");
    assert_eq!(get_bg_color(2), "#cbd5e1");
    assert_eq!(get_bg_color(3), "#94a3b8");
    assert_eq!(get_bg_color(99), "#94a3b8"); // clamped
}
