use trellis_core::config::{
    configuration_factory, default_bend_threshold, default_cell_size, default_decomposition_threshold,
    default_port_assignment, default_show_title, BendThreshold, ConfigurationType, CrossingStyle,
    FlowBias, LayoutSettings, PortAssignmentStrategy,
};
use trellis_core::model::{DiagramType, Direction};
use trellis_core::ports::effective_direction;

#[test]
fn port_assignment_defaults_to_trellis_basic() {
    assert_eq!(default_port_assignment(), PortAssignmentStrategy::TrellisBasic);
    assert_eq!(PortAssignmentStrategy::default(), PortAssignmentStrategy::TrellisBasic);
}

#[test]
fn default_settings() {
    let s = LayoutSettings::default();
    assert_eq!(s.cell_size, 20);
    assert_eq!(default_cell_size(), 20);
    assert_eq!(default_decomposition_threshold(), 50);
    assert!(default_show_title());
    assert_eq!(default_bend_threshold(), BendThreshold::Auto);
    assert_eq!(s.flow_bias, FlowBias::Uniform);
    assert_eq!(s.crossing_style, CrossingStyle::Straight);
    assert!(s.show_grid);
    assert!(!s.show_edge_labels);
    assert_eq!(configuration_factory(ConfigurationType::Basic), s);
}

#[test]
fn benchmark_settings() {
    let s = configuration_factory(ConfigurationType::Benchmark);
    assert_eq!(s.crossing_style, CrossingStyle::Arc);
    assert!(!s.show_grid);
    assert!(s.show_edge_labels);
    assert_eq!(s.port_assignment, PortAssignmentStrategy::Default);
    assert_eq!(s.flow_bias, FlowBias::Auto);
}

#[test]
fn flow_bias_resolution() {
    assert_eq!(effective_direction(FlowBias::Uniform, Direction::TB, DiagramType::Flowchart), None);
    assert_eq!(effective_direction(FlowBias::Strong, Direction::LR, DiagramType::C4Diagram), Some(Direction::LR));
    assert_eq!(effective_direction(FlowBias::Auto, Direction::BT, DiagramType::Flowchart), Some(Direction::BT));
    assert_eq!(effective_direction(FlowBias::Auto, Direction::BT, DiagramType::ErDiagram), None);
}

#[test]
fn test_config_default() {
    let config = LayoutSettings::default();
    assert_eq!(config.cell_size, 20);
    assert_eq!(config.decomposition_threshold, 50);
}
