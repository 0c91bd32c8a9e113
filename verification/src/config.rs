//! Layout settings: the strategy enums and the defaults of every setting
//! that is not a floating-point cost or scale.
use vstd::prelude::*;

verus! {

/// Colour theme of a rendered diagram.
#[derive(Debug, Clone, Copy, PartialEq, Eq, Structural)]
pub enum ThemeName {
    Default,
    Paper,
    Blueprint,
    Dark,
    Midnight,
    Forest,
}

/// Port assignment algorithm selection.
#[derive(Debug, Clone, Copy, PartialEq, Eq, Structural)]
pub enum PortAssignmentStrategy {
    /// Greedy center-first with corner-distance side selection (default).
    TrellisBasic,
    /// Angle-based even distribution.
    Default,
    /// Orders by the average position of the neighbourhood.
    Barycenter,
    /// Orders by the median position of the neighbourhood.
    Median,
    /// Minimises port inversions that cause crossings.
    CrossingGreedy,
    /// Routes, finds crossings, swaps ports, re-routes (multi-round).
    IterativeSwap,
    /// Crossing estimate, then targeted re-route of crossing edges (multi-round).
    TwoPhase,
    /// Selects a strategy from graph statistics.
    Auto,
}

/// How strongly port side selection leans toward the layout flow direction.
#[derive(Debug, Clone, Copy, PartialEq, Eq, Structural)]
pub enum FlowBias {
    /// Bias for layered flowcharts only.
    Auto,
    /// Bias whatever the diagram type.
    Strong,
    /// Uniform 90-degree sectors (no bias).
    Uniform,
}

/// Bend count threshold that controls quality rerouting.
#[derive(Debug, Clone, Copy, PartialEq, Eq, Structural)]
pub enum BendThreshold {
    /// Quality reroute is disabled.
    Disabled,
    /// Reroute any edge whose bend count exceeds this value.
    Fixed(usize),
    /// Threshold computed from the routed paths.
    Auto,
}

/// How edge crossings are drawn.
#[derive(Debug, Clone, Copy, PartialEq, Eq, Structural)]
pub enum CrossingStyle {
    /// Lines pass straight through each other.
    Straight,
    Arc,
    Rectangular,
    Skip,
}

/// Decomposition mode for large graphs.
#[derive(Debug, Clone, Copy, PartialEq, Eq, Structural)]
pub enum DecompositionMode {
    /// The graph is laid out whole.
    Off,
    Single,
    Multi,
}

/// Preset configurations.
#[derive(Debug, Clone, Copy, PartialEq, Eq, Structural)]
pub enum ConfigurationType {
    Basic,
    Benchmark,
}

impl Default for PortAssignmentStrategy {
    fn default() -> (r: Self)
        ensures
            r == PortAssignmentStrategy::TrellisBasic,
    {
        PortAssignmentStrategy::TrellisBasic
    }
}

impl Default for FlowBias {
    fn default() -> (r: Self)
        ensures
            r == FlowBias::Auto,
    {
        FlowBias::Auto
    }
}

impl Default for BendThreshold {
    fn default() -> (r: Self)
        ensures
            r == BendThreshold::Auto,
    {
        BendThreshold::Auto
    }
}

impl Default for CrossingStyle {
    fn default() -> (r: Self)
        ensures
            r == CrossingStyle::Straight,
    {
        CrossingStyle::Straight
    }
}

impl Default for DecompositionMode {
    fn default() -> (r: Self)
        ensures
            r == DecompositionMode::Off,
    {
        DecompositionMode::Off
    }
}

// ─── per-setting defaults ─────────────────────────────────────────────────────

/// Default theme: `default`.
pub fn default_theme() -> (r: ThemeName)
    ensures
        r == ThemeName::Default,
{
    ThemeName::Default
}

/// Default cell size of the routing grid, in pixels.
pub fn default_cell_size() -> (r: i32)
    ensures
        r == 20,
{
    20
}

/// Default crossing style: straight lines.
pub fn default_crossing_style() -> (r: CrossingStyle)
    ensures
        r == CrossingStyle::Straight,
{
    CrossingStyle::Straight
}

/// The grid is shown by default.
pub fn default_show_grid() -> (r: bool)
    ensures
        r,
{
    true
}

/// Edge labels are hidden by default.
pub fn default_show_edge_labels() -> (r: bool)
    ensures
        !r,
{
    false
}

/// Decomposition is off by default.
pub fn default_decomposition() -> (r: DecompositionMode)
    ensures
        r == DecompositionMode::Off,
{
    DecompositionMode::Off
}

/// Default node count from which a graph would be decomposed.
pub fn default_decomposition_threshold() -> (r: usize)
    ensures
        r == 50,
{
    50
}

/// Default port assignment strategy: Trellis Basic.
pub fn default_port_assignment() -> (r: PortAssignmentStrategy)
    ensures
        r == PortAssignmentStrategy::TrellisBasic,
{
    PortAssignmentStrategy::TrellisBasic
}

/// No port refinement rounds by default.
pub fn default_port_refinement_rounds() -> (r: usize)
    ensures
        r == 0,
{
    0
}

/// Default flow bias: uniform sectors.
pub fn default_flow_bias() -> (r: FlowBias)
    ensures
        r == FlowBias::Uniform,
{
    FlowBias::Uniform
}

/// Default bend threshold: chosen automatically.
pub fn default_bend_threshold() -> (r: BendThreshold)
    ensures
        r == BendThreshold::Auto,
{
    BendThreshold::Auto
}

/// Crossing reroute is on by default.
pub fn default_crossing_reroute() -> (r: bool)
    ensures
        r,
{
    true
}

/// The title is shown by default.
pub fn default_show_title() -> (r: bool)
    ensures
        r,
{
    true
}

// ─── settings ─────────────────────────────────────────────────────────────────

/// The settings of a configuration that are not floating-point costs or
/// scales (those stay with the renderer that applies them).
#[derive(Debug, Clone, Copy, PartialEq, Eq, Structural)]
pub struct LayoutSettings {
    pub cell_size: i32,
    pub decomposition: DecompositionMode,
    pub decomposition_threshold: usize,
    pub crossing_style: CrossingStyle,
    pub show_grid: bool,
    pub show_edge_labels: bool,
    pub port_assignment: PortAssignmentStrategy,
    pub port_refinement_rounds: usize,
    pub flow_bias: FlowBias,
    pub print_metrics: bool,
    pub bend_threshold: BendThreshold,
    pub crossing_reroute: bool,
    pub theme: ThemeName,
    pub show_title: bool,
}

/// The settings of the default configuration.
pub open spec fn basic_settings() -> LayoutSettings {
    LayoutSettings {
        cell_size: 20,
        decomposition: DecompositionMode::Off,
        decomposition_threshold: 50,
        crossing_style: CrossingStyle::Straight,
        show_grid: true,
        show_edge_labels: false,
        port_assignment: PortAssignmentStrategy::TrellisBasic,
        port_refinement_rounds: 0,
        flow_bias: FlowBias::Uniform,
        print_metrics: false,
        bend_threshold: BendThreshold::Auto,
        crossing_reroute: true,
        theme: ThemeName::Default,
        show_title: true,
    }
}

/// The settings of the benchmark configuration.
pub open spec fn benchmark_settings() -> LayoutSettings {
    LayoutSettings {
        cell_size: 10,
        decomposition: DecompositionMode::Off,
        decomposition_threshold: 50,
        crossing_style: CrossingStyle::Arc,
        show_grid: false,
        show_edge_labels: true,
        port_assignment: PortAssignmentStrategy::Default,
        port_refinement_rounds: 0,
        flow_bias: FlowBias::Auto,
        print_metrics: false,
        bend_threshold: BendThreshold::Auto,
        crossing_reroute: true,
        theme: ThemeName::Default,
        show_title: true,
    }
}

impl Default for LayoutSettings {
    fn default() -> (r: Self)
        ensures
            r == basic_settings(),
    {
        LayoutSettings {
            cell_size: default_cell_size(),
            decomposition: DecompositionMode::Off,
            decomposition_threshold: default_decomposition_threshold(),
            crossing_style: default_crossing_style(),
            show_grid: default_show_grid(),
            show_edge_labels: default_show_edge_labels(),
            port_assignment: default_port_assignment(),
            port_refinement_rounds: default_port_refinement_rounds(),
            flow_bias: FlowBias::Uniform,
            print_metrics: false,
            bend_threshold: BendThreshold::Auto,
            crossing_reroute: true,
            theme: ThemeName::Default,
            show_title: true,
        }
    }
}

/// The settings of a preset configuration.
pub fn configuration_factory(config_type: ConfigurationType) -> (r: LayoutSettings)
    ensures
        config_type == ConfigurationType::Basic ==> r == basic_settings(),
        config_type == ConfigurationType::Benchmark ==> r == benchmark_settings(),
{
    match config_type {
        ConfigurationType::Basic => LayoutSettings::default(),
        ConfigurationType::Benchmark => LayoutSettings {
            cell_size: 10,
            decomposition: DecompositionMode::Off,
            decomposition_threshold: 50,
            crossing_style: CrossingStyle::Arc,
            show_grid: false,
            show_edge_labels: true,
            port_assignment: PortAssignmentStrategy::Default,
            port_refinement_rounds: 0,
            flow_bias: FlowBias::Auto,
            print_metrics: false,
            bend_threshold: BendThreshold::Auto,
            crossing_reroute: true,
            theme: ThemeName::Default,
            show_title: true,
        },
    }
}

} // verus!
