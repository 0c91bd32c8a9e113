use trellis_core::config::PortAssignmentStrategy;
use trellis_core::model::DiagramType;
use trellis_core::pipeline::{format_output, use_refinement, OutputFormat, PngError};
use trellis_core::placement::sugiyama::EdgeEnds;
use trellis_core::ports::auto::StrategyInputs;

#[test]
fn svg_output_is_the_svg_itself() {
    let svg = b"<svg/>".to_vec();
    assert_eq!(format_output(svg.clone(), OutputFormat::Svg, None).unwrap(), svg);
}

#[test]
fn png_output_without_converter_is_refused() {
    let err = format_output(b"<svg/>".to_vec(), OutputFormat::Png, None).unwrap_err();
    assert_eq!(err.message, "PNG output is not supported in this build (compile with feature 'png')");
}

#[test]
fn png_output_carries_the_conversion() {
    let png = vec![0x89, b'P', b'N', b'G'];
    assert_eq!(format_output(b"<svg/>".to_vec(), OutputFormat::Png, Some(Ok(png.clone()))).unwrap(), png);
    let failed = Some(Err(PngError { message: "bad svg".to_string() }));
    let err = format_output(b"<svg/>".to_vec(), OutputFormat::Png, failed).unwrap_err();
    assert_eq!(err.message, "PNG conversion failed: bad svg");
}

fn complex_small() -> StrategyInputs {
    StrategyInputs {
        node_count: 20,
        edge_count: 12,
        max_degree: 6,
        hub_count: 3,
        max_edges_per_side: 5,
        overflow_count: 0,
        multi_edge_count: 0,
        dense_or_skewed: false,
    }
}

fn moderate() -> StrategyInputs {
    StrategyInputs { max_degree: 3, hub_count: 0, max_edges_per_side: 2, ..complex_small() }
}

#[test]
fn refinement_runs_for_multi_round_strategies_with_rounds() {
    let es: Vec<EdgeEnds> = Vec::new();
    let s = moderate();
    assert!(use_refinement(PortAssignmentStrategy::TwoPhase, 3, &s, DiagramType::Flowchart, &es));
    assert!(use_refinement(PortAssignmentStrategy::IterativeSwap, 1, &s, DiagramType::Flowchart, &es));
    assert!(!use_refinement(PortAssignmentStrategy::TwoPhase, 0, &s, DiagramType::Flowchart, &es));
    assert!(!use_refinement(PortAssignmentStrategy::TrellisBasic, 3, &s, DiagramType::Flowchart, &es));
}

#[test]
fn auto_refines_only_where_it_picks_two_phase() {
    let es: Vec<EdgeEnds> = Vec::new();
    assert!(use_refinement(PortAssignmentStrategy::Auto, 2, &complex_small(), DiagramType::Flowchart, &es));
    assert!(!use_refinement(PortAssignmentStrategy::Auto, 0, &complex_small(), DiagramType::Flowchart, &es));
    assert!(!use_refinement(PortAssignmentStrategy::Auto, 2, &moderate(), DiagramType::Flowchart, &es));
}
