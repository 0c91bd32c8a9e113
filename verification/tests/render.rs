use trellis_core::model::{ArrowHead, C4NodeType, ClassEdgeType, ClassVisibility, EdgeStyle, KeyType};
use trellis_core::pipeline::{PngError, RenderError};
use trellis_core::render::c4_boundary::boundary_type_label;
use trellis_core::render::c4_shapes::{c4_edge_markers, c4_type_label};
use trellis_core::render::class_shapes::{class_edge_markers, class_marker_defs, visibility_char};
use trellis_core::render::edges::{
    arrow_marker_defs, direction_sign, marker_attr, simplify_path, stroke_attrs, Point,
};
use trellis_core::render::er_shapes::key_prefix;
use trellis_core::render::subgraph::{get_label_color, get_stroke_color};
use trellis_core::render::text::{escape_xml_text, XmlEscape};
use trellis_core::render::wrap::{wrap_text, wrap_text_truncated};

#[test]
fn test_c4_edge_markers_birel() {
    let (start, end) = c4_edge_markers(true);
    assert!(start.contains("marker-start"));
    assert!(end.contains("marker-end"));
}

#[test]
fn test_c4_edge_markers_unidirectional() {
    let (start, end) = c4_edge_markers(false);
    assert!(start.is_empty());
    assert!(end.contains("marker-end"));
}

#[test]
fn test_stroke_attrs() {
    assert!(!stroke_attrs(EdgeStyle::Solid).contains("dasharray"));
    assert!(stroke_attrs(EdgeStyle::Dotted).contains("dasharray"));
    assert!(stroke_attrs(EdgeStyle::Thick).contains("stroke-width=\"3\""));
}

#[test]
fn escape_levels_differ_on_quotes() {
    let s = "a\"b'c<d>&";
    assert_eq!(escape_xml_text(s, XmlEscape::Markup), "a\"b'c&lt;d&gt;&amp;");
    assert_eq!(escape_xml_text(s, XmlEscape::Quotes), "a&quot;b'c&lt;d&gt;&amp;");
    assert_eq!(escape_xml_text(s, XmlEscape::Full), "a&quot;b&apos;c&lt;d&gt;&amp;");
    assert_eq!(trellis_core::render::c4_boundary::escape_xml("\"&\""), "\"&amp;\"");
    assert_eq!(trellis_core::render::er_shapes::escape_xml("'\""), "'&quot;");
    assert_eq!(trellis_core::render::subgraph::escape_xml("'"), "&apos;");
}

#[test]
fn escape_keeps_non_ascii_text() {
    assert_eq!(escape_xml_text("Grüße & ☃", XmlEscape::Full), "Grüße &amp; ☃");
    assert_eq!(escape_xml_text("", XmlEscape::Full), "");
}

#[test]
fn escaping_an_entity_escapes_its_ampersand() {
    assert_eq!(escape_xml_text("&amp;", XmlEscape::Markup), "&amp;amp;");
}

#[test]
fn marker_defs_hold_their_markers() {
    for id in ["inherit-arrow", "realize-arrow", "composition-diamond", "aggregation-diamond", "assoc-arrow", "depend-arrow"] {
        assert!(class_marker_defs().contains(id), "missing {id}");
    }
    assert!(arrow_marker_defs().contains("id=\"arrowhead\""));
    assert!(arrow_marker_defs().starts_with("<defs>"));
    assert!(arrow_marker_defs().ends_with("</defs>"));
}

#[test]
fn class_edge_markers_by_type() {
    assert_eq!(class_edge_markers(Some(ClassEdgeType::Inheritance)), (String::new(), " marker-end=\"url(#inherit-arrow)\"".to_string()));
    assert_eq!(class_edge_markers(Some(ClassEdgeType::Composition)).0, " marker-start=\"url(#composition-diamond)\"");
    assert_eq!(class_edge_markers(Some(ClassEdgeType::Link)), (String::new(), String::new()));
    assert_eq!(class_edge_markers(None), (String::new(), String::new()));
}

#[test]
fn labels_and_prefixes() {
    assert_eq!(visibility_char(ClassVisibility::Protected), "#");
    assert_eq!(key_prefix(&vec![KeyType::UK, KeyType::FK]), "FK ");
    assert_eq!(key_prefix(&vec![KeyType::UK, KeyType::PK]), "PK ");
    assert_eq!(key_prefix(&vec![]), "");
    assert_eq!(c4_type_label(C4NodeType::ContainerDbExt), "[Container, DB]");
    assert_eq!(boundary_type_label(Some(C4NodeType::SystemBoundary)), "[System Boundary]");
    assert_eq!(boundary_type_label(Some(C4NodeType::Person)), "[Boundary]");
    assert_eq!(boundary_type_label(None), "[Boundary]");
    assert_eq!(marker_attr(ArrowHead::Arrow), " marker-end=\"url(#arrowhead)\"");
    assert_eq!(marker_attr(ArrowHead::Plain), "");
}

#[test]
fn frame_colours_clamp_at_depth_three() {
    assert_eq!(get_stroke_color(0), "#b0bec5");
    assert_eq!(get_stroke_color(7), "#607d8b");
    assert_eq!(get_label_color(2), "#37474f");
    assert_eq!(get_label_color(3), "#263238");
}

#[test]
fn errors_describe_themselves() {
    let e = RenderError { message: "bad graph".to_string() };
    assert_eq!(e.describe(), "Render error: bad graph");
    let p = PngError { message: "SVG has zero dimensions".to_string() };
    assert_eq!(p.describe(), "PNG conversion error: SVG has zero dimensions");
}

// ─── word wrapping ──────────────────────────────────────────────────────────

#[test]
fn wrap_fills_lines_greedily() {
    let lines = wrap_text("the quick brown fox jumps", 10);
    assert_eq!(lines, vec!["the quick".to_string(), "brown fox".to_string(), "jumps".to_string()]);
}

#[test]
fn wrap_collapses_whitespace_and_keeps_long_words() {
    let lines = wrap_text("  a\tverylongwordindeed \n b  ", 5);
    assert_eq!(lines, vec!["a".to_string(), "verylongwordindeed".to_string(), "b".to_string()]);
}

#[test]
fn wrap_counts_bytes() {
    // "é" takes two bytes: "é é" is 5 bytes
    assert_eq!(wrap_text("é é", 5), vec!["é é".to_string()]);
    assert_eq!(wrap_text("é é", 4), vec!["é".to_string(), "é".to_string()]);
}

#[test]
fn wrap_of_blank_text_is_one_empty_line() {
    assert_eq!(wrap_text("", 10), vec![String::new()]);
    assert_eq!(wrap_text("   ", 10), vec![String::new()]);
}

#[test]
fn truncated_wrap_ends_in_ellipsis() {
    let lines = wrap_text_truncated("a b c d e f g", 1);
    assert_eq!(
        lines,
        vec!["a".to_string(), "b".to_string(), "c".to_string(), "d".to_string(), "\u{2026}".to_string()]
    );
    let five = wrap_text_truncated("a b c d e", 1);
    assert_eq!(five.len(), 5);
    assert_eq!(five[4], "e");
}

// ─── path simplification ────────────────────────────────────────────────────

#[test]
fn test_simplify_collinear() {
    let points = vec![
        Point { x: 0, y: 0 },
        Point { x: 0, y: 10 },
        Point { x: 0, y: 20 },
        Point { x: 0, y: 30 },
    ];
    let simplified = simplify_path(&points);
    assert_eq!(simplified.len(), 2); // only start and end
}

#[test]
fn test_simplify_with_bend() {
    let points = vec![
        Point { x: 0, y: 0 },
        Point { x: 0, y: 10 },
        Point { x: 10, y: 10 },
        Point { x: 10, y: 20 },
    ];
    let simplified = simplify_path(&points);
    assert_eq!(simplified.len(), 4); // all points are significant
}

#[test]
fn test_simplify_preserves_bends() {
    // L-shape: down then right
    let points = vec![
        Point { x: 0, y: 0 },
        Point { x: 0, y: 5 },
        Point { x: 0, y: 10 }, // collinear, should be removed
        Point { x: 5, y: 10 }, // bend here, keep (0,10)
        Point { x: 10, y: 10 },
    ];
    let simplified = simplify_path(&points);
    // Start, bend at (0,10), end
    assert_eq!(simplified.len(), 3);
    assert_eq!(simplified[1], Point { x: 0, y: 10 });
}

#[test]
fn direction_is_the_sign_of_each_step() {
    assert_eq!(direction_sign(Point { x: 3, y: 3 }, Point { x: -7, y: 3 }), (-1, 0));
    assert_eq!(direction_sign(Point { x: 0, y: 0 }, Point { x: 2, y: 9 }), (1, 1));
    assert_eq!(
        direction_sign(Point { x: i64::MIN, y: i64::MAX }, Point { x: i64::MAX, y: i64::MIN }),
        (1, -1)
    );
}

#[test]
fn short_paths_are_kept_whole() {
    let one = vec![Point { x: 4, y: 4 }];
    assert_eq!(simplify_path(&one), one);
    assert!(simplify_path(&Vec::new()).is_empty());
}

#[test]
fn wrapping_splits_at_unicode_white_space_only() {
    assert_eq!(wrap_text("a\u{3000}b\u{85}c", 10), vec!["a b c".to_string()]);
    assert_eq!(wrap_text("a\u{200B}b", 10), vec!["a\u{200B}b".to_string()]);
}

#[test]
fn generic_families_take_the_first_installed_preference() {
    let installed: Vec<String> = vec!["Noto Sans".to_string(), "DejaVu Sans".to_string(), "Courier New".to_string()];
    let sans = trellis_core::render::fonts::sans_serif_families();
    assert_eq!(trellis_core::render::fonts::first_installed(&sans, &installed), Some(2));
    let serif = trellis_core::render::fonts::serif_families();
    assert_eq!(trellis_core::render::fonts::first_installed(&serif, &installed), None);
    let mono = trellis_core::render::fonts::monospace_families();
    assert_eq!(trellis_core::render::fonts::first_installed(&mono, &installed), Some(0));
    assert_eq!(trellis_core::render::fonts::first_installed(&Vec::new(), &installed), None);
}

#[test]
fn every_class_edge_marker_is_defined() {
    let defs = class_marker_defs();
    assert!(defs.starts_with("<defs>"));
    assert!(defs.ends_with("</defs>"));
    let types = [
        ClassEdgeType::Inheritance,
        ClassEdgeType::Realization,
        ClassEdgeType::Composition,
        ClassEdgeType::Aggregation,
        ClassEdgeType::Association,
        ClassEdgeType::Dependency,
        ClassEdgeType::Link,
    ];
    let mut referenced = 0;
    for t in types {
        let (start, end) = class_edge_markers(Some(t));
        for attr in [start, end] {
            if let Some(i) = attr.find("url(#") {
                let rest = &attr[i + 5..];
                let id = &rest[..rest.find(')').unwrap()];
                assert!(defs.contains(&format!("<marker id=\"{id}\"")), "marker {id} is not defined");
                referenced += 1;
            }
        }
    }
    assert_eq!(referenced, 6);
    // the whole block, as the markers are drawn
    assert!(defs.contains("<marker id=\"composition-diamond\" viewBox=\"0 0 20 10\" refX=\"0\" refY=\"5\" markerWidth=\"8\" markerHeight=\"6\" orient=\"auto\"><path d=\"M 0 5 L 8 0 L 16 5 L 8 10 Z\" fill=\"#555\" stroke=\"#555\" stroke-width=\"1\"/></marker>"));
    assert!(defs.starts_with("<defs><!-- Inheritance: hollow triangle (open arrowhead at target) --><marker id=\"inherit-arrow\" viewBox=\"0 0 12 12\" refX=\"12\" refY=\"6\" markerWidth=\"6\""));
}
