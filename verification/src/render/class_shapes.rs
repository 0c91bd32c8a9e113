//! Class boxes of class diagrams: member visibility, edge markers and text escaping.
use vstd::prelude::*;

use crate::model::{ClassEdgeType, ClassVisibility};
use crate::render::text::{escape_xml_text, xml_escaped, XmlEscape};

verus! {

/// Identifier of the inheritance marker.
pub const INHERIT_ID: &'static str = "inherit-arrow";
/// Identifier of the realization marker.
pub const REALIZE_ID: &'static str = "realize-arrow";
/// Identifier of the composition marker.
pub const COMPOSITION_ID: &'static str = "composition-diamond";
/// Identifier of the aggregation marker.
pub const AGGREGATION_ID: &'static str = "aggregation-diamond";
/// Identifier of the association marker.
pub const ASSOC_ID: &'static str = "assoc-arrow";
/// Identifier of the dependency marker.
pub const DEPEND_ID: &'static str = "depend-arrow";

/// Part of the class-diagram marker definitions.
pub const INHERIT_NOTE: &'static str = "<!-- Inheritance: hollow triangle (open arrowhead at target) -->";
/// Part of the class-diagram marker definitions.
pub const REALIZE_NOTE: &'static str =
    "<!-- Realization: hollow triangle (same as inheritance but used with dotted line) -->";
/// Part of the class-diagram marker definitions.
pub const COMPOSITION_NOTE: &'static str = "<!-- Composition: filled diamond at source -->";
/// Part of the class-diagram marker definitions.
pub const AGGREGATION_NOTE: &'static str = "<!-- Aggregation: hollow diamond at source -->";
/// Part of the class-diagram marker definitions.
pub const ASSOC_NOTE: &'static str = "<!-- Association: open arrowhead -->";
/// Part of the class-diagram marker definitions.
pub const DEPEND_NOTE: &'static str =
    "<!-- Dependency: open arrowhead (same as association but line is dashed) -->";

/// Part of the class-diagram marker definitions.
pub const TRIANGLE_BODY: &'static str = " viewBox=\"0 0 12 12\" refX=\"12\" refY=\"6\" \
    markerWidth=\"6\" markerHeight=\"6\" orient=\"auto-start-reverse\">\
    <path d=\"M 0 0 L 12 6 L 0 12 Z\" fill=\"white\" stroke=\"#555\" stroke-width=\"1.5\"/>\
    </marker>";
/// Part of the class-diagram marker definitions.
pub const FILLED_DIAMOND_BODY: &'static str = " viewBox=\"0 0 20 10\" refX=\"0\" refY=\"5\" \
    markerWidth=\"8\" markerHeight=\"6\" orient=\"auto\">\
    <path d=\"M 0 5 L 8 0 L 16 5 L 8 10 Z\" fill=\"#555\" stroke=\"#555\" stroke-width=\"1\"/>\
    </marker>";
/// Part of the class-diagram marker definitions.
pub const HOLLOW_DIAMOND_BODY: &'static str = " viewBox=\"0 0 20 10\" refX=\"0\" refY=\"5\" \
    markerWidth=\"8\" markerHeight=\"6\" orient=\"auto\">\
    <path d=\"M 0 5 L 8 0 L 16 5 L 8 10 Z\" fill=\"white\" stroke=\"#555\" stroke-width=\"1.5\"/>\
    </marker>";
/// Part of the class-diagram marker definitions.
pub const OPEN_ARROW_BODY: &'static str = " viewBox=\"0 0 10 10\" refX=\"10\" refY=\"5\" \
    markerWidth=\"5\" markerHeight=\"5\" orient=\"auto-start-reverse\">\
    <path d=\"M 0 0 L 10 5 L 0 10\" fill=\"none\" stroke=\"#555\" stroke-width=\"1.5\"/>\
    </marker>";

/// The opening of the marker element with identifier `id`, up to and
/// including the closing quote of the identifier.
pub open spec fn marker_open(id: Seq<char>) -> Seq<char> {
    "<marker id=\""@ + id + "\""@
}

/// One marker definition: a comment, the opening with the identifier, and
/// the rest of the element.
pub open spec fn marker_def(note: Seq<char>, id: Seq<char>, body: Seq<char>) -> Seq<char> {
    note + marker_open(id) + body
}

/// The `<defs>` block with the six class-diagram markers.
pub open spec fn class_marker_defs_text() -> Seq<char> {
    "<defs>"@ + marker_def(INHERIT_NOTE@, INHERIT_ID@, TRIANGLE_BODY@) + marker_def(
        REALIZE_NOTE@,
        REALIZE_ID@,
        TRIANGLE_BODY@,
    ) + marker_def(COMPOSITION_NOTE@, COMPOSITION_ID@, FILLED_DIAMOND_BODY@) + marker_def(
        AGGREGATION_NOTE@,
        AGGREGATION_ID@,
        HOLLOW_DIAMOND_BODY@,
    ) + marker_def(ASSOC_NOTE@, ASSOC_ID@, OPEN_ARROW_BODY@) + marker_def(
        DEPEND_NOTE@,
        DEPEND_ID@,
        OPEN_ARROW_BODY@,
    ) + "</defs>"@
}

/// `t` occurs in `s` as a contiguous piece.
pub open spec fn contains_text(s: Seq<char>, t: Seq<char>) -> bool {
    exists|i: int| 0 <= i && i + t.len() <= s.len() && #[trigger] s.subrange(i, i + t.len()) == t
}

/// The marker a class edge refers to, if any.
pub open spec fn class_edge_marker_id(class_edge_type: Option<ClassEdgeType>) -> Option<Seq<char>> {
    match class_edge_type {
        Some(ClassEdgeType::Inheritance) => Some(INHERIT_ID@),
        Some(ClassEdgeType::Realization) => Some(REALIZE_ID@),
        Some(ClassEdgeType::Composition) => Some(COMPOSITION_ID@),
        Some(ClassEdgeType::Aggregation) => Some(AGGREGATION_ID@),
        Some(ClassEdgeType::Association) => Some(ASSOC_ID@),
        Some(ClassEdgeType::Dependency) => Some(DEPEND_ID@),
        _ => None,
    }
}

/// The diamonds sit at the source of the edge; the other markers at its target.
pub open spec fn marker_at_start(class_edge_type: Option<ClassEdgeType>) -> bool {
    class_edge_type == Some(ClassEdgeType::Composition) || class_edge_type == Some(
        ClassEdgeType::Aggregation,
    )
}

/// The attribute that attaches marker `id`: ` marker-start="url(#id)"` or
/// ` marker-end="url(#id)"`.
pub open spec fn marker_attr(at_start: bool, id: Seq<char>) -> Seq<char> {
    (if at_start {
        " marker-start"@
    } else {
        " marker-end"@
    }) + "=\"url(#"@ + id + ")\""@
}

/// The `(marker-start, marker-end)` attributes of a class edge.
pub open spec fn class_marker_attrs(class_edge_type: Option<ClassEdgeType>) -> (Seq<char>, Seq<char>) {
    match class_edge_marker_id(class_edge_type) {
        Some(id) => if marker_at_start(class_edge_type) {
            (marker_attr(true, id), Seq::empty())
        } else {
            (Seq::empty(), marker_attr(false, id))
        },
        None => (Seq::empty(), Seq::empty()),
    }
}

proof fn lemma_contains_middle(a: Seq<char>, p: Seq<char>, b: Seq<char>)
    ensures
        contains_text(a + p + b, p),
{
    let s = a + p + b;
    assert(s.subrange(a.len() as int, (a.len() + p.len()) as int) =~= p);
}

proof fn lemma_contains_extend(x: Seq<char>, y: Seq<char>, p: Seq<char>)
    requires
        contains_text(y, p),
    ensures
        contains_text(x + y, p),
        contains_text(y + x, p),
{
    let i = choose|i: int| 0 <= i && i + p.len() <= y.len() && #[trigger] y.subrange(i, i + p.len()) == p;
    assert((x + y).subrange(x.len() + i, x.len() + i + p.len()) =~= p);
    assert((y + x).subrange(i, i + p.len()) =~= p);
}

/// Law: every marker a class edge refers to is defined in the `<defs>` block
/// of `class_marker_defs`, which opens with `<defs>` and closes with `</defs>`.
pub proof fn lemma_class_markers_defined(class_edge_type: Option<ClassEdgeType>)
    ensures
        "<defs>"@.is_prefix_of(class_marker_defs_text()),
        "</defs>"@.is_suffix_of(class_marker_defs_text()),
        class_edge_marker_id(class_edge_type) matches Some(id) ==> contains_text(
            class_marker_defs_text(),
            marker_open(id),
        ),
{
    let open = "<defs>"@;
    let close = "</defs>"@;
    let m1 = marker_def(INHERIT_NOTE@, INHERIT_ID@, TRIANGLE_BODY@);
    let m2 = marker_def(REALIZE_NOTE@, REALIZE_ID@, TRIANGLE_BODY@);
    let m3 = marker_def(COMPOSITION_NOTE@, COMPOSITION_ID@, FILLED_DIAMOND_BODY@);
    let m4 = marker_def(AGGREGATION_NOTE@, AGGREGATION_ID@, HOLLOW_DIAMOND_BODY@);
    let m5 = marker_def(ASSOC_NOTE@, ASSOC_ID@, OPEN_ARROW_BODY@);
    let m6 = marker_def(DEPEND_NOTE@, DEPEND_ID@, OPEN_ARROW_BODY@);
    let p1 = open + m1;
    let p2 = p1 + m2;
    let p3 = p2 + m3;
    let p4 = p3 + m4;
    let p5 = p4 + m5;
    let p6 = p5 + m6;
    let d = p6 + close;
    assert(d == class_marker_defs_text());
    assert(d.subrange(0, open.len() as int) =~= open) by {
        assert(p6.subrange(0, open.len() as int) =~= open) by {
            assert(p5.subrange(0, open.len() as int) =~= open) by {
                assert(p4.subrange(0, open.len() as int) =~= open) by {
                    assert(p3.subrange(0, open.len() as int) =~= open) by {
                        assert(p2.subrange(0, open.len() as int) =~= open) by {
                            assert(p1.subrange(0, open.len() as int) =~= open);
                        }
                    }
                }
            }
        }
    }
    assert(d.subrange(d.len() - close.len(), d.len() as int) =~= close);
    if let Some(id) = class_edge_marker_id(class_edge_type) {
        let mo = marker_open(id);
        if id == INHERIT_ID@ {
            lemma_contains_middle(INHERIT_NOTE@, mo, TRIANGLE_BODY@);
            lemma_contains_extend(open, m1, mo);
            lemma_contains_extend(m2, p1, mo);
            lemma_contains_extend(m3, p2, mo);
            lemma_contains_extend(m4, p3, mo);
            lemma_contains_extend(m5, p4, mo);
            lemma_contains_extend(m6, p5, mo);
        } else if id == REALIZE_ID@ {
            lemma_contains_middle(REALIZE_NOTE@, mo, TRIANGLE_BODY@);
            lemma_contains_extend(p1, m2, mo);
            lemma_contains_extend(m3, p2, mo);
            lemma_contains_extend(m4, p3, mo);
            lemma_contains_extend(m5, p4, mo);
            lemma_contains_extend(m6, p5, mo);
        } else if id == COMPOSITION_ID@ {
            lemma_contains_middle(COMPOSITION_NOTE@, mo, FILLED_DIAMOND_BODY@);
            lemma_contains_extend(p2, m3, mo);
            lemma_contains_extend(m4, p3, mo);
            lemma_contains_extend(m5, p4, mo);
            lemma_contains_extend(m6, p5, mo);
        } else if id == AGGREGATION_ID@ {
            lemma_contains_middle(AGGREGATION_NOTE@, mo, HOLLOW_DIAMOND_BODY@);
            lemma_contains_extend(p3, m4, mo);
            lemma_contains_extend(m5, p4, mo);
            lemma_contains_extend(m6, p5, mo);
        } else if id == ASSOC_ID@ {
            lemma_contains_middle(ASSOC_NOTE@, mo, OPEN_ARROW_BODY@);
            lemma_contains_extend(p4, m5, mo);
            lemma_contains_extend(m6, p5, mo);
        } else {
            lemma_contains_middle(DEPEND_NOTE@, mo, OPEN_ARROW_BODY@);
            lemma_contains_extend(p5, m6, mo);
        }
        lemma_contains_extend(close, p6, mo);
    }
}

fn append_marker(out: &mut String, note: &str, id: &str, body: &str)
    ensures
        final(out)@ == old(out)@ + marker_def(note@, id@, body@),
{
    out.append(note);
    out.append("<marker id=\"");
    out.append(id);
    out.append("\"");
    out.append(body);
    proof {
        assert(final(out)@ =~= old(out)@ + marker_def(note@, id@, body@));
    }
}

fn marker_attribute(at_start: bool, id: &str) -> (r: String)
    ensures
        r@ == marker_attr(at_start, id@),
{
    let mut s = if at_start {
        String::from_str(" marker-start")
    } else {
        String::from_str(" marker-end")
    };
    s.append("=\"url(#");
    s.append(id);
    s.append(")\"");
    proof {
        assert(s@ =~= marker_attr(at_start, id@));
    }
    s
}

/// The UML sign of a member visibility.
pub fn visibility_char(vis: ClassVisibility) -> (r: &'static str)
    ensures
        vis == ClassVisibility::Public ==> r@ == "+"@,
        vis == ClassVisibility::Private ==> r@ == "-"@,
        vis == ClassVisibility::Protected ==> r@ == "#"@,
        vis == ClassVisibility::Package ==> r@ == "~"@,
{
    match vis {
        ClassVisibility::Public => "+",
        ClassVisibility::Private => "-",
        ClassVisibility::Protected => "#",
        ClassVisibility::Package => "~",
    }
}

/// Escape `&`, `<`, `>` and `"` in class text.
pub fn escape_xml(s: &str) -> (r: String)
    ensures
        r@ == xml_escaped(s@, XmlEscape::Quotes),
{
    escape_xml_text(s, XmlEscape::Quotes)
}

/// SVG `<defs>` block with the markers of every class-diagram edge type.
pub fn class_marker_defs() -> (r: String)
    ensures
        r@ == class_marker_defs_text(),
{
    let mut out = String::from_str("<defs>");
    append_marker(&mut out, INHERIT_NOTE, INHERIT_ID, TRIANGLE_BODY);
    append_marker(&mut out, REALIZE_NOTE, REALIZE_ID, TRIANGLE_BODY);
    append_marker(&mut out, COMPOSITION_NOTE, COMPOSITION_ID, FILLED_DIAMOND_BODY);
    append_marker(&mut out, AGGREGATION_NOTE, AGGREGATION_ID, HOLLOW_DIAMOND_BODY);
    append_marker(&mut out, ASSOC_NOTE, ASSOC_ID, OPEN_ARROW_BODY);
    append_marker(&mut out, DEPEND_NOTE, DEPEND_ID, OPEN_ARROW_BODY);
    out.append("</defs>");
    out
}

/// The `(marker-start, marker-end)` attributes of a class edge: hollow
/// triangles and open arrows at the target, diamonds at the source, nothing
/// for a plain link or an edge of no type.
pub fn class_edge_markers(class_edge_type: Option<ClassEdgeType>) -> (r: (String, String))
    ensures
        (r.0@, r.1@) == class_marker_attrs(class_edge_type),
{
    let (at_start, id): (bool, &str) = match class_edge_type {
        Some(ClassEdgeType::Inheritance) => (false, INHERIT_ID),
        Some(ClassEdgeType::Realization) => (false, REALIZE_ID),
        Some(ClassEdgeType::Composition) => (true, COMPOSITION_ID),
        Some(ClassEdgeType::Aggregation) => (true, AGGREGATION_ID),
        Some(ClassEdgeType::Association) => (false, ASSOC_ID),
        Some(ClassEdgeType::Dependency) => (false, DEPEND_ID),
        _ => {
            return (String::new(), String::new());
        },
    };
    let attr = marker_attribute(at_start, id);
    if at_start {
        (attr, String::new())
    } else {
        (String::new(), attr)
    }
}

} // verus!
