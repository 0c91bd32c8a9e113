//! C4 element boxes: type captions, edge markers and text escaping.
use vstd::prelude::*;

use crate::model::C4NodeType;
use crate::render::text::{escape_xml_text, xml_escaped, XmlEscape};

verus! {

/// Marker definition of C4 relations.
pub const C4_MARKER_DEFS: &'static str = "<defs>\
    <marker id=\"c4-arrow\" viewBox=\"0 0 10 10\" refX=\"9\" refY=\"5\" \
    markerWidth=\"5\" markerHeight=\"5\" orient=\"auto-start-reverse\">\
    <path d=\"M 0 2 L 9 5 L 0 8\" fill=\"none\" stroke=\"#555\" stroke-width=\"1.5\"/>\
    </marker>\
    </defs>";

/// SVG `<defs>` block with the arrow marker of C4 relations.
pub fn c4_marker_defs() -> (r: &'static str)
    ensures
        r@ == C4_MARKER_DEFS@,
{
    C4_MARKER_DEFS
}

/// The `(marker-start, marker-end)` attributes of a C4 relation: an arrow
/// at the target, and one at the source too for a bidirectional relation.
pub fn c4_edge_markers(bidirectional: bool) -> (r: (String, String))
    ensures
        r.1@ == " marker-end=\"url(#c4-arrow)\""@,
        bidirectional ==> r.0@ == " marker-start=\"url(#c4-arrow)\""@,
        !bidirectional ==> r.0@ == ""@,
{
    proof {
        reveal_strlit("");
    }
    let end = String::from_str(" marker-end=\"url(#c4-arrow)\"");
    if bidirectional {
        let start = String::from_str(" marker-start=\"url(#c4-arrow)\"");
        (start, end)
    } else {
        (String::new(), end)
    }
}

/// The bracketed type caption of a C4 element.
pub fn c4_type_label(t: C4NodeType) -> (r: &'static str)
    ensures
        t == C4NodeType::Person ==> r@ == "[Person]"@,
        t == C4NodeType::PersonExt ==> r@ == "[Person, External]"@,
        t == C4NodeType::System || t == C4NodeType::SystemExt ==> r@ == "[Software System]"@,
        t == C4NodeType::SystemDb || t == C4NodeType::SystemDbExt ==> r@ == "[Software System, DB]"@,
        t == C4NodeType::SystemQueue || t == C4NodeType::SystemQueueExt ==> r@
            == "[Software System, Queue]"@,
        t == C4NodeType::Container || t == C4NodeType::ContainerExt ==> r@ == "[Container]"@,
        t == C4NodeType::ContainerDb || t == C4NodeType::ContainerDbExt ==> r@ == "[Container, DB]"@,
        t == C4NodeType::ContainerQueue || t == C4NodeType::ContainerQueueExt ==> r@
            == "[Container, Queue]"@,
        t == C4NodeType::Component || t == C4NodeType::ComponentExt ==> r@ == "[Component]"@,
        t == C4NodeType::ComponentDb || t == C4NodeType::ComponentDbExt ==> r@ == "[Component, DB]"@,
        t == C4NodeType::ComponentQueue || t == C4NodeType::ComponentQueueExt ==> r@
            == "[Component, Queue]"@,
        t == C4NodeType::EnterpriseBoundary ==> r@ == "[Enterprise Boundary]"@,
        t == C4NodeType::SystemBoundary ==> r@ == "[System Boundary]"@,
        t == C4NodeType::ContainerBoundary ==> r@ == "[Container Boundary]"@,
        t == C4NodeType::DeploymentNode ==> r@ == "[Deployment Node]"@,
{
    match t {
        C4NodeType::Person => "[Person]",
        C4NodeType::PersonExt => "[Person, External]",
        C4NodeType::System | C4NodeType::SystemExt => "[Software System]",
        C4NodeType::SystemDb | C4NodeType::SystemDbExt => "[Software System, DB]",
        C4NodeType::SystemQueue | C4NodeType::SystemQueueExt => "[Software System, Queue]",
        C4NodeType::Container | C4NodeType::ContainerExt => "[Container]",
        C4NodeType::ContainerDb | C4NodeType::ContainerDbExt => "[Container, DB]",
        C4NodeType::ContainerQueue | C4NodeType::ContainerQueueExt => "[Container, Queue]",
        C4NodeType::Component | C4NodeType::ComponentExt => "[Component]",
        C4NodeType::ComponentDb | C4NodeType::ComponentDbExt => "[Component, DB]",
        C4NodeType::ComponentQueue | C4NodeType::ComponentQueueExt => "[Component, Queue]",
        C4NodeType::EnterpriseBoundary => "[Enterprise Boundary]",
        C4NodeType::SystemBoundary => "[System Boundary]",
        C4NodeType::ContainerBoundary => "[Container Boundary]",
        C4NodeType::DeploymentNode => "[Deployment Node]",
    }
}

/// Escape `&`, `<`, `>` and `"` in element text.
pub fn escape_xml(s: &str) -> (r: String)
    ensures
        r@ == xml_escaped(s@, XmlEscape::Quotes),
{
    escape_xml_text(s, XmlEscape::Quotes)
}

} // verus!
