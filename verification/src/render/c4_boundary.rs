//! C4 boundary frames: type labels and label escaping.
use vstd::prelude::*;

use crate::model::C4NodeType;
use crate::render::text::{escape_xml_text, xml_escaped, XmlEscape};

verus! {

/// The bracketed type caption of a boundary frame.
pub fn boundary_type_label(c4_type: Option<C4NodeType>) -> (r: &'static str)
    ensures
        c4_type == Some(C4NodeType::EnterpriseBoundary) ==> r@ == "[Enterprise Boundary]"@,
        c4_type == Some(C4NodeType::SystemBoundary) ==> r@ == "[System Boundary]"@,
        c4_type == Some(C4NodeType::ContainerBoundary) ==> r@ == "[Container Boundary]"@,
        c4_type == Some(C4NodeType::DeploymentNode) ==> r@ == "[Deployment Node]"@,
        !(c4_type == Some(C4NodeType::EnterpriseBoundary) || c4_type == Some(C4NodeType::SystemBoundary)
            || c4_type == Some(C4NodeType::ContainerBoundary) || c4_type == Some(
            C4NodeType::DeploymentNode,
        )) ==> r@ == "[Boundary]"@,
{
    match c4_type {
        Some(C4NodeType::EnterpriseBoundary) => "[Enterprise Boundary]",
        Some(C4NodeType::SystemBoundary) => "[System Boundary]",
        Some(C4NodeType::ContainerBoundary) => "[Container Boundary]",
        Some(C4NodeType::DeploymentNode) => "[Deployment Node]",
        _ => "[Boundary]",
    }
}

/// Escape `&`, `<` and `>` in a boundary label.
pub fn escape_xml(s: &str) -> (r: String)
    ensures
        r@ == xml_escaped(s@, XmlEscape::Markup),
{
    escape_xml_text(s, XmlEscape::Markup)
}

} // verus!
