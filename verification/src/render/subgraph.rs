//! Subgraph frames: depth colours and label escaping.
use vstd::prelude::*;

use crate::render::text::{escape_xml_text, xml_escaped, XmlEscape};

verus! {

/// Background colour of a frame nested `depth` levels deep (deeper levels
/// share the darkest colour).
pub fn get_bg_color(depth: usize) -> (r: &'static str)
    ensures
        depth == 0 ==> r@ == "#f0f4f8"@,
        depth == 1 ==> r@ == "#e2e8f0"@,
        depth == 2 ==> r@ == "#cbd5e1"@,
        depth >= 3 ==> r@ == "#94a3b8"@,
{
    if depth == 0 {
        "#f0f4f8"
    } else if depth == 1 {
        "#e2e8f0"
    } else if depth == 2 {
        "#cbd5e1"
    } else {
        "#94a3b8"
    }
}

/// Stroke colour of a frame nested `depth` levels deep.
pub fn get_stroke_color(depth: usize) -> (r: &'static str)
    ensures
        depth == 0 ==> r@ == "#b0bec5"@,
        depth == 1 ==> r@ == "#90a4ae"@,
        depth == 2 ==> r@ == "#78909c"@,
        depth >= 3 ==> r@ == "#607d8b"@,
{
    if depth == 0 {
        "#b0bec5"
    } else if depth == 1 {
        "#90a4ae"
    } else if depth == 2 {
        "#78909c"
    } else {
        "#607d8b"
    }
}

/// Label colour of a frame nested `depth` levels deep.
pub fn get_label_color(depth: usize) -> (r: &'static str)
    ensures
        depth == 0 ==> r@ == "#546e7a"@,
        depth == 1 ==> r@ == "#455a64"@,
        depth == 2 ==> r@ == "#37474f"@,
        depth >= 3 ==> r@ == "#263238"@,
{
    if depth == 0 {
        "#546e7a"
    } else if depth == 1 {
        "#455a64"
    } else if depth == 2 {
        "#37474f"
    } else {
        "#263238"
    }
}

/// Escape `&`, `<`, `>`, `"` and `'` in a frame label.
pub fn escape_xml(text: &str) -> (r: String)
    ensures
        r@ == xml_escaped(text@, XmlEscape::Full),
{
    escape_xml_text(text, XmlEscape::Full)
}

} // verus!
