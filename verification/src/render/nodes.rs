//! Flowchart node text.
use vstd::prelude::*;

use crate::render::text::{escape_xml_text, xml_escaped, XmlEscape};

verus! {

/// Escape `&`, `<`, `>`, `"` and `'` in a node label.
pub fn escape_xml(text: &str) -> (r: String)
    ensures
        r@ == xml_escaped(text@, XmlEscape::Full),
{
    escape_xml_text(text, XmlEscape::Full)
}

} // verus!
