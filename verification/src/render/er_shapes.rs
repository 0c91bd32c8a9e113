//! Entity boxes of ER diagrams: key prefixes and text escaping.
use vstd::prelude::*;

use crate::model::KeyType;
use crate::render::text::{escape_xml_text, xml_escaped, XmlEscape};

verus! {

/// The prefix of an attribute row: `PK ` over `FK ` over `UK `, else nothing.
pub fn key_prefix(keys: &Vec<KeyType>) -> (r: &'static str)
    ensures
        keys@.contains(KeyType::PK) ==> r@ == "PK "@,
        !keys@.contains(KeyType::PK) && keys@.contains(KeyType::FK) ==> r@ == "FK "@,
        !keys@.contains(KeyType::PK) && !keys@.contains(KeyType::FK) && keys@.contains(KeyType::UK)
            ==> r@ == "UK "@,
        !keys@.contains(KeyType::PK) && !keys@.contains(KeyType::FK) && !keys@.contains(KeyType::UK)
            ==> r@ == ""@,
{
    if contains_key(keys, KeyType::PK) {
        "PK "
    } else if contains_key(keys, KeyType::FK) {
        "FK "
    } else if contains_key(keys, KeyType::UK) {
        "UK "
    } else {
        ""
    }
}

fn contains_key(keys: &Vec<KeyType>, k: KeyType) -> (r: bool)
    ensures
        r == keys@.contains(k),
{
    let mut i: usize = 0;
    while i < keys.len()
        invariant
            i <= keys@.len(),
            forall|j: int| 0 <= j < i ==> keys@[j] != k,
        decreases keys@.len() - i,
    {
        if keys[i] == k {
            return true;
        }
        i = i + 1;
    }
    false
}

/// Escape `&`, `<`, `>` and `"` in entity text.
pub fn escape_xml(s: &str) -> (r: String)
    ensures
        r@ == xml_escaped(s@, XmlEscape::Quotes),
{
    escape_xml_text(s, XmlEscape::Quotes)
}

} // verus!
