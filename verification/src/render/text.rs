//! XML escaping of text that goes into SVG.
use vstd::prelude::*;

verus! {

/// Which characters an escape replaces by entities.
#[derive(Debug, Clone, Copy, PartialEq, Eq, Structural)]
pub enum XmlEscape {
    /// `&`, `<` and `>`.
    Markup,
    /// `&`, `<`, `>` and `"`.
    Quotes,
    /// `&`, `<`, `>`, `"` and `'`.
    Full,
}

/// What one character becomes.
pub open spec fn xml_entity(c: char, level: XmlEscape) -> Seq<char> {
    if c == '&' {
        "&amp;"@
    } else if c == '<' {
        "&lt;"@
    } else if c == '>' {
        "&gt;"@
    } else if c == '"' && level != XmlEscape::Markup {
        "&quot;"@
    } else if c == '\'' && level == XmlEscape::Full {
        "&apos;"@
    } else {
        seq![c]
    }
}

/// The text with each character replaced by what it becomes.
pub open spec fn xml_escaped(s: Seq<char>, level: XmlEscape) -> Seq<char>
    decreases s.len(),
{
    if s.len() == 0 {
        seq![]
    } else {
        xml_escaped(s.drop_last(), level) + xml_entity(s.last(), level)
    }
}

/// Replace the XML special characters of `level` by their entities, in one
/// pass; no entity holds a character that a later replacement would touch,
/// so this is the same as replacing them one kind after another.
pub fn escape_xml_text(s: &str, level: XmlEscape) -> (r: String)
    ensures
        r@ == xml_escaped(s@, level),
{
    let n = s.unicode_len();
    let mut out = String::new();
    let mut i: usize = 0;
    proof {
        assert(s@.subrange(0, 0) =~= Seq::<char>::empty());
    }
    while i < n
        invariant
            i <= n,
            n == s@.len(),
            out@ == xml_escaped(s@.subrange(0, i as int), level),
        decreases n - i,
    {
        let c = s.get_char(i);
        let ghost prefix = s@.subrange(0, i + 1);
        proof {
            assert(prefix.drop_last() =~= s@.subrange(0, i as int));
            assert(prefix.last() == c);
        }
        if c == '&' {
            out.append("&amp;");
        } else if c == '<' {
            out.append("&lt;");
        } else if c == '>' {
            out.append("&gt;");
        } else if c == '"' && level != XmlEscape::Markup {
            out.append("&quot;");
        } else if c == '\'' && level == XmlEscape::Full {
            out.append("&apos;");
        } else {
            let one = s.substring_char(i, i + 1);
            proof {
                assert(one@ =~= seq![c]);
            }
            out.append(one);
        }
        i = i + 1;
    }
    proof {
        assert(s@.subrange(0, n as int) =~= s@);
    }
    out
}

} // verus!
