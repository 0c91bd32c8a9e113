//! The fonts that the generic families of the PNG rasteriser map to: the
//! first installed family of a preference list.
use vstd::prelude::*;

use super::wrap::texts;

verus! {

/// Index of the first among the first `k` preferences that is installed.
pub open spec fn first_installed_upto(prefs: Seq<Seq<char>>, installed: Seq<Seq<char>>, k: int) -> Option<int>
    decreases k,
{
    if k <= 0 {
        None
    } else {
        match first_installed_upto(prefs, installed, k - 1) {
            Some(i) => Some(i),
            None => if installed.contains(prefs[k - 1]) {
                Some(k - 1)
            } else {
                None
            },
        }
    }
}

fn is_installed(name: &String, installed: &Vec<String>) -> (r: bool)
    ensures
        r == texts(installed@).contains(name@),
{
    let mut j: usize = 0;
    while j < installed.len()
        invariant
            j <= installed@.len(),
            forall|k: int| 0 <= k < j ==> installed@[k]@ != name@,
        decreases installed.len() - j,
    {
        if installed[j] == *name {
            assert(texts(installed@)[j as int] == name@);
            return true;
        }
        j = j + 1;
    }
    proof {
        if texts(installed@).contains(name@) {
            let k = choose|k: int| 0 <= k < texts(installed@).len() && texts(installed@)[k] == name@;
            assert(installed@[k]@ == name@);
        }
    }
    false
}

/// Index of the first family of `preferences` that is among the installed
/// ones, if any.
pub fn first_installed(preferences: &Vec<String>, installed: &Vec<String>) -> (r: Option<usize>)
    ensures
        r matches Some(i) ==> first_installed_upto(texts(preferences@), texts(installed@), preferences@.len() as int)
            == Some(i as int),
        r is None ==> first_installed_upto(texts(preferences@), texts(installed@), preferences@.len() as int)
            is None,
{
    let ghost prefs = texts(preferences@);
    let ghost inst = texts(installed@);
    let mut i: usize = 0;
    while i < preferences.len()
        invariant
            i <= preferences@.len(),
            prefs == texts(preferences@),
            inst == texts(installed@),
            first_installed_upto(prefs, inst, i as int) is None,
        decreases preferences.len() - i,
    {
        let found = is_installed(&preferences[i], installed);
        assert(prefs[i as int] == preferences@[i as int]@);
        if found {
            proof {
                lemma_first_installed_stays(prefs, inst, i + 1, preferences@.len() as int, i as int);
            }
            return Some(i);
        }
        i = i + 1;
    }
    None
}

proof fn lemma_first_installed_stays(prefs: Seq<Seq<char>>, installed: Seq<Seq<char>>, k: int, k2: int, i: int)
    requires
        k <= k2,
        first_installed_upto(prefs, installed, k) == Some(i),
    ensures
        first_installed_upto(prefs, installed, k2) == Some(i),
    decreases k2 - k,
{
    if k < k2 {
        lemma_first_installed_stays(prefs, installed, k, k2 - 1, i);
    }
}

/// The sans-serif families, most preferred first.
pub fn sans_serif_families() -> (r: Vec<String>)
    ensures
        texts(r@) == seq!["Arial"@, "Liberation Sans"@, "DejaVu Sans"@, "Noto Sans"@],
{
    let r = vec![
        String::from_str("Arial"),
        String::from_str("Liberation Sans"),
        String::from_str("DejaVu Sans"),
        String::from_str("Noto Sans"),
    ];
    assert(texts(r@) =~= seq!["Arial"@, "Liberation Sans"@, "DejaVu Sans"@, "Noto Sans"@]);
    r
}

/// The serif families, most preferred first.
pub fn serif_families() -> (r: Vec<String>)
    ensures
        texts(r@) == seq!["Times New Roman"@, "Liberation Serif"@, "DejaVu Serif"@, "Noto Serif"@],
{
    let r = vec![
        String::from_str("Times New Roman"),
        String::from_str("Liberation Serif"),
        String::from_str("DejaVu Serif"),
        String::from_str("Noto Serif"),
    ];
    assert(texts(r@) =~= seq!["Times New Roman"@, "Liberation Serif"@, "DejaVu Serif"@, "Noto Serif"@]);
    r
}

/// The monospace families, most preferred first.
pub fn monospace_families() -> (r: Vec<String>)
    ensures
        texts(r@) == seq!["Courier New"@, "Liberation Mono"@, "DejaVu Sans Mono"@, "Noto Sans Mono"@],
{
    let r = vec![
        String::from_str("Courier New"),
        String::from_str("Liberation Mono"),
        String::from_str("DejaVu Sans Mono"),
        String::from_str("Noto Sans Mono"),
    ];
    assert(texts(r@) =~= seq!["Courier New"@, "Liberation Mono"@, "DejaVu Sans Mono"@, "Noto Sans Mono"@]);
    r
}

} // verus!
