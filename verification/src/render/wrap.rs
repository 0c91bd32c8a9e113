//! Word wrapping of C4 texts: words are laid greedily on lines of at most a
//! given number of bytes; a word longer than that gets a line of its own.
use vstd::prelude::*;

verus! {

/// Lines a truncated wrap keeps; a longer text ends in an ellipsis line.
pub const MAX_TEXT_LINES: usize = 5;

/// The characters with the Unicode `White_Space` property, which
/// `char::is_whitespace` tests: tab, line feed, line tabulation, form feed,
/// carriage return, space, next line, no-break space, Ogham space mark, the
/// spaces U+2000 to U+200A, line and paragraph separators, narrow no-break
/// space, medium mathematical space and ideographic space.
pub open spec fn is_white_space(c: char) -> bool {
    let v = c as int;
    ||| 0x09 <= v <= 0x0D
    ||| v == 0x20
    ||| v == 0x85
    ||| v == 0xA0
    ||| v == 0x1680
    ||| 0x2000 <= v <= 0x200A
    ||| v == 0x2028
    ||| v == 0x2029
    ||| v == 0x202F
    ||| v == 0x205F
    ||| v == 0x3000
}

/// Whether `c` has the Unicode `White_Space` property (see
/// `is_white_space`).
fn char_is_whitespace(c: char) -> (b: bool)
    ensures
        b == is_white_space(c),
{
    let v = c as u32;
    (0x09 <= v && v <= 0x0D) || v == 0x20 || v == 0x85 || v == 0xA0 || v == 0x1680 || (0x2000 <= v && v
        <= 0x200A) || v == 0x2028 || v == 0x2029 || v == 0x202F || v == 0x205F || v == 0x3000
}

/// Bytes of the UTF-8 encoding of `c`.
pub open spec fn utf8_width(c: char) -> int {
    let v = c as u32;
    if v <= 0x7F {
        1
    } else if v <= 0x7FF {
        2
    } else if v <= 0xFFFF {
        3
    } else {
        4
    }
}

/// Bytes of the UTF-8 encoding of a text (what `str::len` counts).
pub open spec fn byte_len(w: Seq<char>) -> int
    decreases w.len(),
{
    if w.len() == 0 {
        0
    } else {
        byte_len(w.drop_last()) + utf8_width(w.last())
    }
}

pub(crate) fn char_width(c: char) -> (n: u128)
    ensures
        n == utf8_width(c),
        1 <= n <= 4,
{
    let v = c as u32;
    if v <= 0x7F {
        1
    } else if v <= 0x7FF {
        2
    } else if v <= 0xFFFF {
        3
    } else {
        4
    }
}

/// Words finished and the word in progress after the first `k` characters:
/// whitespace ends a word, any other character extends it.
pub open spec fn split_upto(s: Seq<char>, k: int) -> (Seq<Seq<char>>, Seq<char>)
    decreases k,
{
    if k <= 0 {
        (seq![], seq![])
    } else {
        let (words, cur) = split_upto(s, k - 1);
        let c = s[k - 1];
        if is_white_space(c) {
            if cur.len() > 0 {
                (words.push(cur), seq![])
            } else {
                (words, cur)
            }
        } else {
            (words, cur.push(c))
        }
    }
}

/// The words of a text: its maximal runs of non-whitespace characters.
pub open spec fn words_of(s: Seq<char>) -> Seq<Seq<char>> {
    let (words, cur) = split_upto(s, s.len() as int);
    if cur.len() > 0 {
        words.push(cur)
    } else {
        words
    }
}

/// Finished lines, the line in progress and its length in bytes after
/// laying out the first `k` words: a word goes on the current line after a
/// space when the line stays within `limit` bytes, else it starts a new
/// line (the first word always starts the first line).
pub open spec fn wrap_upto(words: Seq<Seq<char>>, limit: int, k: int) -> (Seq<Seq<char>>, Seq<char>, int)
    decreases k,
{
    if k <= 0 {
        (seq![], seq![], 0)
    } else {
        let (lines, cur, len) = wrap_upto(words, limit, k - 1);
        let w = words[k - 1];
        if len == 0 {
            (lines, w, byte_len(w))
        } else if len + 1 + byte_len(w) <= limit {
            (lines, cur + seq![' '] + w, len + 1 + byte_len(w))
        } else {
            (lines.push(cur), w, byte_len(w))
        }
    }
}

/// The wrapped lines of a text with at most `limit` bytes per line where
/// words allow it; a text without words gives one empty line.
pub open spec fn wrapped(text: Seq<char>, limit: int) -> Seq<Seq<char>> {
    let words = words_of(text);
    let (lines, cur, len) = wrap_upto(words, limit, words.len() as int);
    let all = if cur.len() > 0 {
        lines.push(cur)
    } else {
        lines
    };
    if all.len() == 0 {
        seq![seq![]]
    } else {
        all
    }
}

/// The texts of a list of strings.
pub open spec fn texts(v: Seq<String>) -> Seq<Seq<char>> {
    v.map_values(|s: String| s@)
}

proof fn lemma_wrap_prefix(words: Seq<Seq<char>>, w: Seq<char>, limit: int, k: int)
    requires
        0 <= k <= words.len(),
    ensures
        wrap_upto(words.push(w), limit, k) == wrap_upto(words, limit, k),
    decreases k,
{
    if k > 0 {
        lemma_wrap_prefix(words, w, limit, k - 1);
        assert(words.push(w)[k - 1] == words[k - 1]);
    }
}

/// Lay one word on the lines (see `wrap_upto`).
fn place_word(
    lines: &mut Vec<String>,
    current: &mut String,
    current_len: &mut u128,
    word: &str,
    word_len: u128,
    limit: usize,
)
    requires
        word_len == byte_len(word@),
        *old(current_len) <= 4 * usize::MAX,
        word_len <= 4 * usize::MAX,
    ensures
        ({
            let st = (texts(old(lines)@), old(current)@, *old(current_len) as int);
            let (l, c, n) = if st.2 == 0 {
                (st.0, word@, byte_len(word@))
            } else if st.2 + 1 + byte_len(word@) <= limit {
                (st.0, st.1 + seq![' '] + word@, st.2 + 1 + byte_len(word@))
            } else {
                (st.0.push(st.1), word@, byte_len(word@))
            };
            &&& texts(final(lines)@) == l
            &&& final(current)@ == c
            &&& *final(current_len) as int == n
        }),
        *final(current_len) <= 4 * usize::MAX,
{
    if *current_len == 0 {
        *current = String::from_str(word);
        *current_len = word_len;
    } else if *current_len + 1 + word_len <= limit as u128 {
        current.append(" ");
        current.append(word);
        proof {
            reveal_strlit(" ");
        }
        *current_len = *current_len + 1 + word_len;
    } else {
        let ghost before = lines@;
        let mut done = String::from_str(word);
        std::mem::swap(current, &mut done);
        lines.push(done);
        proof {
            assert(texts(lines@) =~= texts(before).push(done@));
        }
        *current_len = word_len;
    }
}

/// Word-wrap `text` into lines of at most `limit` bytes where the words
/// allow it (see `wrapped`): words are separated by any whitespace and
/// joined by single spaces.
pub fn wrap_text(text: &str, limit: usize) -> (lines: Vec<String>)
    ensures
        texts(lines@) == wrapped(text@, limit as int),
{
    let n = text.unicode_len();
    let mut lines: Vec<String> = Vec::new();
    let mut current = String::new();
    let mut current_len: u128 = 0;
    let mut in_word = false;
    let mut start: usize = 0;
    let mut word_len: u128 = 0;
    let ghost mut done: Seq<Seq<char>> = seq![];
    let mut i: usize = 0;
    while i < n
        invariant
            n == text@.len(),
            i <= n,
            split_upto(text@, i as int) == (done, if in_word {
                text@.subrange(start as int, i as int)
            } else {
                seq![]
            }),
            in_word ==> start < i,
            in_word ==> word_len == byte_len(text@.subrange(start as int, i as int)),
            in_word ==> word_len <= 4 * (i - start),
            wrap_upto(done, limit as int, done.len() as int) == (texts(lines@), current@, current_len as int),
            current_len <= 4 * usize::MAX,
        decreases n - i,
    {
        let c = text.get_char(i);
        if char_is_whitespace(c) {
            if in_word {
                let word = text.substring_char(start, i);
                place_word(&mut lines, &mut current, &mut current_len, word, word_len, limit);
                proof {
                    lemma_wrap_prefix(done, word@, limit as int, done.len() as int);
                    done = done.push(word@);
                }
                in_word = false;
            }
        } else {
            if !in_word {
                in_word = true;
                start = i;
                word_len = 0;
                proof {
                    assert(text@.subrange(start as int, i as int) =~= Seq::<char>::empty());
                }
            }
            let ghost sub = text@.subrange(start as int, i + 1);
            proof {
                assert(sub.drop_last() =~= text@.subrange(start as int, i as int));
                assert(sub.last() == c);
                assert(sub =~= text@.subrange(start as int, i as int).push(c));
                assert(byte_len(sub) == byte_len(text@.subrange(start as int, i as int)) + utf8_width(c));
            }
            let w = char_width(c);
            word_len = word_len + w;
        }
        i = i + 1;
    }
    if in_word {
        let word = text.substring_char(start, n);
        place_word(&mut lines, &mut current, &mut current_len, word, word_len, limit);
        proof {
            lemma_wrap_prefix(done, word@, limit as int, done.len() as int);
            done = done.push(word@);
        }
    }
    assert(words_of(text@) == done);
    let ghost before = lines@;
    let ghost last = current@;
    if current.as_str().unicode_len() > 0 {
        lines.push(current);
        proof {
            assert(texts(lines@) =~= texts(before).push(last));
        }
    }
    if lines.len() == 0 {
        lines.push(String::new());
        proof {
            assert(texts(lines@) =~= seq![Seq::<char>::empty()]);
        }
    }
    lines
}

/// The wrapped lines cut to `MAX_TEXT_LINES`: when there are more, the
/// first `MAX_TEXT_LINES - 1` are kept and an ellipsis line follows.
pub open spec fn wrapped_truncated(text: Seq<char>, limit: int) -> Seq<Seq<char>> {
    let w = wrapped(text, limit);
    if w.len() > MAX_TEXT_LINES {
        w.subrange(0, MAX_TEXT_LINES - 1).push("\u{2026}"@)
    } else {
        w
    }
}

/// Word-wrap `text` (see `wrap_text`), then keep at most `MAX_TEXT_LINES`
/// lines, the last kept one an ellipsis when lines were dropped.
pub fn wrap_text_truncated(text: &str, limit: usize) -> (lines: Vec<String>)
    ensures
        texts(lines@) == wrapped_truncated(text@, limit as int),
{
    let mut lines = wrap_text(text, limit);
    if lines.len() > MAX_TEXT_LINES {
        let ghost full = lines@;
        lines.truncate(MAX_TEXT_LINES - 1);
        lines.push(String::from_str("\u{2026}"));
        proof {
            assert(texts(lines@) =~= texts(full).subrange(0, MAX_TEXT_LINES - 1).push("\u{2026}"@));
        }
    }
    lines
}

} // verus!
