//! Geometry of edge labels: label boxes, path segments, the size of a
//! label's text, the segment a label goes on and the candidate positions
//! beside it. Coordinates are whole pixels; where a position falls on a
//! half pixel it is rounded down.
use vstd::prelude::*;

use crate::render::edges::{simplified_path, simplify_path, Point};
use crate::render::wrap::{byte_len, char_width, utf8_width};

verus! {

/// Padding around label text.
pub const LABEL_PADDING: i64 = 4;

/// Width of one character at font size 12.
pub const LABEL_CHAR_WIDTH: i64 = 7;

/// Height of one line at font size 12.
pub const LABEL_LINE_HEIGHT: i64 = 14;

/// Which side of a segment a label is placed on.
#[derive(Debug, Clone, Copy, PartialEq, Eq, Structural)]
pub enum LabelSide {
    Above,
    Below,
    Left,
    Right,
    OnEdge,
}

/// Direction of a path segment.
#[derive(Debug, Clone, Copy, PartialEq, Eq, Structural)]
pub enum SegmentDirection {
    Horizontal,
    Vertical,
}

/// An axis-aligned box: top-left corner and size.
#[derive(Debug, Clone, Copy, PartialEq, Eq, Structural)]
pub struct BoundingBox {
    pub x: i64,
    pub y: i64,
    pub width: i64,
    pub height: i64,
}

/// The two boxes share interior area (boxes that only touch do not).
pub open spec fn bbox_overlap(a: BoundingBox, b: BoundingBox) -> bool {
    &&& a.x < b.x + b.width
    &&& a.x + a.width > b.x
    &&& a.y < b.y + b.height
    &&& a.y + a.height > b.y
}

impl BoundingBox {
    /// Whether the two boxes share interior area.
    pub fn overlaps(&self, other: &BoundingBox) -> (r: bool)
        ensures
            r == bbox_overlap(*self, *other),
    {
        (self.x as i128) < (other.x as i128) + (other.width as i128) && (self.x as i128)
            + (self.width as i128) > (other.x as i128) && (self.y as i128) < (other.y as i128)
            + (other.height as i128) && (self.y as i128) + (self.height as i128) > (other.y as i128)
    }
}

/// A segment of a simplified edge path, between two points.
#[derive(Debug, Clone, Copy, PartialEq, Eq, Structural)]
pub struct Segment {
    pub x1: i64,
    pub y1: i64,
    pub x2: i64,
    pub y2: i64,
}

/// The squared length of a segment.
pub open spec fn squared_length(s: Segment) -> int {
    (s.x2 - s.x1) * (s.x2 - s.x1) + (s.y2 - s.y1) * (s.y2 - s.y1)
}

/// A segment is horizontal when its ends are at the same height.
pub open spec fn direction_spec(s: Segment) -> SegmentDirection {
    if s.y1 == s.y2 {
        SegmentDirection::Horizontal
    } else {
        SegmentDirection::Vertical
    }
}

/// Half of `v`, rounded down.
pub(crate) fn floor_half(v: i128) -> (r: i128)
    requires
        -0x1_0000_0000_0000_0000_0000 <= v <= 0x1_0000_0000_0000_0000_0000,
    ensures
        r == v / 2,
{
    if v >= 0 {
        ((v as u128) / 2) as i128
    } else {
        let t: u128 = (-v) as u128;
        let q: u128 = (t + 1) / 2;
        assert(-(q as int) == v / 2) by (nonlinear_arith)
            requires
                t == -v,
                t > 0,
                q == (t + 1) / 2,
        ;
        -(q as i128)
    }
}

impl Segment {
    /// The middle of the segment, each coordinate rounded down.
    pub fn midpoint(&self) -> (r: (i64, i64))
        ensures
            r.0 == (self.x1 + self.x2) / 2,
            r.1 == (self.y1 + self.y2) / 2,
    {
        let mx = floor_half(self.x1 as i128 + self.x2 as i128);
        let my = floor_half(self.y1 as i128 + self.y2 as i128);
        (mx as i64, my as i64)
    }

    /// Horizontal when both ends are at the same height, else vertical.
    pub fn direction(&self) -> (r: SegmentDirection)
        ensures
            r == direction_spec(*self),
    {
        if self.y2 == self.y1 {
            SegmentDirection::Horizontal
        } else {
            SegmentDirection::Vertical
        }
    }
}

// ─── size of a label's text ─────────────────────────────────────────────────

/// `l` without a final carriage return.
pub open spec fn strip_cr(l: Seq<char>) -> Seq<char> {
    if l.len() > 0 && l.last() == '\r' {
        l.drop_last()
    } else {
        l
    }
}

/// Lines finished and the line in progress after the first `k` characters:
/// a newline ends a line (and a carriage return right before it).
pub open spec fn lines_upto(s: Seq<char>, k: int) -> (Seq<Seq<char>>, Seq<char>)
    decreases k,
{
    if k <= 0 {
        (seq![], seq![])
    } else {
        let (done, cur) = lines_upto(s, k - 1);
        if s[k - 1] == '\n' {
            (done.push(strip_cr(cur)), seq![])
        } else {
            (done, cur.push(s[k - 1]))
        }
    }
}

/// The lines of a text, as `str::lines` gives them: split at `\n` or
/// `\r\n`, the final line ending optional, no lines for an empty text.
pub open spec fn text_lines(s: Seq<char>) -> Seq<Seq<char>> {
    let (done, cur) = lines_upto(s, s.len() as int);
    if cur.len() > 0 {
        done.push(cur)
    } else {
        done
    }
}

/// The most bytes among the first `n` lines, 0 for none.
pub open spec fn max_line_bytes(lines: Seq<Seq<char>>, n: int) -> int
    decreases n,
{
    if n <= 0 {
        0
    } else {
        let m = max_line_bytes(lines, n - 1);
        if byte_len(lines[n - 1]) > m {
            byte_len(lines[n - 1])
        } else {
            m
        }
    }
}

/// Width of a label: its longest line in bytes times the character width.
pub open spec fn label_width(s: Seq<char>) -> int {
    let lines = text_lines(s);
    max_line_bytes(lines, lines.len() as int) * LABEL_CHAR_WIDTH
}

/// Height of a label: its number of lines (at least one) times the line
/// height.
pub open spec fn label_height(s: Seq<char>) -> int {
    let n = text_lines(s).len();
    (if n > 1 {
        n as int
    } else {
        1
    }) * LABEL_LINE_HEIGHT
}

proof fn lemma_max_line_bytes_push(lines: Seq<Seq<char>>, x: Seq<char>, n: int)
    requires
        0 <= n <= lines.len(),
    ensures
        max_line_bytes(lines.push(x), n) == max_line_bytes(lines, n),
    decreases n,
{
    if n > 0 {
        lemma_max_line_bytes_push(lines, x, n - 1);
        assert(lines.push(x)[n - 1] == lines[n - 1]);
    }
}

proof fn lemma_byte_len_bound(w: Seq<char>)
    ensures
        w.len() <= byte_len(w) <= 4 * w.len(),
    decreases w.len(),
{
    if w.len() > 0 {
        lemma_byte_len_bound(w.drop_last());
    }
}

/// Number of lines and bytes of the longest line of a text.
fn line_stats(text: &str) -> (r: (u128, u128))
    ensures
        r.0 == text_lines(text@).len(),
        r.1 == max_line_bytes(text_lines(text@), text_lines(text@).len() as int),
{
    let n = text.unicode_len();
    let mut done_count: u128 = 0;
    let mut done_max: u128 = 0;
    let mut cur_len: u128 = 0;
    let mut cur_nonempty = false;
    let mut cur_ends_cr = false;
    let mut i: usize = 0;
    while i < n
        invariant
            n == text@.len(),
            i <= n,
            ({
                let (done, cur) = lines_upto(text@, i as int);
                &&& done_count == done.len()
                &&& done_max == max_line_bytes(done, done.len() as int)
                &&& cur_len == byte_len(cur)
                &&& cur_nonempty == (cur.len() > 0)
                &&& cur_ends_cr == (cur.len() > 0 && cur.last() == '\r')
                &&& done.len() <= i
                &&& cur.len() <= i
                &&& done_max <= 4 * i
            }),
        decreases n - i,
    {
        let c = text.get_char(i);
        let ghost done = lines_upto(text@, i as int).0;
        let ghost cur = lines_upto(text@, i as int).1;
        proof {
            lemma_byte_len_bound(cur);
        }
        if c == '\n' {
            let l: u128 = if cur_ends_cr {
                cur_len - 1
            } else {
                cur_len
            };
            proof {
                assert(byte_len(strip_cr(cur)) == l) by {
                    if cur_ends_cr {
                        assert(utf8_width('\r') == 1);
                    }
                }
                lemma_max_line_bytes_push(done, strip_cr(cur), done.len() as int);
                lemma_byte_len_bound(strip_cr(cur));
            }
            if l > done_max {
                done_max = l;
            }
            done_count = done_count + 1;
            cur_len = 0;
            cur_nonempty = false;
            cur_ends_cr = false;
        } else {
            proof {
                assert(cur.push(c).drop_last() =~= cur);
            }
            let w = char_width(c);
            cur_len = cur_len + w;
            cur_nonempty = true;
            cur_ends_cr = c == '\r';
        }
        i = i + 1;
    }
    let ghost done = lines_upto(text@, n as int).0;
    let ghost cur = lines_upto(text@, n as int).1;
    if cur_nonempty {
        proof {
            lemma_max_line_bytes_push(done, cur, done.len() as int);
        }
        if cur_len > done_max {
            done_max = cur_len;
        }
        done_count = done_count + 1;
    }
    (done_count, done_max)
}

/// Width of a label's text: its longest line (in bytes) times the
/// character width.
pub fn measure_label_width(text: &str) -> (w: i64)
    requires
        label_width(text@) <= i64::MAX,
    ensures
        w == label_width(text@),
{
    let (_, m) = line_stats(text);
    (m * (LABEL_CHAR_WIDTH as u128)) as i64
}

/// Height of a label's text: its number of lines, at least one, times the
/// line height.
pub fn measure_label_height(text: &str) -> (h: i64)
    requires
        label_height(text@) <= i64::MAX,
    ensures
        h == label_height(text@),
{
    let (count, _) = line_stats(text);
    let lines: u128 = if count > 1 {
        count
    } else {
        1
    };
    (lines * (LABEL_LINE_HEIGHT as u128)) as i64
}

// ─── segments of a routed path ──────────────────────────────────────────────

/// The segments between consecutive points.
pub open spec fn segments_between(pts: Seq<Point>) -> Seq<Segment> {
    Seq::new(
        (pts.len() - 1) as nat,
        |i: int| Segment { x1: pts[i].x, y1: pts[i].y, x2: pts[i + 1].x, y2: pts[i + 1].y },
    )
}

/// The segments of a path given by its points in world coordinates: none
/// for fewer than two points, else one between each pair of consecutive
/// points of the simplified path (start, bends, end).
pub fn path_to_segments(points: &Vec<Point>) -> (segs: Vec<Segment>)
    ensures
        points@.len() < 2 ==> segs@.len() == 0,
        points@.len() >= 2 ==> segs@ == segments_between(simplified_path(points@)),
{
    if points.len() < 2 {
        return Vec::new();
    }
    let simple = simplify_path(points);
    proof {
        if points@.len() > 2 {
            assert(simple@.len() >= 2);
        }
    }
    let mut segs: Vec<Segment> = Vec::new();
    let mut i: usize = 0;
    while i < simple.len() - 1
        invariant
            simple@ == simplified_path(points@),
            simple@.len() >= 2,
            i + 1 <= simple@.len(),
            segs@ == segments_between(simple@).subrange(0, i as int),
        decreases simple.len() - i,
    {
        let a = simple[i];
        let b = simple[i + 1];
        segs.push(Segment { x1: a.x, y1: a.y, x2: b.x, y2: b.y });
        proof {
            assert(segs@ =~= segments_between(simple@).subrange(0, i + 1));
        }
        i = i + 1;
    }
    proof {
        assert(segs@ =~= segments_between(simple@));
    }
    segs
}

// ─── the segment a label goes on ────────────────────────────────────────────

/// A segment is long enough for a label `width` wide.
pub open spec fn long_enough(s: Segment, width: int) -> bool {
    width <= 0 || squared_length(s) >= width * width
}

/// Index of the last longest among the first `n` segments.
pub open spec fn last_longest(segs: Seq<Segment>, n: int) -> int
    decreases n,
{
    if n <= 1 {
        0
    } else {
        let j = last_longest(segs, n - 1);
        if squared_length(segs[n - 1]) >= squared_length(segs[j]) {
            n - 1
        } else {
            j
        }
    }
}

/// The segment a label goes on: the middle one when it is long enough for
/// the label, else the longest (the last of equally long ones); 0 when there
/// are none.
pub open spec fn best_segment(segs: Seq<Segment>, label_width: int) -> int {
    if segs.len() == 0 {
        0
    } else if long_enough(segs[segs.len() as int / 2], label_width) {
        segs.len() as int / 2
    } else {
        last_longest(segs, segs.len() as int)
    }
}

proof fn lemma_last_longest_is_longest(segs: Seq<Segment>, n: int)
    requires
        1 <= n <= segs.len(),
    ensures
        0 <= last_longest(segs, n) < n,
        forall|i: int| 0 <= i < n ==> squared_length(#[trigger] segs[i]) <= squared_length(
            segs[last_longest(segs, n)],
        ),
        forall|i: int|
            last_longest(segs, n) < i < n ==> squared_length(#[trigger] segs[i]) < squared_length(
                segs[last_longest(segs, n)],
            ),
    decreases n,
{
    if n > 1 {
        lemma_last_longest_is_longest(segs, n - 1);
    }
}

/// Law: the label goes on a segment of the path. When the middle segment is
/// at least as long as the label (its squared length at least the squared
/// width), it is the middle one; otherwise it is a longest segment, and no
/// later segment is as long.
pub proof fn lemma_best_segment_is_middle_or_longest(segs: Seq<Segment>, label_width: int)
    requires
        segs.len() > 0,
    ensures
        ({
            let r = best_segment(segs, label_width);
            let m = segs[segs.len() as int / 2];
            let middle_fits = label_width <= 0 || (m.x2 - m.x1) * (m.x2 - m.x1) + (m.y2 - m.y1) * (m.y2
                - m.y1) >= label_width * label_width;
            &&& 0 <= r < segs.len()
            &&& middle_fits ==> r == segs.len() as int / 2
            &&& !middle_fits ==> forall|i: int|
                0 <= i < segs.len() ==> (#[trigger] segs[i].x2 - segs[i].x1) * (segs[i].x2 - segs[i].x1)
                    + (segs[i].y2 - segs[i].y1) * (segs[i].y2 - segs[i].y1) <= (segs[r].x2 - segs[r].x1)
                    * (segs[r].x2 - segs[r].x1) + (segs[r].y2 - segs[r].y1) * (segs[r].y2 - segs[r].y1)
            &&& !middle_fits ==> forall|i: int|
                r < i < segs.len() ==> (#[trigger] segs[i].x2 - segs[i].x1) * (segs[i].x2 - segs[i].x1)
                    + (segs[i].y2 - segs[i].y1) * (segs[i].y2 - segs[i].y1) < (segs[r].x2 - segs[r].x1)
                    * (segs[r].x2 - segs[r].x1) + (segs[r].y2 - segs[r].y1) * (segs[r].y2 - segs[r].y1)
        }),
{
    lemma_last_longest_is_longest(segs, segs.len() as int);
    assert forall|i: int| 0 <= i < segs.len() implies squared_length(#[trigger] segs[i])
        == (segs[i].x2 - segs[i].x1) * (segs[i].x2 - segs[i].x1) + (segs[i].y2 - segs[i].y1) * (
        segs[i].y2 - segs[i].y1) by {}
}

fn squared_length_of(s: &Segment) -> (r: u128)
    requires
        squared_length(*s) <= u128::MAX,
    ensures
        r == squared_length(*s),
{
    let dx: i128 = s.x2 as i128 - s.x1 as i128;
    let dy: i128 = s.y2 as i128 - s.y1 as i128;
    let ax: u128 = if dx >= 0 {
        dx as u128
    } else {
        (-dx) as u128
    };
    let ay: u128 = if dy >= 0 {
        dy as u128
    } else {
        (-dy) as u128
    };
    assert(ax * ax == dx * dx && ay * ay == dy * dy) by (nonlinear_arith)
        requires
            ax == dx || ax == -dx,
            ay == dy || ay == -dy,
    ;
    assert(ax * ax <= u128::MAX && ay * ay <= u128::MAX) by (nonlinear_arith)
        requires
            ax * ax + ay * ay <= u128::MAX,
    ;
    ax * ax + ay * ay
}

/// The segment to put a label `label_width` wide on: the middle segment
/// when it is at least that long, else the longest one.
pub fn select_best_segment(segments: &Vec<Segment>, label_width: i64) -> (r: usize)
    requires
        forall|i: int| 0 <= i < segments@.len() ==> squared_length(#[trigger] segments@[i]) <= u128::MAX,
    ensures
        r == best_segment(segments@, label_width as int),
{
    if segments.len() == 0 {
        return 0;
    }
    let middle = segments.len() / 2;
    let sq_mid = squared_length_of(&segments[middle]);
    let enough = if label_width <= 0 {
        true
    } else {
        let w: u128 = label_width as u128;
        assert(w * w <= u128::MAX) by (nonlinear_arith)
            requires
                0 < w <= i64::MAX,
        ;
        sq_mid >= w * w
    };
    if enough {
        return middle;
    }
    let mut best: usize = 0;
    let mut best_sq = squared_length_of(&segments[0]);
    let mut i: usize = 1;
    while i < segments.len()
        invariant
            1 <= i <= segments@.len(),
            forall|k: int| 0 <= k < segments@.len() ==> squared_length(#[trigger] segments@[k]) <= u128::MAX,
            best == last_longest(segments@, i as int),
            best < i,
            best_sq == squared_length(segments@[best as int]),
        decreases segments.len() - i,
    {
        let sq = squared_length_of(&segments[i]);
        if sq >= best_sq {
            best = i;
            best_sq = sq;
        }
        i = i + 1;
    }
    best
}

// ─── candidate positions beside a segment ───────────────────────────────────

/// Top-left corners to try for a `w` by `h` label on a segment: above then
/// below its middle for a horizontal segment, left then right of it for a
/// vertical one, each coordinate rounded down to a whole pixel.
pub open spec fn candidates_spec(s: Segment, w: int, h: int) -> Seq<(int, int, LabelSide)> {
    if direction_spec(s) == SegmentDirection::Horizontal {
        seq![
            ((s.x1 + s.x2 - w) / 2, (s.y1 + s.y2) / 2 - h - LABEL_PADDING, LabelSide::Above),
            ((s.x1 + s.x2 - w) / 2, (s.y1 + s.y2) / 2 + LABEL_PADDING, LabelSide::Below),
        ]
    } else {
        seq![
            ((s.x1 + s.x2) / 2 - w - LABEL_PADDING, (s.y1 + s.y2 - h) / 2, LabelSide::Left),
            ((s.x1 + s.x2) / 2 + LABEL_PADDING, (s.y1 + s.y2 - h) / 2, LabelSide::Right),
        ]
    }
}

/// Every coordinate of the candidates fits in an `i64`.
pub open spec fn candidates_fit(s: Segment, w: int, h: int) -> bool {
    forall|i: int|
        0 <= i < 2 ==> i64::MIN <= (#[trigger] candidates_spec(s, w, h)[i]).0 <= i64::MAX
            && i64::MIN <= candidates_spec(s, w, h)[i].1 <= i64::MAX
}

/// The widened view of a list of candidates.
pub open spec fn candidates_view(v: Seq<(i64, i64, LabelSide)>) -> Seq<(int, int, LabelSide)> {
    v.map_values(|c: (i64, i64, LabelSide)| (c.0 as int, c.1 as int, c.2))
}

/// Positions to try for a `label_width` by `label_height` label beside a
/// segment (see `candidates_spec`).
pub fn generate_candidates(segment: &Segment, label_width: i64, label_height: i64) -> (r: Vec<
    (i64, i64, LabelSide),
>)
    requires
        candidates_fit(*segment, label_width as int, label_height as int),
    ensures
        candidates_view(r@) == candidates_spec(*segment, label_width as int, label_height as int),
{
    let s = *segment;
    let ghost c = candidates_spec(s, label_width as int, label_height as int);
    let sx: i128 = s.x1 as i128 + s.x2 as i128;
    let sy: i128 = s.y1 as i128 + s.y2 as i128;
    let w = label_width as i128;
    let h = label_height as i128;
    let pad = LABEL_PADDING as i128;
    let mut r: Vec<(i64, i64, LabelSide)> = Vec::new();
    match s.direction() {
        SegmentDirection::Horizontal => {
            let x = floor_half(sx - w);
            let my = floor_half(sy);
            assert(i64::MIN <= c[0].0 <= i64::MAX && i64::MIN <= c[0].1 <= i64::MAX);
            assert(i64::MIN <= c[1].0 <= i64::MAX && i64::MIN <= c[1].1 <= i64::MAX);
            r.push((x as i64, (my - h - pad) as i64, LabelSide::Above));
            r.push((x as i64, (my + pad) as i64, LabelSide::Below));
        },
        SegmentDirection::Vertical => {
            let mx = floor_half(sx);
            let y = floor_half(sy - h);
            assert(i64::MIN <= c[0].0 <= i64::MAX && i64::MIN <= c[0].1 <= i64::MAX);
            assert(i64::MIN <= c[1].0 <= i64::MAX && i64::MIN <= c[1].1 <= i64::MAX);
            r.push(((mx - w - pad) as i64, y as i64, LabelSide::Left));
            r.push(((mx + pad) as i64, y as i64, LabelSide::Right));
        },
    }
    proof {
        assert(candidates_view(r@) =~= c);
    }
    r
}

} // verus!
