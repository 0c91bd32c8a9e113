//! Overlap tests between placed nodes, and a search for a free position
//! near a wanted one. Coordinates are centres, in whole pixels.
use vstd::prelude::*;

use super::NODE_SPACING;

verus! {

/// Gap kept around each node.
pub const OVERLAP_GAP: i64 = 10;

/// Rings the search for a free position tries.
pub const FREE_SEARCH_RINGS: i64 = 40;

/// A node already placed: its centre and size.
#[derive(Debug, Clone, Copy, PartialEq, Eq, Structural)]
pub struct PlacedBox {
    pub cx: i64,
    pub cy: i64,
    pub w: u32,
    pub h: u32,
}

/// The absolute value of `x`.
pub open spec fn abs_int(x: int) -> int {
    if x < 0 {
        -x
    } else {
        x
    }
}

/// A `w` by `h` node centred at (`cx`, `cy`) comes within the gap of `b`:
/// the centres are closer than half the summed sizes plus the gap, across
/// and down.
pub open spec fn boxes_overlap(cx: int, cy: int, w: int, h: int, b: PlacedBox) -> bool {
    &&& 2 * abs_int(cx - b.cx) < w + b.w + 2 * OVERLAP_GAP
    &&& 2 * abs_int(cy - b.cy) < h + b.h + 2 * OVERLAP_GAP
}

/// The node overlaps some placed one.
pub open spec fn overlaps_spec(cx: int, cy: int, w: int, h: int, placed: Seq<PlacedBox>) -> bool {
    exists|i: int| 0 <= i < placed.len() && boxes_overlap(cx, cy, w, h, #[trigger] placed[i])
}

fn box_overlaps(cx: i64, cy: i64, w: u32, h: u32, b: PlacedBox) -> (r: bool)
    ensures
        r == boxes_overlap(cx as int, cy as int, w as int, h as int, b),
{
    let dx: i128 = if cx >= b.cx {
        cx as i128 - b.cx as i128
    } else {
        b.cx as i128 - cx as i128
    };
    let dy: i128 = if cy >= b.cy {
        cy as i128 - b.cy as i128
    } else {
        b.cy as i128 - cy as i128
    };
    2 * dx < w as i128 + b.w as i128 + 2 * (OVERLAP_GAP as i128) && 2 * dy < h as i128 + b.h as i128
        + 2 * (OVERLAP_GAP as i128)
}

/// Whether a `w` by `h` node centred at (`cx`, `cy`) overlaps any placed
/// node, with a gap of 10 pixels around each.
pub fn overlaps_any(cx: i64, cy: i64, w: u32, h: u32, placed: &Vec<PlacedBox>) -> (r: bool)
    ensures
        r == overlaps_spec(cx as int, cy as int, w as int, h as int, placed@),
{
    let mut i: usize = 0;
    while i < placed.len()
        invariant
            i <= placed@.len(),
            forall|j: int|
                0 <= j < i ==> !boxes_overlap(cx as int, cy as int, w as int, h as int, #[trigger] placed@[j]),
        decreases placed.len() - i,
    {
        if box_overlaps(cx, cy, w, h, placed[i]) {
            return true;
        }
        i = i + 1;
    }
    false
}

/// Distance between rings: half the larger side plus the node spacing
/// (half a pixel rounded down).
pub open spec fn ring_step(w: int, h: int) -> int {
    let m = if w > h {
        w
    } else {
        h
    };
    m / 2 + NODE_SPACING
}

/// Candidate `j` of the search: ring `j / 8 + 1`, at radius ring times
/// step, trying right, left, below, above, then the four diagonals
/// (down-right, up-left, up-right, down-left).
pub open spec fn candidate(cx: int, cy: int, step: int, j: int) -> (int, int) {
    let r = (j / 8 + 1) * step;
    let k = j % 8;
    if k == 0 {
        (cx + r, cy)
    } else if k == 1 {
        (cx - r, cy)
    } else if k == 2 {
        (cx, cy + r)
    } else if k == 3 {
        (cx, cy - r)
    } else if k == 4 {
        (cx + r, cy + r)
    } else if k == 5 {
        (cx - r, cy - r)
    } else if k == 6 {
        (cx + r, cy - r)
    } else {
        (cx - r, cy + r)
    }
}

/// The first free candidate from `j` on, if any.
pub open spec fn first_free_from(cx: int, cy: int, w: int, h: int, placed: Seq<PlacedBox>, j: int) -> Option<
    (int, int),
>
    decreases 8 * FREE_SEARCH_RINGS - j,
{
    if j < 0 || j >= 8 * FREE_SEARCH_RINGS {
        None
    } else {
        let p = candidate(cx, cy, ring_step(w, h), j);
        if !overlaps_spec(p.0, p.1, w, h, placed) {
            Some(p)
        } else {
            first_free_from(cx, cy, w, h, placed, j + 1)
        }
    }
}

/// The largest centre `x` among the first `n` placed nodes and `x0`.
pub open spec fn max_placed_x(placed: Seq<PlacedBox>, n: int, x0: int) -> int
    decreases n,
{
    if n <= 0 {
        x0
    } else {
        let m = max_placed_x(placed, n - 1, x0);
        if placed[n - 1].cx > m {
            placed[n - 1].cx as int
        } else {
            m
        }
    }
}

/// Where the search puts the node: the wanted position when free, else the
/// first free candidate, else to the right of every placed node.
pub open spec fn free_position(cx: int, cy: int, w: int, h: int, placed: Seq<PlacedBox>) -> (int, int) {
    if !overlaps_spec(cx, cy, w, h, placed) {
        (cx, cy)
    } else {
        match first_free_from(cx, cy, w, h, placed, 0) {
            Some(p) => p,
            None => (max_placed_x(placed, placed.len() as int, cx) + w + NODE_SPACING, cy),
        }
    }
}

/// Every position the search may compute fits in an `i64`.
pub open spec fn free_search_fits(cx: int, cy: int, w: int, h: int, placed: Seq<PlacedBox>) -> bool {
    &&& forall|j: int|
        0 <= j < 8 * FREE_SEARCH_RINGS ==> {
            let p = #[trigger] candidate(cx, cy, ring_step(w, h), j);
            i64::MIN <= p.0 <= i64::MAX && i64::MIN <= p.1 <= i64::MAX
        }
    &&& max_placed_x(placed, placed.len() as int, cx) + w + NODE_SPACING <= i64::MAX
}

fn candidate_at(cx: i64, cy: i64, step: i64, j: i64) -> (p: (i64, i64))
    requires
        0 <= j < 8 * FREE_SEARCH_RINGS,
        0 <= step <= u32::MAX,
        ({
            let q = candidate(cx as int, cy as int, step as int, j as int);
            i64::MIN <= q.0 <= i64::MAX && i64::MIN <= q.1 <= i64::MAX
        }),
    ensures
        (p.0 as int, p.1 as int) == candidate(cx as int, cy as int, step as int, j as int),
{
    let ring = j / 8 + 1;
    assert(ring * step <= 40 * 0x1_0000_0000) by (nonlinear_arith)
        requires
            1 <= ring <= 40,
            0 <= step <= u32::MAX,
    ;
    let r = ring * step;
    let k = j % 8;
    if k == 0 {
        (cx + r, cy)
    } else if k == 1 {
        (cx - r, cy)
    } else if k == 2 {
        (cx, cy + r)
    } else if k == 3 {
        (cx, cy - r)
    } else if k == 4 {
        (cx + r, cy + r)
    } else if k == 5 {
        (cx - r, cy - r)
    } else if k == 6 {
        (cx + r, cy - r)
    } else {
        (cx - r, cy + r)
    }
}

/// A position near (`cx`, `cy`) where a `w` by `h` node overlaps no placed
/// node: the wanted position when free; else the first free candidate on
/// rings of growing radius (up to 40 rings, eight candidates each, see
/// [`candidate`]); else, as a last resort, to the right of every placed
/// node.
pub fn find_free_position(cx: i64, cy: i64, w: u32, h: u32, placed: &Vec<PlacedBox>) -> (p: (i64, i64))
    requires
        free_search_fits(cx as int, cy as int, w as int, h as int, placed@),
    ensures
        (p.0 as int, p.1 as int) == free_position(cx as int, cy as int, w as int, h as int, placed@),
{
    if !overlaps_any(cx, cy, w, h, placed) {
        return (cx, cy);
    }
    let m: i64 = if w > h {
        w as i64
    } else {
        h as i64
    };
    let step: i64 = m / 2 + NODE_SPACING;
    let ghost wi = w as int;
    let ghost hi = h as int;
    let mut j: i64 = 0;
    while j < 8 * FREE_SEARCH_RINGS
        invariant
            0 <= j <= 8 * FREE_SEARCH_RINGS,
            step == ring_step(wi, hi),
            wi == w as int,
            hi == h as int,
            0 <= step <= u32::MAX,
            free_search_fits(cx as int, cy as int, wi, hi, placed@),
            overlaps_spec(cx as int, cy as int, wi, hi, placed@),
            first_free_from(cx as int, cy as int, wi, hi, placed@, 0) == first_free_from(
                cx as int,
                cy as int,
                wi,
                hi,
                placed@,
                j as int,
            ),
        decreases 8 * FREE_SEARCH_RINGS - j,
    {
        let ghost q = candidate(cx as int, cy as int, step as int, j as int);
        assert(i64::MIN <= q.0 <= i64::MAX && i64::MIN <= q.1 <= i64::MAX);
        let (tx, ty) = candidate_at(cx, cy, step, j);
        if !overlaps_any(tx, ty, w, h, placed) {
            assert(first_free_from(cx as int, cy as int, wi, hi, placed@, j as int) == Some(q));
            return (tx, ty);
        }
        j = j + 1;
    }
    let mut max_x: i64 = cx;
    let mut i: usize = 0;
    while i < placed.len()
        invariant
            i <= placed@.len(),
            max_x as int == max_placed_x(placed@, i as int, cx as int),
        decreases placed.len() - i,
    {
        if placed[i].cx > max_x {
            max_x = placed[i].cx;
        }
        i = i + 1;
    }
    (max_x + w as i64 + NODE_SPACING, cy)
}

/// A free candidate found from `j` on is free.
proof fn lemma_first_free_is_free(cx: int, cy: int, w: int, h: int, placed: Seq<PlacedBox>, j: int)
    requires
        first_free_from(cx, cy, w, h, placed, j) is Some,
    ensures
        ({
            let p = first_free_from(cx, cy, w, h, placed, j)->0;
            !overlaps_spec(p.0, p.1, w, h, placed)
        }),
    decreases 8 * FREE_SEARCH_RINGS - j,
{
    if 0 <= j < 8 * FREE_SEARCH_RINGS {
        let p = candidate(cx, cy, ring_step(w, h), j);
        if overlaps_spec(p.0, p.1, w, h, placed) {
            lemma_first_free_is_free(cx, cy, w, h, placed, j + 1);
        }
    }
}

/// Law: unless every ring is full, the position the search gives overlaps
/// no placed node: either the wanted position was free, or a free
/// candidate was found.
pub proof fn lemma_free_position_is_free(cx: int, cy: int, w: int, h: int, placed: Seq<PlacedBox>)
    requires
        !overlaps_spec(cx, cy, w, h, placed) || first_free_from(cx, cy, w, h, placed, 0) is Some,
    ensures
        ({
            let p = free_position(cx, cy, w, h, placed);
            !overlaps_spec(p.0, p.1, w, h, placed)
        }),
{
    if overlaps_spec(cx, cy, w, h, placed) {
        lemma_first_free_is_free(cx, cy, w, h, placed, 0);
    }
}

} // verus!
