//! Whether a label box would collide with nodes, edge segments or labels
//! already placed.
use vstd::prelude::*;

use super::placement::{bbox_overlap, BoundingBox, Segment};

verus! {

/// The box meets the segment: a horizontal segment strictly inside the
/// box's height and reaching into its width, a vertical one likewise, and
/// any other segment when its bounding box overlaps the box.
pub open spec fn bbox_meets_segment(b: BoundingBox, s: Segment) -> bool {
    let left = b.x as int;
    let right = b.x + b.width;
    let top = b.y as int;
    let bottom = b.y + b.height;
    let min_x = if s.x1 < s.x2 {
        s.x1 as int
    } else {
        s.x2 as int
    };
    let max_x = if s.x1 < s.x2 {
        s.x2 as int
    } else {
        s.x1 as int
    };
    let min_y = if s.y1 < s.y2 {
        s.y1 as int
    } else {
        s.y2 as int
    };
    let max_y = if s.y1 < s.y2 {
        s.y2 as int
    } else {
        s.y1 as int
    };
    if s.y1 == s.y2 {
        s.y1 > top && s.y1 < bottom && max_x > left && min_x < right
    } else if s.x1 == s.x2 {
        s.x1 > left && s.x1 < right && max_y > top && min_y < bottom
    } else {
        left < max_x && right > min_x && top < max_y && bottom > min_y
    }
}

/// Whether a box intersects a path segment (see `bbox_meets_segment`); a
/// segment along the box's border does not.
pub fn bbox_intersects_segment(bbox: &BoundingBox, segment: &Segment) -> (r: bool)
    ensures
        r == bbox_meets_segment(*bbox, *segment),
{
    let left = bbox.x as i128;
    let right = bbox.x as i128 + bbox.width as i128;
    let top = bbox.y as i128;
    let bottom = bbox.y as i128 + bbox.height as i128;
    let (sx1, sy1) = (segment.x1 as i128, segment.y1 as i128);
    let (sx2, sy2) = (segment.x2 as i128, segment.y2 as i128);
    let min_x = if sx1 < sx2 {
        sx1
    } else {
        sx2
    };
    let max_x = if sx1 < sx2 {
        sx2
    } else {
        sx1
    };
    let min_y = if sy1 < sy2 {
        sy1
    } else {
        sy2
    };
    let max_y = if sy1 < sy2 {
        sy2
    } else {
        sy1
    };
    if sy1 == sy2 {
        sy1 > top && sy1 < bottom && max_x > left && min_x < right
    } else if sx1 == sx2 {
        sx1 > left && sx1 < right && max_y > top && min_y < bottom
    } else {
        left < max_x && right > min_x && top < max_y && bottom > min_y
    }
}

/// The box overlaps a node, meets a segment of some path, or overlaps a
/// label already placed.
pub open spec fn collides_spec(
    b: BoundingBox,
    nodes: Seq<BoundingBox>,
    paths: Seq<Seq<Segment>>,
    placed: Seq<BoundingBox>,
) -> bool {
    ||| exists|i: int| 0 <= i < nodes.len() && bbox_overlap(b, #[trigger] nodes[i])
    ||| exists|p: int, j: int|
        0 <= p < paths.len() && 0 <= j < paths[p].len() && bbox_meets_segment(
            b,
            #[trigger] paths[p][j],
        )
    ||| exists|i: int| 0 <= i < placed.len() && bbox_overlap(b, #[trigger] placed[i])
}

/// The segments of each path.
pub open spec fn path_views(all_segments: Seq<Vec<Segment>>) -> Seq<Seq<Segment>> {
    all_segments.map_values(|v: Vec<Segment>| v@)
}

/// Whether a label box collides with a node (given by its box), a segment
/// of an edge path, or a label already placed.
pub fn collides(
    bbox: &BoundingBox,
    nodes: &Vec<BoundingBox>,
    all_segments: &Vec<Vec<Segment>>,
    placed_labels: &Vec<BoundingBox>,
) -> (r: bool)
    ensures
        r == collides_spec(*bbox, nodes@, path_views(all_segments@), placed_labels@),
{
    let ghost paths = path_views(all_segments@);
    let mut i: usize = 0;
    while i < nodes.len()
        invariant
            i <= nodes@.len(),
            forall|k: int| 0 <= k < i ==> !bbox_overlap(*bbox, #[trigger] nodes@[k]),
        decreases nodes.len() - i,
    {
        if bbox.overlaps(&nodes[i]) {
            return true;
        }
        i = i + 1;
    }
    let mut p: usize = 0;
    while p < all_segments.len()
        invariant
            p <= all_segments@.len(),
            paths == path_views(all_segments@),
            forall|k: int| 0 <= k < nodes@.len() ==> !bbox_overlap(*bbox, #[trigger] nodes@[k]),
            forall|q: int, j: int|
                0 <= q < p && 0 <= j < paths[q].len() ==> !bbox_meets_segment(*bbox, #[trigger] paths[q][j]),
        decreases all_segments.len() - p,
    {
        let segs = &all_segments[p];
        assert(segs@ == paths[p as int]);
        let mut j: usize = 0;
        while j < segs.len()
            invariant
                j <= segs@.len(),
                p < all_segments@.len(),
                segs@ == paths[p as int],
                paths == path_views(all_segments@),
                forall|k: int| 0 <= k < j ==> !bbox_meets_segment(*bbox, #[trigger] segs@[k]),
            decreases segs.len() - j,
        {
            if bbox_intersects_segment(bbox, &segs[j]) {
                assert(bbox_meets_segment(*bbox, paths[p as int][j as int]));
                return true;
            }
            j = j + 1;
        }
        p = p + 1;
    }
    let mut k: usize = 0;
    while k < placed_labels.len()
        invariant
            k <= placed_labels@.len(),
            paths == path_views(all_segments@),
            forall|t: int| 0 <= t < nodes@.len() ==> !bbox_overlap(*bbox, #[trigger] nodes@[t]),
            forall|q: int, j: int|
                0 <= q < paths.len() && 0 <= j < paths[q].len() ==> !bbox_meets_segment(
                    *bbox,
                    #[trigger] paths[q][j],
                ),
            forall|t: int| 0 <= t < k ==> !bbox_overlap(*bbox, #[trigger] placed_labels@[t]),
        decreases placed_labels.len() - k,
    {
        if bbox.overlaps(&placed_labels[k]) {
            return true;
        }
        k = k + 1;
    }
    false
}

} // verus!
