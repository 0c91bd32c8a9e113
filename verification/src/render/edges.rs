//! Edge strokes and arrowheads.
use vstd::prelude::*;

use crate::model::{ArrowHead, EdgeStyle};

verus! {

/// A point in world coordinates (whole pixels).
#[derive(Debug, Clone, Copy, PartialEq, Eq, Structural)]
pub struct Point {
    pub x: i64,
    pub y: i64,
}

/// -1, 0 or 1 by the sign of `d`.
pub open spec fn sign_of(d: int) -> int {
    if d == 0 {
        0
    } else if d > 0 {
        1
    } else {
        -1
    }
}

/// The direction from `a` to `b`: the signs of the steps across and down.
pub open spec fn direction_of(a: Point, b: Point) -> (int, int) {
    (sign_of(b.x - a.x), sign_of(b.y - a.y))
}

/// The path changes direction at interior point `i`.
pub open spec fn is_bend(pts: Seq<Point>, i: int) -> bool {
    direction_of(pts[i - 1], pts[i]) != direction_of(pts[i], pts[i + 1])
}

/// The bend points among the interior points `1..k`, in order.
pub open spec fn bends_upto(pts: Seq<Point>, k: int) -> Seq<Point>
    decreases k,
{
    if k <= 1 {
        seq![]
    } else if is_bend(pts, k - 1) {
        bends_upto(pts, k - 1).push(pts[k - 1])
    } else {
        bends_upto(pts, k - 1)
    }
}

/// A path without its collinear points: the start, every bend and the end;
/// a path of at most two points is kept as it is.
pub open spec fn simplified_path(pts: Seq<Point>) -> Seq<Point> {
    if pts.len() <= 2 {
        pts
    } else {
        seq![pts[0]] + bends_upto(pts, pts.len() - 1) + seq![pts.last()]
    }
}

/// The direction from `from` to `to`: each coordinate step as -1, 0 or 1.
pub fn direction_sign(from: Point, to: Point) -> (r: (i32, i32))
    ensures
        (r.0 as int, r.1 as int) == direction_of(from, to),
{
    let dx: i128 = to.x as i128 - from.x as i128;
    let dy: i128 = to.y as i128 - from.y as i128;
    let sx: i32 = if dx == 0 {
        0
    } else if dx > 0 {
        1
    } else {
        -1
    };
    let sy: i32 = if dy == 0 {
        0
    } else if dy > 0 {
        1
    } else {
        -1
    };
    (sx, sy)
}

/// Drop the points where a path goes straight on: keeps the start, the
/// points where the direction changes, and the end.
pub fn simplify_path(points: &Vec<Point>) -> (r: Vec<Point>)
    ensures
        r@ == simplified_path(points@),
{
    let n = points.len();
    if n <= 2 {
        return points.clone();
    }
    let mut out: Vec<Point> = Vec::new();
    out.push(points[0]);
    let mut i: usize = 1;
    while i < n - 1
        invariant
            n == points@.len(),
            n > 2,
            1 <= i <= n - 1,
            out@ == seq![points@[0]] + bends_upto(points@, i as int),
        decreases n - 1 - i,
    {
        let d1 = direction_sign(points[i - 1], points[i]);
        let d2 = direction_sign(points[i], points[i + 1]);
        if d1.0 != d2.0 || d1.1 != d2.1 {
            out.push(points[i]);
        }
        proof {
            assert(seq![points@[0]] + bends_upto(points@, i + 1) =~= out@);
        }
        i = i + 1;
    }
    out.push(points[n - 1]);
    proof {
        assert(out@ =~= simplified_path(points@));
    }
    out
}

/// Marker definition of the flowchart arrowhead.
pub const ARROW_MARKER_DEFS: &'static str = "<defs>\
    <marker id=\"arrowhead\" viewBox=\"0 0 10 10\" refX=\"10\" refY=\"5\" \
    markerWidth=\"4\" markerHeight=\"4\" orient=\"auto-start-reverse\">\
    <path d=\"M 0 0 L 10 5 L 0 10 z\" fill=\"#666\"/>\
    </marker>\
    </defs>";

/// SVG `<defs>` block with the flowchart arrowhead marker.
pub fn arrow_marker_defs() -> (r: &'static str)
    ensures
        r@ == ARROW_MARKER_DEFS@,
{
    ARROW_MARKER_DEFS
}

/// Stroke attributes of an edge style.
pub fn stroke_attrs(style: EdgeStyle) -> (r: String)
    ensures
        style == EdgeStyle::Solid ==> r@ == "stroke-width=\"1.5\""@,
        style == EdgeStyle::Dotted ==> r@ == "stroke-width=\"1.5\" stroke-dasharray=\"5,5\""@,
        style == EdgeStyle::Thick ==> r@ == "stroke-width=\"3\""@,
{
    match style {
        EdgeStyle::Solid => String::from_str("stroke-width=\"1.5\""),
        EdgeStyle::Dotted => String::from_str("stroke-width=\"1.5\" stroke-dasharray=\"5,5\""),
        EdgeStyle::Thick => String::from_str("stroke-width=\"3\""),
    }
}

/// The marker attribute of an arrow head: the arrowhead marker, or nothing.
pub fn marker_attr(arrow_head: ArrowHead) -> (r: &'static str)
    ensures
        arrow_head == ArrowHead::Arrow ==> r@ == " marker-end=\"url(#arrowhead)\""@,
        arrow_head == ArrowHead::Plain ==> r@ == ""@,
{
    match arrow_head {
        ArrowHead::Arrow => " marker-end=\"url(#arrowhead)\"",
        ArrowHead::Plain => "",
    }
}

} // verus!
