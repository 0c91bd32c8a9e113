//! Where a label goes relative to its anchor point on a segment.
use vstd::prelude::*;

use super::placement::{floor_half, LabelSide, LABEL_PADDING};

verus! {

/// Top-left corner of a `w` by `h` label on the given side of an anchor
/// point: centred across it above or below, centred down it left or right,
/// centred on it for a label on the edge; rounded down to a whole pixel.
pub open spec fn candidate_position_spec(ax: int, ay: int, w: int, h: int, side: LabelSide) -> (int, int) {
    match side {
        LabelSide::Above => ((2 * ax - w) / 2, ay - h - LABEL_PADDING),
        LabelSide::Below => ((2 * ax - w) / 2, ay + LABEL_PADDING),
        LabelSide::Left => (ax - w - LABEL_PADDING, (2 * ay - h) / 2),
        LabelSide::Right => (ax + LABEL_PADDING, (2 * ay - h) / 2),
        LabelSide::OnEdge => ((2 * ax - w) / 2, (2 * ay - h) / 2),
    }
}

/// Top-left corner of a label on one side of an anchor point (see
/// `candidate_position_spec`).
pub fn candidate_position(anchor_x: i64, anchor_y: i64, label_width: i64, label_height: i64, side: LabelSide) -> (r: (i64, i64))
    requires
        ({
            let p = candidate_position_spec(
                anchor_x as int,
                anchor_y as int,
                label_width as int,
                label_height as int,
                side,
            );
            i64::MIN <= p.0 <= i64::MAX && i64::MIN <= p.1 <= i64::MAX
        }),
    ensures
        (r.0 as int, r.1 as int) == candidate_position_spec(
            anchor_x as int,
            anchor_y as int,
            label_width as int,
            label_height as int,
            side,
        ),
{
    let ax = anchor_x as i128;
    let ay = anchor_y as i128;
    let w = label_width as i128;
    let h = label_height as i128;
    let pad = LABEL_PADDING as i128;
    let (x, y) = match side {
        LabelSide::Above => (floor_half(2 * ax - w), ay - h - pad),
        LabelSide::Below => (floor_half(2 * ax - w), ay + pad),
        LabelSide::Left => (ax - w - pad, floor_half(2 * ay - h)),
        LabelSide::Right => (ax + pad, floor_half(2 * ay - h)),
        LabelSide::OnEdge => (floor_half(2 * ax - w), floor_half(2 * ay - h)),
    };
    (x as i64, y as i64)
}

} // verus!
