use trellis_core::labels::collision::{bbox_intersects_segment, collides};
use trellis_core::labels::placement::{
    generate_candidates, measure_label_height, measure_label_width, path_to_segments,
    select_best_segment, BoundingBox, LabelSide, Segment, SegmentDirection, LABEL_CHAR_WIDTH,
    LABEL_LINE_HEIGHT,
};
use trellis_core::labels::slide::candidate_position;
use trellis_core::render::edges::Point;

fn bbox(x: i64, y: i64, width: i64, height: i64) -> BoundingBox {
    BoundingBox { x, y, width, height }
}

fn seg(x1: i64, y1: i64, x2: i64, y2: i64) -> Segment {
    Segment { x1, y1, x2, y2 }
}

// ─── collisions ─────────────────────────────────────────────────────────────

#[test]
fn test_bbox_intersects_horizontal_segment() {
    let bbox = bbox(10, 10, 20, 20);
    // Segment passing through the bbox horizontally
    assert!(bbox_intersects_segment(&bbox, &seg(0, 20, 40, 20)));
    // Segment above the bbox
    assert!(!bbox_intersects_segment(&bbox, &seg(0, 5, 40, 5)));
}

#[test]
fn test_bbox_intersects_vertical_segment() {
    let bbox = bbox(10, 10, 20, 20);
    // Segment passing through the bbox vertically
    assert!(bbox_intersects_segment(&bbox, &seg(20, 0, 20, 40)));
    // Segment to the left of the bbox
    assert!(!bbox_intersects_segment(&bbox, &seg(5, 0, 5, 40)));
}

#[test]
fn test_no_collision_with_empty() {
    let bbox = bbox(10, 10, 20, 20);
    assert!(!collides(&bbox, &Vec::new(), &Vec::new(), &Vec::new()));
}

#[test]
fn test_collision_with_node() {
    let bbox = bbox(10, 10, 20, 20);
    // node A, 50 by 30 at (15, 15)
    let node = BoundingBox { x: 15, y: 15, width: 50, height: 30 };
    assert!(collides(&bbox, &vec![node], &Vec::new(), &Vec::new()));
}

#[test]
fn test_collision_with_placed_label() {
    let bbox = bbox(10, 10, 20, 20);
    let placed = BoundingBox { x: 15, y: 15, width: 10, height: 10 };
    assert!(collides(&bbox, &Vec::new(), &Vec::new(), &vec![placed]));
}

#[test]
fn test_segment_on_bbox_edge_no_collision() {
    // A segment exactly on the top edge of the bbox should NOT collide
    // (using strict inequalities)
    let bbox = bbox(10, 10, 20, 20);
    assert!(!bbox_intersects_segment(&bbox, &seg(0, 10, 40, 10)));
}

#[test]
fn collision_with_a_segment_of_any_path() {
    let b = bbox(10, 10, 20, 20);
    let far = vec![seg(100, 100, 200, 100)];
    let through = vec![seg(0, 0, 0, 50), seg(0, 15, 50, 15)];
    assert!(!collides(&b, &Vec::new(), &vec![far.clone()], &Vec::new()));
    assert!(collides(&b, &Vec::new(), &vec![far, through], &Vec::new()));
}

#[test]
fn diagonal_segment_uses_its_bounding_box() {
    let b = bbox(10, 10, 20, 20);
    assert!(bbox_intersects_segment(&b, &seg(0, 0, 12, 12)));
    assert!(!bbox_intersects_segment(&b, &seg(0, 0, 10, 10)));
    assert!(bbox_intersects_segment(&b, &seg(40, 0, 0, 40)));
}

// ─── label boxes and segments ───────────────────────────────────────────────

#[test]
fn test_measure_label_width() {
    let w = measure_label_width("Yes");
    assert_eq!(w, 3 * LABEL_CHAR_WIDTH);
}

#[test]
fn test_measure_label_height() {
    let h = measure_label_height("Yes");
    assert_eq!(h, LABEL_LINE_HEIGHT);
}

#[test]
fn label_size_follows_its_lines() {
    assert_eq!(measure_label_width("ab\r\nlonger\n"), 6 * LABEL_CHAR_WIDTH);
    assert_eq!(measure_label_height("ab\r\nlonger\n"), 2 * LABEL_LINE_HEIGHT);
    assert_eq!(measure_label_width(""), 0);
    assert_eq!(measure_label_height(""), LABEL_LINE_HEIGHT);
    // widths count bytes; a carriage return not before a newline counts
    assert_eq!(measure_label_width("é\r"), 3 * LABEL_CHAR_WIDTH);
    assert_eq!(measure_label_height("a\n\nb"), 3 * LABEL_LINE_HEIGHT);
}

#[test]
fn test_segment_direction() {
    let horiz = seg(0, 10, 50, 10);
    assert_eq!(horiz.direction(), SegmentDirection::Horizontal);
    let vert = seg(10, 0, 10, 50);
    assert_eq!(vert.direction(), SegmentDirection::Vertical);
}

#[test]
fn test_segment_midpoint() {
    let (mx, my) = seg(0, 0, 100, 0).midpoint();
    assert_eq!(mx, 50);
    assert_eq!(my, 0);
}

#[test]
fn midpoint_rounds_down() {
    assert_eq!(seg(0, 0, 5, -5).midpoint(), (2, -3));
}

#[test]
fn test_select_best_segment_middle() {
    let segments = vec![seg(0, 0, 30, 0), seg(30, 0, 30, 50), seg(30, 50, 80, 50)];
    // Middle segment (index 1) is long enough
    assert_eq!(select_best_segment(&segments, 40), 1);
}

#[test]
fn test_select_best_segment_longest_fallback() {
    let segments = vec![
        seg(0, 0, 10, 0),   // 10px
        seg(10, 0, 10, 5),  // 5px (middle)
        seg(10, 5, 100, 5), // 90px
    ];
    // Middle segment too short (5px < 40px), falls back to longest (index 2)
    assert_eq!(select_best_segment(&segments, 40), 2);
}

#[test]
fn longest_fallback_prefers_the_last_of_equals() {
    let segments = vec![seg(0, 0, 20, 0), seg(20, 0, 20, 1), seg(20, 1, 40, 1)];
    assert_eq!(select_best_segment(&segments, 30), 2);
    assert_eq!(select_best_segment(&Vec::new(), 30), 0);
}

#[test]
fn test_generate_candidates_horizontal() {
    let candidates = generate_candidates(&seg(0, 50, 100, 50), 30, 14);
    assert_eq!(candidates.len(), 2);
    assert_eq!(candidates[0].2, LabelSide::Above);
    assert_eq!(candidates[1].2, LabelSide::Below);
    assert_eq!((candidates[0].0, candidates[0].1), (35, 32));
    assert_eq!((candidates[1].0, candidates[1].1), (35, 54));
}

#[test]
fn test_generate_candidates_vertical() {
    let candidates = generate_candidates(&seg(50, 0, 50, 100), 30, 14);
    assert_eq!(candidates.len(), 2);
    assert_eq!(candidates[0].2, LabelSide::Left);
    assert_eq!(candidates[1].2, LabelSide::Right);
    assert_eq!((candidates[0].0, candidates[0].1), (16, 43));
    assert_eq!((candidates[1].0, candidates[1].1), (54, 43));
}

#[test]
fn test_bounding_box_overlaps() {
    let a = bbox(0, 0, 10, 10);
    let b = bbox(5, 5, 10, 10);
    assert!(a.overlaps(&b));
    let c = bbox(20, 20, 10, 10);
    assert!(!a.overlaps(&c));
}

#[test]
fn test_bounding_box_no_overlap_adjacent() {
    let a = bbox(0, 0, 10, 10);
    let b = bbox(10, 0, 10, 10);
    // Touching but not overlapping
    assert!(!a.overlaps(&b));
}

#[test]
fn path_segments_join_start_bends_and_end() {
    let points = vec![
        Point { x: 0, y: 0 },
        Point { x: 0, y: 20 },
        Point { x: 0, y: 40 },
        Point { x: 30, y: 40 },
    ];
    assert_eq!(path_to_segments(&points), vec![seg(0, 0, 0, 40), seg(0, 40, 30, 40)]);
    assert!(path_to_segments(&vec![Point { x: 1, y: 1 }]).is_empty());
}

// ─── positions around an anchor ─────────────────────────────────────────────

#[test]
fn test_candidate_position_above() {
    let (x, y) = candidate_position(50, 50, 20, 14, LabelSide::Above);
    assert_eq!(x, 40); // 50 - 20/2
    assert_eq!(y, 32); // 50 - 14 - 4
}

#[test]
fn test_candidate_position_below() {
    let (x, y) = candidate_position(50, 50, 20, 14, LabelSide::Below);
    assert_eq!(x, 40); // 50 - 20/2
    assert_eq!(y, 54); // 50 + 4
}

#[test]
fn candidate_positions_on_every_side() {
    assert_eq!(candidate_position(50, 50, 20, 14, LabelSide::Left), (26, 43));
    assert_eq!(candidate_position(50, 50, 20, 14, LabelSide::Right), (54, 43));
    assert_eq!(candidate_position(50, 50, 21, 15, LabelSide::OnEdge), (39, 42));
}
