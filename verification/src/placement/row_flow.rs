//! Row-flow placement: nodes left to right in rows of a fixed size.
//!
//! Sizes and coordinates are whole pixels here. The functions work on the
//! nodes named by `indices`, in slot order: slot `s` holds node
//! `indices[s]`, and goes to row `s / shapes_per_row`.
use vstd::prelude::*;

verus! {

/// Horizontal gap between elements of a row.
pub const ELEM_GAP_X: i64 = 40;

/// Vertical gap between rows.
pub const ELEM_GAP_Y: i64 = 60;

/// Handle for the row-flow layout: `shapes_per_row` nodes per row.
#[derive(Debug, Clone, Copy, PartialEq, Eq, Structural)]
pub struct RowFlowLayout {
    pub shapes_per_row: usize,
}

/// The node heights in slot order.
pub open spec fn slot_values(values: Seq<i64>, indices: Seq<usize>) -> Seq<int> {
    indices.map_values(|i: usize| values[i as int] as int)
}

/// The largest of `h[lo..hi)` and 0.
pub open spec fn max_from(h: Seq<int>, lo: int, hi: int) -> int
    decreases hi - lo,
{
    if hi <= lo {
        0
    } else {
        let m = max_from(h, lo, hi - 1);
        if h[hi - 1] > m {
            h[hi - 1]
        } else {
            m
        }
    }
}

/// The height of row `r`: the tallest of its slots, at least 0.
pub open spec fn row_height(h: Seq<int>, per_row: int, r: int) -> int {
    let end = if (r + 1) * per_row < h.len() {
        (r + 1) * per_row
    } else {
        h.len() as int
    };
    max_from(h, r * per_row, end)
}

/// Height of each row of the slots, in row order: the tallest node of the
/// row (or 0). There are as many rows as it takes to hold every slot,
/// `shapes_per_row` to a row.
pub fn compute_row_heights(node_heights: &Vec<i64>, indices: &Vec<usize>, shapes_per_row: usize) -> (rows: Vec<i64>)
    requires
        shapes_per_row > 0 || indices@.len() == 0,
        forall|s: int| 0 <= s < indices@.len() ==> (#[trigger] indices@[s]) < node_heights@.len(),
    ensures
        rows@.len() * shapes_per_row >= indices@.len(),
        rows@.len() == 0 || (rows@.len() - 1) * shapes_per_row < indices@.len(),
        forall|r: int|
            0 <= r < rows@.len() ==> rows@[r] as int == row_height(
                slot_values(node_heights@, indices@),
                shapes_per_row as int,
                r,
            ),
{
    let ghost h = slot_values(node_heights@, indices@);
    let n = indices.len();
    let mut rows: Vec<i64> = Vec::new();
    let mut start: usize = 0;
    while start < n
        invariant
            n == indices@.len(),
            h == slot_values(node_heights@, indices@),
            shapes_per_row > 0 || n == 0,
            forall|s: int| 0 <= s < indices@.len() ==> (#[trigger] indices@[s]) < node_heights@.len(),
            start <= n,
            start < n ==> start == rows@.len() * shapes_per_row,
            start == n ==> rows@.len() * shapes_per_row >= n,
            rows@.len() == 0 || (rows@.len() - 1) * shapes_per_row < n,
            forall|r: int|
                0 <= r < rows@.len() ==> rows@[r] as int == row_height(h, shapes_per_row as int, r),
        decreases n - start,
    {
        let end = if n - start > shapes_per_row {
            start + shapes_per_row
        } else {
            n
        };
        let ghost r = rows@.len() as int;
        proof {
            assert((r + 1) * shapes_per_row == r * shapes_per_row + shapes_per_row) by (nonlinear_arith);
        }
        let mut m: i64 = 0;
        let mut s: usize = start;
        while s < end
            invariant
                start <= s <= end,
                end <= n,
                n == indices@.len(),
                h == slot_values(node_heights@, indices@),
                forall|t: int| 0 <= t < indices@.len() ==> (#[trigger] indices@[t]) < node_heights@.len(),
                m as int == max_from(h, start as int, s as int),
            decreases end - s,
        {
            let v = node_heights[indices[s]];
            if v > m {
                m = v;
            }
            s = s + 1;
        }
        rows.push(m);
        proof {
            assert(row_height(h, shapes_per_row as int, r) == max_from(h, start as int, end as int));
            assert((r + 1) * shapes_per_row == r * shapes_per_row + shapes_per_row) by (nonlinear_arith);
        }
        start = end;
    }
    rows
}

/// The row's height, or 0 past the end of `row_heights`.
pub open spec fn height_or_zero(row_heights: Seq<i64>, r: int) -> int {
    if 0 <= r < row_heights.len() {
        row_heights[r] as int
    } else {
        0
    }
}

/// Top of row `r`: each earlier row's height plus the vertical gap, below
/// `start_y`.
pub open spec fn row_top(row_heights: Seq<i64>, start_y: int, r: int) -> int
    decreases r,
{
    if r <= 0 {
        start_y
    } else {
        row_top(row_heights, start_y, r - 1) + height_or_zero(row_heights, r - 1) + ELEM_GAP_Y
    }
}

/// Left of slot `s`: `start_x` at the start of a row, else the previous
/// slot's left plus its width and the horizontal gap.
pub open spec fn slot_left(widths: Seq<int>, per_row: int, start_x: int, s: int) -> int
    decreases s,
{
    if s <= 0 || s % per_row == 0 {
        start_x
    } else {
        slot_left(widths, per_row, start_x, s - 1) + widths[s - 1] + ELEM_GAP_X
    }
}

/// Where each slot goes, and the bottom of the last row (`start_y` when
/// there are no slots).
pub open spec fn rows_bottom(row_heights: Seq<i64>, start_y: int, per_row: int, n: int) -> int {
    if n <= 0 {
        start_y
    } else {
        let last = (n - 1) / per_row;
        row_top(row_heights, start_y, last) + height_or_zero(row_heights, last)
    }
}

/// Every coordinate that placing the slots computes fits in an `i64`.
pub open spec fn rows_fit(
    widths: Seq<int>,
    row_heights: Seq<i64>,
    start_x: int,
    start_y: int,
    per_row: int,
) -> bool {
    let n = widths.len() as int;
    &&& forall|s: int|
        0 <= s < n ==> i64::MIN <= #[trigger] slot_left(widths, per_row, start_x, s) <= i64::MAX
    &&& forall|r: int|
        0 <= r && r * per_row < n ==> i64::MIN <= #[trigger] row_top(row_heights, start_y, r)
            <= i64::MAX
    &&& i64::MIN <= rows_bottom(row_heights, start_y, per_row, n) <= i64::MAX
}

/// Place the slots in rows: left to right from (`start_x`, `start_y`),
/// starting a new row after every `shapes_per_row` slots, each row
/// `row_heights[r]` (0 past its end) plus the vertical gap below the one
/// before. Gives each slot's top-left corner, and the bottom of the last
/// row.
pub fn place_in_rows(
    node_widths: &Vec<i64>,
    indices: &Vec<usize>,
    start_x: i64,
    start_y: i64,
    shapes_per_row: usize,
    row_heights: &Vec<i64>,
) -> (r: (Vec<(i64, i64)>, i64))
    requires
        shapes_per_row > 0 || indices@.len() == 0,
        forall|s: int| 0 <= s < indices@.len() ==> (#[trigger] indices@[s]) < node_widths@.len(),
        rows_fit(
            slot_values(node_widths@, indices@),
            row_heights@,
            start_x as int,
            start_y as int,
            shapes_per_row as int,
        ),
    ensures
        r.0@.len() == indices@.len(),
        forall|s: int|
            0 <= s < indices@.len() ==> (#[trigger] r.0@[s]).0 as int == slot_left(
                slot_values(node_widths@, indices@),
                shapes_per_row as int,
                start_x as int,
                s,
            ) && r.0@[s].1 as int == row_top(
                row_heights@,
                start_y as int,
                s / (shapes_per_row as int),
            ),
        r.1 as int == rows_bottom(
            row_heights@,
            start_y as int,
            shapes_per_row as int,
            indices@.len() as int,
        ),
{
    let ghost w = slot_values(node_widths@, indices@);
    let ghost per = shapes_per_row as int;
    let n = indices.len();
    let mut out: Vec<(i64, i64)> = Vec::new();
    if n == 0 {
        return (out, start_y);
    }
    let mut row: usize = 0;
    let mut col: usize = 0;
    let mut y: i64 = start_y;
    let mut x: i64 = start_x;
    let mut slot: usize = 0;
    while slot < n
        invariant
            n == indices@.len(),
            n > 0,
            per == shapes_per_row as int,
            per > 0,
            w == slot_values(node_widths@, indices@),
            forall|s: int| 0 <= s < indices@.len() ==> (#[trigger] indices@[s]) < node_widths@.len(),
            rows_fit(w, row_heights@, start_x as int, start_y as int, per),
            slot <= n,
            out@.len() == slot,
            slot < n ==> col < per && slot == row * per + col,
            slot < n ==> x as int == slot_left(w, per, start_x as int, slot as int),
            slot == n ==> row as int == (n - 1) / per,
            y as int == row_top(row_heights@, start_y as int, row as int),
            forall|s: int|
                0 <= s < slot ==> (#[trigger] out@[s]).0 as int == slot_left(
                    w,
                    per,
                    start_x as int,
                    s,
                ) && out@[s].1 as int == row_top(row_heights@, start_y as int, s / per),
        decreases n - slot,
    {
        let ghost prev = slot as int;
        let ghost prev_row = row as int;
        proof {
            lemma_slot_row(prev, prev_row, col as int, per);
        }
        out.push((x, y));
        if col + 1 == shapes_per_row {
            if slot + 1 < n {
                let rh: i64 = if row < row_heights.len() {
                    row_heights[row]
                } else {
                    0
                };
                proof {
                    assert((prev_row + 1) * per == prev_row * per + per) by (nonlinear_arith);
                    lemma_slot_row(prev + 1, prev_row + 1, 0, per);
                    assert((prev_row + 1) * per < n);
                    assert(row_top(row_heights@, start_y as int, prev_row + 1) == y
                        + height_or_zero(row_heights@, prev_row) + ELEM_GAP_Y);
                    assert(i64::MIN <= row_top(row_heights@, start_y as int, prev_row + 1)
                        <= i64::MAX);
                    assert(slot_left(w, per, start_x as int, prev + 1) == start_x);
                }
                y = ((y as i128) + (rh as i128) + (ELEM_GAP_Y as i128)) as i64;
                row = row + 1;
                col = 0;
                x = start_x;
            }
        } else {
            if slot + 1 < n {
                proof {
                    lemma_slot_row(prev + 1, prev_row, col as int + 1, per);
                    assert(w[prev] == node_widths@[indices@[prev] as int] as int);
                    assert(slot_left(w, per, start_x as int, prev + 1) == x + w[prev]
                        + ELEM_GAP_X);
                    assert(i64::MIN <= slot_left(w, per, start_x as int, prev + 1) <= i64::MAX);
                }
                let wv = node_widths[indices[slot]];
                x = ((x as i128) + (wv as i128) + (ELEM_GAP_X as i128)) as i64;
            }
            col = col + 1;
        }
        slot = slot + 1;
    }
    let rh: i64 = if row < row_heights.len() {
        row_heights[row]
    } else {
        0
    };
    proof {
        assert(rows_bottom(row_heights@, start_y as int, per, n as int) == y + height_or_zero(
            row_heights@,
            row as int,
        ));
    }
    let bottom = ((y as i128) + (rh as i128)) as i64;
    (out, bottom)
}

/// Slot `row * per + col` with `col < per` is in row `row` at column `col`.
proof fn lemma_slot_row(slot: int, row: int, col: int, per: int)
    requires
        per > 0,
        0 <= col < per,
        row >= 0,
        slot == row * per + col,
    ensures
        slot / per == row,
        slot % per == col,
{
    vstd::arithmetic::div_mod::lemma_fundamental_div_mod_converse(slot, per, row, col);
}

} // verus!
