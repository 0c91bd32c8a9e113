//! Snapping to the grid: the spiral search for the nearest free grid cell.
use vstd::prelude::*;

verus! {

/// How far the spiral search looks, in Manhattan distance.
pub const SPIRAL_RADIUS: i64 = 50;

/// The candidates at Manhattan distance `r` from `(cx, cy)`, in search
/// order: for `dx` from `-r` to `r`, with `dy = r - |dx|`, first
/// `(cx + dx, cy + dy)` then `(cx + dx, cy - dy)`.
pub open spec fn ring(cx: int, cy: int, r: int) -> Seq<(int, int)> {
    Seq::new(
        (2 * (2 * r + 1)) as nat,
        |j: int|
            {
                let dx = -r + j / 2;
                let dy = r - (if dx < 0 {
                    -dx
                } else {
                    dx
                });
                if j % 2 == 0 {
                    (cx + dx, cy + dy)
                } else {
                    (cx + dx, cy - dy)
                }
            },
    )
}

/// The candidates of the rings `1..=r`, in search order.
pub open spec fn spiral(cx: int, cy: int, r: int) -> Seq<(int, int)>
    decreases r,
{
    if r <= 0 {
        seq![]
    } else {
        spiral(cx, cy, r - 1) + ring(cx, cy, r)
    }
}

/// The point `(x, y)` is in `occupied`.
pub open spec fn occupied_at(occupied: Seq<(i64, i64)>, x: int, y: int) -> bool {
    exists|i: int| 0 <= i < occupied.len() && occupied[i].0 == x && occupied[i].1 == y
}

/// Index of the first free candidate among the first `k`.
pub open spec fn first_free_upto(cands: Seq<(int, int)>, occupied: Seq<(i64, i64)>, k: int) -> Option<int>
    decreases k,
{
    if k <= 0 {
        None
    } else {
        match first_free_upto(cands, occupied, k - 1) {
            Some(i) => Some(i),
            None => if !occupied_at(occupied, cands[k - 1].0, cands[k - 1].1) {
                Some(k - 1)
            } else {
                None
            },
        }
    }
}

/// The candidates the search looks at: up to and including the first free
/// one, or all of them.
pub open spec fn searched(cx: int, cy: int, occupied: Seq<(i64, i64)>) -> int {
    let cands = spiral(cx, cy, SPIRAL_RADIUS as int);
    match first_free_upto(cands, occupied, cands.len() as int) {
        Some(i) => i + 1,
        None => cands.len() as int,
    }
}

/// Every candidate the search looks at has `i64` coordinates.
pub open spec fn spiral_in_range(cx: int, cy: int, occupied: Seq<(i64, i64)>) -> bool {
    let cands = spiral(cx, cy, SPIRAL_RADIUS as int);
    forall|j: int|
        0 <= j < searched(cx, cy, occupied) ==> i64::MIN <= (#[trigger] cands[j]).0 <= i64::MAX
            && i64::MIN <= cands[j].1 <= i64::MAX
}

/// The result of the spiral search: the first free candidate, if any.
pub open spec fn spiral_result(cx: int, cy: int, occupied: Seq<(i64, i64)>) -> Option<(i64, i64)> {
    let cands = spiral(cx, cy, SPIRAL_RADIUS as int);
    match first_free_upto(cands, occupied, cands.len() as int) {
        Some(i) => Some((cands[i].0 as i64, cands[i].1 as i64)),
        None => None,
    }
}

proof fn lemma_spiral_len(cx: int, cy: int, r: int)
    requires
        0 <= r,
    ensures
        spiral(cx, cy, r).len() == 2 * r * (r + 2),
    decreases r,
{
    if r > 0 {
        lemma_spiral_len(cx, cy, r - 1);
        assert(2 * (r - 1) * (r - 1 + 2) + 2 * (2 * r + 1) == 2 * r * (r + 2)) by (nonlinear_arith);
        assert(ring(cx, cy, r).len() == 2 * (2 * r + 1));
    } else {
        assert(2 * r * (r + 2) == 0) by (nonlinear_arith)
            requires
                r == 0,
        ;
    }
}

proof fn lemma_spiral_prefix(cx: int, cy: int, r1: int, r2: int, i: int)
    requires
        0 <= r1 <= r2,
        0 <= i < spiral(cx, cy, r1).len(),
    ensures
        i < spiral(cx, cy, r2).len(),
        spiral(cx, cy, r2)[i] == spiral(cx, cy, r1)[i],
    decreases r2 - r1,
{
    if r1 < r2 {
        lemma_spiral_prefix(cx, cy, r1, r2 - 1, i);
    }
}

proof fn lemma_first_free_stays(cands: Seq<(int, int)>, occupied: Seq<(i64, i64)>, k: int, k2: int, i: int)
    requires
        k <= k2,
        first_free_upto(cands, occupied, k) == Some(i),
    ensures
        first_free_upto(cands, occupied, k2) == Some(i),
    decreases k2 - k,
{
    if k < k2 {
        lemma_first_free_stays(cands, occupied, k, k2 - 1, i);
    }
}

proof fn lemma_first_free_shape(cands: Seq<(int, int)>, occupied: Seq<(i64, i64)>, k: int)
    requires
        first_free_upto(cands, occupied, k) is Some,
    ensures
        ({
            let i = first_free_upto(cands, occupied, k)->0;
            &&& 0 <= i < k
            &&& first_free_upto(cands, occupied, i) is None
            &&& first_free_upto(cands, occupied, i + 1) == Some(i)
        }),
    decreases k,
{
    if first_free_upto(cands, occupied, k - 1) is Some {
        lemma_first_free_shape(cands, occupied, k - 1);
    }
}

/// A candidate before which every candidate is taken is looked at, so it
/// has `i64` coordinates.
proof fn lemma_looked_at(cx: int, cy: int, occupied: Seq<(i64, i64)>, k: int)
    requires
        spiral_in_range(cx, cy, occupied),
        0 <= k < spiral(cx, cy, SPIRAL_RADIUS as int).len(),
        first_free_upto(spiral(cx, cy, SPIRAL_RADIUS as int), occupied, k) is None,
    ensures
        i64::MIN <= spiral(cx, cy, SPIRAL_RADIUS as int)[k].0 <= i64::MAX,
        i64::MIN <= spiral(cx, cy, SPIRAL_RADIUS as int)[k].1 <= i64::MAX,
{
    let cands = spiral(cx, cy, SPIRAL_RADIUS as int);
    let total = cands.len() as int;
    if first_free_upto(cands, occupied, total) is Some {
        lemma_first_free_shape(cands, occupied, total);
        let f = first_free_upto(cands, occupied, total)->0;
        if f < k {
            lemma_first_free_stays(cands, occupied, f + 1, k, f);
        }
    }
    assert(k < searched(cx, cy, occupied));
}

/// Whether `(x, y)` is in `occupied`.
fn point_occupied(occupied: &Vec<(i64, i64)>, x: i64, y: i64) -> (b: bool)
    ensures
        b == occupied_at(occupied@, x as int, y as int),
{
    let mut i: usize = 0;
    while i < occupied.len()
        invariant
            i <= occupied.len(),
            forall|j: int| 0 <= j < i ==> !(occupied@[j].0 == x && occupied@[j].1 == y),
        decreases occupied.len() - i,
    {
        let (px, py) = occupied[i];
        if px == x && py == y {
            return true;
        }
        i = i + 1;
    }
    false
}

/// Look outward from `(cx, cy)` for the nearest grid point that is not in
/// `occupied`: ring by ring up to `SPIRAL_RADIUS`, each ring walked as
/// `ring` describes; `None` when every candidate is taken.
pub fn spiral_search(cx: i64, cy: i64, occupied: &Vec<(i64, i64)>) -> (r: Option<(i64, i64)>)
    requires
        spiral_in_range(cx as int, cy as int, occupied@),
    ensures
        r == spiral_result(cx as int, cy as int, occupied@),
{
    let ghost cands = spiral(cx as int, cy as int, SPIRAL_RADIUS as int);
    let ghost total = cands.len() as int;
    proof {
        lemma_spiral_len(cx as int, cy as int, SPIRAL_RADIUS as int);
    }
    let mut radius: i64 = 1;
    assert(2 * (radius - 1) * (radius + 1) == 0);
    while radius <= SPIRAL_RADIUS
        invariant
            1 <= radius <= SPIRAL_RADIUS + 1,
            cands == spiral(cx as int, cy as int, SPIRAL_RADIUS as int),
            total == cands.len(),
            total == 2 * SPIRAL_RADIUS * (SPIRAL_RADIUS + 2),
            spiral_in_range(cx as int, cy as int, occupied@),
            first_free_upto(cands, occupied@, 2 * (radius - 1) * (radius + 1)) is None,
        decreases SPIRAL_RADIUS + 1 - radius,
    {
        let ghost base = 2 * (radius - 1) * (radius + 1);
        proof {
            lemma_spiral_len(cx as int, cy as int, radius - 1);
            lemma_spiral_len(cx as int, cy as int, radius as int);
            assert(2 * radius * (radius + 2) <= total) by (nonlinear_arith)
                requires
                    1 <= radius <= 50,
                    total == 2 * 50 * 52,
            ;
        }
        let mut dx: i64 = -radius;
        while dx <= radius
            invariant
                1 <= radius <= SPIRAL_RADIUS,
                -radius <= dx <= radius + 1,
                cands == spiral(cx as int, cy as int, SPIRAL_RADIUS as int),
                total == cands.len(),
                base == 2 * (radius - 1) * (radius + 1),
                spiral(cx as int, cy as int, radius - 1).len() == base,
                spiral(cx as int, cy as int, radius as int).len() == 2 * radius * (radius + 2),
                2 * radius * (radius + 2) <= total,
                spiral_in_range(cx as int, cy as int, occupied@),
                first_free_upto(cands, occupied@, base + 2 * (dx + radius)) is None,
            decreases radius + 1 - dx,
        {
            let dy = radius - (if dx < 0 {
                -dx
            } else {
                dx
            });
            let ghost j = 2 * (dx + radius);
            let ghost k = base + j;
            proof {
                assert(spiral(cx as int, cy as int, radius as int) == spiral(cx as int, cy as int, radius - 1)
                    + ring(cx as int, cy as int, radius as int));
                assert(j / 2 == dx + radius && j % 2 == 0);
                assert((j + 1) / 2 == dx + radius && (j + 1) % 2 == 1);
                lemma_spiral_prefix(cx as int, cy as int, radius as int, SPIRAL_RADIUS as int, k);
                lemma_spiral_prefix(cx as int, cy as int, radius as int, SPIRAL_RADIUS as int, k + 1);
                assert(cands[k] == (cx + dx, cy + dy));
                assert(cands[k + 1] == (cx + dx, cy - dy));
                lemma_looked_at(cx as int, cy as int, occupied@, k);
            }
            let x = cx + dx;
            let y1 = cy + dy;
            if !point_occupied(occupied, x, y1) {
                proof {
                    assert(first_free_upto(cands, occupied@, k + 1) == Some(k));
                    lemma_first_free_stays(cands, occupied@, k + 1, total, k);
                }
                return Some((x, y1));
            }
            proof {
                assert(first_free_upto(cands, occupied@, k + 1) is None);
                lemma_looked_at(cx as int, cy as int, occupied@, k + 1);
            }
            let y2 = cy - dy;
            if !point_occupied(occupied, x, y2) {
                proof {
                    assert(first_free_upto(cands, occupied@, k + 2) == Some(k + 1));
                    lemma_first_free_stays(cands, occupied@, k + 2, total, k + 1);
                }
                return Some((x, y2));
            }
            proof {
                assert(first_free_upto(cands, occupied@, k + 2) is None);
            }
            dx = dx + 1;
        }
        proof {
            assert(base + 2 * (2 * radius + 1) == 2 * radius * (radius + 2)) by (nonlinear_arith)
                requires
                    base == 2 * (radius - 1) * (radius + 1),
            ;
        }
        radius = radius + 1;
    }
    None
}


// ─── snapping a sequence of nodes ───────────────────────────────────────────

/// A node to snap: the grid cell its snapped position falls on, and the
/// cells it spans across and down.
#[derive(Debug, Clone, Copy, PartialEq, Eq, Structural)]
pub struct SnapRequest {
    pub grid_x: i64,
    pub grid_y: i64,
    pub cells_w: i64,
    pub cells_h: i64,
}

/// `occupied` after marking the first `t` cells of a block at `(cx, cy)`
/// that is `h` cells down, column by column (`dx = t / h`, `dy = t % h`),
/// each cell added unless it is there already.
pub open spec fn mark_upto(occupied: Seq<(i64, i64)>, cx: int, cy: int, h: int, t: int) -> Seq<(i64, i64)>
    decreases t,
{
    if t <= 0 || h <= 0 {
        occupied
    } else {
        let o = mark_upto(occupied, cx, cy, h, t - 1);
        let x = cx + (t - 1) / h;
        let y = cy + (t - 1) % h;
        if occupied_at(o, x, y) {
            o
        } else {
            o.push((x as i64, y as i64))
        }
    }
}

/// The cells of a `w` by `h` block at `(cx, cy)` added to `occupied`.
pub open spec fn mark_block(occupied: Seq<(i64, i64)>, cx: int, cy: int, w: int, h: int) -> Seq<(i64, i64)> {
    if w <= 0 || h <= 0 {
        occupied
    } else {
        mark_upto(occupied, cx, cy, h, w * h)
    }
}

/// Snapping one node: its own cell when free, else the spiral search's
/// cell; the block it spans from there is then taken. When the search finds
/// nothing the node keeps its cell and takes none.
pub open spec fn snap_step(occupied: Seq<(i64, i64)>, req: SnapRequest) -> (Seq<(i64, i64)>, Option<(i64, i64)>) {
    let chosen = if !occupied_at(occupied, req.grid_x as int, req.grid_y as int) {
        Some((req.grid_x, req.grid_y))
    } else {
        spiral_result(req.grid_x as int, req.grid_y as int, occupied)
    };
    match chosen {
        Some(c) => (mark_block(occupied, c.0 as int, c.1 as int, req.cells_w as int, req.cells_h as int), Some(c)),
        None => (occupied, None),
    }
}

/// Taken cells and the cells chosen after snapping the first `k` nodes.
pub open spec fn snap_run(reqs: Seq<SnapRequest>, k: int) -> (Seq<(i64, i64)>, Seq<Option<(i64, i64)>>)
    decreases k,
{
    if k <= 0 {
        (seq![], seq![])
    } else {
        let (occ, chosen) = snap_run(reqs, k - 1);
        let (occ2, c) = snap_step(occ, reqs[k - 1]);
        (occ2, chosen.push(c))
    }
}

/// A node's cell is far enough from the ends of the `i64` range for the
/// spiral search and for the block it spans.
pub open spec fn request_in_range(req: SnapRequest) -> bool {
    &&& i64::MIN + SPIRAL_RADIUS <= req.grid_x
    &&& i64::MIN + SPIRAL_RADIUS <= req.grid_y
    &&& req.grid_x + SPIRAL_RADIUS + (if req.cells_w > 0 { req.cells_w as int } else { 0 }) <= i64::MAX
    &&& req.grid_y + SPIRAL_RADIUS + (if req.cells_h > 0 { req.cells_h as int } else { 0 }) <= i64::MAX
}

proof fn lemma_spiral_near(cx: int, cy: int, r: int, j: int)
    requires
        0 <= r,
        0 <= j < spiral(cx, cy, r).len(),
    ensures
        cx - r <= spiral(cx, cy, r)[j].0 <= cx + r,
        cy - r <= spiral(cx, cy, r)[j].1 <= cy + r,
    decreases r,
{
    if r > 0 {
        let prev = spiral(cx, cy, r - 1);
        if j < prev.len() {
            lemma_spiral_near(cx, cy, r - 1, j);
            assert(spiral(cx, cy, r)[j] == prev[j]);
        } else {
            assert(spiral(cx, cy, r)[j] == ring(cx, cy, r)[j - prev.len()]);
        }
    }
}

proof fn lemma_spiral_fits(req: SnapRequest, occupied: Seq<(i64, i64)>)
    requires
        request_in_range(req),
    ensures
        spiral_in_range(req.grid_x as int, req.grid_y as int, occupied),
        spiral_result(req.grid_x as int, req.grid_y as int, occupied) matches Some(c) ==> {
            &&& req.grid_x - SPIRAL_RADIUS <= c.0 <= req.grid_x + SPIRAL_RADIUS
            &&& req.grid_y - SPIRAL_RADIUS <= c.1 <= req.grid_y + SPIRAL_RADIUS
        },
{
    let cx = req.grid_x as int;
    let cy = req.grid_y as int;
    let cands = spiral(cx, cy, SPIRAL_RADIUS as int);
    assert forall|j: int| 0 <= j < searched(cx, cy, occupied) implies i64::MIN <= (#[trigger] cands[j]).0
        <= i64::MAX && i64::MIN <= cands[j].1 <= i64::MAX by {
        if first_free_upto(cands, occupied, cands.len() as int) is Some {
            lemma_first_free_shape(cands, occupied, cands.len() as int);
        }
        lemma_spiral_near(cx, cy, SPIRAL_RADIUS as int, j);
    }
    if first_free_upto(cands, occupied, cands.len() as int) is Some {
        lemma_first_free_shape(cands, occupied, cands.len() as int);
        let i = first_free_upto(cands, occupied, cands.len() as int)->0;
        lemma_spiral_near(cx, cy, SPIRAL_RADIUS as int, i);
    }
}

/// Mark the cells of a `w` by `h` block at `(cx, cy)` as taken.
fn mark_cells(occupied: &mut Vec<(i64, i64)>, cx: i64, cy: i64, w: i64, h: i64)
    requires
        w > 0 ==> cx + w - 1 <= i64::MAX,
        h > 0 ==> cy + h - 1 <= i64::MAX,
    ensures
        final(occupied)@ == mark_block(old(occupied)@, cx as int, cy as int, w as int, h as int),
{
    if w <= 0 || h <= 0 {
        return;
    }
    let ghost o0 = occupied@;
    let mut dx: i64 = 0;
    while dx < w
        invariant
            0 <= dx <= w,
            w > 0,
            h > 0,
            cx + w - 1 <= i64::MAX,
            cy + h - 1 <= i64::MAX,
            occupied@ == mark_upto(o0, cx as int, cy as int, h as int, dx * h),
        decreases w - dx,
    {
        let mut dy: i64 = 0;
        while dy < h
            invariant
                0 <= dx < w,
                0 <= dy <= h,
                w > 0,
                h > 0,
                cx + w - 1 <= i64::MAX,
                cy + h - 1 <= i64::MAX,
                occupied@ == mark_upto(o0, cx as int, cy as int, h as int, dx * h + dy),
            decreases h - dy,
        {
            let ghost t = dx * h + dy;
            proof {
                vstd::arithmetic::div_mod::lemma_fundamental_div_mod_converse(t, h as int, dx as int, dy as int);
            }
            let x = cx + dx;
            let y = cy + dy;
            if !point_occupied(occupied, x, y) {
                occupied.push((x, y));
            }
            dy = dy + 1;
        }
        proof {
            assert(dx * h + h == (dx + 1) * h) by (nonlinear_arith);
        }
        dx = dx + 1;
    }
}

/// Snap nodes one after another: each takes its own grid cell when that is
/// free, else the cell the spiral search finds, and then the block of cells
/// it spans; gives each node's cell, `None` where the search found nothing
/// (the node then keeps its position and takes no cells).
pub fn snap_cells(requests: &Vec<SnapRequest>) -> (cells: Vec<Option<(i64, i64)>>)
    requires
        forall|k: int| 0 <= k < requests@.len() ==> request_in_range(#[trigger] requests@[k]),
    ensures
        cells@ == snap_run(requests@, requests@.len() as int).1,
{
    let mut occupied: Vec<(i64, i64)> = Vec::new();
    let mut cells: Vec<Option<(i64, i64)>> = Vec::new();
    let mut k: usize = 0;
    while k < requests.len()
        invariant
            k <= requests@.len(),
            forall|j: int| 0 <= j < requests@.len() ==> request_in_range(#[trigger] requests@[j]),
            (occupied@, cells@) == snap_run(requests@, k as int),
        decreases requests.len() - k,
    {
        let req = requests[k];
        proof {
            lemma_spiral_fits(req, occupied@);
        }
        let chosen = if !point_occupied(&occupied, req.grid_x, req.grid_y) {
            Some((req.grid_x, req.grid_y))
        } else {
            spiral_search(req.grid_x, req.grid_y, &occupied)
        };
        match chosen {
            Some((x, y)) => {
                mark_cells(&mut occupied, x, y, req.cells_w, req.cells_h);
            },
            None => {},
        }
        cells.push(chosen);
        k = k + 1;
    }
    cells
}

// ─── snapped nodes never share a cell ────────────────────────────────────────

proof fn lemma_mark_upto_keeps(occupied: Seq<(i64, i64)>, cx: int, cy: int, h: int, t: int, x: int, y: int)
    requires
        occupied_at(occupied, x, y),
    ensures
        occupied_at(mark_upto(occupied, cx, cy, h, t), x, y),
    decreases t,
{
    if t > 0 && h > 0 {
        lemma_mark_upto_keeps(occupied, cx, cy, h, t - 1, x, y);
        let o = mark_upto(occupied, cx, cy, h, t - 1);
        let i = choose|i: int| 0 <= i < o.len() && o[i].0 == x && o[i].1 == y;
        let nx = cx + (t - 1) / h;
        let ny = cy + (t - 1) % h;
        if !occupied_at(o, nx, ny) {
            assert(o.push((nx as i64, ny as i64))[i] == o[i]);
        }
    }
}

proof fn lemma_mark_upto_has_corner(occupied: Seq<(i64, i64)>, cx: i64, cy: i64, h: int, t: int)
    requires
        h >= 1,
        t >= 1,
    ensures
        occupied_at(mark_upto(occupied, cx as int, cy as int, h, t), cx as int, cy as int),
    decreases t,
{
    if t > 1 {
        lemma_mark_upto_has_corner(occupied, cx, cy, h, t - 1);
        lemma_mark_upto_keeps(
            mark_upto(occupied, cx as int, cy as int, h, t - 1),
            cx as int,
            cy as int,
            h,
            1,
            cx as int,
            cy as int,
        );
        let o = mark_upto(occupied, cx as int, cy as int, h, t - 1);
        let i = choose|i: int| 0 <= i < o.len() && o[i].0 == cx && o[i].1 == cy;
        let nx = cx + (t - 1) / h;
        let ny = cy + (t - 1) % h;
        if !occupied_at(o, nx, ny) {
            assert(o.push((nx as i64, ny as i64))[i] == o[i]);
        }
    } else {
        let o = mark_upto(occupied, cx as int, cy as int, h, 0);
        assert(0int / h == 0 && 0int % h == 0) by (nonlinear_arith)
            requires
                h >= 1,
        ;
        if !occupied_at(o, cx as int, cy as int) {
            let p = o.push((cx, cy));
            assert(p[o.len() as int] == (cx, cy));
        }
    }
}

/// The cell a node takes was free when it took it, within the `i64` range.
proof fn lemma_step_takes_free_cell(occupied: Seq<(i64, i64)>, req: SnapRequest)
    requires
        request_in_range(req),
    ensures
        snap_step(occupied, req).1 matches Some(c) ==> !occupied_at(occupied, c.0 as int, c.1 as int),
{
    if occupied_at(occupied, req.grid_x as int, req.grid_y as int) {
        let cx = req.grid_x as int;
        let cy = req.grid_y as int;
        let cands = spiral(cx, cy, SPIRAL_RADIUS as int);
        if first_free_upto(cands, occupied, cands.len() as int) is Some {
            lemma_first_free_shape(cands, occupied, cands.len() as int);
            let i = first_free_upto(cands, occupied, cands.len() as int)->0;
            lemma_spiral_near(cx, cy, SPIRAL_RADIUS as int, i);
        }
    }
}

proof fn lemma_snap_run_prefix(reqs: Seq<SnapRequest>, k: int, n: int, x: int, y: int)
    requires
        0 <= k <= n,
        forall|j: int| 0 <= j < reqs.len() ==> (#[trigger] reqs[j]).cells_w >= 1 && reqs[j].cells_h >= 1,
        occupied_at(snap_run(reqs, k).0, x, y),
    ensures
        occupied_at(snap_run(reqs, n).0, x, y),
        snap_run(reqs, n).1.len() == n,
    decreases n - k,
{
    if k < n {
        lemma_snap_run_prefix(reqs, k, n - 1, x, y);
        let occ = snap_run(reqs, n - 1).0;
        let req = reqs[n - 1];
        let chosen = snap_step(occ, req).1;
        if chosen is Some {
            let c = chosen->0;
            lemma_mark_upto_keeps(occ, c.0 as int, c.1 as int, req.cells_h as int, req.cells_w * req.cells_h, x, y);
        }
    } else {
        lemma_snap_run_len(reqs, n);
    }
}

proof fn lemma_snap_run_len(reqs: Seq<SnapRequest>, n: int)
    requires
        0 <= n,
    ensures
        snap_run(reqs, n).1.len() == n,
    decreases n,
{
    if n > 0 {
        lemma_snap_run_len(reqs, n - 1);
    }
}

proof fn lemma_snap_run_entry(reqs: Seq<SnapRequest>, k: int, n: int)
    requires
        0 <= k < n,
    ensures
        snap_run(reqs, n).1[k] == snap_step(snap_run(reqs, k).0, reqs[k]).1,
    decreases n,
{
    lemma_snap_run_len(reqs, n - 1);
    if k < n - 1 {
        lemma_snap_run_entry(reqs, k, n - 1);
    }
}

/// Law: snapped nodes never share a cell: any two nodes that both take a
/// cell take different ones (each node spanning at least one cell).
pub proof fn lemma_snapped_cells_distinct(reqs: Seq<SnapRequest>, k1: int, k2: int)
    requires
        forall|j: int| 0 <= j < reqs.len() ==> request_in_range(#[trigger] reqs[j]),
        forall|j: int| 0 <= j < reqs.len() ==> (#[trigger] reqs[j]).cells_w >= 1 && reqs[j].cells_h >= 1,
        0 <= k1 < k2 < reqs.len(),
        snap_run(reqs, reqs.len() as int).1[k1] is Some,
        snap_run(reqs, reqs.len() as int).1[k2] is Some,
    ensures
        snap_run(reqs, reqs.len() as int).1[k1] != snap_run(reqs, reqs.len() as int).1[k2],
{
    let n = reqs.len() as int;
    lemma_snap_run_entry(reqs, k1, n);
    lemma_snap_run_entry(reqs, k2, n);
    let occ1 = snap_run(reqs, k1).0;
    let a = snap_step(occ1, reqs[k1]).1->0;
    let req = reqs[k1];
    assert(req.cells_w * req.cells_h >= 1) by (nonlinear_arith)
        requires
            req.cells_w >= 1,
            req.cells_h >= 1,
    ;
    lemma_mark_upto_has_corner(occ1, a.0, a.1, req.cells_h as int, req.cells_w * req.cells_h);
    assert(snap_run(reqs, k1 + 1).0 == snap_step(occ1, req).0);
    lemma_snap_run_prefix(reqs, k1 + 1, k2, a.0 as int, a.1 as int);
    lemma_step_takes_free_cell(snap_run(reqs, k2).0, reqs[k2]);
}

} // verus!
