//! The routing grid: cells on the grid points of the diagram, their states
//! and owners, and the grid built from placed node footprints.
use vstd::prelude::*;

pub mod params;

verus! {

/// State of a grid cell.
#[derive(Debug, Clone, Copy, PartialEq, Eq, Structural)]
pub enum CellState {
    /// Free for routing.
    Free,
    /// Blocked by a node (impassable).
    Blocked,
    /// Occupied by an already-routed edge.
    Occupied,
}

/// A grid point, by row and column; may lie outside the grid.
#[derive(Debug, Clone, Copy, PartialEq, Eq, Structural, Hash)]
pub struct GridPoint {
    pub row: i64,
    pub col: i64,
}

/// `v` clamped to the `i64` range.
pub open spec fn clamp_i64(v: int) -> int {
    if v < i64::MIN {
        i64::MIN as int
    } else if v > i64::MAX {
        i64::MAX as int
    } else {
        v
    }
}

/// The grid line nearest `n` pixels from the origin with lines `d` apart:
/// `n / d` rounded to the nearest whole number, halves away from zero,
/// clamped to the `i64` range; with `d == 0` the largest or smallest `i64`
/// by the sign of `n`, or 0 for `n == 0`.
pub open spec fn nearest_line(n: int, d: int) -> int {
    if d == 0 {
        if n > 0 {
            i64::MAX as int
        } else if n < 0 {
            i64::MIN as int
        } else {
            0
        }
    } else {
        let a = if n < 0 {
            -n
        } else {
            n
        };
        let b = if d < 0 {
            -d
        } else {
            d
        };
        let r = (2 * a + b) / (2 * b);
        clamp_i64(if (n < 0) != (d < 0) {
            -r
        } else {
            r
        })
    }
}

fn nearest_line_of(n: i128, d: i32) -> (r: i64)
    requires
        -0x1_0000_0000_0000_0000_0000 <= n <= 0x1_0000_0000_0000_0000_0000,
    ensures
        r == nearest_line(n as int, d as int),
{
    if d == 0 {
        return if n > 0 {
            i64::MAX
        } else if n < 0 {
            i64::MIN
        } else {
            0
        };
    }
    let a: u128 = if n < 0 {
        (-n) as u128
    } else {
        n as u128
    };
    let b: u128 = if d < 0 {
        (-(d as i128)) as u128
    } else {
        d as u128
    };
    let q: u128 = (2 * a + b) / (2 * b);
    assert(q <= 2 * a + b) by (nonlinear_arith)
        requires
            b >= 1,
            q == (2 * a + b) / (2 * b),
    ;
    let v: i128 = if (n < 0) != (d < 0) {
        -(q as i128)
    } else {
        q as i128
    };
    if v < i64::MIN as i128 {
        i64::MIN
    } else if v > i64::MAX as i128 {
        i64::MAX
    } else {
        v as i64
    }
}

/// One cell of the routing grid.
#[derive(Debug, Clone)]
pub struct Cell {
    pub state: CellState,
    /// Node or edge that owns the cell (`edge_N` for edge `N`).
    pub owner: Option<String>,
    pub crossing: bool,
    /// The edge that crosses the owner here, on a crossing cell.
    pub crossed_by: Option<String>,
}

/// A free, unowned cell.
pub open spec fn is_fresh_cell(c: Cell) -> bool {
    c.state == CellState::Free && c.owner is None && !c.crossing && c.crossed_by is None
}

impl Default for Cell {
    fn default() -> (r: Self)
        ensures
            is_fresh_cell(r),
    {
        Cell { state: CellState::Free, owner: None, crossing: false, crossed_by: None }
    }
}

/// The routing grid: `rows` by `cols` cells, cell `(r, c)` standing for the
/// world point `(c * cell_size + offset_x, r * cell_size + offset_y)`.
#[derive(Debug, Clone)]
pub struct Grid {
    pub rows: usize,
    pub cols: usize,
    pub cell_size: i32,
    pub offset_x: i32,
    pub offset_y: i32,
    /// The cells, row by row.
    pub cells: Vec<Vec<Cell>>,
}

impl Grid {
    /// The grid holds `rows` rows of `cols` cells.
    pub open spec fn wf(&self) -> bool {
        &&& self.rows * self.cols <= usize::MAX
        &&& self.cells@.len() == self.rows
        &&& forall|r: int| 0 <= r < self.rows ==> (#[trigger] self.cells@[r])@.len() == self.cols
    }

    /// The cell at `(r, c)`.
    pub open spec fn cell(&self, r: int, c: int) -> Cell {
        self.cells@[r]@[c]
    }

    /// `(r, c)` is a cell of the grid.
    pub open spec fn has(&self, r: int, c: int) -> bool {
        0 <= r < self.rows && 0 <= c < self.cols
    }

    /// Both grids have the same shape and placement.
    pub open spec fn same_frame(&self, other: &Grid) -> bool {
        &&& self.rows == other.rows
        &&& self.cols == other.cols
        &&& self.cell_size == other.cell_size
        &&& self.offset_x == other.offset_x
        &&& self.offset_y == other.offset_y
    }

    /// Create a grid of free, unowned cells.
    pub fn new(rows: usize, cols: usize, cell_size: i32, offset_x: i32, offset_y: i32) -> (g: Grid)
        requires
            rows * cols <= usize::MAX,
        ensures
            g.wf(),
            g.rows == rows,
            g.cols == cols,
            g.cell_size == cell_size,
            g.offset_x == offset_x,
            g.offset_y == offset_y,
            forall|r: int, c: int| g.has(r, c) ==> is_fresh_cell(#[trigger] g.cell(r, c)),
    {
        let mut cells: Vec<Vec<Cell>> = Vec::new();
        let mut i: usize = 0;
        while i < rows
            invariant
                i <= rows,
                cells@.len() == i,
                forall|r: int| 0 <= r < i ==> (#[trigger] cells@[r])@.len() == cols,
                forall|r: int, c: int|
                    0 <= r < i && 0 <= c < cols ==> is_fresh_cell(#[trigger] cells@[r]@[c]),
            decreases rows - i,
        {
            let mut row: Vec<Cell> = Vec::new();
            let mut j: usize = 0;
            while j < cols
                invariant
                    j <= cols,
                    row@.len() == j,
                    forall|c: int| 0 <= c < j ==> is_fresh_cell(#[trigger] row@[c]),
                decreases cols - j,
            {
                row.push(Cell::default());
                j = j + 1;
            }
            cells.push(row);
            i = i + 1;
        }
        Grid { rows, cols, cell_size, offset_x, offset_y, cells }
    }

    /// The grid point nearest a world position, as `(row, col)` (see
    /// `nearest_line`).
    pub fn world_to_grid(&self, x: i64, y: i64) -> (r: (i64, i64))
        ensures
            r.0 == nearest_line(y - self.offset_y, self.cell_size as int),
            r.1 == nearest_line(x - self.offset_x, self.cell_size as int),
    {
        let col = nearest_line_of(x as i128 - self.offset_x as i128, self.cell_size);
        let row = nearest_line_of(y as i128 - self.offset_y as i128, self.cell_size);
        (row, col)
    }

    /// The cell at `(row, col)`, if it is in the grid.
    pub fn get(&self, row: usize, col: usize) -> (r: Option<&Cell>)
        requires
            self.wf(),
        ensures
            self.has(row as int, col as int) ==> r == Some(&self.cell(row as int, col as int)),
            !self.has(row as int, col as int) ==> r is None,
    {
        if row < self.rows && col < self.cols {
            Some(&self.cells[row][col])
        } else {
            None
        }
    }

    /// The cell at `(row, col)` for update, if it is in the grid; no other
    /// cell changes.
    pub fn get_mut(&mut self, row: usize, col: usize) -> (r: Option<&mut Cell>)
        requires
            old(self).wf(),
        ensures
            final(self).wf(),
            final(self).same_frame(&*old(self)),
            !old(self).has(row as int, col as int) ==> r is None && forall|a: int, b: int|
                old(self).has(a, b) ==> #[trigger] final(self).cell(a, b) == old(self).cell(a, b),
            old(self).has(row as int, col as int) ==> {
                &&& r is Some
                &&& *r.unwrap() == old(self).cell(row as int, col as int)
                &&& forall|a: int, b: int|
                    old(self).has(a, b) ==> #[trigger] final(self).cell(a, b) == if a == row && b == col {
                        *final(r.unwrap())
                    } else {
                        old(self).cell(a, b)
                    }
            },
    {
        if row < self.rows && col < self.cols {
            Some(&mut self.cells[row][col])
        } else {
            None
        }
    }

    /// Number of cells in state `st`.
    pub open spec fn count(&self, st: CellState) -> nat {
        rows_count(self.cells@, st)
    }

    /// World coordinates of the grid point `(row, col)`.
    pub fn grid_to_world(&self, row: usize, col: usize) -> (r: (i64, i64))
        requires
            i64::MIN <= col * self.cell_size + self.offset_x <= i64::MAX,
            i64::MIN <= row * self.cell_size + self.offset_y <= i64::MAX,
        ensures
            r.0 == col * self.cell_size + self.offset_x,
            r.1 == row * self.cell_size + self.offset_y,
    {
        let cs = self.cell_size as i128;
        let x = (col as i128) * cs + (self.offset_x as i128);
        let y = (row as i128) * cs + (self.offset_y as i128);
        (x as i64, y as i64)
    }

    /// Number of free cells.
    pub fn free_cell_count(&self) -> (n: usize)
        requires
            self.wf(),
        ensures
            n == self.count(CellState::Free),
    {
        count_cells(self, CellState::Free)
    }

    /// Number of blocked cells.
    pub fn blocked_cell_count(&self) -> (n: usize)
        requires
            self.wf(),
        ensures
            n == self.count(CellState::Blocked),
    {
        count_cells(self, CellState::Blocked)
    }

    /// Number of cells that are not free (blocked or occupied): the
    /// numerator of the grid's utilization, whose denominator is the number
    /// of cells.
    pub fn non_free_cell_count(&self) -> (n: usize)
        requires
            self.wf(),
        ensures
            n == self.rows * self.cols - self.count(CellState::Free),
            n == self.count(CellState::Blocked) + self.count(CellState::Occupied),
    {
        proof {
            lemma_cell_counts_add_up(self);
        }
        let free = self.free_cell_count();
        self.rows * self.cols - free
    }

    /// `(row, col)` is a cell of the grid.
    pub fn in_bounds(&self, row: i64, col: i64) -> (r: bool)
        ensures
            r == self.has(row as int, col as int),
    {
        row >= 0 && col >= 0 && (row as u64) < (self.rows as u64) && (col as u64) < (self.cols as u64)
    }
}


// ─── counting ────────────────────────────────────────────────────────────────

/// Cells of `row` in state `st`.
pub open spec fn row_count(row: Seq<Cell>, st: CellState) -> nat
    decreases row.len(),
{
    if row.len() == 0 {
        0
    } else {
        row_count(row.drop_last(), st) + if row.last().state == st {
            1nat
        } else {
            0nat
        }
    }
}

/// Cells of `rows` in state `st`.
pub open spec fn rows_count(rows: Seq<Vec<Cell>>, st: CellState) -> nat
    decreases rows.len(),
{
    if rows.len() == 0 {
        0
    } else {
        rows_count(rows.drop_last(), st) + row_count(rows.last()@, st)
    }
}

proof fn lemma_row_count_total(row: Seq<Cell>)
    ensures
        row_count(row, CellState::Free) + row_count(row, CellState::Blocked) + row_count(
            row,
            CellState::Occupied,
        ) == row.len(),
    decreases row.len(),
{
    if row.len() > 0 {
        lemma_row_count_total(row.drop_last());
    }
}

proof fn lemma_rows_count_total(rows: Seq<Vec<Cell>>, cols: nat)
    requires
        forall|r: int| 0 <= r < rows.len() ==> (#[trigger] rows[r])@.len() == cols,
    ensures
        rows_count(rows, CellState::Free) + rows_count(rows, CellState::Blocked) + rows_count(
            rows,
            CellState::Occupied,
        ) == rows.len() * cols,
    decreases rows.len(),
{
    if rows.len() > 0 {
        let k = rows.len() - 1;
        lemma_rows_count_total(rows.drop_last(), cols);
        lemma_row_count_total(rows.last()@);
        assert(rows.last()@.len() == cols);
        assert((k + 1) * cols == k * cols + cols) by (nonlinear_arith);
    }
}

proof fn lemma_row_count_prefix(row: Seq<Cell>, j: int, st: CellState)
    requires
        0 <= j < row.len(),
    ensures
        row_count(row.subrange(0, j + 1), st) == row_count(row.subrange(0, j), st) + if row[j].state
            == st {
            1nat
        } else {
            0nat
        },
{
    assert(row.subrange(0, j + 1).drop_last() =~= row.subrange(0, j));
}

proof fn lemma_row_count_le(row: Seq<Cell>, st: CellState)
    ensures
        row_count(row, st) <= row.len(),
    decreases row.len(),
{
    if row.len() > 0 {
        lemma_row_count_le(row.drop_last(), st);
    }
}

proof fn lemma_rows_count_le(rows: Seq<Vec<Cell>>, cols: nat, st: CellState)
    requires
        forall|r: int| 0 <= r < rows.len() ==> (#[trigger] rows[r])@.len() == cols,
    ensures
        rows_count(rows, st) <= rows.len() * cols,
{
    lemma_rows_count_total(rows, cols);
}

/// Law: every cell is in exactly one state, so the three counts add up to
/// the number of cells.
pub proof fn lemma_cell_counts_add_up(g: &Grid)
    requires
        g.wf(),
    ensures
        g.count(CellState::Free) + g.count(CellState::Blocked) + g.count(CellState::Occupied) == g.rows
            * g.cols,
{
    lemma_rows_count_total(g.cells@, g.cols as nat);
}

fn count_cells(g: &Grid, st: CellState) -> (n: usize)
    requires
        g.wf(),
    ensures
        n == g.count(st),
{
    let mut n: usize = 0;
    let mut i: usize = 0;
    while i < g.rows
        invariant
            g.wf(),
            i <= g.rows,
            n == rows_count(g.cells@.subrange(0, i as int), st),
        decreases g.rows - i,
    {
        let row = &g.cells[i];
        let mut j: usize = 0;
        let ghost base = n;
        proof {
            assert(row@.subrange(0, 0) =~= Seq::<Cell>::empty());
            lemma_rows_count_le(g.cells@.subrange(0, i as int), g.cols as nat, st);
            assert(i * g.cols + g.cols <= g.rows * g.cols) by (nonlinear_arith)
                requires
                    i < g.rows,
            ;
        }
        while j < row.len()
            invariant
                g.wf(),
                i < g.rows,
                row@ == g.cells@[i as int]@,
                row@.len() == g.cols,
                j <= row@.len(),
                base == rows_count(g.cells@.subrange(0, i as int), st),
                base <= i * g.cols,
                i * g.cols + g.cols <= g.rows * g.cols,
                n == base + row_count(row@.subrange(0, j as int), st),
            decreases row@.len() - j,
        {
            proof {
                lemma_row_count_prefix(row@, j as int, st);
                lemma_row_count_le(row@.subrange(0, j as int), st);
            }
            if row[j].state == st {
                n = n + 1;
            }
            j = j + 1;
        }
        proof {
            assert(row@.subrange(0, j as int) =~= row@);
            assert(g.cells@.subrange(0, i + 1).drop_last() =~= g.cells@.subrange(0, i as int));
        }
        i = i + 1;
    }
    proof {
        assert(g.cells@.subrange(0, g.rows as int) =~= g.cells@);
    }
    n
}


// ─── building the grid from placed nodes ────────────────────────────────────

/// The grid points of a placed node: its top-left point `(gr, gc)` and the
/// number of points across (`w_points`) and down (`h_points`).
#[derive(Debug, Clone, Copy, PartialEq, Eq, Structural)]
pub struct NodeFootprint {
    pub gc: i64,
    pub gr: i64,
    pub w_points: i64,
    pub h_points: i64,
}

/// A placed node: its id and footprint.
#[derive(Debug, Clone)]
pub struct PlacedNode {
    pub id: String,
    pub footprint: NodeFootprint,
}

/// The last row and column of a footprint fit in `i64`, with room for one more step.
pub open spec fn footprint_fits(fp: NodeFootprint) -> bool {
    &&& fp.gr + fp.h_points - 1 < i64::MAX
    &&& fp.gc + fp.w_points - 1 < i64::MAX
    &&& i64::MIN <= fp.gr + fp.h_points - 1
    &&& i64::MIN <= fp.gc + fp.w_points - 1
}

/// Grid point `(r, c)` lies on the node's rectangle, boundary included.
pub open spec fn covers(fp: NodeFootprint, r: int, c: int) -> bool {
    fp.gr <= r <= fp.gr + fp.h_points - 1 && fp.gc <= c <= fp.gc + fp.w_points - 1
}

/// Grid point `(r, c)` is inside the node or one of its four corners: the
/// points that no edge may cross. The other boundary points stay free as
/// connectors.
pub open spec fn blocks(fp: NodeFootprint, r: int, c: int) -> bool {
    let on_top = r == fp.gr;
    let on_bottom = r == fp.gr + fp.h_points - 1;
    let on_left = c == fp.gc;
    let on_right = c == fp.gc + fp.w_points - 1;
    &&& covers(fp, r, c)
    &&& !(on_top || on_bottom || on_left || on_right) || ((on_top || on_bottom) && (on_left
        || on_right))
}

/// What stamping a node leaves in a cell.
pub open spec fn stamped(cell: Cell, fp: NodeFootprint, id: String, r: int, c: int) -> Cell {
    if covers(fp, r, c) {
        Cell {
            state: if blocks(fp, r, c) {
                CellState::Blocked
            } else {
                cell.state
            },
            owner: Some(id),
            crossing: cell.crossing,
            crossed_by: cell.crossed_by,
        }
    } else {
        cell
    }
}

/// Owner of grid point `(r, c)` after the first `k` nodes: the last of them
/// that covers it.
pub open spec fn built_owner(nodes: Seq<PlacedNode>, k: int, r: int, c: int) -> Option<String>
    decreases k,
{
    if k <= 0 {
        None
    } else if covers(nodes[k - 1].footprint, r, c) {
        Some(nodes[k - 1].id)
    } else {
        built_owner(nodes, k - 1, r, c)
    }
}

/// Some node among the first `k` blocks grid point `(r, c)`.
pub open spec fn built_blocked(nodes: Seq<PlacedNode>, k: int, r: int, c: int) -> bool {
    exists|j: int| 0 <= j < k && #[trigger] blocks(nodes[j].footprint, r, c)
}

/// Mark a node on the grid: inside and corners blocked, every covered point
/// owned by the node.
fn stamp_node(grid: &mut Grid, fp: NodeFootprint, id: &String)
    requires
        old(grid).wf(),
        footprint_fits(fp),
    ensures
        final(grid).wf(),
        final(grid).same_frame(&*old(grid)),
        forall|r: int, c: int|
            old(grid).has(r, c) ==> #[trigger] final(grid).cell(r, c) == stamped(
                old(grid).cell(r, c),
                fp,
                *id,
                r,
                c,
            ),
{
    let ghost g0 = *grid;
    let max_row = fp.gr + fp.h_points - 1;
    let max_col = fp.gc + fp.w_points - 1;
    let mut row = fp.gr;
    while row <= max_row
        invariant
            g0.wf(),
            grid.wf(),
            grid.same_frame(&g0),
            max_row == fp.gr + fp.h_points - 1,
            max_col == fp.gc + fp.w_points - 1,
            footprint_fits(fp),
            fp.gr <= row,
            row <= max_row + 1 || row == fp.gr,
            forall|a: int, b: int|
                g0.has(a, b) ==> #[trigger] grid.cell(a, b) == if a < row {
                    stamped(g0.cell(a, b), fp, *id, a, b)
                } else {
                    g0.cell(a, b)
                },
        decreases max_row + 1 - row,
    {
        let mut col = fp.gc;
        while col <= max_col
            invariant
                g0.wf(),
                grid.wf(),
                grid.same_frame(&g0),
                max_row == fp.gr + fp.h_points - 1,
                max_col == fp.gc + fp.w_points - 1,
                footprint_fits(fp),
                fp.gr <= row <= max_row,
                fp.gc <= col,
                col <= max_col + 1 || col == fp.gc,
                forall|a: int, b: int|
                    g0.has(a, b) ==> #[trigger] grid.cell(a, b) == if a < row || (a == row && b < col) {
                        stamped(g0.cell(a, b), fp, *id, a, b)
                    } else {
                        g0.cell(a, b)
                    },
            decreases max_col + 1 - col,
        {
            if grid.in_bounds(row, col) {
                let on_top = row == fp.gr;
                let on_bottom = row == max_row;
                let on_left = col == fp.gc;
                let on_right = col == max_col;
                let on_boundary = on_top || on_bottom || on_left || on_right;
                let is_corner = (on_top || on_bottom) && (on_left || on_right);
                match grid.get_mut(row as usize, col as usize) {
                    Some(cell) => {
                        if !on_boundary || is_corner {
                            cell.state = CellState::Blocked;
                        }
                        cell.owner = Some(id.clone());
                    },
                    None => {},
                }
            }
            col = col + 1;
        }
        row = row + 1;
    }
}

/// Build the routing grid for placed nodes: `rows` by `cols` cells (at least
/// one of each), the inside and the corners of every node blocked, every
/// point of a node's rectangle owned by the last node that covers it, the
/// other boundary points left free as connectors.
pub fn build_grid(
    nodes: &Vec<PlacedNode>,
    rows: usize,
    cols: usize,
    cell_size: i32,
    offset_x: i32,
    offset_y: i32,
) -> (g: Grid)
    requires
        (if rows == 0 { 1 } else { rows as int }) * (if cols == 0 { 1 } else { cols as int })
            <= usize::MAX,
        forall|k: int| 0 <= k < nodes@.len() ==> footprint_fits(#[trigger] nodes@[k].footprint),
    ensures
        g.wf(),
        g.rows == if rows == 0 { 1 } else { rows },
        g.cols == if cols == 0 { 1 } else { cols },
        g.cell_size == cell_size,
        g.offset_x == offset_x,
        g.offset_y == offset_y,
        forall|r: int, c: int|
            g.has(r, c) ==> {
                &&& (#[trigger] g.cell(r, c)).state == if built_blocked(nodes@, nodes@.len() as int, r, c) {
                    CellState::Blocked
                } else {
                    CellState::Free
                }
                &&& g.cell(r, c).owner == built_owner(nodes@, nodes@.len() as int, r, c)
                &&& !g.cell(r, c).crossing
                &&& g.cell(r, c).crossed_by is None
            },
{
    let rows = if rows == 0 { 1 } else { rows };
    let cols = if cols == 0 { 1 } else { cols };
    let mut grid = Grid::new(rows, cols, cell_size, offset_x, offset_y);
    let mut k: usize = 0;
    while k < nodes.len()
        invariant
            grid.wf(),
            grid.rows == rows,
            grid.cols == cols,
            grid.cell_size == cell_size,
            grid.offset_x == offset_x,
            grid.offset_y == offset_y,
            k <= nodes@.len(),
            forall|j: int| 0 <= j < nodes@.len() ==> footprint_fits(#[trigger] nodes@[j].footprint),
            forall|r: int, c: int|
                grid.has(r, c) ==> {
                    &&& (#[trigger] grid.cell(r, c)).state == if built_blocked(nodes@, k as int, r, c) {
                        CellState::Blocked
                    } else {
                        CellState::Free
                    }
                    &&& grid.cell(r, c).owner == built_owner(nodes@, k as int, r, c)
                    &&& !grid.cell(r, c).crossing
                    &&& grid.cell(r, c).crossed_by is None
                },
        decreases nodes@.len() - k,
    {
        let ghost before = grid;
        stamp_node(&mut grid, nodes[k].footprint, &nodes[k].id);
        proof {
            assert forall|r: int, c: int| grid.has(r, c) implies {
                &&& (#[trigger] grid.cell(r, c)).state == if built_blocked(nodes@, k + 1, r, c) {
                    CellState::Blocked
                } else {
                    CellState::Free
                }
                &&& grid.cell(r, c).owner == built_owner(nodes@, k + 1, r, c)
                &&& !grid.cell(r, c).crossing
                &&& grid.cell(r, c).crossed_by is None
            } by {
                assert(before.has(r, c));
                if built_blocked(nodes@, k as int, r, c) {
                    let j = choose|j: int| 0 <= j < k && #[trigger] blocks(nodes@[j].footprint, r, c);
                    assert(built_blocked(nodes@, k + 1, r, c));
                }
                if blocks(nodes@[k as int].footprint, r, c) {
                    assert(built_blocked(nodes@, k + 1, r, c));
                }
                if built_blocked(nodes@, k + 1, r, c) && !built_blocked(nodes@, k as int, r, c) {
                    let j = choose|j: int| 0 <= j < k + 1 && #[trigger] blocks(nodes@[j].footprint, r, c);
                    assert(j == k);
                }
            }
        }
        k = k + 1;
    }
    grid
}

} // verus!
