//! Rip-up support: reading edge owners off the grid, and freeing and
//! restoring the endpoint cells of an edge around a routing attempt.
use vstd::prelude::*;

use crate::grid::{Cell, CellState, Grid, GridPoint};
use crate::placement::sugiyama::{lemma_seq_count_push, seq_count};
use crate::ports::assignment::EdgePorts;
use std::collections::HashMap;

verus! {

/// An ASCII decimal digit.
pub open spec fn is_digit(c: char) -> bool {
    '0' <= c && c <= '9'
}

/// Value of a string of decimal digits.
pub open spec fn digits_value(s: Seq<char>) -> int
    decreases s.len(),
{
    if s.len() == 0 {
        0
    } else {
        digits_value(s.drop_last()) * 10 + (s.last() as int - '0' as int)
    }
}

/// How `usize` reads a decimal string: an optional `+`, then one or more
/// digits whose value fits.
pub open spec fn spec_parse_usize(s: Seq<char>) -> Option<usize> {
    let body = if s.len() > 0 && s[0] == '+' {
        s.subrange(1, s.len() as int)
    } else {
        s
    };
    parse_digits(body)
}

/// One or more digits whose value fits a `usize`.
pub open spec fn parse_digits(body: Seq<char>) -> Option<usize> {
    if body.len() > 0 && (forall|i: int| 0 <= i < body.len() ==> is_digit(#[trigger] body[i]))
        && digits_value(body) <= usize::MAX {
        Some(digits_value(body) as usize)
    } else {
        None
    }
}

/// Owner prefix of the cells of a routed edge.
pub open spec fn edge_prefix() -> Seq<char> {
    seq!['e', 'd', 'g', 'e', '_']
}

/// The edge index in an owner string `edge_N`.
pub open spec fn spec_parse_edge_index(s: Seq<char>) -> Option<usize> {
    if s.len() >= 5 && s.subrange(0, 5) == edge_prefix() {
        spec_parse_usize(s.subrange(5, s.len() as int))
    } else {
        None
    }
}

proof fn lemma_digits_value_step(s: Seq<char>, j: int)
    requires
        0 <= j < s.len(),
    ensures
        digits_value(s.subrange(0, j + 1)) == digits_value(s.subrange(0, j)) * 10 + (s[j] as int
            - '0' as int),
{
    assert(s.subrange(0, j + 1).drop_last() =~= s.subrange(0, j));
}

proof fn lemma_digits_value_grows(s: Seq<char>, j: int)
    requires
        0 <= j <= s.len(),
        forall|i: int| 0 <= i < s.len() ==> is_digit(#[trigger] s[i]),
    ensures
        digits_value(s.subrange(0, j)) <= digits_value(s),
        0 <= digits_value(s.subrange(0, j)),
    decreases s.len() - j,
{
    if j < s.len() {
        lemma_digits_value_step(s, j);
        lemma_digits_value_grows(s, j + 1);
        assert(0 <= digits_value(s.subrange(0, j))) by {
            lemma_digits_value_nonneg(s.subrange(0, j));
        }
    } else {
        assert(s.subrange(0, j) =~= s);
        lemma_digits_value_nonneg(s);
    }
}

proof fn lemma_digits_value_nonneg(s: Seq<char>)
    requires
        forall|i: int| 0 <= i < s.len() ==> is_digit(#[trigger] s[i]),
    ensures
        0 <= digits_value(s),
    decreases s.len(),
{
    if s.len() > 0 {
        lemma_digits_value_nonneg(s.drop_last());
    }
}

/// Read a `usize` the way `str::parse` does, from character `from` on.
fn parse_usize_from(s: &str, from: usize) -> (r: Option<usize>)
    requires
        from <= s@.len(),
    ensures
        r == spec_parse_usize(s@.subrange(from as int, s@.len() as int)),
{
    let n = s.unicode_len();
    let ghost whole = s@.subrange(from as int, n as int);
    let mut start = from;
    if start < n && s.get_char(start) == '+' {
        start = start + 1;
    }
    let ghost body = s@.subrange(start as int, n as int);
    proof {
        if from < n && s@[from as int] == '+' {
            assert(body =~= whole.subrange(1, whole.len() as int));
        } else {
            assert(body =~= whole);
        }
    }
    if start >= n {
        return None;
    }
    let mut value: usize = 0;
    let mut i = start;
    proof {
        assert(body.subrange(0, 0) =~= Seq::<char>::empty());
    }
    while i < n
        invariant
            n == s@.len(),
            start < n,
            start <= i <= n,
            body == s@.subrange(start as int, n as int),
            spec_parse_usize(s@.subrange(from as int, n as int)) == parse_digits(body),
            forall|k: int| 0 <= k < i - start ==> is_digit(#[trigger] body[k]),
            value == digits_value(body.subrange(0, i - start)),
        decreases n - i,
    {
        let c = s.get_char(i);
        proof {
            assert(body[i - start] == c);
            lemma_digits_value_step(body, i - start);
        }
        if c < '0' || c > '9' {
            proof {
                assert(!is_digit(body[i - start]));
            }
            return None;
        }
        let d = (c as u32 - '0' as u32) as usize;
        let next = match value.checked_mul(10) {
            Some(v) => v.checked_add(d),
            None => None,
        };
        match next {
            Some(v) => {
                value = v;
            },
            None => {
                // Too large for `usize`: the whole value is too, or a later
                // character is not a digit; either way there is no number.
                proof {
                    if forall|k: int| 0 <= k < body.len() ==> is_digit(#[trigger] body[k]) {
                        lemma_digits_value_grows(body, i - start + 1);
                    }
                }
                return None;
            },
        }
        i = i + 1;
    }
    proof {
        assert(body.subrange(0, n - start) =~= body);
    }
    Some(value)
}

/// The edge index in an owner string `edge_N`, or `None` when the string
/// is not of that form or the number does not fit a `usize`.
pub fn parse_edge_index(owner: &str) -> (r: Option<usize>)
    ensures
        r == spec_parse_edge_index(owner@),
{
    let n = owner.unicode_len();
    if n < 5 {
        return None;
    }
    let prefix = owner.substring_char(0, 5);
    let expected = "edge_";
    proof {
        reveal_strlit("edge_");
        assert(expected@ =~= edge_prefix());
    }
    if !str_eq(prefix, expected) {
        return None;
    }
    parse_usize_from(owner, 5)
}

fn str_eq(a: &str, b: &str) -> (r: bool)
    ensures
        r == (a@ == b@),
{
    let n = a.unicode_len();
    let m = b.unicode_len();
    if n != m {
        return false;
    }
    let mut i: usize = 0;
    while i < n
        invariant
            n == a@.len(),
            m == b@.len(),
            n == m,
            i <= n,
            forall|k: int| 0 <= k < i ==> a@[k] == b@[k],
        decreases n - i,
    {
        if a.get_char(i) != b.get_char(i) {
            return false;
        }
        i = i + 1;
    }
    proof {
        assert(a@ =~= b@);
    }
    true
}


// ─── freeing and restoring endpoint cells ──────────────────────────────────

/// A blocked cell made free for a routing attempt; any other cell as it was.
pub open spec fn freed_cell(c: Cell) -> Cell {
    if c.state == CellState::Blocked {
        Cell { state: CellState::Free, ..c }
    } else {
        c
    }
}

/// A cell given back the blocked state it was saved with, unless an edge
/// has occupied it meanwhile.
pub open spec fn restored_cell(c: Cell, saved: Option<CellState>) -> Cell {
    if saved == Some(CellState::Blocked) && c.state != CellState::Occupied {
        Cell { state: CellState::Blocked, ..c }
    } else {
        c
    }
}

/// Save the state of the cell at `point` and, if it is blocked, free it
/// for routing. Returns the saved state, or `None` outside the grid.
pub fn save_and_free_cell(grid: &mut Grid, point: GridPoint) -> (saved: Option<CellState>)
    requires
        old(grid).wf(),
    ensures
        final(grid).wf(),
        final(grid).same_frame(&*old(grid)),
        saved == if old(grid).has(point.row as int, point.col as int) {
            Some(old(grid).cell(point.row as int, point.col as int).state)
        } else {
            None
        },
        forall|a: int, b: int|
            old(grid).has(a, b) ==> #[trigger] final(grid).cell(a, b) == if a == point.row && b
                == point.col {
                freed_cell(old(grid).cell(a, b))
            } else {
                old(grid).cell(a, b)
            },
{
    if !grid.in_bounds(point.row, point.col) {
        return None;
    }
    let row = point.row as usize;
    let col = point.col as usize;
    let original_state = grid.cells[row][col].state;
    if original_state == CellState::Blocked {
        match grid.get_mut(row, col) {
            Some(cell) => {
                cell.state = CellState::Free;
            },
            None => {},
        }
    }
    Some(original_state)
}

/// Give the cell at `point` back its saved blocked state, unless an edge
/// has occupied it meanwhile; anything else leaves the grid as it is.
pub fn restore_cell(grid: &mut Grid, point: GridPoint, original_state: Option<CellState>)
    requires
        old(grid).wf(),
    ensures
        final(grid).wf(),
        final(grid).same_frame(&*old(grid)),
        forall|a: int, b: int|
            old(grid).has(a, b) ==> #[trigger] final(grid).cell(a, b) == if a == point.row && b
                == point.col {
                restored_cell(old(grid).cell(a, b), original_state)
            } else {
                old(grid).cell(a, b)
            },
{
    match original_state {
        Some(state) => {
            if state == CellState::Blocked && grid.in_bounds(point.row, point.col) {
                match grid.get_mut(point.row as usize, point.col as usize) {
                    Some(cell) => {
                        if cell.state != CellState::Occupied {
                            cell.state = state;
                        }
                    },
                    None => {},
                }
            }
        },
        None => {},
    }
}

/// Law: freeing a cell and then restoring it with the state that was saved
/// gives back the cell as it was.
pub proof fn lemma_free_then_restore(c: Cell)
    ensures
        restored_cell(freed_cell(c), Some(c.state)) == c,
{
}


// ─── edges in the way ───────────────────────────────────────────────────────

/// The edge index of an occupied cell's owner, if the cell is in the grid
/// and its owner is an edge.
pub open spec fn cell_hit(g: Grid, r: int, c: int) -> Seq<usize> {
    if g.has(r, c) && g.cell(r, c).state == CellState::Occupied && g.cell(r, c).owner is Some
        && spec_parse_edge_index(g.cell(r, c).owner->0@) is Some {
        seq![spec_parse_edge_index(g.cell(r, c).owner->0@)->0]
    } else {
        seq![]
    }
}

/// Edge owners met along row `r` from column `c0` to `c1`.
pub open spec fn row_hits(g: Grid, r: int, c0: int, c1: int) -> Seq<usize>
    decreases c1 - c0 + 1,
{
    if c1 < c0 {
        seq![]
    } else {
        row_hits(g, r, c0, c1 - 1) + cell_hit(g, r, c1)
    }
}

/// Edge owners met in the window of rows `r0..=r1` and columns `c0..=c1`,
/// row by row.
pub open spec fn rect_hits(g: Grid, r0: int, r1: int, c0: int, c1: int) -> Seq<usize>
    decreases r1 - r0 + 1,
{
    if r1 < r0 {
        seq![]
    } else {
        rect_hits(g, r0, r1 - 1, c0, c1) + row_hits(g, r1, c0, c1)
    }
}

/// The window searched for blockers: the bounding box of the two ports,
/// two cells wider on every side.
pub open spec fn scan_window(p: EdgePorts) -> (int, int, int, int) {
    let (a, b) = (p.source_port, p.target_port);
    (
        (if a.grid_row <= b.grid_row { a.grid_row } else { b.grid_row }) - 2,
        (if a.grid_row >= b.grid_row { a.grid_row } else { b.grid_row }) + 2,
        (if a.grid_col <= b.grid_col { a.grid_col } else { b.grid_col }) - 2,
        (if a.grid_col >= b.grid_col { a.grid_col } else { b.grid_col }) + 2,
    )
}

/// The window fits in `i64` with room for one more step.
pub open spec fn window_fits(p: EdgePorts) -> bool {
    let (r0, r1, c0, c1) = scan_window(p);
    i64::MIN <= r0 && r1 < i64::MAX && i64::MIN <= c0 && c1 < i64::MAX
}

/// The edge owners met in the window of the failed edge's ports.
pub open spec fn blocking_hits(g: Grid, ports: Map<usize, EdgePorts>, failed: usize) -> Seq<usize> {
    if ports.contains_key(failed) {
        let (r0, r1, c0, c1) = scan_window(ports[failed]);
        rect_hits(g, r0, r1, c0, c1)
    } else {
        seq![]
    }
}

/// `r` holds the (at most three) most frequent values of `hits`, most
/// frequent first: no value twice, every value met, all values when fewer
/// than three, none left out that is met more often than one taken.
pub open spec fn is_top_blockers(hits: Seq<usize>, r: Seq<usize>) -> bool {
    &&& r.len() <= 3
    &&& r.no_duplicates()
    &&& forall|i: int| 0 <= i < r.len() ==> hits.contains(#[trigger] r[i])
    &&& r.len() == 3 || forall|x: usize| #[trigger] hits.contains(x) ==> r.contains(x)
    &&& forall|i: int, j: int|
        #![trigger r[i], r[j]]
        0 <= i < j < r.len() ==> seq_count(hits, r[i]) >= seq_count(hits, r[j])
    &&& forall|x: usize, i: int|
        #![trigger hits.contains(x), r[i]]
        hits.contains(x) && !r.contains(x) && 0 <= i < r.len() ==> seq_count(hits, x) <= seq_count(
            hits,
            r[i],
        )
}

/// Number of integers in `lo..=hi` that lie in `0..size`.
pub open spec fn span_in(lo: int, hi: int, size: int) -> int {
    let a = if lo >= 0 {
        lo
    } else {
        0
    };
    let b = if hi + 1 <= size {
        hi + 1
    } else {
        size
    };
    if b > a {
        b - a
    } else {
        0
    }
}

proof fn lemma_row_hits_outside(g: Grid, r: int, c0: int, c1: int)
    requires
        !(0 <= r < g.rows),
    ensures
        row_hits(g, r, c0, c1) == Seq::<usize>::empty(),
    decreases c1 - c0 + 1,
{
    if c1 >= c0 {
        lemma_row_hits_outside(g, r, c0, c1 - 1);
    }
}

proof fn lemma_row_hits_len(g: Grid, r: int, c0: int, c1: int)
    ensures
        row_hits(g, r, c0, c1).len() <= span_in(c0, c1, g.cols as int),
    decreases c1 - c0 + 1,
{
    if c1 >= c0 {
        lemma_row_hits_len(g, r, c0, c1 - 1);
    }
}

proof fn lemma_seq_count_le(s: Seq<usize>, v: usize)
    ensures
        seq_count(s, v) <= s.len(),
    decreases s.len(),
{
    if s.len() > 0 {
        lemma_seq_count_le(s.drop_last(), v);
    }
}

proof fn lemma_seq_count_pos(s: Seq<usize>, v: usize)
    ensures
        s.contains(v) <==> seq_count(s, v) > 0,
    decreases s.len(),
{
    if s.len() > 0 {
        lemma_seq_count_pos(s.drop_last(), v);
        if s.drop_last().contains(v) {
            let k = choose|k: int| 0 <= k < s.drop_last().len() && s.drop_last()[k] == v;
            assert(s[k] == v);
        }
        if s.contains(v) && s.last() != v {
            let k = choose|k: int| 0 <= k < s.len() && s[k] == v;
            assert(s.drop_last()[k] == v);
        }
    }
}

/// The tally matches `hits`: one entry per value met, in the order first
/// met, with the number of times it was met.
pub open spec fn tally_of(counts: Seq<(usize, usize)>, hits: Seq<usize>) -> bool {
    &&& forall|i: int| 0 <= i < counts.len() ==> (#[trigger] counts[i]).1 == seq_count(hits, counts[i].0)
    &&& forall|i: int, j: int| 0 <= i < j < counts.len() ==> counts[i].0 != counts[j].0
    &&& forall|x: usize| #[trigger] hits.contains(x) ==> exists|i: int| 0 <= i < counts.len() && counts[i].0 == x
    &&& forall|i: int| 0 <= i < counts.len() ==> hits.contains(#[trigger] counts[i].0)
}

fn add_hit(counts: &mut Vec<(usize, usize)>, idx: usize, Ghost(hits): Ghost<Seq<usize>>)
    requires
        tally_of(old(counts)@, hits),
        hits.len() < usize::MAX,
    ensures
        tally_of(final(counts)@, hits.push(idx)),
{
    proof {
        lemma_seq_count_le(hits, idx);
        assert forall|v: usize| seq_count(hits.push(idx), v) == seq_count(hits, v) + if idx == v {
            1nat
        } else {
            0nat
        } by {
            lemma_seq_count_push(hits, idx, v);
        }
        assert forall|x: usize| #[trigger] hits.push(idx).contains(x) implies hits.contains(x) || x == idx by {
            let k = choose|k: int| 0 <= k < hits.push(idx).len() && hits.push(idx)[k] == x;
            if k < hits.len() {
                assert(hits[k] == x);
            }
        }
        assert forall|x: usize| #[trigger] hits.contains(x) implies hits.push(idx).contains(x) by {
            let k = choose|k: int| 0 <= k < hits.len() && hits[k] == x;
            assert(hits.push(idx)[k] == x);
        }
        assert(hits.push(idx)[hits.len() as int] == idx);
    }
    let ghost c0 = counts@;
    let mut i: usize = 0;
    while i < counts.len()
        invariant
            counts@ == c0,
            tally_of(c0, hits),
            hits.len() < usize::MAX,
            i <= c0.len(),
            forall|v: usize|
                #[trigger] seq_count(hits.push(idx), v) == seq_count(hits, v) + if idx == v {
                    1nat
                } else {
                    0nat
                },
            forall|x: usize| #[trigger] hits.push(idx).contains(x) ==> hits.contains(x) || x == idx,
            forall|x: usize| #[trigger] hits.contains(x) ==> hits.push(idx).contains(x),
            forall|k: int| 0 <= k < i ==> c0[k].0 != idx,
        decreases c0.len() - i,
    {
        let (k, n) = counts[i];
        if k == idx {
            proof {
                lemma_seq_count_le(hits, idx);
            }
            counts.set(i, (k, n + 1));
            proof {
                let h2 = hits.push(idx);
                assert forall|x: usize| #[trigger] h2.contains(x) implies exists|j: int|
                    0 <= j < counts@.len() && counts@[j].0 == x by {
                    if x == idx {
                        assert(counts@[i as int].0 == x);
                    } else {
                        assert(hits.contains(x));
                        let j = choose|j: int| 0 <= j < c0.len() && c0[j].0 == x;
                        assert(counts@[j].0 == x);
                    }
                }
                assert forall|j: int| 0 <= j < counts@.len() implies h2.contains(#[trigger] counts@[j].0) by {
                    assert(hits.contains(c0[j].0));
                }
            }
            return;
        }
        i = i + 1;
    }
    counts.push((idx, 1));
    proof {
        let h2 = hits.push(idx);
        lemma_seq_count_pos(hits, idx);
        assert(!hits.contains(idx)) by {
            if hits.contains(idx) {
                let j = choose|j: int| 0 <= j < c0.len() && c0[j].0 == idx;
            }
        }
        assert forall|x: usize| #[trigger] h2.contains(x) implies exists|j: int|
            0 <= j < counts@.len() && counts@[j].0 == x by {
            if x == idx {
                assert(counts@[c0.len() as int].0 == x);
            } else {
                assert(hits.contains(x));
                let j = choose|j: int| 0 <= j < c0.len() && c0[j].0 == x;
                assert(counts@[j].0 == x);
            }
        }
        assert forall|j: int| 0 <= j < counts@.len() implies h2.contains(#[trigger] counts@[j].0) by {
            if j < c0.len() {
                assert(hits.contains(c0[j].0));
            }
        }
    }
}


/// The (at most three) most frequent values of a tally, most frequent
/// first, the earlier entry first among equal counts.
fn top_three(counts: &Vec<(usize, usize)>, Ghost(hits): Ghost<Seq<usize>>) -> (r: Vec<usize>)
    requires
        tally_of(counts@, hits),
    ensures
        is_top_blockers(hits, r@),
{
    let mut taken: Vec<bool> = Vec::new();
    let mut k: usize = 0;
    while k < counts.len()
        invariant
            k <= counts@.len(),
            taken@.len() == k,
            forall|j: int| 0 <= j < k ==> !#[trigger] taken@[j],
        decreases counts@.len() - k,
    {
        taken.push(false);
        k = k + 1;
    }
    let mut selected: Vec<usize> = Vec::new();
    while selected.len() < 3
        invariant
            tally_of(counts@, hits),
            taken@.len() == counts@.len(),
            selected@.len() <= 3,
            selected@.no_duplicates(),
            forall|a: int| 0 <= a < selected@.len() ==> hits.contains(#[trigger] selected@[a]),
            forall|i: int| 0 <= i < counts@.len() && #[trigger] taken@[i] ==> selected@.contains(counts@[i].0),
            forall|i: int|
                0 <= i < counts@.len() && selected@.contains(#[trigger] counts@[i].0) ==> taken@[i],
            forall|a: int, b: int|
                #![trigger selected@[a], selected@[b]]
                0 <= a < b < selected@.len() ==> seq_count(hits, selected@[a]) >= seq_count(hits, selected@[b]),
            forall|i: int, a: int|
                #![trigger counts@[i], selected@[a]]
                0 <= i < counts@.len() && !taken@[i] && 0 <= a < selected@.len() ==> counts@[i].1 <= seq_count(
                    hits,
                    selected@[a],
                ),
        ensures
            selected@.len() == 3 || forall|j: int| 0 <= j < counts@.len() ==> #[trigger] taken@[j],
        decreases 3 - selected@.len(),
    {
        let mut best: Option<usize> = None;
        let mut i: usize = 0;
        while i < counts.len()
            invariant
                taken@.len() == counts@.len(),
                i <= counts@.len(),
                best matches Some(b) ==> b < i && !taken@[b as int],
                best is None ==> forall|j: int| 0 <= j < i ==> #[trigger] taken@[j],
                forall|j: int|
                    0 <= j < i && !taken@[j] ==> best is Some && (#[trigger] counts@[j]).1 <= counts@[best->0 as int].1,
            decreases counts@.len() - i,
        {
            if !taken[i] {
                let better = match best {
                    None => true,
                    Some(b) => counts[i].1 > counts[b].1,
                };
                if better {
                    best = Some(i);
                }
            }
            i = i + 1;
        }
        match best {
            None => {
                break;
            },
            Some(b) => {
                let key = counts[b].0;
                let ghost sel0 = selected@;
                let ghost tk0 = taken@;
                proof {
                    assert(!sel0.contains(key));
                }
                taken.set(b, true);
                selected.push(key);
                proof {
                    assert forall|a: int| 0 <= a < selected@.len() implies hits.contains(#[trigger] selected@[a]) by {
                        if a < sel0.len() {
                            assert(selected@[a] == sel0[a]);
                        } else {
                            assert(hits.contains(counts@[b as int].0));
                        }
                    }
                    assert forall|i: int|
                        0 <= i < counts@.len() && selected@.contains(#[trigger] counts@[i].0) implies taken@[i] by {
                        if i != b as int {
                            let a = choose|a: int| 0 <= a < selected@.len() && selected@[a] == counts@[i].0;
                            if a < sel0.len() {
                                assert(selected@[a] == sel0[a]);
                                assert(sel0.contains(counts@[i].0));
                            }
                        }
                    }
                    assert forall|i: int| 0 <= i < counts@.len() && #[trigger] taken@[i] implies selected@.contains(
                        counts@[i].0,
                    ) by {
                        if i == b as int {
                            assert(selected@[sel0.len() as int] == key);
                        } else {
                            assert(tk0[i]);
                            let a = choose|a: int| 0 <= a < sel0.len() && sel0[a] == counts@[i].0;
                            assert(selected@[a] == sel0[a]);
                        }
                    }
                    assert forall|a: int, c: int|
                        #![trigger selected@[a], selected@[c]]
                        0 <= a < c < selected@.len() implies seq_count(hits, selected@[a]) >= seq_count(
                            hits,
                            selected@[c],
                        ) by {
                        assert(selected@[a] == sel0[a]);
                        if c < sel0.len() {
                            assert(selected@[c] == sel0[c]);
                        } else {
                            assert(counts@[b as int].1 <= seq_count(hits, sel0[a]));
                        }
                    }
                    assert forall|i: int, a: int|
                        #![trigger counts@[i], selected@[a]]
                        0 <= i < counts@.len() && !taken@[i] && 0 <= a < selected@.len() implies counts@[i].1
                        <= seq_count(hits, selected@[a]) by {
                        if a < sel0.len() {
                            assert(selected@[a] == sel0[a]);
                        }
                    }
                }
            },
        }
    }
    proof {
        let r = selected@;
        if r.len() < 3 {
            assert forall|x: usize| #[trigger] hits.contains(x) implies r.contains(x) by {
                let j = choose|j: int| 0 <= j < counts@.len() && counts@[j].0 == x;
                assert(taken@[j]);
            }
        }
        assert forall|x: usize, i: int|
            #![trigger hits.contains(x), r[i]]
            hits.contains(x) && !r.contains(x) && 0 <= i < r.len() implies seq_count(hits, x) <= seq_count(
                hits,
                r[i],
            ) by {
            let j = choose|j: int| 0 <= j < counts@.len() && counts@[j].0 == x;
            if taken@[j] {
                assert(r.contains(counts@[j].0));
            }
        }
    }
    selected
}


/// Find the edges in the way of a failed edge: scan the cells of the box
/// spanned by its two ports, two cells wider on every side, and return the
/// (at most three) edges that own the most occupied cells there, most
/// cells first; an edge without ports has none.
pub fn find_blocking_edges(
    grid: &Grid,
    failed_edge_idx: usize,
    port_assignments: &HashMap<usize, EdgePorts>,
) -> (r: Vec<usize>)
    requires
        grid.wf(),
        port_assignments@.contains_key(failed_edge_idx) ==> window_fits(
            port_assignments@[failed_edge_idx],
        ),
    ensures
        is_top_blockers(blocking_hits(*grid, port_assignments@, failed_edge_idx), r@),
        !port_assignments@.contains_key(failed_edge_idx) ==> r@.len() == 0,
{
    broadcast use vstd::std_specs::hash::group_hash_axioms;

    let ports = match port_assignments.get(&failed_edge_idx) {
        Some(p) => *p,
        None => {
            proof {
                assert(blocking_hits(*grid, port_assignments@, failed_edge_idx) =~= Seq::<usize>::empty());
            }
            return Vec::new();
        },
    };
    let a = ports.source_port;
    let b = ports.target_port;
    let min_row = (if a.grid_row <= b.grid_row {
        a.grid_row
    } else {
        b.grid_row
    }) - 2;
    let max_row = (if a.grid_row >= b.grid_row {
        a.grid_row
    } else {
        b.grid_row
    }) + 2;
    let min_col = (if a.grid_col <= b.grid_col {
        a.grid_col
    } else {
        b.grid_col
    }) - 2;
    let max_col = (if a.grid_col >= b.grid_col {
        a.grid_col
    } else {
        b.grid_col
    }) + 2;
    let ghost g = *grid;
    let ghost rows = grid.rows as int;
    let ghost cols = grid.cols as int;
    let mut counts: Vec<(usize, usize)> = Vec::new();
    let ghost mut hits: Seq<usize> = seq![];
    let mut row = min_row;
    while row <= max_row
        invariant
            grid.wf(),
            g == *grid,
            rows == grid.rows,
            cols == grid.cols,
            min_row <= max_row < i64::MAX,
            min_col <= max_col < i64::MAX,
            min_row <= row <= max_row + 1,
            hits == rect_hits(g, min_row as int, row - 1, min_col as int, max_col as int),
            hits.len() <= span_in(min_row as int, row - 1, rows) * cols,
            tally_of(counts@, hits),
        decreases max_row + 1 - row,
    {
        let ghost row_start = hits;
        let ghost s_rows = span_in(min_row as int, row - 1, rows);
        let mut col = min_col;
        proof {
            assert(row_hits(g, row as int, min_col as int, col - 1) =~= Seq::<usize>::empty());
            assert(hits =~= row_start + row_hits(g, row as int, min_col as int, col - 1));
        }
        while col <= max_col
            invariant
                grid.wf(),
                g == *grid,
                rows == grid.rows,
                cols == grid.cols,
                min_row <= row <= max_row < i64::MAX,
                min_col <= max_col < i64::MAX,
                min_col <= col <= max_col + 1,
                row_start == rect_hits(g, min_row as int, row - 1, min_col as int, max_col as int),
                s_rows == span_in(min_row as int, row - 1, rows),
                row_start.len() <= s_rows * cols,
                hits == row_start + row_hits(g, row as int, min_col as int, col - 1),
                tally_of(counts@, hits),
            decreases max_col + 1 - col,
        {
            proof {
                lemma_row_hits_len(g, row as int, min_col as int, col - 1);
            }
            if grid.in_bounds(row, col) {
                let cell = &grid.cells[row as usize][col as usize];
                if cell.state == CellState::Occupied {
                    match &cell.owner {
                        Some(owner) => {
                            match parse_edge_index(owner.as_str()) {
                                Some(idx) => {
                                    proof {
                                        assert(s_rows <= rows - 1);
                                        assert(s_rows * cols <= (rows - 1) * cols) by (nonlinear_arith)
                                            requires
                                                s_rows <= rows - 1,
                                                0 <= cols,
                                        ;
                                        assert((rows - 1) * cols + cols == rows * cols) by (nonlinear_arith);
                                    }
                                    add_hit(&mut counts, idx, Ghost(hits));
                                    proof {
                                        hits = hits.push(idx);
                                    }
                                },
                                None => {},
                            }
                        },
                        None => {},
                    }
                }
            }
            proof {
                assert(row_hits(g, row as int, min_col as int, col as int) == row_hits(
                    g,
                    row as int,
                    min_col as int,
                    col - 1,
                ) + cell_hit(g, row as int, col as int));
                assert(hits =~= row_start + row_hits(g, row as int, min_col as int, col as int));
            }
            col = col + 1;
        }
        proof {
            lemma_row_hits_len(g, row as int, min_col as int, max_col as int);
            if 0 <= row < rows {
                assert(span_in(min_row as int, row as int, rows) == s_rows + 1);
                assert(s_rows * cols + cols == (s_rows + 1) * cols) by (nonlinear_arith);
            } else {
                lemma_row_hits_outside(g, row as int, min_col as int, max_col as int);
                assert(span_in(min_row as int, row as int, rows) >= s_rows);
                assert(s_rows * cols <= span_in(min_row as int, row as int, rows) * cols) by (nonlinear_arith)
                    requires
                        s_rows <= span_in(min_row as int, row as int, rows),
                        0 <= cols,
                ;
            }
        }
        row = row + 1;
    }
    proof {
        assert(blocking_hits(g, port_assignments@, failed_edge_idx) == hits);
    }
    top_three(&counts, Ghost(hits))
}

} // verus!
