//! Route-then-swap refinement: reading edge ids, finding the node two
//! crossing edges share, and swapping their ports there.
use vstd::prelude::*;
use std::collections::HashMap;

use crate::deadlock::rip_up::spec_parse_edge_index;
use crate::grid::{Cell, Grid};
use crate::placement::sugiyama::EdgeEnds;
use crate::ports::assignment::EdgePorts;

verus! {

broadcast use vstd::std_specs::hash::group_hash_axioms;

/// The edge index in an edge id `edge_N`.
pub fn parse_edge_index(edge_id: &str) -> (r: Option<usize>)
    ensures
        r == spec_parse_edge_index(edge_id@),
{
    crate::deadlock::rip_up::parse_edge_index(edge_id)
}

/// The node that two edges share, if any: the first edge's source if the
/// second edge touches it, else the first edge's target if the second edge
/// touches that.
pub open spec fn spec_shared_node(edges: Seq<EdgeEnds>, a: usize, b: usize) -> Option<usize> {
    if a < edges.len() && b < edges.len() {
        let ea = edges[a as int];
        let eb = edges[b as int];
        if ea.from == eb.from || ea.from == eb.to {
            Some(ea.from)
        } else if ea.to == eb.from || ea.to == eb.to {
            Some(ea.to)
        } else {
            None
        }
    } else {
        None
    }
}

/// The node shared by two edges, if any (see `spec_shared_node`).
pub fn find_shared_node(edge_a_idx: usize, edge_b_idx: usize, edges: &Vec<EdgeEnds>) -> (r: Option<
    usize,
>)
    ensures
        r == spec_shared_node(edges@, edge_a_idx, edge_b_idx),
{
    if edge_a_idx >= edges.len() || edge_b_idx >= edges.len() {
        return None;
    }
    let a = edges[edge_a_idx];
    let b = edges[edge_b_idx];
    if a.from == b.from || a.from == b.to {
        Some(a.from)
    } else if a.to == b.from || a.to == b.to {
        Some(a.to)
    } else {
        None
    }
}

/// Whether edge `e` leaves node `node`.
pub open spec fn leaves(edges: Seq<EdgeEnds>, e: usize, node: usize) -> bool {
    e < edges.len() && edges[e as int].from == node
}

/// `p` with the port at `node`'s end replaced: the source port if the edge
/// leaves `node`, else the target port.
pub open spec fn with_port_at(p: EdgePorts, at_source: bool, port: crate::ports::assignment::Port) -> EdgePorts {
    if at_source {
        EdgePorts { source_port: port, ..p }
    } else {
        EdgePorts { target_port: port, ..p }
    }
}

/// One swap: edges `a` and `b` exchange their ports at `shared`; nothing
/// happens unless both have ports.
pub open spec fn swap_step(m: Map<usize, EdgePorts>, edges: Seq<EdgeEnds>, swap: (usize, usize, usize)) -> Map<
    usize,
    EdgePorts,
> {
    let (a, b, shared) = swap;
    if !m.contains_key(a) || !m.contains_key(b) {
        m
    } else {
        let a_src = leaves(edges, a, shared);
        let b_src = leaves(edges, b, shared);
        let a_port = if a_src {
            m[a].source_port
        } else {
            m[a].target_port
        };
        let b_port = if b_src {
            m[b].source_port
        } else {
            m[b].target_port
        };
        let m1 = m.insert(a, with_port_at(m[a], a_src, b_port));
        m1.insert(b, with_port_at(m1[b], b_src, a_port))
    }
}

/// The swaps applied in order.
pub open spec fn swaps_applied(m: Map<usize, EdgePorts>, edges: Seq<EdgeEnds>, swaps: Seq<(usize, usize, usize)>) -> Map<
    usize,
    EdgePorts,
>
    decreases swaps.len(),
{
    if swaps.len() == 0 {
        m
    } else {
        swap_step(swaps_applied(m, edges, swaps.drop_last()), edges, swaps.last())
    }
}

/// Law: one swap of edges `a` and `b` at node `shared` keeps the edges that
/// have ports, and touches only `a` and `b`. Each of them keeps the port at
/// its end away from `shared`: an edge that does not leave `shared` (its
/// `from` is another node) keeps its source port, one that leaves it keeps
/// its target port. For two different edges, each then holds at its end at
/// `shared` the port the other held there. Where either edge has no ports,
/// nothing changes.
pub proof fn lemma_swap_exchanges_ports_at_shared_node(
    m: Map<usize, EdgePorts>,
    edges: Seq<EdgeEnds>,
    a: usize,
    b: usize,
    shared: usize,
)
    ensures
        ({
            let r = swaps_applied(m, edges, seq![(a, b, shared)]);
            let a_out = (a as int) < edges.len() && edges[a as int].from == shared;
            let b_out = (b as int) < edges.len() && edges[b as int].from == shared;
            &&& r.dom() == m.dom()
            &&& forall|k: usize| k != a && k != b && #[trigger] m.contains_key(k) ==> r[k] == m[k]
            &&& !(m.contains_key(a) && m.contains_key(b)) ==> r == m
            &&& m.contains_key(a) && m.contains_key(b) ==> {
                &&& !a_out ==> r[a].source_port == m[a].source_port
                &&& a_out ==> r[a].target_port == m[a].target_port
                &&& !b_out ==> r[b].source_port == m[b].source_port
                &&& b_out ==> r[b].target_port == m[b].target_port
                &&& a != b ==> (if a_out {
                    r[a].source_port
                } else {
                    r[a].target_port
                }) == (if b_out {
                    m[b].source_port
                } else {
                    m[b].target_port
                })
                &&& a != b ==> (if b_out {
                    r[b].source_port
                } else {
                    r[b].target_port
                }) == (if a_out {
                    m[a].source_port
                } else {
                    m[a].target_port
                })
            }
        }),
{
    let sw = seq![(a, b, shared)];
    assert(sw.drop_last() =~= Seq::<(usize, usize, usize)>::empty());
    assert(sw.last() == (a, b, shared));
    assert(swaps_applied(m, edges, sw.drop_last()) == m);
    let r = swaps_applied(m, edges, sw);
    assert(r == swap_step(m, edges, (a, b, shared)));
    if m.contains_key(a) && m.contains_key(b) {
        assert(r.dom() =~= m.dom());
    }
}

/// For each `(edge_a, edge_b, shared_node)` in turn, swap the two edges'
/// ports at the shared node; the ports at their other ends stay.
pub fn apply_port_swaps(
    port_assignments: &mut HashMap<usize, EdgePorts>,
    swaps: &Vec<(usize, usize, usize)>,
    edges: &Vec<EdgeEnds>,
)
    ensures
        final(port_assignments)@ == swaps_applied(old(port_assignments)@, edges@, swaps@),
{
    let mut i: usize = 0;
    while i < swaps.len()
        invariant
            i <= swaps@.len(),
            port_assignments@ == swaps_applied(
                old(port_assignments)@,
                edges@,
                swaps@.subrange(0, i as int),
            ),
        decreases swaps@.len() - i,
    {
        let (edge_a, edge_b, shared) = swaps[i];
        proof {
            assert(swaps@.subrange(0, i + 1).drop_last() =~= swaps@.subrange(0, i as int));
        }
        let pa = match port_assignments.get(&edge_a) {
            Some(p) => *p,
            None => {
                i = i + 1;
                continue;
            },
        };
        let pb = match port_assignments.get(&edge_b) {
            Some(p) => *p,
            None => {
                i = i + 1;
                continue;
            },
        };
        let a_src = edge_a < edges.len() && edges[edge_a].from == shared;
        let b_src = edge_b < edges.len() && edges[edge_b].from == shared;
        let a_shared_port = if a_src {
            pa.source_port
        } else {
            pa.target_port
        };
        let b_shared_port = if b_src {
            pb.source_port
        } else {
            pb.target_port
        };
        let new_a = if a_src {
            EdgePorts { source_port: b_shared_port, ..pa }
        } else {
            EdgePorts { target_port: b_shared_port, ..pa }
        };
        port_assignments.insert(edge_a, new_a);
        let pb_now = match port_assignments.get(&edge_b) {
            Some(p) => *p,
            None => pb,
        };
        let new_b = if b_src {
            EdgePorts { source_port: a_shared_port, ..pb_now }
        } else {
            EdgePorts { target_port: a_shared_port, ..pb_now }
        };
        port_assignments.insert(edge_b, new_b);
        i = i + 1;
    }
    proof {
        assert(swaps@.subrange(0, swaps@.len() as int) =~= swaps@);
    }
}


// ─── crossing pairs on the grid ─────────────────────────────────────────────

/// `a` comes before `b`, comparing from position `k` on: at the first
/// position where they differ the smaller character wins, and a text that
/// runs out first comes first.
pub open spec fn text_lt_from(a: Seq<char>, b: Seq<char>, k: int) -> bool
    decreases a.len() - k,
{
    if k < 0 || k >= a.len() {
        0 <= k < b.len()
    } else if k >= b.len() {
        false
    } else if a[k] != b[k] {
        (a[k] as int) < (b[k] as int)
    } else {
        text_lt_from(a, b, k + 1)
    }
}

/// The order of texts that `<` on strings gives: lexicographic by
/// character (the byte order of UTF-8 keeps the order of characters).
pub open spec fn text_lt(a: Seq<char>, b: Seq<char>) -> bool {
    text_lt_from(a, b, 0)
}

proof fn lemma_text_lt_irreflexive(a: Seq<char>, k: int)
    requires
        0 <= k,
    ensures
        !text_lt_from(a, a, k),
    decreases a.len() - k,
{
    if k < a.len() {
        lemma_text_lt_irreflexive(a, k + 1);
    }
}

proof fn lemma_text_lt_total(a: Seq<char>, b: Seq<char>, k: int)
    requires
        0 <= k <= a.len(),
        k <= b.len(),
        a.subrange(0, k) == b.subrange(0, k),
        a != b,
    ensures
        text_lt_from(a, b, k) || text_lt_from(b, a, k),
    decreases a.len() - k,
{
    if k < a.len() && k < b.len() && a[k] == b[k] {
        assert(a.subrange(0, k + 1) =~= a.subrange(0, k).push(a[k]));
        assert(b.subrange(0, k + 1) =~= b.subrange(0, k).push(b[k]));
        lemma_text_lt_total(a, b, k + 1);
    } else if k == a.len() && k == b.len() {
        assert(a =~= a.subrange(0, k));
        assert(b =~= b.subrange(0, k));
    } else if k < a.len() && k < b.len() {
        assert((a[k] as int) != (b[k] as int));
    }
}

proof fn lemma_text_lt_asymmetric(a: Seq<char>, b: Seq<char>, k: int)
    requires
        0 <= k,
        text_lt_from(a, b, k),
    ensures
        !text_lt_from(b, a, k),
    decreases a.len() - k,
{
    if k < a.len() && k < b.len() && a[k] == b[k] {
        lemma_text_lt_asymmetric(a, b, k + 1);
    }
}

proof fn lemma_text_lt_transitive(a: Seq<char>, b: Seq<char>, c: Seq<char>, k: int)
    requires
        0 <= k,
        text_lt_from(a, b, k),
        text_lt_from(b, c, k),
    ensures
        text_lt_from(a, c, k),
    decreases a.len() - k,
{
    if k < a.len() && k < b.len() && k < c.len() && a[k] == b[k] && b[k] == c[k] {
        lemma_text_lt_transitive(a, b, c, k + 1);
    }
}

/// Whether `a` comes before `b` as strings (see `text_lt`).
fn str_less(a: &str, b: &str) -> (r: bool)
    ensures
        r == text_lt(a@, b@),
{
    let na = a.unicode_len();
    let nb = b.unicode_len();
    let mut k: usize = 0;
    while k < na && k < nb
        invariant
            na == a@.len(),
            nb == b@.len(),
            k <= na,
            k <= nb,
            text_lt(a@, b@) == text_lt_from(a@, b@, k as int),
        decreases na - k,
    {
        let ca = a.get_char(k);
        let cb = b.get_char(k);
        if ca != cb {
            return (ca as u32) < (cb as u32);
        }
        k = k + 1;
    }
    k < nb
}

/// A pair of edge ids, by their texts.
pub type TextPair = (Seq<char>, Seq<char>);

/// Pairs ordered by their first text, then their second.
pub open spec fn pair_lt(p: TextPair, q: TextPair) -> bool {
    text_lt(p.0, q.0) || (p.0 == q.0 && text_lt(p.1, q.1))
}

proof fn lemma_pair_order(p: TextPair, q: TextPair, r: TextPair)
    ensures
        !pair_lt(p, p),
        pair_lt(p, q) ==> !pair_lt(q, p),
        p != q ==> pair_lt(p, q) || pair_lt(q, p),
        pair_lt(p, q) && pair_lt(q, r) ==> pair_lt(p, r),
{
    lemma_text_lt_irreflexive(p.0, 0);
    lemma_text_lt_irreflexive(p.1, 0);
    assert(p.0.subrange(0, 0) =~= q.0.subrange(0, 0));
    assert(p.1.subrange(0, 0) =~= q.1.subrange(0, 0));
    if p.0 != q.0 {
        lemma_text_lt_total(p.0, q.0, 0);
    } else if p.1 != q.1 {
        lemma_text_lt_total(p.1, q.1, 0);
    }
    if text_lt(p.0, q.0) {
        lemma_text_lt_asymmetric(p.0, q.0, 0);
    }
    if text_lt(p.1, q.1) {
        lemma_text_lt_asymmetric(p.1, q.1, 0);
    }
    if pair_lt(p, q) && pair_lt(q, r) {
        if text_lt(p.0, q.0) && text_lt(q.0, r.0) {
            lemma_text_lt_transitive(p.0, q.0, r.0, 0);
        }
        if p.0 == q.0 && q.0 == r.0 {
            lemma_text_lt_transitive(p.1, q.1, r.1, 0);
        }
    }
}

/// The edge pair crossing on a cell, smaller id first: for a crossing cell
/// with both an owner and an edge crossing it.
pub open spec fn cell_pair(c: Cell) -> Option<TextPair> {
    if c.crossing && c.owner is Some && c.crossed_by is Some {
        let o = c.owner->0@;
        let x = c.crossed_by->0@;
        Some(
            if text_lt(o, x) {
                (o, x)
            } else {
                (x, o)
            },
        )
    } else {
        None
    }
}

/// Some cell before `(row, col)`, row by row, has the crossing pair `p`.
pub open spec fn pair_before(g: Grid, row: int, col: int, p: TextPair) -> bool {
    exists|r: int, c: int|
        #![trigger g.cell(r, c)]
        0 <= r < g.rows && 0 <= c < g.cols && (r < row || (r == row && c < col)) && cell_pair(
            g.cell(r, c),
        ) == Some(p)
}

/// Some cell of the grid has the crossing pair `p`.
pub open spec fn grid_has_pair(g: Grid, p: TextPair) -> bool {
    exists|r: int, c: int| #![trigger g.cell(r, c)] g.has(r, c) && cell_pair(g.cell(r, c)) == Some(p)
}

/// The texts of a list of pairs.
pub open spec fn pair_texts(v: Seq<(String, String)>) -> Seq<TextPair> {
    v.map_values(|p: (String, String)| (p.0@, p.1@))
}

/// The pairs are in strictly increasing order.
pub open spec fn strictly_sorted(v: Seq<TextPair>) -> bool {
    forall|i: int, j: int| 0 <= i < j < v.len() ==> pair_lt(#[trigger] v[i], #[trigger] v[j])
}

/// Add a pair to a strictly sorted list unless it is there already.
fn insert_pair(list: &mut Vec<(String, String)>, a: String, b: String)
    requires
        strictly_sorted(pair_texts(old(list)@)),
    ensures
        strictly_sorted(pair_texts(final(list)@)),
        forall|p: TextPair|
            pair_texts(final(list)@).contains(p) <==> (pair_texts(old(list)@).contains(p) || p == (
                a@,
                b@,
            )),
{
    let ghost x: TextPair = (a@, b@);
    let ghost v = pair_texts(list@);
    let mut i: usize = 0;
    while i < list.len()
        invariant
            v == pair_texts(list@),
            strictly_sorted(v),
            x == (a@, b@),
            i <= list@.len(),
            forall|k: int| 0 <= k < i ==> pair_lt(#[trigger] v[k], x),
        ensures
            i <= list@.len(),
            i < list@.len() ==> !pair_lt(v[i as int], x),
        decreases list.len() - i,
    {
        let less = str_less(list[i].0.as_str(), a.as_str()) || (list[i].0 == a && str_less(
            list[i].1.as_str(),
            b.as_str(),
        ));
        assert(v[i as int] == (list@[i as int].0@, list@[i as int].1@));
        if !less {
            break;
        }
        i = i + 1;
    }
    if i < list.len() && list[i].0 == a && list[i].1 == b {
        proof {
            assert(v[i as int] == x);
        }
        return;
    }
    proof {
        if i < v.len() {
            lemma_pair_order(v[i as int], x, x);
            assert(pair_lt(x, v[i as int]));
            assert forall|j: int| i <= j < v.len() implies pair_lt(x, #[trigger] v[j]) by {
                if j > i {
                    lemma_pair_order(x, v[i as int], v[j]);
                }
            }
        }
    }
    list.insert(i, (a, b));
    proof {
        let nv = pair_texts(list@);
        assert(nv =~= v.insert(i as int, x));
        assert forall|p: int, q: int| 0 <= p < q < nv.len() implies pair_lt(
            #[trigger] nv[p],
            #[trigger] nv[q],
        ) by {
            if q < i {
            } else if p < i && q == i {
            } else if p < i {
                lemma_pair_order(nv[p], x, nv[q]);
            } else if p == i {
            } else {
            }
        }
        assert forall|p: TextPair| nv.contains(p) <==> (v.contains(p) || p == x) by {
            if nv.contains(p) {
                let k = choose|k: int| 0 <= k < nv.len() && nv[k] == p;
                if k < i {
                    assert(v[k] == p);
                } else if k > i {
                    assert(v[k - 1] == p);
                }
            }
            if v.contains(p) {
                let k = choose|k: int| 0 <= k < v.len() && v[k] == p;
                if k < i {
                    assert(nv[k] == p);
                } else {
                    assert(nv[k + 1] == p);
                }
            }
            if p == x {
                assert(nv[i as int] == p);
            }
        }
    }
}

/// The edge pairs that cross on the grid, each once, smaller id first, in
/// increasing order: one for every crossing cell that has an owner and an
/// edge crossing it.
pub fn find_crossing_edge_pairs(grid: &Grid) -> (pairs: Vec<(String, String)>)
    requires
        grid.wf(),
    ensures
        strictly_sorted(pair_texts(pairs@)),
        forall|p: TextPair| pair_texts(pairs@).contains(p) <==> grid_has_pair(*grid, p),
{
    let mut pairs: Vec<(String, String)> = Vec::new();
    let mut row: usize = 0;
    while row < grid.rows
        invariant
            grid.wf(),
            row <= grid.rows,
            strictly_sorted(pair_texts(pairs@)),
            forall|p: TextPair|
                pair_texts(pairs@).contains(p) <==> pair_before(*grid, row as int, 0, p),
        decreases grid.rows - row,
    {
        let mut col: usize = 0;
        while col < grid.cols
            invariant
                grid.wf(),
                row < grid.rows,
                col <= grid.cols,
                strictly_sorted(pair_texts(pairs@)),
                forall|p: TextPair|
                    pair_texts(pairs@).contains(p) <==> pair_before(*grid, row as int, col as int, p),
            decreases grid.cols - col,
        {
            let cell = &grid.cells[row][col];
            assert(*cell == grid.cell(row as int, col as int));
            let ghost before = pairs@;
            if cell.crossing {
                match (&cell.owner, &cell.crossed_by) {
                    (Some(owner), Some(crossed_by)) => {
                        if str_less(owner.as_str(), crossed_by.as_str()) {
                            insert_pair(&mut pairs, owner.clone(), crossed_by.clone());
                        } else {
                            insert_pair(&mut pairs, crossed_by.clone(), owner.clone());
                        }
                    },
                    _ => {},
                }
            }
            proof {
                assert forall|p: TextPair|
                    pair_texts(pairs@).contains(p) <==> pair_before(
                        *grid,
                        row as int,
                        col + 1,
                        p,
                    ) by {
                    if pair_before(*grid, row as int, col + 1, p) {
                        let (r, c) = choose|r: int, c: int|
                            #![trigger grid.cell(r, c)]
                            0 <= r < grid.rows && 0 <= c < grid.cols && (r < row || (r == row && c
                                < col + 1)) && cell_pair(grid.cell(r, c)) == Some(p);
                        if !(r == row && c == col) {
                            assert(pair_before(*grid, row as int, col as int, p));
                        }
                    }
                    if pair_before(*grid, row as int, col as int, p) {
                        let (r, c) = choose|r: int, c: int|
                            #![trigger grid.cell(r, c)]
                            0 <= r < grid.rows && 0 <= c < grid.cols && (r < row || (r == row && c
                                < col)) && cell_pair(grid.cell(r, c)) == Some(p);
                        assert(pair_before(*grid, row as int, col + 1, p));
                    }
                    if cell_pair(grid.cell(row as int, col as int)) == Some(p) {
                        assert(pair_before(*grid, row as int, col + 1, p));
                    }
                }
            }
            col = col + 1;
        }
        proof {
            assert forall|p: TextPair|
                pair_before(*grid, row as int, grid.cols as int, p) <==> pair_before(
                    *grid,
                    row + 1,
                    0,
                    p,
                ) by {
                if pair_before(*grid, row + 1, 0, p) {
                    let (r, c) = choose|r: int, c: int|
                        #![trigger grid.cell(r, c)]
                        0 <= r < grid.rows && 0 <= c < grid.cols && (r < row + 1 || (r == row + 1
                            && c < 0)) && cell_pair(grid.cell(r, c)) == Some(p);
                    assert(pair_before(*grid, row as int, grid.cols as int, p));
                }
                if pair_before(*grid, row as int, grid.cols as int, p) {
                    let (r, c) = choose|r: int, c: int|
                        #![trigger grid.cell(r, c)]
                        0 <= r < grid.rows && 0 <= c < grid.cols && (r < row || (r == row && c
                            < grid.cols)) && cell_pair(grid.cell(r, c)) == Some(p);
                    assert(pair_before(*grid, row + 1, 0, p));
                }
            }
        }
        row = row + 1;
    }
    proof {
        assert forall|p: TextPair| pair_before(*grid, grid.rows as int, 0, p) <==> grid_has_pair(*grid, p) by {
            if grid_has_pair(*grid, p) {
                let (r, c) = choose|r: int, c: int| #![trigger grid.cell(r, c)] grid.has(r, c) && cell_pair(grid.cell(r, c)) == Some(p);
                assert(pair_before(*grid, grid.rows as int, 0, p));
            }
        }
    }
    pairs
}

} // verus!
