//! Graph statistics read by the Auto strategy: edge patterns (repeated and
//! two-way node pairs) and the load of node sides against their connectors.
use vstd::prelude::*;

use crate::grid::NodeFootprint;
use crate::placement::sugiyama::EdgeEnds;
use crate::ports::assignment::Side;
use crate::ports::common::{enumerate_connectors, footprint_ok, frame_ok, side_connectors};

verus! {

// ─── edge patterns ──────────────────────────────────────────────────────────

/// The unordered node pair of an edge, smaller end first.
pub open spec fn unordered(e: EdgeEnds) -> (usize, usize) {
    if e.from <= e.to {
        (e.from, e.to)
    } else {
        (e.to, e.from)
    }
}

/// Edges among the first `k` joining the unordered pair `p`.
pub open spec fn pair_count(edges: Seq<EdgeEnds>, p: (usize, usize), k: int) -> nat
    decreases k,
{
    if k <= 0 {
        0
    } else {
        pair_count(edges, p, k - 1) + if unordered(edges[k - 1]) == p {
            1nat
        } else {
            0nat
        }
    }
}

/// Unordered node pairs among the first `k` edges (each counted at its
/// first edge) that at least two edges join.
pub open spec fn multi_pairs_upto(edges: Seq<EdgeEnds>, k: int) -> nat
    decreases k,
{
    if k <= 0 {
        0
    } else {
        let p = unordered(edges[k - 1]);
        multi_pairs_upto(edges, k - 1) + if pair_count(edges, p, k - 1) == 0 && pair_count(
            edges,
            p,
            edges.len() as int,
        ) >= 2 {
            1nat
        } else {
            0nat
        }
    }
}

/// Edges among the first `k` from `a` to `b`.
pub open spec fn directed_count(edges: Seq<EdgeEnds>, a: usize, b: usize, k: int) -> nat
    decreases k,
{
    if k <= 0 {
        0
    } else {
        directed_count(edges, a, b, k - 1) + if edges[k - 1].from == a && edges[k - 1].to == b {
            1nat
        } else {
            0nat
        }
    }
}

/// Directed node pairs among the first `k` edges (each counted at its first
/// edge) whose reverse pair also has an edge.
pub open spec fn reversed_pairs_upto(edges: Seq<EdgeEnds>, k: int) -> nat
    decreases k,
{
    if k <= 0 {
        0
    } else {
        let e = edges[k - 1];
        reversed_pairs_upto(edges, k - 1) + if directed_count(edges, e.from, e.to, k - 1) == 0
            && directed_count(edges, e.to, e.from, edges.len() as int) > 0 {
            1nat
        } else {
            0nat
        }
    }
}

proof fn lemma_pair_count_le(edges: Seq<EdgeEnds>, p: (usize, usize), k: int)
    requires
        0 <= k,
    ensures
        pair_count(edges, p, k) <= k,
    decreases k,
{
    if k > 0 {
        lemma_pair_count_le(edges, p, k - 1);
    }
}

proof fn lemma_multi_pairs_le(edges: Seq<EdgeEnds>, k: int)
    requires
        0 <= k,
    ensures
        multi_pairs_upto(edges, k) <= k,
    decreases k,
{
    if k > 0 {
        lemma_multi_pairs_le(edges, k - 1);
    }
}

proof fn lemma_directed_count_le(edges: Seq<EdgeEnds>, a: usize, b: usize, k: int)
    requires
        0 <= k,
    ensures
        directed_count(edges, a, b, k) <= k,
    decreases k,
{
    if k > 0 {
        lemma_directed_count_le(edges, a, b, k - 1);
    }
}

proof fn lemma_reversed_pairs_le(edges: Seq<EdgeEnds>, k: int)
    requires
        0 <= k,
    ensures
        reversed_pairs_upto(edges, k) <= k,
    decreases k,
{
    if k > 0 {
        lemma_reversed_pairs_le(edges, k - 1);
    }
}

fn unordered_pair(e: EdgeEnds) -> (p: (usize, usize))
    ensures
        p == unordered(e),
{
    if e.from <= e.to {
        (e.from, e.to)
    } else {
        (e.to, e.from)
    }
}

fn count_pair(edges: &Vec<EdgeEnds>, p: (usize, usize), k: usize) -> (n: usize)
    requires
        k <= edges@.len(),
    ensures
        n == pair_count(edges@, p, k as int),
{
    let mut n: usize = 0;
    let mut i: usize = 0;
    while i < k
        invariant
            i <= k,
            k <= edges@.len(),
            n == pair_count(edges@, p, i as int),
        decreases k - i,
    {
        proof {
            lemma_pair_count_le(edges@, p, i as int);
        }
        let q = unordered_pair(edges[i]);
        if q.0 == p.0 && q.1 == p.1 {
            n = n + 1;
        }
        i = i + 1;
    }
    n
}

fn count_directed(edges: &Vec<EdgeEnds>, a: usize, b: usize, k: usize) -> (n: usize)
    requires
        k <= edges@.len(),
    ensures
        n == directed_count(edges@, a, b, k as int),
{
    let mut n: usize = 0;
    let mut i: usize = 0;
    while i < k
        invariant
            i <= k,
            k <= edges@.len(),
            n == directed_count(edges@, a, b, i as int),
        decreases k - i,
    {
        proof {
            lemma_directed_count_le(edges@, a, b, i as int);
        }
        if edges[i].from == a && edges[i].to == b {
            n = n + 1;
        }
        i = i + 1;
    }
    n
}

/// Number of node pairs that two or more edges join, in either direction.
pub fn multi_edge_count(edges: &Vec<EdgeEnds>) -> (n: usize)
    ensures
        n == multi_pairs_upto(edges@, edges@.len() as int),
{
    let mut n: usize = 0;
    let mut i: usize = 0;
    while i < edges.len()
        invariant
            i <= edges@.len(),
            n == multi_pairs_upto(edges@, i as int),
        decreases edges.len() - i,
    {
        proof {
            lemma_multi_pairs_le(edges@, i as int);
        }
        let p = unordered_pair(edges[i]);
        if count_pair(edges, p, i) == 0 && count_pair(edges, p, edges.len()) >= 2 {
            n = n + 1;
        }
        i = i + 1;
    }
    n
}

/// Number of node pairs with edges both ways: the directed pairs whose
/// reverse also has an edge, halved (a self-loop is its own reverse and
/// counts as a half).
pub fn bidirectional_edge_count(edges: &Vec<EdgeEnds>) -> (n: usize)
    ensures
        n == reversed_pairs_upto(edges@, edges@.len() as int) / 2,
{
    let mut n: usize = 0;
    let mut i: usize = 0;
    while i < edges.len()
        invariant
            i <= edges@.len(),
            n == reversed_pairs_upto(edges@, i as int),
        decreases edges.len() - i,
    {
        proof {
            lemma_reversed_pairs_le(edges@, i as int);
        }
        let e = edges[i];
        if count_directed(edges, e.from, e.to, i) == 0 && count_directed(edges, e.to, e.from, edges.len()) > 0 {
            n = n + 1;
        }
        i = i + 1;
    }
    n / 2
}

// ─── side load ──────────────────────────────────────────────────────────────

/// How the edge ends of the nodes load their sides: the most ends on one
/// side, the ends beyond the connectors of their side, and over the sides
/// with ends, their connectors in total, their number, and the fewest
/// connectors on such a side that has any (0 when none has).
#[derive(Debug, Clone, Copy, PartialEq, Eq, Structural)]
pub struct SideLoad {
    pub max_edges_per_side: usize,
    pub overflow_count: usize,
    pub total_connectors: usize,
    pub occupied_side_count: usize,
    pub min_connectors_on_loaded_side: usize,
}

/// The side with number `k` (top 0, right 1, bottom 2, left 3).
pub open spec fn side_at(k: int) -> Side {
    if k == 0 {
        Side::Top
    } else if k == 1 {
        Side::Right
    } else if k == 2 {
        Side::Bottom
    } else {
        Side::Left
    }
}

/// The running totals `(max, overflow, connectors, sides, min)` after the
/// first `k` (node, side) pairs, nodes in order and each node's sides top,
/// right, bottom, left; `min` starts at `usize::MAX`.
pub open spec fn load_upto(
    fps: Seq<NodeFootprint>,
    diamonds: Seq<bool>,
    counts: Seq<Vec<usize>>,
    cell_size: i32,
    offset_x: i32,
    offset_y: i32,
    k: int,
) -> (int, int, int, int, int)
    decreases k,
{
    if k <= 0 {
        (0, 0, 0, 0, usize::MAX as int)
    } else {
        let (mx, over, total, occupied, mn) = load_upto(
            fps,
            diamonds,
            counts,
            cell_size,
            offset_x,
            offset_y,
            k - 1,
        );
        let node = (k - 1) / 4;
        let s = (k - 1) % 4;
        let c = counts[node]@[s] as int;
        let conns = side_connectors(
            fps[node],
            diamonds[node],
            side_at(s),
            cell_size,
            offset_x,
            offset_y,
        ).len() as int;
        if c == 0 {
            (mx, over, total, occupied, mn)
        } else {
            (
                if c > mx {
                    c
                } else {
                    mx
                },
                if c > conns {
                    over + (c - conns)
                } else {
                    over
                },
                total + conns,
                occupied + 1,
                if conns > 0 && conns < mn {
                    conns
                } else {
                    mn
                },
            )
        }
    }
}

/// The side load of `n` nodes with footprints `fps`, shape flags `diamonds`
/// and `counts[i][s]` edge ends on side `s` of node `i`.
pub open spec fn spec_side_load(
    fps: Seq<NodeFootprint>,
    diamonds: Seq<bool>,
    counts: Seq<Vec<usize>>,
    cell_size: i32,
    offset_x: i32,
    offset_y: i32,
) -> (int, int, int, int, int) {
    load_upto(fps, diamonds, counts, cell_size, offset_x, offset_y, 4 * fps.len() as int)
}

proof fn lemma_load_mono(
    fps: Seq<NodeFootprint>,
    diamonds: Seq<bool>,
    counts: Seq<Vec<usize>>,
    cell_size: i32,
    offset_x: i32,
    offset_y: i32,
    k: int,
    k2: int,
)
    requires
        0 <= k <= k2,
    ensures
        ({
            let a = load_upto(fps, diamonds, counts, cell_size, offset_x, offset_y, k);
            let b = load_upto(fps, diamonds, counts, cell_size, offset_x, offset_y, k2);
            &&& 0 <= a.0 <= b.0
            &&& 0 <= a.1 <= b.1
            &&& 0 <= a.2 <= b.2
            &&& 0 <= a.3 <= b.3
            &&& 0 <= b.4 <= a.4 <= usize::MAX
        }),
    decreases k2,
{
    if k < k2 {
        lemma_load_mono(fps, diamonds, counts, cell_size, offset_x, offset_y, k, k2 - 1);
    } else if k > 0 {
        lemma_load_mono(fps, diamonds, counts, cell_size, offset_x, offset_y, k - 1, k - 1);
    }
}

/// The side load of the nodes (see `spec_side_load`): `counts[i][s]` is the
/// number of edge ends the angle rule puts on side `s` of node `i`.
pub fn side_load(
    fps: &Vec<NodeFootprint>,
    diamonds: &Vec<bool>,
    counts: &Vec<Vec<usize>>,
    cell_size: i32,
    offset_x: i32,
    offset_y: i32,
) -> (r: SideLoad)
    requires
        diamonds@.len() == fps@.len(),
        counts@.len() == fps@.len(),
        forall|i: int| 0 <= i < fps@.len() ==> (#[trigger] counts@[i])@.len() == 4,
        forall|i: int| 0 <= i < fps@.len() ==> footprint_ok(#[trigger] fps@[i]),
        frame_ok(cell_size, offset_x, offset_y),
        spec_side_load(fps@, diamonds@, counts@, cell_size, offset_x, offset_y).1 <= usize::MAX,
        spec_side_load(fps@, diamonds@, counts@, cell_size, offset_x, offset_y).2 <= usize::MAX,
        spec_side_load(fps@, diamonds@, counts@, cell_size, offset_x, offset_y).3 <= usize::MAX,
    ensures
        ({
            let t = spec_side_load(fps@, diamonds@, counts@, cell_size, offset_x, offset_y);
            &&& r.max_edges_per_side == t.0
            &&& r.overflow_count == t.1
            &&& r.total_connectors == t.2
            &&& r.occupied_side_count == t.3
            &&& r.min_connectors_on_loaded_side == if t.4 == usize::MAX {
                0
            } else {
                t.4
            }
        }),
{
    let ghost total_k: int = 4 * fps@.len() as int;
    let ghost fin = spec_side_load(fps@, diamonds@, counts@, cell_size, offset_x, offset_y);
    let mut mx: usize = 0;
    let mut over: usize = 0;
    let mut total: usize = 0;
    let mut occupied: usize = 0;
    let mut mn: usize = usize::MAX;
    let sides = [Side::Top, Side::Right, Side::Bottom, Side::Left];
    let mut i: usize = 0;
    while i < fps.len()
        invariant
            diamonds@.len() == fps@.len(),
            counts@.len() == fps@.len(),
            forall|q: int| 0 <= q < fps@.len() ==> (#[trigger] counts@[q])@.len() == 4,
            forall|q: int| 0 <= q < fps@.len() ==> footprint_ok(#[trigger] fps@[q]),
            frame_ok(cell_size, offset_x, offset_y),
            sides@ == seq![Side::Top, Side::Right, Side::Bottom, Side::Left],
            total_k == 4 * fps@.len(),
            fin == load_upto(fps@, diamonds@, counts@, cell_size, offset_x, offset_y, total_k),
            fin.1 <= usize::MAX,
            fin.2 <= usize::MAX,
            fin.3 <= usize::MAX,
            i <= fps@.len(),
            (mx as int, over as int, total as int, occupied as int, mn as int) == load_upto(
                fps@,
                diamonds@,
                counts@,
                cell_size,
                offset_x,
                offset_y,
                4 * i,
            ),
        decreases fps.len() - i,
    {
        let mut s: usize = 0;
        while s < 4
            invariant
                diamonds@.len() == fps@.len(),
                counts@.len() == fps@.len(),
                i < fps@.len(),
                counts@[i as int]@.len() == 4,
                footprint_ok(fps@[i as int]),
                frame_ok(cell_size, offset_x, offset_y),
                sides@ == seq![Side::Top, Side::Right, Side::Bottom, Side::Left],
                total_k == 4 * fps@.len(),
                fin == load_upto(fps@, diamonds@, counts@, cell_size, offset_x, offset_y, total_k),
                fin.1 <= usize::MAX,
                fin.2 <= usize::MAX,
                fin.3 <= usize::MAX,
                s <= 4,
                (mx as int, over as int, total as int, occupied as int, mn as int) == load_upto(
                    fps@,
                    diamonds@,
                    counts@,
                    cell_size,
                    offset_x,
                    offset_y,
                    4 * i + s,
                ),
            decreases 4 - s,
        {
            let ghost k = 4 * i + s;
            proof {
                assert((k + 1 - 1) / 4 == i && (k + 1 - 1) % 4 == s);
                lemma_load_mono(fps@, diamonds@, counts@, cell_size, offset_x, offset_y, k + 1, total_k);
                assert(sides@[s as int] == side_at(s as int));
            }
            let c = counts[i][s];
            if c > 0 {
                let conns = enumerate_connectors(fps[i], diamonds[i], sides[s], cell_size, offset_x, offset_y).len();
                if c > mx {
                    mx = c;
                }
                if c > conns {
                    over = over + (c - conns);
                }
                total = total + conns;
                occupied = occupied + 1;
                if conns > 0 && conns < mn {
                    mn = conns;
                }
            }
            s = s + 1;
        }
        i = i + 1;
    }
    SideLoad {
        max_edges_per_side: mx,
        overflow_count: over,
        total_connectors: total,
        occupied_side_count: occupied,
        min_connectors_on_loaded_side: if mn == usize::MAX {
            0
        } else {
            mn
        },
    }
}

} // verus!
