//! Grid sizing rules: the cell size from the smallest node dimension and the
//! edge density, the safety multiplier of the grid extent, and the largest
//! node degree that feeds it.
use vstd::prelude::*;

use crate::placement::sugiyama::EdgeEnds;
use crate::ports::auto::{
    count_occurrences,
    degree,
    endpoint_at,
    endpoints,
    lemma_occurrences_le,
    occurrences,
};

verus! {

/// Cell size of a graph without nodes.
pub const DEFAULT_CELL_SIZE: i32 = 20;

/// The smallest cell size.
pub const MIN_CELL_SIZE: i32 = 5;

/// How many cells the smallest node dimension is divided into: 4 for a
/// sparse graph (fewer than 1.5 edges per node), 5 for an average one (at
/// most 3), 6 for a dense one.
pub open spec fn spec_routing_factor(node_count: int, edge_count: int) -> int {
    if 2 * edge_count < 3 * node_count {
        4
    } else if edge_count <= 3 * node_count {
        5
    } else {
        6
    }
}

/// The routing factor of a graph (see `spec_routing_factor`).
pub fn routing_factor(node_count: usize, edge_count: usize) -> (r: u32)
    ensures
        r == spec_routing_factor(node_count as int, edge_count as int),
{
    if (edge_count as u128) * 2 < (node_count as u128) * 3 {
        4
    } else if (edge_count as u128) <= (node_count as u128) * 3 {
        5
    } else {
        6
    }
}

/// `v` clamped to the `i32` range.
pub open spec fn clamp_i32(v: int) -> int {
    if v > i32::MAX {
        i32::MAX as int
    } else if v < i32::MIN {
        i32::MIN as int
    } else {
        v
    }
}

/// The cell size: the default for a graph without nodes; otherwise the
/// floor of the smallest node dimension over the routing factor, and at
/// least `MIN_CELL_SIZE`.
pub open spec fn spec_cell_size(min_dimension: int, node_count: int, edge_count: int) -> int {
    if node_count == 0 {
        DEFAULT_CELL_SIZE as int
    } else {
        let q = clamp_i32(min_dimension / spec_routing_factor(node_count, edge_count));
        if q < MIN_CELL_SIZE {
            MIN_CELL_SIZE as int
        } else {
            q
        }
    }
}

/// Law: with nodes, the cell size divides the smallest node dimension into
/// `R` parts, `R` being 4 below 1.5 edges per node, 5 up to 3 edges per node
/// and 6 above: it is the largest `c` with `c * R <= min_dimension`,
/// raised to 5 where that is smaller and capped at `i32::MAX`. Without
/// nodes it is 20.
pub proof fn lemma_cell_size_divides_smallest_dimension(min_dimension: int, node_count: int, edge_count: int)
    requires
        node_count >= 0,
        edge_count >= 0,
    ensures
        node_count == 0 ==> spec_cell_size(min_dimension, node_count, edge_count) == 20,
        node_count > 0 ==> ({
            let c = spec_cell_size(min_dimension, node_count, edge_count);
            let r = if 2 * edge_count < 3 * node_count {
                4int
            } else if edge_count <= 3 * node_count {
                5int
            } else {
                6int
            };
            &&& 5 <= c <= i32::MAX
            &&& 5 < c < i32::MAX ==> c * r <= min_dimension < (c + 1) * r
            &&& c == 5 ==> min_dimension < 6 * r
            &&& c == i32::MAX ==> i32::MAX * r <= min_dimension
            &&& 5 * r <= min_dimension < (i32::MAX as int + 1) * r ==> c * r <= min_dimension < (c + 1) * r
        }),
{
    if node_count > 0 {
        let r = spec_routing_factor(node_count, edge_count);
        let q = min_dimension / r;
        assert(q * r <= min_dimension < (q + 1) * r) by (nonlinear_arith)
            requires
                r == 4 || r == 5 || r == 6,
                q == min_dimension / r,
        ;
    }
}

/// Cell size for a graph with `node_count` nodes and `edge_count` edges
/// whose smallest node width or height is `min_dimension` pixels (rounded
/// down).
pub fn calculate_cell_size(min_dimension: i64, node_count: usize, edge_count: usize) -> (cs: i32)
    ensures
        cs == spec_cell_size(min_dimension as int, node_count as int, edge_count as int),
{
    if node_count == 0 {
        return DEFAULT_CELL_SIZE;
    }
    let r = routing_factor(node_count, edge_count);
    if min_dimension < 0 {
        assert((min_dimension as int) / (r as int) < 0) by (nonlinear_arith)
            requires
                min_dimension < 0,
                r >= 1,
        ;
        return MIN_CELL_SIZE;
    }
    let q = (min_dimension as u64) / (r as u64);
    if q > i32::MAX as u64 {
        i32::MAX
    } else if q < MIN_CELL_SIZE as u64 {
        MIN_CELL_SIZE
    } else {
        q as i32
    }
}

/// The safety multiplier of the grid extent, in tenths: 1.5, plus 0.3 when
/// there are more than two edges per node, plus 0.2 when some node has more
/// than six edge ends, plus 0.2 when the graph has subgraphs.
pub open spec fn spec_safety_tenths(
    node_count: int,
    edge_count: int,
    max_degree: int,
    has_subgraphs: bool,
) -> int {
    15 + (if edge_count > 2 * node_count {
        3int
    } else {
        0
    }) + (if max_degree > 6 {
        2int
    } else {
        0
    }) + (if has_subgraphs {
        2int
    } else {
        0
    })
}

/// The safety multiplier of the grid extent, in tenths (see
/// `spec_safety_tenths`).
pub fn safety_multiplier_tenths(
    node_count: usize,
    edge_count: usize,
    max_degree: usize,
    has_subgraphs: bool,
) -> (k: u32)
    ensures
        k == spec_safety_tenths(node_count as int, edge_count as int, max_degree as int, has_subgraphs),
{
    let mut k: u32 = 15;
    if (edge_count as u128) > (node_count as u128) * 2 {
        k = k + 3;
    }
    if max_degree > 6 {
        k = k + 2;
    }
    if has_subgraphs {
        k = k + 2;
    }
    k
}

/// The largest degree among the first `k` edge ends' nodes.
pub open spec fn max_degree_upto(edges: Seq<EdgeEnds>, k: int) -> nat
    decreases k,
{
    if k <= 0 {
        0
    } else {
        let d = degree(edges, endpoints(edges)[k - 1]);
        let m = max_degree_upto(edges, k - 1);
        if d > m {
            d
        } else {
            m
        }
    }
}

/// The largest number of edge ends at one node (a self-loop counts twice),
/// over every node some edge names; 0 for a graph without nodes or edges.
pub fn calculate_max_degree(node_count: usize, edges: &Vec<EdgeEnds>) -> (d: usize)
    requires
        2 * edges@.len() <= usize::MAX,
    ensures
        d == (if node_count == 0 {
            0
        } else {
            max_degree_upto(edges@, 2 * edges@.len() as int)
        }),
{
    if node_count == 0 {
        return 0;
    }
    let total = 2 * edges.len();
    let mut best: usize = 0;
    let mut i: usize = 0;
    while i < total
        invariant
            total == 2 * edges@.len(),
            total <= usize::MAX,
            i <= total,
            best == max_degree_upto(edges@, i as int),
        decreases total - i,
    {
        let v = endpoint_at(edges, i);
        proof {
            lemma_occurrences_le(endpoints(edges@), v, total as int);
        }
        let d = count_occurrences(edges, v, total);
        if d > best {
            best = d;
        }
        i = i + 1;
    }
    best
}

} // verus!
