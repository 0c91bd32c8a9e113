//! Port geometry shared by the strategies: connectors on node sides, side
//! neighbours, and back-edge handling.
use vstd::prelude::*;

use crate::grid::NodeFootprint;
use crate::model::Direction;
use crate::placement::sugiyama::{
    build_adjacency,
    count_false,
    in_count,
    lemma_count_false_update,
    lemma_in_count_pos,
    lemma_out_edges,
    lemma_targets,
    none_done,
    out_edges,
    resolved,
    targets,
    EdgeEnds,
};
use crate::ports::assignment::Side;

verus! {

/// A connector: a grid point on a node boundary where an edge may attach,
/// with its world coordinates.
#[derive(Debug, Clone, Copy, PartialEq, Eq, Structural)]
pub struct Connector {
    pub grid_row: i64,
    pub grid_col: i64,
    pub x: i64,
    pub y: i64,
}

/// Bound on grid coordinates under which world coordinates fit in `i64`
/// for every `i32` cell size and offset.
pub open spec fn coord_bound() -> int {
    0x2000_0000
}

/// A footprint of at least one point each way, within the coordinate bound.
pub open spec fn footprint_ok(fp: NodeFootprint) -> bool {
    &&& -coord_bound() <= fp.gc <= coord_bound()
    &&& -coord_bound() <= fp.gr <= coord_bound()
    &&& 1 <= fp.w_points <= coord_bound()
    &&& 1 <= fp.h_points <= coord_bound()
}

/// Cell size and offsets of a grid frame; any `i32` values will do.
pub open spec fn frame_ok(cell_size: i32, offset_x: i32, offset_y: i32) -> bool {
    &&& -0x8000_0000 <= cell_size <= 0x8000_0000
    &&& -0x8000_0000 <= offset_x <= 0x8000_0000
    &&& -0x8000_0000 <= offset_y <= 0x8000_0000
}

/// The connector at grid point `(r, c)`.
pub open spec fn connector_at(r: int, c: int, cell_size: i32, offset_x: i32, offset_y: i32) -> Connector {
    Connector {
        grid_row: r as i64,
        grid_col: c as i64,
        x: (c * cell_size + offset_x) as i64,
        y: (r * cell_size + offset_y) as i64,
    }
}

/// The connectors of one side of a node, in increasing column (top and
/// bottom) or row (left and right) order: the boundary points without the
/// corners; a diamond has only the midpoint of each side.
pub open spec fn side_connectors(
    fp: NodeFootprint,
    diamond: bool,
    side: Side,
    cell_size: i32,
    offset_x: i32,
    offset_y: i32,
) -> Seq<Connector> {
    let gc = fp.gc as int;
    let gr = fp.gr as int;
    let w = fp.w_points as int;
    let h = fp.h_points as int;
    let across = if w >= 2 { w - 2 } else { 0 };
    let down = if h >= 2 { h - 2 } else { 0 };
    if diamond {
        let mid_col = gc + w / 2;
        let mid_row = gr + h / 2;
        seq![
            match side {
                Side::Top => connector_at(gr, mid_col, cell_size, offset_x, offset_y),
                Side::Bottom => connector_at(gr + h - 1, mid_col, cell_size, offset_x, offset_y),
                Side::Left => connector_at(mid_row, gc, cell_size, offset_x, offset_y),
                Side::Right => connector_at(mid_row, gc + w - 1, cell_size, offset_x, offset_y),
            },
        ]
    } else {
        match side {
            Side::Top => Seq::new(
                across as nat,
                |k: int| connector_at(gr, gc + 1 + k, cell_size, offset_x, offset_y),
            ),
            Side::Bottom => Seq::new(
                across as nat,
                |k: int| connector_at(gr + h - 1, gc + 1 + k, cell_size, offset_x, offset_y),
            ),
            Side::Left => Seq::new(
                down as nat,
                |k: int| connector_at(gr + 1 + k, gc, cell_size, offset_x, offset_y),
            ),
            Side::Right => Seq::new(
                down as nat,
                |k: int| connector_at(gr + 1 + k, gc + w - 1, cell_size, offset_x, offset_y),
            ),
        }
    }
}

fn make_connector(r: i64, c: i64, cell_size: i32, offset_x: i32, offset_y: i32) -> (k: Connector)
    requires
        -4 * coord_bound() <= r <= 4 * coord_bound(),
        -4 * coord_bound() <= c <= 4 * coord_bound(),
        frame_ok(cell_size, offset_x, offset_y),
    ensures
        k == connector_at(r as int, c as int, cell_size, offset_x, offset_y),
{
    assert(-0x4000_0000_0000_0000 <= c * cell_size <= 0x4000_0000_0000_0000) by (nonlinear_arith)
        requires
            -0x8000_0000 <= c <= 0x8000_0000,
            -0x8000_0000 <= cell_size <= 0x8000_0000,
    ;
    assert(-0x4000_0000_0000_0000 <= r * cell_size <= 0x4000_0000_0000_0000) by (nonlinear_arith)
        requires
            -0x8000_0000 <= r <= 0x8000_0000,
            -0x8000_0000 <= cell_size <= 0x8000_0000,
    ;
    let cs = cell_size as i64;
    Connector {
        grid_row: r,
        grid_col: c,
        x: c * cs + offset_x as i64,
        y: r * cs + offset_y as i64,
    }
}

/// The available connectors on one side of a node: the boundary grid points
/// other than the corners, in increasing column or row order; a diamond has
/// a single connector, the midpoint of the side.
pub fn enumerate_connectors(
    fp: NodeFootprint,
    diamond: bool,
    side: Side,
    cell_size: i32,
    offset_x: i32,
    offset_y: i32,
) -> (v: Vec<Connector>)
    requires
        footprint_ok(fp),
        frame_ok(cell_size, offset_x, offset_y),
    ensures
        v@ == side_connectors(fp, diamond, side, cell_size, offset_x, offset_y),
{
    let gc = fp.gc;
    let gr = fp.gr;
    let w = fp.w_points;
    let h = fp.h_points;
    if diamond {
        let mid_col = gc + w / 2;
        let mid_row = gr + h / 2;
        let c = match side {
            Side::Top => make_connector(gr, mid_col, cell_size, offset_x, offset_y),
            Side::Bottom => make_connector(gr + h - 1, mid_col, cell_size, offset_x, offset_y),
            Side::Left => make_connector(mid_row, gc, cell_size, offset_x, offset_y),
            Side::Right => make_connector(mid_row, gc + w - 1, cell_size, offset_x, offset_y),
        };
        let mut v: Vec<Connector> = Vec::new();
        v.push(c);
        proof {
            assert(v@ =~= side_connectors(fp, diamond, side, cell_size, offset_x, offset_y));
        }
        return v;
    }
    let ghost target = side_connectors(fp, diamond, side, cell_size, offset_x, offset_y);
    let mut v: Vec<Connector> = Vec::new();
    let horizontal = match side {
        Side::Top | Side::Bottom => true,
        Side::Left | Side::Right => false,
    };
    let (first, last) = if horizontal {
        (gc + 1, gc + w - 2)
    } else {
        (gr + 1, gr + h - 2)
    };
    let mut k = first;
    while k <= last
        invariant
            footprint_ok(fp),
            frame_ok(cell_size, offset_x, offset_y),
            !diamond,
            gc == fp.gc,
            gr == fp.gr,
            w == fp.w_points,
            h == fp.h_points,
            horizontal == (side == Side::Top || side == Side::Bottom),
            first == if horizontal { gc + 1 } else { gr + 1 },
            last == if horizontal { gc + w - 2 } else { gr + h - 2 },
            first <= k,
            k <= last + 1 || k == first,
            target == side_connectors(fp, diamond, side, cell_size, offset_x, offset_y),
            target.len() == if last + 1 >= first {
                last + 1 - first
            } else {
                0
            },
            v@ == target.subrange(0, k - first),
        decreases last + 1 - k,
    {
        let c = match side {
            Side::Top => make_connector(gr, k, cell_size, offset_x, offset_y),
            Side::Bottom => make_connector(gr + h - 1, k, cell_size, offset_x, offset_y),
            Side::Left => make_connector(k, gc, cell_size, offset_x, offset_y),
            Side::Right => make_connector(k, gc + w - 1, cell_size, offset_x, offset_y),
        };
        proof {
            assert(c == target[k - first]);
        }
        v.push(c);
        proof {
            assert(v@ =~= target.subrange(0, k + 1 - first));
        }
        k = k + 1;
    }
    proof {
        assert(v@ =~= target);
    }
    v
}


// ─── side neighbours ────────────────────────────────────────────────────────

/// The next side clockwise.
pub open spec fn spec_clockwise(side: Side) -> Side {
    match side {
        Side::Top => Side::Right,
        Side::Right => Side::Bottom,
        Side::Bottom => Side::Left,
        Side::Left => Side::Top,
    }
}

/// The next side counter-clockwise.
pub open spec fn spec_counter_clockwise(side: Side) -> Side {
    match side {
        Side::Top => Side::Left,
        Side::Left => Side::Bottom,
        Side::Bottom => Side::Right,
        Side::Right => Side::Top,
    }
}

/// The side after `side`, going clockwise.
pub fn clockwise_neighbor(side: Side) -> (r: Side)
    ensures
        r == spec_clockwise(side),
{
    match side {
        Side::Top => Side::Right,
        Side::Right => Side::Bottom,
        Side::Bottom => Side::Left,
        Side::Left => Side::Top,
    }
}

/// The side after `side`, going counter-clockwise.
pub fn counter_clockwise_neighbor(side: Side) -> (r: Side)
    ensures
        r == spec_counter_clockwise(side),
{
    match side {
        Side::Top => Side::Left,
        Side::Left => Side::Bottom,
        Side::Bottom => Side::Right,
        Side::Right => Side::Top,
    }
}

/// Law: a clockwise step and a counter-clockwise step undo each other, and
/// four clockwise steps come back to the start through every side.
pub proof fn lemma_neighbor_sides(side: Side)
    ensures
        spec_counter_clockwise(spec_clockwise(side)) == side,
        spec_clockwise(spec_counter_clockwise(side)) == side,
        spec_clockwise(spec_clockwise(spec_clockwise(spec_clockwise(side)))) == side,
        spec_clockwise(side) != side,
        spec_clockwise(spec_clockwise(side)) != side,
        spec_counter_clockwise(side) != side,
{
}

// ─── back edges ─────────────────────────────────────────────────────────────

/// Rank of node `i`, or 0 for a node without one.
pub open spec fn rank_or_zero(ranks: Seq<usize>, i: int) -> usize {
    if 0 <= i < ranks.len() {
        ranks[i]
    } else {
        0
    }
}

/// Whether an edge goes against the flow: its source has a higher
/// topological rank than its target (a node without a rank counts as 0).
pub fn is_back_edge(from: usize, to: usize, topo_rank: &Vec<usize>) -> (r: bool)
    ensures
        r == (rank_or_zero(topo_rank@, from as int) > rank_or_zero(topo_rank@, to as int)),
{
    let src_rank = if from < topo_rank.len() {
        topo_rank[from]
    } else {
        0
    };
    let tgt_rank = if to < topo_rank.len() {
        topo_rank[to]
    } else {
        0
    };
    src_rank > tgt_rank
}

/// The upstream side of a flow direction: where a back edge leaves its source.
pub open spec fn upstream_side(direction: Direction) -> Side {
    match direction {
        Direction::TB => Side::Top,
        Direction::BT => Side::Bottom,
        Direction::LR => Side::Left,
        Direction::RL => Side::Right,
    }
}

/// The downstream side of a flow direction: where a back edge enters its target.
pub open spec fn downstream_side(direction: Direction) -> Side {
    match direction {
        Direction::TB => Side::Bottom,
        Direction::BT => Side::Top,
        Direction::LR => Side::Right,
        Direction::RL => Side::Left,
    }
}

/// For a back edge, the side to use: the source leaves by the upstream side
/// and the target is entered from the downstream side.
pub fn override_side_for_back_edge(is_source: bool, direction: Direction) -> (r: Side)
    ensures
        is_source ==> r == upstream_side(direction),
        !is_source ==> r == downstream_side(direction),
{
    match direction {
        Direction::TB => {
            if is_source {
                Side::Top
            } else {
                Side::Bottom
            }
        },
        Direction::BT => {
            if is_source {
                Side::Bottom
            } else {
                Side::Top
            }
        },
        Direction::LR => {
            if is_source {
                Side::Left
            } else {
                Side::Right
            }
        },
        Direction::RL => {
            if is_source {
                Side::Right
            } else {
                Side::Left
            }
        },
    }
}

/// Law: the two ends of a back edge get opposite sides, two clockwise steps apart.
pub proof fn lemma_back_edge_sides_opposite(direction: Direction)
    ensures
        spec_clockwise(spec_clockwise(upstream_side(direction))) == downstream_side(direction),
{
}


// ─── topological rank ───────────────────────────────────────────────────────

/// Number of resolved edges into `v`.
pub open spec fn in_degree(edges: Seq<EdgeEnds>, n: nat, v: int) -> nat {
    in_count(edges, n, v, none_done(n), edges.len() as int)
}

/// What the breadth-first ranking gives, over the set `vis` of nodes that
/// it reaches from the sources: every source is reached with rank 0; the
/// successors of reached nodes are reached; unreached nodes have rank 0;
/// every reached node with a predecessor sits one rank below some reached
/// predecessor.
pub open spec fn is_bfs_ranking(n: nat, edges: Seq<EdgeEnds>, rank: Seq<usize>, vis: Seq<bool>) -> bool {
    &&& rank.len() == n
    &&& vis.len() == n
    &&& forall|v: int| 0 <= v < n && in_degree(edges, n, v) == 0 ==> #[trigger] vis[v] && rank[v] == 0
    &&& forall|e: int|
        #![trigger edges[e]]
        0 <= e < edges.len() && resolved(edges[e], n) && vis[edges[e].from as int] ==> vis[edges[e].to as int]
    &&& forall|v: int| 0 <= v < n && !#[trigger] vis[v] ==> rank[v] == 0
    &&& forall|v: int|
        0 <= v < n && #[trigger] vis[v] && in_degree(edges, n, v) > 0 ==> exists|e: int|
            0 <= e < edges.len() && resolved(edges[e], n) && edges[e].to == v && vis[edges[e].from as int]
                && rank[v] == #[trigger] rank[edges[e].from as int] + 1
}

/// Topological rank of each node by a breadth-first search from the nodes
/// without incoming edges (in node order): sources get 0, each node reached
/// gets one more than the largest rank of the nodes it was reached from
/// before it was taken off the queue; nodes reached only through cycles,
/// or not at all, get 0. Which predecessor a node's rank follows depends on
/// the order in which the sources are taken; the contract states what holds
/// of the ranking whatever that order.
#[verifier::rlimit(40)]
pub fn compute_topo_rank(node_count: usize, edges: &Vec<EdgeEnds>) -> (rank: Vec<usize>)
    ensures
        exists|vis: Seq<bool>| is_bfs_ranking(node_count as nat, edges@, rank@, vis),
{
    let n = node_count;
    let ghost nn = n as nat;
    let ghost es = edges@;
    let (adj, in_deg) = build_adjacency(n, edges);
    let m = edges.len();
    let mut rank: Vec<usize> = Vec::new();
    let mut visited: Vec<bool> = Vec::new();
    let mut queue: Vec<usize> = Vec::new();
    let mut i: usize = 0;
    while i < n
        invariant
            nn == n as nat,
            es == edges@,
            i <= n,
            in_deg@.len() == n,
            forall|v: int| 0 <= v < n ==> #[trigger] in_deg@[v] == in_degree(es, nn, v),
            rank@.len() == i,
            visited@.len() == i,
            forall|v: int| 0 <= v < i ==> #[trigger] rank@[v] == 0,
            forall|v: int| 0 <= v < i ==> !#[trigger] visited@[v],
            forall|k: int| 0 <= k < queue@.len() ==> (#[trigger] queue@[k] as int) < i,
            forall|k: int| 0 <= k < queue@.len() ==> in_degree(es, nn, #[trigger] queue@[k] as int) == 0,
            forall|v: int| 0 <= v < i && in_degree(es, nn, v) == 0 ==> #[trigger] queue@.contains(v as usize),
        decreases n - i,
    {
        rank.push(0);
        visited.push(false);
        if in_deg[i] == 0 {
            let ghost before = queue@;
            queue.push(i);
            proof {
                assert forall|v: int| 0 <= v < i + 1 && in_degree(es, nn, v) == 0 implies #[trigger] queue@.contains(
                    v as usize,
                ) by {
                    if v < i {
                        assert(before.contains(v as usize));
                        let k = choose|k: int| 0 <= k < before.len() && before[k] == v as usize;
                        assert(queue@[k] == before[k]);
                    } else {
                        assert(queue@[before.len() as int] == i);
                    }
                }
            }
        } else {
            proof {
                assert forall|v: int| 0 <= v < i + 1 && in_degree(es, nn, v) == 0 implies #[trigger] queue@.contains(
                    v as usize,
                ) by {
                    if v == i {
                        assert(in_deg@[v] == in_degree(es, nn, v));
                    }
                }
            }
        }
        i = i + 1;
    }
    let mut head: usize = 0;
    while head < queue.len()
        invariant
            nn == n as nat,
            es == edges@,
            m == es.len(),
            adj@.len() == n,
            forall|u: int| 0 <= u < n ==> (#[trigger] adj@[u])@ == targets(es, nn, u),
            rank@.len() == n,
            visited@.len() == n,
            head <= queue@.len(),
            forall|k: int| 0 <= k < queue@.len() ==> (#[trigger] queue@[k] as int) < n,
            forall|v: int| 0 <= v < n && in_degree(es, nn, v) == 0 ==> #[trigger] queue@.contains(v as usize),
            forall|v: int| 0 <= v < n && in_degree(es, nn, v) == 0 ==> #[trigger] rank@[v] == 0,
            forall|p: int| 0 <= p < head ==> visited@[#[trigger] queue@[p] as int],
            forall|v: int| 0 <= v < n && #[trigger] visited@[v] ==> queue@.contains(v as usize),
            forall|e: int|
                #![trigger es[e]]
                0 <= e < es.len() && resolved(es[e], nn) && visited@[es[e].from as int] ==> queue@.contains(
                    es[e].to,
                ),
            forall|v: int| 0 <= v < n && !queue@.contains(v as usize) ==> #[trigger] rank@[v] == 0,
            forall|v: int|
                0 <= v < n && #[trigger] queue@.contains(v as usize) && in_degree(es, nn, v) > 0 ==> exists|e: int|
                    0 <= e < es.len() && resolved(es[e], nn) && es[e].to == v && visited@[es[e].from as int]
                        && rank@[v] == #[trigger] rank@[es[e].from as int] + 1,
            forall|v: int| 0 <= v < n ==> #[trigger] rank@[v] <= head,
        decreases count_false(visited@), queue@.len() - head,
    {
        let node = queue[head];
        head = head + 1;
        if visited[node] {
            proof {
                assert(visited@[queue@[head - 1] as int]);
            }
            continue;
        }
        let ghost vis0 = visited@;
        visited.set(node, true);
        proof {
            lemma_count_false_update(vis0, node as int);
        }
        let current_rank = rank[node];
        let ghost q0 = queue@;
        let ghost tg = targets(es, nn, node as int);
        let ghost oe = out_edges(es, nn, node as int);
        proof {
            lemma_targets(es, nn, node as int);
            lemma_out_edges(es, nn, node as int);
        }
        let tl = adj[node].len();
        let mut j: usize = 0;
        while j < tl
            invariant
                nn == n as nat,
                es == edges@,
                m == es.len(),
                adj@.len() == n,
                forall|u: int| 0 <= u < n ==> (#[trigger] adj@[u])@ == targets(es, nn, u),
                rank@.len() == n,
                visited@.len() == n,
                (node as int) < n,
                visited@[node as int],
                rank@[node as int] == current_rank,
                current_rank < head,
                0 < head <= q0.len(),
                q0.len() <= queue@.len(),
                forall|p: int| 0 <= p < q0.len() ==> #[trigger] queue@[p] == q0[p],
                q0[head - 1] == node,
                tg == targets(es, nn, node as int),
                oe == out_edges(es, nn, node as int),
                tl == tg.len(),
                tg.len() == oe.len(),
                j <= tl,
                forall|k: int|
                    0 <= k < tg.len() ==> #[trigger] tg[k] == es[oe[k] as int].to && (tg[k] as nat) < nn,
                forall|k: int|
                    0 <= k < oe.len() ==> {
                        let e = #[trigger] oe[k];
                        &&& (e as int) < es.len()
                        &&& resolved(es[e as int], nn)
                        &&& es[e as int].from == node
                    },
                forall|k: int| 0 <= k < queue@.len() ==> (#[trigger] queue@[k] as int) < n,
                forall|v: int| 0 <= v < n && in_degree(es, nn, v) == 0 ==> #[trigger] queue@.contains(v as usize),
                forall|v: int| 0 <= v < n && in_degree(es, nn, v) == 0 ==> #[trigger] rank@[v] == 0,
                forall|p: int| 0 <= p < head ==> visited@[#[trigger] queue@[p] as int],
                forall|v: int| 0 <= v < n && #[trigger] visited@[v] ==> queue@.contains(v as usize),
                forall|e: int|
                    #![trigger es[e]]
                    0 <= e < es.len() && resolved(es[e], nn) && visited@[es[e].from as int] && es[e].from
                        != node ==> queue@.contains(es[e].to),
                forall|k: int| 0 <= k < j ==> queue@.contains(#[trigger] tg[k]),
                forall|v: int| 0 <= v < n && !queue@.contains(v as usize) ==> #[trigger] rank@[v] == 0,
                forall|v: int|
                    0 <= v < n && #[trigger] queue@.contains(v as usize) && in_degree(es, nn, v) > 0 ==> exists|e: int|
                        0 <= e < es.len() && resolved(es[e], nn) && es[e].to == v && visited@[es[e].from as int]
                            && rank@[v] == #[trigger] rank@[es[e].from as int] + 1,
                forall|v: int| 0 <= v < n ==> #[trigger] rank@[v] <= head,
            decreases tl - j,
        {
            let t = adj[node][j];
            let ghost q1 = queue@;
            let ghost r1 = rank@;
            let ghost e = oe[j as int] as int;
            proof {
                assert(t == tg[j as int]);
                lemma_in_count_pos(es, nn, t as int, none_done(nn), es.len() as int, e);
            }
            if !visited[t] {
                let new_rank = current_rank + 1;
                if new_rank > rank[t] {
                    rank.set(t, new_rank);
                }
                queue.push(t);
                proof {
                    assert forall|y: usize| #[trigger] q1.contains(y) implies queue@.contains(y) by {
                        let k = choose|k: int| 0 <= k < q1.len() && q1[k] == y;
                        assert(queue@[k] == q1[k]);
                    }
                    assert forall|y: usize| #[trigger] queue@.contains(y) implies q1.contains(y) || y == t by {
                        let k = choose|k: int| 0 <= k < queue@.len() && queue@[k] == y;
                        if k < q1.len() {
                            assert(queue@[k] == q1[k]);
                        }
                    }
                    assert(queue@[q1.len() as int] == t);
                    assert forall|v: int| 0 <= v < n && in_degree(es, nn, v) == 0 implies #[trigger] queue@.contains(
                        v as usize,
                    ) by {
                        assert(q1.contains(v as usize));
                    }
                    assert forall|v: int|
                        0 <= v < n && #[trigger] queue@.contains(v as usize) && in_degree(es, nn, v) > 0 implies exists|e2: int|
                        0 <= e2 < es.len() && resolved(es[e2], nn) && es[e2].to == v && visited@[es[e2].from
                            as int] && rank@[v] == #[trigger] rank@[es[e2].from as int] + 1 by {
                        if v == t as int && new_rank > r1[v] {
                            assert(es[e].to == v && rank@[es[e].from as int] == current_rank);
                        } else {
                            if v == t as int {
                                assert(q1.contains(v as usize));
                            }
                            assert(q1.contains(v as usize));
                            let e2 = choose|e2: int|
                                0 <= e2 < es.len() && resolved(es[e2], nn) && es[e2].to == v && visited@[es[e2].from
                                    as int] && r1[v] == #[trigger] r1[es[e2].from as int] + 1;
                            assert(es[e2].from != t);
                            assert(rank@[es[e2].from as int] == r1[es[e2].from as int]);
                        }
                    }
                }
            }
            j = j + 1;
        }
        proof {
            assert forall|e: int|
                #![trigger es[e]]
                0 <= e < es.len() && resolved(es[e], nn) && visited@[es[e].from as int] implies queue@.contains(
                    es[e].to,
                ) by {
                if es[e].from == node {
                    assert(oe.contains(e as usize));
                    let k = choose|k: int| 0 <= k < oe.len() && oe[k] == e as usize;
                    assert(tg[k] == es[e].to);
                }
            }
        }
    }
    proof {
        let vis = visited@;
        assert forall|v: int| 0 <= v < n && #[trigger] queue@.contains(v as usize) implies vis[v] by {
            let p = choose|p: int| 0 <= p < queue@.len() && queue@[p] == v as usize;
            assert(visited@[queue@[p] as int]);
        }
        assert forall|v: int| 0 <= v < nn && in_degree(es, nn, v) == 0 implies #[trigger] vis[v] && rank@[v]
            == 0 by {
            assert(queue@.contains(v as usize));
        }
        assert forall|e: int|
            #![trigger es[e]]
            0 <= e < es.len() && resolved(es[e], nn) && vis[es[e].from as int] implies vis[es[e].to as int] by {
            assert(queue@.contains(es[e].to));
        }
        assert forall|v: int| 0 <= v < nn && !#[trigger] vis[v] implies rank@[v] == 0 by {
            if queue@.contains(v as usize) {
                assert(vis[v]);
            }
        }
        assert forall|v: int|
            0 <= v < nn && #[trigger] vis[v] && in_degree(es, nn, v) > 0 implies exists|e: int|
                0 <= e < es.len() && resolved(es[e], nn) && es[e].to == v && vis[es[e].from as int]
                    && rank@[v] == #[trigger] rank@[es[e].from as int] + 1 by {
            assert(queue@.contains(v as usize));
        }
        assert(is_bfs_ranking(nn, es, rank@, vis));
    }
    rank
}

} // verus!
