//! The Auto strategy: a decision tree over graph statistics.
use vstd::prelude::*;

use crate::model::DiagramType;
use crate::placement::sugiyama::EdgeEnds;

verus! {

/// The strategy the Auto decision tree selects.
#[derive(Debug, Clone, Copy, PartialEq, Eq, Structural)]
pub enum SelectedStrategy {
    Default,
    CrossingGreedy,
    TwoPhase,
}

/// Degree threshold of a hub in flowcharts.
pub const HUB_THRESHOLD_FLOWCHART: usize = 4;
/// Degree threshold of a hub in class and ER diagrams.
pub const HUB_THRESHOLD_CLASS_ER: usize = 3;
/// Degree threshold of a hub in C4 diagrams.
pub const HUB_THRESHOLD_C4: usize = 6;
/// Default degree threshold of a hub.
pub const HUB_THRESHOLD_DEFAULT: usize = 4;
/// Node count above which multi-round strategies are too expensive.
pub const LARGE_GRAPH_NODE_LIMIT: usize = 200;
/// Edge count above which multi-round strategies are too expensive.
pub const LARGE_GRAPH_EDGE_LIMIT: usize = 500;
/// Largest node count for the two-phase strategy.
pub const MAX_NODES_FOR_TWOPHASE: usize = 80;
/// Edges on one side from which a graph counts as congested.
pub const SIDE_CONGESTION_THRESHOLD: usize = 4;
/// Hub count from which a graph counts as complex.
pub const COMPLEX_HUB_THRESHOLD: usize = 2;
/// Degree from which a graph counts as moderately complex.
pub const HIGH_DEGREE_THRESHOLD: usize = 5;
/// Multi-edge count that calls for crossing-aware assignment.
pub const MULTI_EDGE_CONCERN: usize = 2;

/// The statistics that the decision tree reads. `dense_or_skewed` tells
/// whether the average degree exceeds 3 or its standard deviation exceeds 2.
#[derive(Debug, Clone, Copy, PartialEq, Eq, Structural)]
pub struct StrategyInputs {
    pub node_count: usize,
    pub edge_count: usize,
    pub max_degree: usize,
    pub hub_count: usize,
    pub max_edges_per_side: usize,
    pub overflow_count: usize,
    pub multi_edge_count: usize,
    pub dense_or_skewed: bool,
}

/// The decision tree: trivial and chain-like graphs keep the default;
/// large graphs take crossing-greedy; complex small graphs two-phase,
/// complex large ones crossing-greedy; moderate complexity, density or
/// skew crossing-greedy; anything else the default.
pub open spec fn spec_select(s: StrategyInputs, hubs: usize) -> SelectedStrategy {
    if s.edge_count == 0 || s.node_count <= 2 {
        SelectedStrategy::Default
    } else if s.max_degree <= 2 && s.hub_count == 0 && s.max_edges_per_side <= 2 {
        SelectedStrategy::Default
    } else if s.node_count > LARGE_GRAPH_NODE_LIMIT || s.edge_count > LARGE_GRAPH_EDGE_LIMIT {
        SelectedStrategy::CrossingGreedy
    } else if hubs >= COMPLEX_HUB_THRESHOLD && s.max_edges_per_side >= SIDE_CONGESTION_THRESHOLD {
        if s.node_count <= MAX_NODES_FOR_TWOPHASE {
            SelectedStrategy::TwoPhase
        } else {
            SelectedStrategy::CrossingGreedy
        }
    } else if s.max_degree >= HIGH_DEGREE_THRESHOLD || s.overflow_count > 0 || s.multi_edge_count
        >= MULTI_EDGE_CONCERN {
        SelectedStrategy::CrossingGreedy
    } else if s.dense_or_skewed {
        SelectedStrategy::CrossingGreedy
    } else {
        SelectedStrategy::Default
    }
}

/// Select a strategy, with an explicit (diagram-adjusted) hub count.
pub fn select_strategy_with_hub_count(stats: &StrategyInputs, effective_hub_count: usize) -> (r:
    SelectedStrategy)
    ensures
        r == spec_select(*stats, effective_hub_count),
{
    if stats.edge_count == 0 || stats.node_count <= 2 {
        return SelectedStrategy::Default;
    }
    if stats.max_degree <= 2 && stats.hub_count == 0 && stats.max_edges_per_side <= 2 {
        return SelectedStrategy::Default;
    }
    if stats.node_count > LARGE_GRAPH_NODE_LIMIT || stats.edge_count > LARGE_GRAPH_EDGE_LIMIT {
        return SelectedStrategy::CrossingGreedy;
    }
    if effective_hub_count >= COMPLEX_HUB_THRESHOLD && stats.max_edges_per_side
        >= SIDE_CONGESTION_THRESHOLD {
        if stats.node_count <= MAX_NODES_FOR_TWOPHASE {
            return SelectedStrategy::TwoPhase;
        }
        return SelectedStrategy::CrossingGreedy;
    }
    if stats.max_degree >= HIGH_DEGREE_THRESHOLD || stats.overflow_count > 0 || stats.multi_edge_count
        >= MULTI_EDGE_CONCERN {
        return SelectedStrategy::CrossingGreedy;
    }
    if stats.dense_or_skewed {
        return SelectedStrategy::CrossingGreedy;
    }
    SelectedStrategy::Default
}

/// Select a strategy with the graph's own hub count.
pub fn select_strategy(stats: &StrategyInputs) -> (r: SelectedStrategy)
    ensures
        r == spec_select(*stats, stats.hub_count),
{
    select_strategy_with_hub_count(stats, stats.hub_count)
}

/// Hub degree threshold of a diagram type.
pub open spec fn spec_hub_threshold(diagram_type: DiagramType) -> usize {
    match diagram_type {
        DiagramType::ClassDiagram | DiagramType::ErDiagram => HUB_THRESHOLD_CLASS_ER,
        DiagramType::C4Diagram => HUB_THRESHOLD_C4,
        _ => HUB_THRESHOLD_FLOWCHART,
    }
}

/// Hub degree threshold of a diagram type: 3 for class and ER diagrams, 6
/// for C4, 4 otherwise.
pub fn hub_threshold(diagram_type: DiagramType) -> (r: usize)
    ensures
        r == spec_hub_threshold(diagram_type),
{
    match diagram_type {
        DiagramType::ClassDiagram | DiagramType::ErDiagram => HUB_THRESHOLD_CLASS_ER,
        DiagramType::C4Diagram => HUB_THRESHOLD_C4,
        _ => HUB_THRESHOLD_FLOWCHART,
    }
}

// ─── degrees and hubs ────────────────────────────────────────────────────────

/// The edge endpoints in order: source and target of edge 0, then of edge 1, …
pub open spec fn endpoints(edges: Seq<EdgeEnds>) -> Seq<usize> {
    Seq::new(
        2 * edges.len(),
        |i: int|
            if i % 2 == 0 {
                edges[i / 2].from
            } else {
                edges[i / 2].to
            },
    )
}

/// Number of occurrences of `v` among the first `k` values of `s`.
pub open spec fn occurrences(s: Seq<usize>, v: usize, k: int) -> nat
    decreases k,
{
    if k <= 0 {
        0
    } else {
        occurrences(s, v, k - 1) + if s[k - 1] == v {
            1nat
        } else {
            0nat
        }
    }
}

/// Degree of node `v`: the edge endpoints that are `v`.
pub open spec fn degree(edges: Seq<EdgeEnds>, v: usize) -> nat {
    occurrences(endpoints(edges), v, endpoints(edges).len() as int)
}

/// Number of distinct endpoints among the first `k` endpoint positions
/// whose degree is at least `threshold`.
pub open spec fn hubs_upto(edges: Seq<EdgeEnds>, threshold: usize, k: int) -> nat
    decreases k,
{
    if k <= 0 {
        0
    } else {
        let v = endpoints(edges)[k - 1];
        hubs_upto(edges, threshold, k - 1) + if occurrences(endpoints(edges), v, k - 1) == 0 && degree(
            edges,
            v,
        ) >= threshold {
            1nat
        } else {
            0nat
        }
    }
}

pub(crate) proof fn lemma_occurrences_le(s: Seq<usize>, v: usize, k: int)
    requires
        0 <= k,
    ensures
        occurrences(s, v, k) <= k,
    decreases k,
{
    if k > 0 {
        lemma_occurrences_le(s, v, k - 1);
    }
}

proof fn lemma_hubs_le(edges: Seq<EdgeEnds>, threshold: usize, k: int)
    requires
        0 <= k,
    ensures
        hubs_upto(edges, threshold, k) <= k,
    decreases k,
{
    if k > 0 {
        lemma_hubs_le(edges, threshold, k - 1);
    }
}

pub(crate) fn endpoint_at(edges: &Vec<EdgeEnds>, i: usize) -> (v: usize)
    requires
        i < 2 * edges@.len(),
    ensures
        v == endpoints(edges@)[i as int],
{
    let e = edges[i / 2];
    if i % 2 == 0 {
        e.from
    } else {
        e.to
    }
}

/// Occurrences of `v` among the first `k` endpoints.
pub(crate) fn count_occurrences(edges: &Vec<EdgeEnds>, v: usize, k: usize) -> (n: usize)
    requires
        k <= 2 * edges@.len(),
        2 * edges@.len() <= usize::MAX,
    ensures
        n == occurrences(endpoints(edges@), v, k as int),
{
    let mut n: usize = 0;
    let mut i: usize = 0;
    while i < k
        invariant
            i <= k,
            k <= 2 * edges@.len(),
            2 * edges@.len() <= usize::MAX,
            n == occurrences(endpoints(edges@), v, i as int),
        decreases k - i,
    {
        proof {
            lemma_occurrences_le(endpoints(edges@), v, i as int);
        }
        if endpoint_at(edges, i) == v {
            n = n + 1;
        }
        i = i + 1;
    }
    n
}

/// Number of nodes whose degree (edge ends at the node) is at least
/// `threshold`, among the nodes that some edge touches.
pub fn count_hubs_with_threshold(edges: &Vec<EdgeEnds>, threshold: usize) -> (n: usize)
    requires
        2 * edges@.len() <= usize::MAX,
    ensures
        n == hubs_upto(edges@, threshold, 2 * edges@.len() as int),
{
    let total = 2 * edges.len();
    let mut n: usize = 0;
    let mut i: usize = 0;
    while i < total
        invariant
            total == 2 * edges@.len(),
            total <= usize::MAX,
            i <= total,
            n == hubs_upto(edges@, threshold, i as int),
        decreases total - i,
    {
        proof {
            lemma_hubs_le(edges@, threshold, i as int);
        }
        let v = endpoint_at(edges, i);
        if count_occurrences(edges, v, i) == 0 && count_occurrences(edges, v, total) >= threshold {
            n = n + 1;
        }
        i = i + 1;
    }
    n
}

proof fn lemma_hubs_antitone_upto(edges: Seq<EdgeEnds>, t1: usize, t2: usize, k: int)
    requires
        t1 <= t2,
    ensures
        hubs_upto(edges, t1, k) >= hubs_upto(edges, t2, k),
    decreases k,
{
    if k > 0 {
        lemma_hubs_antitone_upto(edges, t1, t2, k - 1);
    }
}

/// Law: raising the threshold never counts more hubs.
pub proof fn lemma_hubs_fall_as_threshold_rises(edges: Seq<EdgeEnds>, t1: usize, t2: usize)
    requires
        t1 <= t2,
    ensures
        hubs_upto(edges, t1, 2 * edges.len() as int) >= hubs_upto(edges, t2, 2 * edges.len() as int),
{
    lemma_hubs_antitone_upto(edges, t1, t2, 2 * edges.len() as int);
}

proof fn lemma_occurrences_zero_iff(s: Seq<usize>, v: usize, k: int)
    requires
        0 <= k <= s.len(),
    ensures
        (occurrences(s, v, k) == 0) <==> !s.take(k).contains(v),
    decreases k,
{
    if k > 0 {
        lemma_occurrences_zero_iff(s, v, k - 1);
        let a = s.take(k - 1);
        let b = s.take(k);
        assert(b =~= a.push(s[k - 1]));
        if a.contains(v) {
            let i = choose|i: int| 0 <= i < a.len() && #[trigger] a[i] == v;
            assert(b[i] == v);
        }
        if b.contains(v) && s[k - 1] != v {
            let i = choose|i: int| 0 <= i < b.len() && #[trigger] b[i] == v;
            assert(a[i] == v);
        }
        if s[k - 1] == v {
            assert(b[k - 1] == v);
        }
    }
}

proof fn lemma_hubs_at_zero_upto(edges: Seq<EdgeEnds>, k: int)
    requires
        0 <= k <= 2 * edges.len(),
    ensures
        hubs_upto(edges, 0, k) == endpoints(edges).take(k).to_set().len(),
    decreases k,
{
    let s = endpoints(edges);
    if k == 0 {
        assert(s.take(0).to_set() =~= Set::<usize>::empty());
    } else {
        lemma_hubs_at_zero_upto(edges, k - 1);
        let v = s[k - 1];
        lemma_occurrences_zero_iff(s, v, k - 1);
        assert(s.take(k) =~= s.take(k - 1).push(v));
        s.take(k - 1).lemma_push_to_set_commute(v);
        vstd::seq_lib::seq_to_set_is_finite(s.take(k - 1));
        assert(s.take(k - 1).to_set().contains(v) == s.take(k - 1).contains(v));
        if !s.take(k - 1).contains(v) {
            assert(s.take(k).to_set().len() == s.take(k - 1).to_set().len() + 1);
        } else {
            assert(s.take(k - 1).to_set().insert(v) =~= s.take(k - 1).to_set());
        }
    }
}

/// Law: at threshold 0 every node that some edge touches is a hub: the
/// count is the number of distinct edge endpoints.
pub proof fn lemma_hubs_at_zero_threshold(edges: Seq<EdgeEnds>)
    ensures
        hubs_upto(edges, 0, 2 * edges.len() as int) == endpoints(edges).to_set().len(),
{
    lemma_hubs_at_zero_upto(edges, 2 * edges.len() as int);
    assert(endpoints(edges).take(2 * edges.len() as int) =~= endpoints(edges));
}

/// Hub count for the Auto strategy: the graph's own count at the default
/// threshold, else a count at the diagram type's threshold.
pub fn effective_hub_count(diagram_type: DiagramType, edges: &Vec<EdgeEnds>, hub_count: usize) -> (r:
    usize)
    requires
        2 * edges@.len() <= usize::MAX,
    ensures
        spec_hub_threshold(diagram_type) == HUB_THRESHOLD_DEFAULT ==> r == hub_count,
        spec_hub_threshold(diagram_type) != HUB_THRESHOLD_DEFAULT ==> r == hubs_upto(
            edges@,
            spec_hub_threshold(diagram_type),
            2 * edges@.len() as int,
        ),
{
    let threshold = hub_threshold(diagram_type);
    if threshold == HUB_THRESHOLD_DEFAULT {
        hub_count
    } else {
        count_hubs_with_threshold(edges, threshold)
    }
}

/// The Auto strategy's hub count: the graph's own count where the diagram
/// type's threshold is the default one, else the count at that threshold.
pub open spec fn spec_effective_hubs(stats: StrategyInputs, diagram_type: DiagramType, edges: Seq<EdgeEnds>) -> usize {
    if spec_hub_threshold(diagram_type) == HUB_THRESHOLD_DEFAULT {
        stats.hub_count
    } else {
        hubs_upto(edges, spec_hub_threshold(diagram_type), 2 * edges.len() as int) as usize
    }
}

/// Auto picks the two-phase strategy for these statistics.
pub open spec fn spec_auto_needs_refinement(stats: StrategyInputs, diagram_type: DiagramType, edges: Seq<EdgeEnds>) -> bool {
    spec_select(stats, spec_effective_hubs(stats, diagram_type, edges)) == SelectedStrategy::TwoPhase
}

/// Whether the Auto strategy would choose a multi-round strategy (two-phase)
/// for a graph with these statistics, its hub count taken at the diagram
/// type's threshold: the pipeline runs the refinement loop when it does.
pub fn auto_needs_refinement(stats: &StrategyInputs, diagram_type: DiagramType, edges: &Vec<EdgeEnds>) -> (r:
    bool)
    requires
        2 * edges@.len() <= usize::MAX,
    ensures
        r == spec_auto_needs_refinement(*stats, diagram_type, edges@),
{
    let hubs = effective_hub_count(diagram_type, edges, stats.hub_count);
    let s = select_strategy_with_hub_count(stats, hubs);
    match s {
        SelectedStrategy::TwoPhase => true,
        _ => false,
    }
}

// ─── density and skew of the degrees ────────────────────────────────────────

/// Sum of the first `k` degrees.
pub open spec fn degree_sum(d: Seq<usize>, k: int) -> int
    decreases k,
{
    if k <= 0 {
        0
    } else {
        degree_sum(d, k - 1) + d[k - 1]
    }
}

/// Sum of the squares of the first `k` degrees.
pub open spec fn degree_square_sum(d: Seq<usize>, k: int) -> int
    decreases k,
{
    if k <= 0 {
        0
    } else {
        degree_square_sum(d, k - 1) + d[k - 1] * d[k - 1]
    }
}

/// The degrees' average exceeds 3, or (for more than one degree) their
/// standard deviation exceeds 2; with `c` degrees, sum `s` and sum of
/// squares `q`: `s > 3c`, or `c * q - s * s > 4 * c * c` (the variance
/// `q / c - (s / c)^2` above 4). No degrees count as one of 0.
pub open spec fn spec_dense_or_skewed(d: Seq<usize>) -> bool {
    let c = if d.len() > 1 {
        d.len() as int
    } else {
        1
    };
    let s = degree_sum(d, d.len() as int);
    let q = degree_square_sum(d, d.len() as int);
    s > 3 * c || (d.len() > 1 && c * q - s * s > 4 * c * c)
}

proof fn lemma_degree_sums_bound(d: Seq<usize>, k: int)
    requires
        0 <= k <= d.len(),
        forall|i: int| 0 <= i < d.len() ==> #[trigger] d[i] <= 0x7FFF_FFFF,
    ensures
        0 <= degree_sum(d, k) <= k * 0x7FFF_FFFF,
        0 <= degree_square_sum(d, k) <= k * 0x3FFF_FFFF_0000_0001int,
    decreases k,
{
    if k > 0 {
        lemma_degree_sums_bound(d, k - 1);
        let x = d[k - 1];
        assert(x * x <= 0x3FFF_FFFF_0000_0001int) by (nonlinear_arith)
            requires
                0 <= x <= 0x7FFF_FFFF,
        ;
    }
}

/// Whether the node degrees make a graph dense or skewed (see
/// `spec_dense_or_skewed`): the average above 3 or the standard deviation
/// above 2, compared exactly.
pub fn dense_or_skewed(degrees: &Vec<usize>) -> (r: bool)
    requires
        degrees@.len() <= 0x7FFF_FFFF,
        forall|i: int| 0 <= i < degrees@.len() ==> #[trigger] degrees@[i] <= 0x7FFF_FFFF,
    ensures
        r == spec_dense_or_skewed(degrees@),
{
    let n = degrees.len();
    let mut s: u128 = 0;
    let mut q: u128 = 0;
    let mut i: usize = 0;
    while i < n
        invariant
            n == degrees@.len(),
            n <= 0x7FFF_FFFF,
            forall|k: int| 0 <= k < degrees@.len() ==> #[trigger] degrees@[k] <= 0x7FFF_FFFF,
            i <= n,
            s == degree_sum(degrees@, i as int),
            q == degree_square_sum(degrees@, i as int),
        decreases n - i,
    {
        proof {
            lemma_degree_sums_bound(degrees@, i + 1);
            assert((i + 1) * 0x3FFF_FFFF_0000_0001int <= 0x8000_0000int * 0x3FFF_FFFF_0000_0001int)
                by (nonlinear_arith)
                requires
                    i + 1 <= 0x8000_0000int,
            ;
        }
        let d = degrees[i] as u128;
        s = s + d;
        q = q + d * d;
        i = i + 1;
    }
    let c: u128 = if n > 1 {
        n as u128
    } else {
        1
    };
    proof {
        lemma_degree_sums_bound(degrees@, n as int);
        assert(c * q <= 0x8000_0000int * (0x8000_0000int * 0x3FFF_FFFF_0000_0001int)) by (nonlinear_arith)
            requires
                1 <= c <= 0x8000_0000int,
                q <= n * 0x3FFF_FFFF_0000_0001int,
                n <= c,
        ;
        assert(s * s <= (0x8000_0000int * 0x7FFF_FFFF) * (0x8000_0000int * 0x7FFF_FFFF)) by (nonlinear_arith)
            requires
                0 <= s <= 0x8000_0000int * 0x7FFF_FFFF,
        ;
        assert(4 * c * c <= 4 * 0x8000_0000int * 0x8000_0000int) by (nonlinear_arith)
            requires
                1 <= c <= 0x8000_0000int,
        ;
    }
    if s > 3 * c {
        return true;
    }
    n > 1 && c * q > s * s && c * q - s * s > 4 * c * c
}

} // verus!
