//! Layered (Sugiyama) layout: cycle breaking and layer assignment.
//!
//! Nodes are referred to by their position in the node list; an edge whose
//! endpoint is not a node of the graph carries an index `>= node_count` and
//! is ignored, exactly as the id lookup ignores unknown endpoints.
use vstd::prelude::*;

verus! {

/// The two endpoints of an edge, as positions in the node list.
#[derive(Debug, Clone, Copy, PartialEq, Eq, Structural)]
pub struct EdgeEnds {
    pub from: usize,
    pub to: usize,
}

/// Both endpoints of `e` are nodes of a graph with `n` nodes.
pub open spec fn resolved(e: EdgeEnds, n: nat) -> bool {
    (e.from as nat) < n && (e.to as nat) < n
}

/// Indices of the resolved edges among `edges[0..m)` that leave `u`, in edge order.
pub open spec fn out_edges_upto(edges: Seq<EdgeEnds>, n: nat, u: int, m: int) -> Seq<usize>
    decreases m,
{
    if m <= 0 {
        seq![]
    } else {
        let prev = out_edges_upto(edges, n, u, m - 1);
        let e = edges[m - 1];
        if resolved(e, n) && e.from == u {
            prev.push((m - 1) as usize)
        } else {
            prev
        }
    }
}

/// Indices of the resolved edges that leave `u`, in edge order.
pub open spec fn out_edges(edges: Seq<EdgeEnds>, n: nat, u: int) -> Seq<usize> {
    out_edges_upto(edges, n, u, edges.len() as int)
}

/// State of the depth-first search that breaks cycles.
pub struct DfsState {
    pub visited: Seq<bool>,
    pub in_stack: Seq<bool>,
    pub reversed: Seq<usize>,
    /// Finishing time of each finished node.
    pub finish: Seq<int>,
    /// Number of nodes finished so far.
    pub time: int,
}

/// Depth-first visit of `v`: mark it, scan its outgoing edges, finish it.
pub open spec fn dfs_visit(edges: Seq<EdgeEnds>, n: nat, fuel: nat, s: DfsState, v: int) -> DfsState
    decreases fuel, 0int, 0int,
{
    if fuel == 0 {
        s
    } else {
        let s1 = DfsState {
            visited: s.visited.update(v, true),
            in_stack: s.in_stack.update(v, true),
            reversed: s.reversed,
            finish: s.finish,
            time: s.time,
        };
        let s2 = dfs_scan(edges, n, (fuel - 1) as nat, s1, v, 0);
        DfsState {
            visited: s2.visited,
            in_stack: s2.in_stack.update(v, false),
            reversed: s2.reversed,
            finish: s2.finish.update(v, s2.time),
            time: s2.time + 1,
        }
    }
}

/// Scan the outgoing edges of `v` from the `k`-th one on: an edge into a node
/// on the stack is a back edge and is recorded as reversed; an edge into an
/// unvisited node is followed.
pub open spec fn dfs_scan(edges: Seq<EdgeEnds>, n: nat, fuel: nat, s: DfsState, v: int, k: int) -> DfsState
    decreases fuel, 1int, out_edges(edges, n, v).len() - k,
{
    let outs = out_edges(edges, n, v);
    if k < 0 || k >= outs.len() {
        s
    } else {
        let e = outs[k];
        let t = edges[e as int].to as int;
        let s1 = if s.in_stack[t] {
            DfsState {
                visited: s.visited,
                in_stack: s.in_stack,
                reversed: s.reversed.push(e),
                finish: s.finish,
                time: s.time,
            }
        } else if !s.visited[t] {
            dfs_visit(edges, n, fuel, s, t)
        } else {
            s
        };
        dfs_scan(edges, n, fuel, s1, v, k + 1)
    }
}

/// Start a search from every unvisited node, in node order, from `start` on.
pub open spec fn dfs_all(edges: Seq<EdgeEnds>, n: nat, s: DfsState, start: int) -> DfsState
    decreases n - start,
{
    if start >= n || start < 0 {
        s
    } else {
        let s1 = if !s.visited[start] {
            dfs_visit(edges, n, n + 1, s, start)
        } else {
            s
        };
        dfs_all(edges, n, s1, start + 1)
    }
}

/// The search before it starts: nothing visited or on the stack, nothing
/// reversed.
pub open spec fn initial_dfs_state(n: nat) -> DfsState {
    DfsState {
        visited: Seq::new(n, |i: int| false),
        in_stack: Seq::new(n, |i: int| false),
        reversed: seq![],
        finish: Seq::new(n, |i: int| 0),
        time: 0,
    }
}

/// Edge indices that the cycle-breaking search reverses, in detection order.
pub open spec fn back_edges(n: nat, edges: Seq<EdgeEnds>) -> Seq<usize> {
    dfs_all(edges, n, initial_dfs_state(n), 0).reversed
}

/// `edges` with the edges listed in `rev` turned around.
pub open spec fn reverse_listed(edges: Seq<EdgeEnds>, rev: Seq<usize>) -> Seq<EdgeEnds> {
    Seq::new(
        edges.len(),
        |i: int|
            if rev.contains(i as usize) {
                EdgeEnds { from: edges[i].to, to: edges[i].from }
            } else {
                edges[i]
            },
    )
}

/// Number of `false` entries.
pub open spec fn count_false(s: Seq<bool>) -> nat
    decreases s.len(),
{
    if s.len() == 0 {
        0
    } else {
        count_false(s.drop_last()) + if s.last() {
            0nat
        } else {
            1nat
        }
    }
}

/// The search state fits a graph of `n` nodes.
pub open spec fn dfs_wf(edges: Seq<EdgeEnds>, n: nat, s: DfsState) -> bool {
    &&& edges.len() <= usize::MAX
    &&& s.visited.len() == n
    &&& s.in_stack.len() == n
    &&& s.finish.len() == n
    &&& forall|i: int| 0 <= i < n && #[trigger] s.in_stack[i] ==> s.visited[i]
}

/// The adjacency lists hold `(target, edge index)` for the outgoing edges of
/// each node among the first `m` edges.
pub open spec fn adj_matches_upto(
    adj: Seq<Vec<(usize, usize)>>,
    edges: Seq<EdgeEnds>,
    n: nat,
    m: int,
) -> bool {
    &&& adj.len() == n
    &&& forall|u: int|
        0 <= u < n ==> #[trigger] adj[u]@.len() == out_edges_upto(edges, n, u, m).len() && forall|
            k: int,
        |
            0 <= k < adj[u]@.len() ==> #[trigger] adj[u]@[k] == (
                edges[out_edges_upto(edges, n, u, m)[k] as int].to,
                out_edges_upto(edges, n, u, m)[k],
            )
}

/// The adjacency lists hold `(target, edge index)` for the outgoing edges of each node.
pub open spec fn adj_matches(adj: Seq<Vec<(usize, usize)>>, edges: Seq<EdgeEnds>, n: nat) -> bool {
    adj_matches_upto(adj, edges, n, edges.len() as int)
}

// ─── facts about out_edges ──────────────────────────────────────────────────

proof fn lemma_out_edges_upto(edges: Seq<EdgeEnds>, n: nat, u: int, m: int)
    requires
        0 <= m <= edges.len(),
        edges.len() <= usize::MAX,
    ensures
        forall|k: int|
            0 <= k < out_edges_upto(edges, n, u, m).len() ==> {
                let e = #[trigger] out_edges_upto(edges, n, u, m)[k];
                &&& (e as int) < m
                &&& resolved(edges[e as int], n)
                &&& edges[e as int].from == u
            },
        forall|j: int, k: int|
            0 <= j < k < out_edges_upto(edges, n, u, m).len() ==> out_edges_upto(edges, n, u, m)[j]
                < out_edges_upto(edges, n, u, m)[k],
        forall|e: int|
            0 <= e < m && resolved(edges[e], n) && edges[e].from == u ==> #[trigger] out_edges_upto(
                edges,
                n,
                u,
                m,
            ).contains(e as usize),
        out_edges_upto(edges, n, u, m).len() <= m,
    decreases m,
{
    if m > 0 {
        lemma_out_edges_upto(edges, n, u, m - 1);
        let prev = out_edges_upto(edges, n, u, m - 1);
        let cur = out_edges_upto(edges, n, u, m);
        let last = edges[m - 1];
        if resolved(last, n) && last.from == u {
            assert(cur == prev.push((m - 1) as usize));
            assert forall|k: int| 0 <= k < prev.len() implies #[trigger] cur[k] == prev[k] by {}
            assert forall|k: int| 0 <= k < cur.len() implies {
                let e = #[trigger] cur[k];
                &&& (e as int) < m
                &&& resolved(edges[e as int], n)
                &&& edges[e as int].from == u
            } by {
                if k < prev.len() {
                    assert(cur[k] == prev[k]);
                } else {
                    assert(cur[k] == (m - 1) as usize);
                }
            }
            assert forall|j: int, k: int| 0 <= j < k < cur.len() implies cur[j] < cur[k] by {
                assert(cur[j] == prev[j]);
                if k < prev.len() {
                    assert(cur[k] == prev[k]);
                } else {
                    assert(cur[k] == (m - 1) as usize);
                    assert((prev[j] as int) < m - 1);
                }
            }
        } else {
            assert(cur == prev);
        }
        assert forall|e: int|
            0 <= e < m && resolved(edges[e], n) && edges[e].from == u implies #[trigger] cur.contains(
            e as usize,
        ) by {
            if e < m - 1 {
                assert(prev.contains(e as usize));
                let k = choose|k: int| 0 <= k < prev.len() && prev[k] == e as usize;
                assert(cur[k] == e as usize);
            } else {
                assert(cur[cur.len() - 1] == e as usize);
            }
        }
    }
}

/// The out-edges of `u` are its resolved edges, each once, in edge order.
pub proof fn lemma_out_edges(edges: Seq<EdgeEnds>, n: nat, u: int)
    requires
        edges.len() <= usize::MAX,
    ensures
        forall|k: int|
            0 <= k < out_edges(edges, n, u).len() ==> {
                let e = #[trigger] out_edges(edges, n, u)[k];
                &&& (e as int) < edges.len()
                &&& resolved(edges[e as int], n)
                &&& edges[e as int].from == u
            },
        forall|j: int, k: int|
            0 <= j < k < out_edges(edges, n, u).len() ==> out_edges(edges, n, u)[j] < out_edges(
                edges,
                n,
                u,
            )[k],
        forall|e: int|
            0 <= e < edges.len() && resolved(edges[e], n) && edges[e].from == u ==> out_edges(
                edges,
                n,
                u,
            ).contains(e as usize),
        out_edges(edges, n, u).len() <= edges.len(),
{
    lemma_out_edges_upto(edges, n, u, edges.len() as int);
}

// ─── counting unvisited nodes ───────────────────────────────────────────────

/// Marking an unmarked entry leaves one fewer unmarked.
pub proof fn lemma_count_false_update(s: Seq<bool>, i: int)
    requires
        0 <= i < s.len(),
        !s[i],
    ensures
        count_false(s.update(i, true)) + 1 == count_false(s),
    decreases s.len(),
{
    let t = s.update(i, true);
    if i < s.len() - 1 {
        assert(t.drop_last() =~= s.drop_last().update(i, true));
        lemma_count_false_update(s.drop_last(), i);
    } else {
        assert(t.drop_last() =~= s.drop_last());
    }
}

proof fn lemma_count_false_mono(a: Seq<bool>, b: Seq<bool>)
    requires
        a.len() == b.len(),
        forall|i: int| 0 <= i < a.len() && a[i] ==> b[i],
    ensures
        count_false(b) <= count_false(a),
    decreases a.len(),
{
    if a.len() > 0 {
        lemma_count_false_mono(a.drop_last(), b.drop_last());
    }
}

proof fn lemma_count_false_bound(a: Seq<bool>)
    ensures
        count_false(a) <= a.len(),
    decreases a.len(),
{
    if a.len() > 0 {
        lemma_count_false_bound(a.drop_last());
    }
}

// ─── structural facts about the search ──────────────────────────────────────

/// What a visit or a scan preserves: shapes, visited marks, the stack.
pub open spec fn dfs_frame(s: DfsState, r: DfsState, n: nat) -> bool {
    &&& r.visited.len() == n
    &&& r.in_stack.len() == n
    &&& r.finish.len() == n
    &&& forall|i: int| 0 <= i < n && s.visited[i] ==> #[trigger] r.visited[i]
    &&& r.in_stack == s.in_stack
    &&& r.time >= s.time
    &&& s.reversed.len() <= r.reversed.len()
    &&& r.reversed.subrange(0, s.reversed.len() as int) == s.reversed
}

proof fn lemma_dfs_visit_frame(edges: Seq<EdgeEnds>, n: nat, fuel: nat, s: DfsState, v: int)
    requires
        dfs_wf(edges, n, s),
        0 <= v < n,
        !s.visited[v],
        fuel > count_false(s.visited),
    ensures
        ({
            let r = dfs_visit(edges, n, fuel, s, v);
            &&& dfs_frame(s, r, n)
            &&& dfs_wf(edges, n, r)
            &&& r.visited[v]
            &&& r.time > s.time
        }),
    decreases fuel, 0int, 0int,
{
    let s1 = DfsState {
        visited: s.visited.update(v, true),
        in_stack: s.in_stack.update(v, true),
        reversed: s.reversed,
        finish: s.finish,
        time: s.time,
    };
    lemma_count_false_update(s.visited, v);
    lemma_out_edges(edges, n, v);
    lemma_dfs_scan_frame(edges, n, (fuel - 1) as nat, s1, v, 0);
    let s2 = dfs_scan(edges, n, (fuel - 1) as nat, s1, v, 0);
    let r = dfs_visit(edges, n, fuel, s, v);
    assert(r.in_stack =~= s.in_stack) by {
        assert forall|i: int| 0 <= i < n implies r.in_stack[i] == s.in_stack[i] by {
            if i != v {
                assert(s2.in_stack[i] == s1.in_stack[i]);
            }
        }
    }
    assert(r.reversed.subrange(0, s.reversed.len() as int) =~= s.reversed);
}

proof fn lemma_dfs_scan_frame(edges: Seq<EdgeEnds>, n: nat, fuel: nat, s: DfsState, v: int, k: int)
    requires
        dfs_wf(edges, n, s),
        0 <= v < n,
        s.visited[v],
        fuel > count_false(s.visited),
        k >= 0,
    ensures
        ({
            let r = dfs_scan(edges, n, fuel, s, v, k);
            &&& dfs_frame(s, r, n)
            &&& dfs_wf(edges, n, r)
        }),
    decreases fuel, 1int, out_edges(edges, n, v).len() - k,
{
    let outs = out_edges(edges, n, v);
    lemma_out_edges(edges, n, v);
    if k >= outs.len() {
        assert(s.reversed.subrange(0, s.reversed.len() as int) =~= s.reversed);
    } else {
        let e = outs[k];
        let t = edges[e as int].to as int;
        let s1 = if s.in_stack[t] {
            DfsState {
                visited: s.visited,
                in_stack: s.in_stack,
                reversed: s.reversed.push(e),
                finish: s.finish,
                time: s.time,
            }
        } else if !s.visited[t] {
            dfs_visit(edges, n, fuel, s, t)
        } else {
            s
        };
        if s.in_stack[t] {
            assert(s1.reversed.subrange(0, s.reversed.len() as int) =~= s.reversed);
        } else if !s.visited[t] {
            lemma_dfs_visit_frame(edges, n, fuel, s, t);
        } else {
            assert(s1.reversed.subrange(0, s.reversed.len() as int) =~= s.reversed);
        }
        assert(dfs_frame(s, s1, n));
        lemma_count_false_mono(s.visited, s1.visited);
        lemma_dfs_scan_frame(edges, n, fuel, s1, v, k + 1);
        let r = dfs_scan(edges, n, fuel, s1, v, k + 1);
        assert(r.reversed.subrange(0, s.reversed.len() as int) =~= s.reversed) by {
            assert(r.reversed.subrange(0, s1.reversed.len() as int) == s1.reversed);
            assert(s1.reversed.subrange(0, s.reversed.len() as int) == s.reversed);
        }
    }
}

// ─── what the search guarantees ─────────────────────────────────────────────

/// `i` was visited between `s` and `r`.
pub open spec fn newly(s: DfsState, r: DfsState, i: int) -> bool {
    r.visited[i] && !s.visited[i]
}

/// Invariant of the search states: finished nodes finished before `time`,
/// the reversed list has no repeats and names resolved edges out of visited nodes.
pub open spec fn dfs_inv(edges: Seq<EdgeEnds>, n: nat, s: DfsState) -> bool {
    &&& dfs_wf(edges, n, s)
    &&& forall|i: int| 0 <= i < n && s.visited[i] && !s.in_stack[i] ==> #[trigger] s.finish[i] < s.time
    &&& s.reversed.no_duplicates()
    &&& forall|j: int|
        0 <= j < s.reversed.len() ==> {
            let x = #[trigger] s.reversed[j];
            &&& (x as int) < edges.len()
            &&& resolved(edges[x as int], n)
            &&& s.visited[edges[x as int].from as int]
        }
}

/// The `k`-th outgoing edge of the finished node `w` is oriented by finishing
/// time in state `r`; `stack` is the stack before the visit that finished `w`.
pub open spec fn out_edge_ok(
    edges: Seq<EdgeEnds>,
    n: nat,
    stack: Seq<bool>,
    r: DfsState,
    w: int,
    k: int,
) -> bool {
    let e = out_edges(edges, n, w)[k];
    let t = edges[e as int].to as int;
    if r.reversed.contains(e) {
        stack[t] || t == w || (r.visited[t] && !r.in_stack[t] && r.finish[t] > r.finish[w])
    } else {
        r.visited[t] && !r.in_stack[t] && r.finish[t] < r.finish[w]
    }
}

/// The `k`-th outgoing edge of `v`, the node being scanned, once scanned.
pub open spec fn pending_ok(
    edges: Seq<EdgeEnds>,
    n: nat,
    stack: Seq<bool>,
    r: DfsState,
    v: int,
    k: int,
) -> bool {
    let e = out_edges(edges, n, v)[k];
    let t = edges[e as int].to as int;
    if r.reversed.contains(e) {
        stack[t]
    } else {
        r.visited[t] && !r.in_stack[t] && r.finish[t] < r.time
    }
}

/// Entries of `r.reversed` added after `s` come out of newly visited nodes,
/// or out of `v` at an outgoing position `>= k`.
pub open spec fn new_reversed_from(
    edges: Seq<EdgeEnds>,
    n: nat,
    s: DfsState,
    r: DfsState,
    v: int,
    k: int,
) -> bool {
    forall|j: int|
        s.reversed.len() <= j < r.reversed.len() ==> {
            let x = #[trigger] r.reversed[j];
            ||| newly(s, r, edges[x as int].from as int)
            ||| (edges[x as int].from == v && exists|kk: int|
                k <= kk < out_edges(edges, n, v).len() && #[trigger] out_edges(edges, n, v)[kk] == x)
        }
}

/// The reversed entries out of `v` are among its first `k` outgoing edges.
pub open spec fn reversed_from_v_before(
    edges: Seq<EdgeEnds>,
    n: nat,
    s: DfsState,
    v: int,
    k: int,
) -> bool {
    forall|j: int|
        0 <= j < s.reversed.len() && edges[s.reversed[j] as int].from == v ==> exists|kk: int|
            0 <= kk < k && kk < out_edges(edges, n, v).len() && out_edges(edges, n, v)[kk]
                == #[trigger] s.reversed[j]
}

/// Results of a visit or a scan, beyond the frame.
pub open spec fn dfs_post(edges: Seq<EdgeEnds>, n: nat, s: DfsState, r: DfsState) -> bool {
    &&& dfs_inv(edges, n, r)
    &&& forall|i: int| 0 <= i < n && s.visited[i] ==> #[trigger] r.finish[i] == s.finish[i]
    &&& forall|i: int|
        0 <= i < n && #[trigger] newly(s, r, i) ==> !r.in_stack[i] && s.time <= r.finish[i] < r.time
    &&& forall|w: int, k: int|
        0 <= w < n && newly(s, r, w) && 0 <= k < out_edges(edges, n, w).len() ==> #[trigger] out_edge_ok(
            edges,
            n,
            s.in_stack,
            r,
            w,
            k,
        )
}

proof fn lemma_contains_prefix(a: Seq<usize>, b: Seq<usize>, x: usize)
    requires
        a.len() <= b.len(),
        b.subrange(0, a.len() as int) == a,
        a.contains(x),
    ensures
        b.contains(x),
{
    let i = choose|i: int| 0 <= i < a.len() && a[i] == x;
    assert(b.subrange(0, a.len() as int)[i] == b[i]);
}

proof fn lemma_contains_split(a: Seq<usize>, b: Seq<usize>, x: usize)
    requires
        a.len() <= b.len(),
        b.subrange(0, a.len() as int) == a,
        b.contains(x),
        !a.contains(x),
    ensures
        exists|j: int| a.len() <= j < b.len() && b[j] == x,
{
    let i = choose|i: int| 0 <= i < b.len() && b[i] == x;
    if i < a.len() {
        assert(b.subrange(0, a.len() as int)[i] == b[i]);
        assert(a[i] == x);
    }
}

proof fn lemma_dfs_visit_post(edges: Seq<EdgeEnds>, n: nat, fuel: nat, s: DfsState, v: int)
    requires
        dfs_inv(edges, n, s),
        0 <= v < n,
        !s.visited[v],
        fuel > count_false(s.visited),
    ensures
        ({
            let r = dfs_visit(edges, n, fuel, s, v);
            &&& dfs_post(edges, n, s, r)
            &&& new_reversed_from(edges, n, s, r, -1, 0)
        }),
    decreases fuel, 0int, 0int,
{
    let s1 = DfsState {
        visited: s.visited.update(v, true),
        in_stack: s.in_stack.update(v, true),
        reversed: s.reversed,
        finish: s.finish,
        time: s.time,
    };
    lemma_count_false_update(s.visited, v);
    lemma_out_edges(edges, n, v);
    lemma_dfs_visit_frame(edges, n, fuel, s, v);
    lemma_dfs_scan_frame(edges, n, (fuel - 1) as nat, s1, v, 0);
    assert(dfs_inv(edges, n, s1));
    assert(reversed_from_v_before(edges, n, s1, v, 0)) by {
        assert forall|j: int|
            0 <= j < s1.reversed.len() && edges[s1.reversed[j] as int].from == v implies false by {
            let x = s1.reversed[j];
            assert(s.visited[edges[x as int].from as int]);
        }
    }
    lemma_dfs_scan_post(edges, n, (fuel - 1) as nat, s1, v, 0);
    let s2 = dfs_scan(edges, n, (fuel - 1) as nat, s1, v, 0);
    let r = dfs_visit(edges, n, fuel, s, v);
    assert(r.finish[v] == s2.time);
    // invariant of the result
    assert forall|i: int| 0 <= i < n && r.visited[i] && !r.in_stack[i] implies #[trigger] r.finish[i]
        < r.time by {
        if i != v {
            assert(s2.in_stack[i] == r.in_stack[i]);
            if s1.visited[i] {
                assert(s2.finish[i] == s1.finish[i]);
                if !s1.in_stack[i] {
                    assert(s1.finish[i] < s1.time);
                }
            } else {
                assert(newly(s1, s2, i));
            }
        }
    }
    assert forall|j: int| 0 <= j < r.reversed.len() implies {
        let x = #[trigger] r.reversed[j];
        &&& (x as int) < edges.len()
        &&& resolved(edges[x as int], n)
        &&& r.visited[edges[x as int].from as int]
    } by {
        assert(r.reversed[j] == s2.reversed[j]);
    }
    assert(dfs_inv(edges, n, r));
    assert forall|i: int| 0 <= i < n && s.visited[i] implies #[trigger] r.finish[i] == s.finish[i] by {
        assert(s1.visited[i]);
    }
    assert forall|i: int| 0 <= i < n && #[trigger] newly(s, r, i) implies !r.in_stack[i] && s.time
        <= r.finish[i] < r.time by {
        if i != v {
            assert(newly(s1, s2, i));
        }
    }
    assert forall|w: int, k: int|
        0 <= w < n && newly(s, r, w) && 0 <= k < out_edges(edges, n, w).len() implies #[trigger] out_edge_ok(
        edges,
        n,
        s.in_stack,
        r,
        w,
        k,
    ) by {
        let e = out_edges(edges, n, w)[k];
        lemma_out_edges(edges, n, w);
        let t = edges[e as int].to as int;
        if w == v {
            assert(pending_ok(edges, n, s1.in_stack, s2, v, k));
            if !s2.reversed.contains(e) {
                assert(t != v);
            }
        } else {
            assert(newly(s1, s2, w));
            assert(out_edge_ok(edges, n, s1.in_stack, s2, w, k));
            if s2.reversed.contains(e) {
                if t != v && !s.in_stack[t] && t != w {
                    assert(s2.visited[t] && !s2.in_stack[t] && s2.finish[t] > s2.finish[w]);
                    assert(r.finish[t] == s2.finish[t]);
                }
            } else {
                assert(t != v);
            }
        }
    }
    assert forall|j: int| s.reversed.len() <= j < r.reversed.len() implies newly(
        s,
        r,
        edges[#[trigger] r.reversed[j] as int].from as int,
    ) by {
        let x = r.reversed[j];
        assert(x == s2.reversed[j]);
        let f = edges[x as int].from as int;
        if f != v {
            assert(newly(s1, s2, f));
        }
    }
}

proof fn lemma_dfs_scan_post(edges: Seq<EdgeEnds>, n: nat, fuel: nat, s: DfsState, v: int, k: int)
    requires
        dfs_inv(edges, n, s),
        0 <= v < n,
        s.visited[v],
        s.in_stack[v],
        fuel > count_false(s.visited),
        0 <= k,
        reversed_from_v_before(edges, n, s, v, k),
    ensures
        ({
            let r = dfs_scan(edges, n, fuel, s, v, k);
            &&& dfs_post(edges, n, s, r)
            &&& new_reversed_from(edges, n, s, r, v, k)
            &&& forall|kk: int|
                k <= kk < out_edges(edges, n, v).len() ==> #[trigger] pending_ok(
                    edges,
                    n,
                    s.in_stack,
                    r,
                    v,
                    kk,
                )
        }),
    decreases fuel, 1int, out_edges(edges, n, v).len() - k,
{
    let outs = out_edges(edges, n, v);
    lemma_out_edges(edges, n, v);
    lemma_dfs_scan_frame(edges, n, fuel, s, v, k);
    let r = dfs_scan(edges, n, fuel, s, v, k);
    if k >= outs.len() {
        assert(r == s);
        assert forall|i: int| 0 <= i < n && #[trigger] newly(s, r, i) implies false by {}
    } else {
        let e = outs[k];
        let t = edges[e as int].to as int;
        assert(edges[e as int].from == v);
        // `e` has not been reversed yet
        assert(!s.reversed.contains(e)) by {
            if s.reversed.contains(e) {
                let j = choose|j: int| 0 <= j < s.reversed.len() && s.reversed[j] == e;
                let kk = choose|kk: int|
                    0 <= kk < k && kk < outs.len() && outs[kk] == #[trigger] s.reversed[j];
                assert(outs[kk] < outs[k]);
            }
        }
        if s.in_stack[t] {
            let s1 = DfsState {
                visited: s.visited,
                in_stack: s.in_stack,
                reversed: s.reversed.push(e),
                finish: s.finish,
                time: s.time,
            };
            assert(s1.reversed.no_duplicates());
            assert(dfs_inv(edges, n, s1)) by {
                assert forall|j: int| 0 <= j < s1.reversed.len() implies {
                    let x = #[trigger] s1.reversed[j];
                    &&& (x as int) < edges.len()
                    &&& resolved(edges[x as int], n)
                    &&& s1.visited[edges[x as int].from as int]
                } by {
                    if j < s.reversed.len() {
                        assert(s1.reversed[j] == s.reversed[j]);
                    }
                }
            }
            assert(reversed_from_v_before(edges, n, s1, v, k + 1)) by {
                assert forall|j: int|
                    0 <= j < s1.reversed.len() && edges[s1.reversed[j] as int].from == v implies exists|
                    kk: int,
                |
                    0 <= kk < k + 1 && kk < outs.len() && outs[kk] == #[trigger] s1.reversed[j] by {
                    if j < s.reversed.len() {
                        assert(s1.reversed[j] == s.reversed[j]);
                    } else {
                        assert(outs[k] == s1.reversed[j]);
                    }
                }
            }
            lemma_dfs_scan_post(edges, n, fuel, s1, v, k + 1);
            assert(r == dfs_scan(edges, n, fuel, s1, v, k + 1));
            lemma_dfs_scan_frame(edges, n, fuel, s1, v, k + 1);
            assert(s1.reversed.contains(e)) by {
                assert(s1.reversed[s.reversed.len() as int] == e);
            }
            lemma_contains_prefix(s1.reversed, r.reversed, e);
            assert forall|kk: int| k <= kk < outs.len() implies #[trigger] pending_ok(
                edges,
                n,
                s.in_stack,
                r,
                v,
                kk,
            ) by {
                if kk > k {
                    assert(pending_ok(edges, n, s1.in_stack, r, v, kk));
                }
            }
            assert forall|w: int, kk: int|
                0 <= w < n && newly(s, r, w) && 0 <= kk < out_edges(edges, n, w).len() implies #[trigger] out_edge_ok(
                edges,
                n,
                s.in_stack,
                r,
                w,
                kk,
            ) by {
                assert(newly(s1, r, w));
                assert(out_edge_ok(edges, n, s1.in_stack, r, w, kk));
            }
            assert forall|i: int| 0 <= i < n && #[trigger] newly(s, r, i) implies !r.in_stack[i]
                && s.time <= r.finish[i] < r.time by {
                assert(newly(s1, r, i));
            }
            assert forall|j: int| s.reversed.len() <= j < r.reversed.len() implies {
                let x = #[trigger] r.reversed[j];
                ||| newly(s, r, edges[x as int].from as int)
                ||| (edges[x as int].from == v && exists|kk: int|
                    k <= kk < outs.len() && outs[kk] == x)
            } by {
                let x = r.reversed[j];
                if j == s.reversed.len() {
                    assert(r.reversed[j] == s1.reversed[j]);
                    assert(outs[k] == x);
                } else {
                    let f = edges[x as int].from as int;
                    if !newly(s1, r, f) {
                        let kk = choose|kk: int| k + 1 <= kk < outs.len() && outs[kk] == x;
                        assert(k <= kk);
                    }
                }
            }
        } else if !s.visited[t] {
            let s1 = dfs_visit(edges, n, fuel, s, t);
            lemma_dfs_visit_frame(edges, n, fuel, s, t);
            lemma_dfs_visit_post(edges, n, fuel, s, t);
            lemma_count_false_mono(s.visited, s1.visited);
            assert(reversed_from_v_before(edges, n, s1, v, k + 1)) by {
                assert forall|j: int|
                    0 <= j < s1.reversed.len() && edges[s1.reversed[j] as int].from == v implies exists|
                    kk: int,
                |
                    0 <= kk < k + 1 && kk < outs.len() && outs[kk] == #[trigger] s1.reversed[j] by {
                    if j < s.reversed.len() {
                        assert(s1.reversed.subrange(0, s.reversed.len() as int)[j] == s1.reversed[j]);
                        assert(s1.reversed[j] == s.reversed[j]);
                    } else {
                        let x = s1.reversed[j];
                        assert(newly(s, s1, edges[x as int].from as int));
                    }
                }
            }
            lemma_dfs_scan_post(edges, n, fuel, s1, v, k + 1);
            lemma_dfs_scan_frame(edges, n, fuel, s1, v, k + 1);
            assert(r == dfs_scan(edges, n, fuel, s1, v, k + 1));
            // `e` stays unreversed
            assert(!r.reversed.contains(e)) by {
                if r.reversed.contains(e) {
                    if s1.reversed.contains(e) {
                        lemma_contains_split(s.reversed, s1.reversed, e);
                        let j = choose|j: int|
                            s.reversed.len() <= j < s1.reversed.len() && s1.reversed[j] == e;
                        assert(newly(s, s1, edges[s1.reversed[j] as int].from as int));
                    } else {
                        lemma_contains_split(s1.reversed, r.reversed, e);
                        let j = choose|j: int|
                            s1.reversed.len() <= j < r.reversed.len() && r.reversed[j] == e;
                        assert(!newly(s1, r, v));
                        let kk = choose|kk: int| k + 1 <= kk < outs.len() && outs[kk] == r.reversed[j];
                        assert(outs[k] < outs[kk]);
                    }
                }
            }
            assert(newly(s, s1, t));
            assert(r.finish[t] == s1.finish[t]);
            assert(pending_ok(edges, n, s.in_stack, r, v, k));
            assert forall|kk: int| k <= kk < outs.len() implies #[trigger] pending_ok(
                edges,
                n,
                s.in_stack,
                r,
                v,
                kk,
            ) by {
                if kk > k {
                    assert(pending_ok(edges, n, s1.in_stack, r, v, kk));
                }
            }
            assert forall|i: int| 0 <= i < n && #[trigger] newly(s, r, i) implies !r.in_stack[i]
                && s.time <= r.finish[i] < r.time by {
                if s1.visited[i] {
                    assert(newly(s, s1, i));
                    assert(r.finish[i] == s1.finish[i]);
                } else {
                    assert(newly(s1, r, i));
                }
            }
            assert forall|w: int, kk: int|
                0 <= w < n && newly(s, r, w) && 0 <= kk < out_edges(edges, n, w).len() implies #[trigger] out_edge_ok(
                edges,
                n,
                s.in_stack,
                r,
                w,
                kk,
            ) by {
                lemma_out_edges(edges, n, w);
                let e2 = out_edges(edges, n, w)[kk];
                let t2 = edges[e2 as int].to as int;
                if s1.visited[w] {
                    assert(newly(s, s1, w));
                    assert(out_edge_ok(edges, n, s.in_stack, s1, w, kk));
                    assert(r.finish[w] == s1.finish[w]);
                    // membership of `e2` is unchanged after `s1`
                    if r.reversed.contains(e2) && !s1.reversed.contains(e2) {
                        lemma_contains_split(s1.reversed, r.reversed, e2);
                        let j = choose|j: int|
                            s1.reversed.len() <= j < r.reversed.len() && r.reversed[j] == e2;
                        assert(!newly(s1, r, w));
                        assert(w != v);
                    }
                    if s1.reversed.contains(e2) {
                        lemma_contains_prefix(s1.reversed, r.reversed, e2);
                        if !s.in_stack[t2] && t2 != w {
                            assert(r.finish[t2] == s1.finish[t2]);
                        }
                    } else {
                        assert(r.finish[t2] == s1.finish[t2]);
                    }
                } else {
                    assert(newly(s1, r, w));
                    assert(out_edge_ok(edges, n, s1.in_stack, r, w, kk));
                }
            }
            assert forall|j: int| s.reversed.len() <= j < r.reversed.len() implies {
                let x = #[trigger] r.reversed[j];
                ||| newly(s, r, edges[x as int].from as int)
                ||| (edges[x as int].from == v && exists|kk: int|
                    k <= kk < outs.len() && outs[kk] == x)
            } by {
                let x = r.reversed[j];
                let f = edges[x as int].from as int;
                if j < s1.reversed.len() {
                    assert(r.reversed.subrange(0, s1.reversed.len() as int)[j] == r.reversed[j]);
                    assert(x == s1.reversed[j]);
                    assert(newly(s, s1, f));
                } else if !newly(s1, r, f) {
                    let kk = choose|kk: int| k + 1 <= kk < outs.len() && outs[kk] == x;
                    assert(k <= kk);
                }
            }
        } else {
            assert(!s.in_stack[t]);
            lemma_dfs_scan_post(edges, n, fuel, s, v, k + 1);
            assert(r == dfs_scan(edges, n, fuel, s, v, k + 1));
            assert(!r.reversed.contains(e)) by {
                if r.reversed.contains(e) {
                    lemma_contains_split(s.reversed, r.reversed, e);
                    let j = choose|j: int| s.reversed.len() <= j < r.reversed.len() && r.reversed[j] == e;
                    assert(!newly(s, r, v));
                    let kk = choose|kk: int| k + 1 <= kk < outs.len() && outs[kk] == r.reversed[j];
                    assert(outs[k] < outs[kk]);
                }
            }
            assert(s.finish[t] < s.time);
            assert(pending_ok(edges, n, s.in_stack, r, v, k));
            assert forall|j: int| s.reversed.len() <= j < r.reversed.len() implies {
                let x = #[trigger] r.reversed[j];
                ||| newly(s, r, edges[x as int].from as int)
                ||| (edges[x as int].from == v && exists|kk: int|
                    k <= kk < outs.len() && outs[kk] == x)
            } by {
                let x = r.reversed[j];
                let f = edges[x as int].from as int;
                if !newly(s, r, f) {
                    let kk = choose|kk: int| k + 1 <= kk < outs.len() && outs[kk] == x;
                    assert(k <= kk);
                }
            }
        }
    }
}


// ─── the whole search ───────────────────────────────────────────────────────

/// Between top-level visits: nothing on the stack, the first `start` nodes
/// visited, and every outgoing edge of a visited node oriented by finishing time.
pub open spec fn dfs_top_inv(edges: Seq<EdgeEnds>, n: nat, s: DfsState, start: int) -> bool {
    &&& dfs_inv(edges, n, s)
    &&& s.in_stack == initial_dfs_state(n).in_stack
    &&& forall|i: int| 0 <= i < start && i < n ==> #[trigger] s.visited[i]
    &&& forall|w: int, k: int|
        0 <= w < n && s.visited[w] && 0 <= k < out_edges(edges, n, w).len() ==> #[trigger] out_edge_ok(
            edges,
            n,
            initial_dfs_state(n).in_stack,
            s,
            w,
            k,
        )
}

proof fn lemma_dfs_all_step(edges: Seq<EdgeEnds>, n: nat, s: DfsState, start: int)
    requires
        dfs_top_inv(edges, n, s, start),
        0 <= start < n,
    ensures
        ({
            let s1 = if !s.visited[start] {
                dfs_visit(edges, n, n + 1, s, start)
            } else {
                s
            };
            dfs_top_inv(edges, n, s1, start + 1)
        }),
{
    let stack0 = initial_dfs_state(n).in_stack;
    let s1 = if !s.visited[start] {
        dfs_visit(edges, n, n + 1, s, start)
    } else {
        s
    };
    if !s.visited[start] {
        lemma_count_false_bound(s.visited);
        lemma_dfs_visit_frame(edges, n, n + 1, s, start);
        lemma_dfs_visit_post(edges, n, n + 1, s, start);
        assert forall|i: int| 0 <= i < start + 1 && i < n implies #[trigger] s1.visited[i] by {}
        assert forall|w: int, k: int|
            0 <= w < n && s1.visited[w] && 0 <= k < out_edges(edges, n, w).len() implies #[trigger] out_edge_ok(
            edges,
            n,
            stack0,
            s1,
            w,
            k,
        ) by {
            lemma_out_edges(edges, n, w);
            if s.visited[w] {
                assert(out_edge_ok(edges, n, stack0, s, w, k));
                let e = out_edges(edges, n, w)[k];
                let t = edges[e as int].to as int;
                if s1.reversed.contains(e) && !s.reversed.contains(e) {
                    lemma_contains_split(s.reversed, s1.reversed, e);
                    let j = choose|j: int|
                        s.reversed.len() <= j < s1.reversed.len() && s1.reversed[j] == e;
                    assert(newly(s, s1, edges[s1.reversed[j] as int].from as int));
                }
                if s.reversed.contains(e) {
                    lemma_contains_prefix(s.reversed, s1.reversed, e);
                    if t != w {
                        assert(s1.finish[t] == s.finish[t]);
                    }
                } else {
                    assert(s1.finish[t] == s.finish[t]);
                }
            } else {
                assert(newly(s, s1, w));
                assert(out_edge_ok(edges, n, s.in_stack, s1, w, k));
            }
        }
    }
}

proof fn lemma_dfs_all(edges: Seq<EdgeEnds>, n: nat, s: DfsState, start: int)
    requires
        dfs_top_inv(edges, n, s, start),
        0 <= start,
    ensures
        dfs_top_inv(edges, n, dfs_all(edges, n, s, start), n as int),
    decreases n - start,
{
    if start < n {
        let s1 = if !s.visited[start] {
            dfs_visit(edges, n, n + 1, s, start)
        } else {
            s
        };
        lemma_dfs_all_step(edges, n, s, start);
        lemma_dfs_all(edges, n, s1, start + 1);
    }
}

/// The edges, with resolved self-loops left aside, can be ranked so that every
/// edge goes from a lower to a higher rank: the graph has no cycle but self-loops.
pub open spec fn has_topological_ranking(n: nat, edges: Seq<EdgeEnds>) -> bool {
    exists|rank: Seq<int>| #[trigger] is_topological_ranking(n, edges, rank)
}

/// Every resolved edge that is not a self-loop goes from a lower to a higher rank.
pub open spec fn is_topological_ranking(n: nat, edges: Seq<EdgeEnds>, rank: Seq<int>) -> bool {
    &&& rank.len() == n
    &&& forall|e: int|
        #![trigger edges[e]]
        0 <= e < edges.len() && resolved(edges[e], n) && edges[e].from != edges[e].to
            ==> rank[edges[e].from as int] < rank[edges[e].to as int]
}

/// Law: turning around the back edges that the search finds leaves a graph
/// whose only cycles are self-loops; no edge is listed twice, and every listed
/// edge is a resolved edge of the graph.
pub proof fn lemma_break_cycles_leaves_no_cycle(n: nat, edges: Seq<EdgeEnds>)
    requires
        edges.len() <= usize::MAX,
    ensures
        has_topological_ranking(n, reverse_listed(edges, back_edges(n, edges))),
        back_edges(n, edges).no_duplicates(),
        forall|j: int|
            0 <= j < back_edges(n, edges).len() ==> (#[trigger] back_edges(n, edges)[j] as int)
                < edges.len() && resolved(edges[back_edges(n, edges)[j] as int], n),
{
    let s0 = initial_dfs_state(n);
    assert(dfs_top_inv(edges, n, s0, 0));
    lemma_dfs_all(edges, n, s0, 0);
    let fin = dfs_all(edges, n, s0, 0);
    let rev = fin.reversed;
    let out = reverse_listed(edges, rev);
    let rank = Seq::new(n, |i: int| -fin.finish[i]);
    assert forall|e: int|
        #![trigger out[e]]
        0 <= e < out.len() && resolved(out[e], n) && out[e].from != out[e].to implies rank[out[e].from as int]
        < rank[out[e].to as int] by {
        let u = edges[e].from as int;
        let t = edges[e].to as int;
        lemma_out_edges(edges, n, u);
        assert(out_edges(edges, n, u).contains(e as usize));
        let k = choose|k: int|
            0 <= k < out_edges(edges, n, u).len() && out_edges(edges, n, u)[k] == e as usize;
        assert(fin.visited[u]);
        assert(out_edge_ok(edges, n, s0.in_stack, fin, u, k));
    }
    assert(is_topological_ranking(n, out, rank));
}

// ─── the search, executed ───────────────────────────────────────────────────

fn dfs_break_cycles(
    node: usize,
    adj: &Vec<Vec<(usize, usize)>>,
    visited: &mut Vec<bool>,
    in_stack: &mut Vec<bool>,
    reversed: &mut Vec<usize>,
    Ghost(edges): Ghost<Seq<EdgeEnds>>,
    Ghost(n): Ghost<nat>,
    Ghost(fuel): Ghost<nat>,
    Ghost(s): Ghost<DfsState>,
)
    requires
        adj_matches(adj@, edges, n),
        dfs_wf(edges, n, s),
        old(visited)@ == s.visited,
        old(in_stack)@ == s.in_stack,
        old(reversed)@ == s.reversed,
        (node as int) < n,
        !s.visited[node as int],
        fuel > count_false(s.visited),
    ensures
        final(visited)@ == dfs_visit(edges, n, fuel, s, node as int).visited,
        final(in_stack)@ == dfs_visit(edges, n, fuel, s, node as int).in_stack,
        final(reversed)@ == dfs_visit(edges, n, fuel, s, node as int).reversed,
    decreases fuel, 0int, 0int,
{
    let ghost v = node as int;
    let ghost s1 = DfsState {
        visited: s.visited.update(v, true),
        in_stack: s.in_stack.update(v, true),
        reversed: s.reversed,
        finish: s.finish,
        time: s.time,
    };
    proof {
        lemma_count_false_update(s.visited, v);
        lemma_out_edges(edges, n, v);
    }
    visited.set(node, true);
    in_stack.set(node, true);
    let ghost goal = dfs_scan(edges, n, (fuel - 1) as nat, s1, v, 0);
    let ghost mut cur = s1;
    let len = adj[node].len();
    let mut k: usize = 0;
    while k < len
        invariant
            adj_matches(adj@, edges, n),
            0 <= v < n,
            node as int == v,
            len == adj@[v]@.len(),
            len == out_edges(edges, n, v).len(),
            k <= len,
            fuel >= 1,
            dfs_wf(edges, n, cur),
            cur.visited[v],
            (fuel - 1) as nat > count_false(cur.visited),
            visited@ == cur.visited,
            in_stack@ == cur.in_stack,
            reversed@ == cur.reversed,
            goal == dfs_scan(edges, n, (fuel - 1) as nat, cur, v, k as int),
        decreases len - k,
    {
        proof {
            lemma_out_edges(edges, n, v);
        }
        let (t, e) = adj[node][k];
        let ghost next = if cur.in_stack[t as int] {
            DfsState {
                visited: cur.visited,
                in_stack: cur.in_stack,
                reversed: cur.reversed.push(e),
                finish: cur.finish,
                time: cur.time,
            }
        } else if !cur.visited[t as int] {
            dfs_visit(edges, n, (fuel - 1) as nat, cur, t as int)
        } else {
            cur
        };
        if in_stack[t] {
            reversed.push(e);
        } else if !visited[t] {
            dfs_break_cycles(
                t,
                adj,
                visited,
                in_stack,
                reversed,
                Ghost(edges),
                Ghost(n),
                Ghost((fuel - 1) as nat),
                Ghost(cur),
            );
            proof {
                lemma_dfs_visit_frame(edges, n, (fuel - 1) as nat, cur, t as int);
            }
        }
        proof {
            lemma_count_false_mono(cur.visited, next.visited);
            cur = next;
        }
        k = k + 1;
    }
    in_stack.set(node, false);
    proof {
        lemma_dfs_scan_frame(edges, n, (fuel - 1) as nat, s1, v, 0);
    }
}

} // verus!

verus! {

/// Break cycles by reversing the back edges found by a depth-first search
/// that starts from every unvisited node in node order and follows outgoing
/// edges in edge order. Returns the indices of the reversed edges, in the
/// order in which they were found; edges with an endpoint outside the graph
/// are left alone.
pub fn break_cycles(node_count: usize, edges: &mut Vec<EdgeEnds>) -> (reversed: Vec<usize>)
    ensures
        reversed@ == back_edges(node_count as nat, old(edges)@),
        final(edges)@ == reverse_listed(old(edges)@, reversed@),
        reversed@.no_duplicates(),
{
    let n = node_count;
    let ghost orig = edges@;
    let ghost nn = n as nat;
    let mut adj: Vec<Vec<(usize, usize)>> = Vec::new();
    let mut i: usize = 0;
    while i < n
        invariant
            i <= n,
            adj@.len() == i,
            forall|u: int| 0 <= u < i ==> (#[trigger] adj@[u])@.len() == 0,
        decreases n - i,
    {
        adj.push(Vec::new());
        i = i + 1;
    }
    assert(adj_matches_upto(adj@, orig, nn, 0));
    let m = edges.len();
    let mut ei: usize = 0;
    while ei < m
        invariant
            nn == n as nat,
            m == edges@.len(),
            edges@ == orig,
            ei <= m,
            adj_matches_upto(adj@, orig, nn, ei as int),
        decreases m - ei,
    {
        let edge = edges[ei];
        if edge.from < n && edge.to < n {
            let ghost before = adj@;
            adj[edge.from].push((edge.to, ei));
            assert(adj_matches_upto(adj@, orig, nn, ei + 1)) by {
                assert forall|u: int| 0 <= u < nn implies #[trigger] adj@[u]@.len()
                    == out_edges_upto(orig, nn, u, ei + 1).len() && forall|k: int|
                    0 <= k < adj@[u]@.len() ==> #[trigger] adj@[u]@[k] == (
                        orig[out_edges_upto(orig, nn, u, ei + 1)[k] as int].to,
                        out_edges_upto(orig, nn, u, ei + 1)[k],
                    ) by {
                    if u != edge.from as int {
                        assert(adj@[u] == before[u]);
                    }
                }
            }
        } else {
            assert forall|u: int| 0 <= u < nn implies out_edges_upto(orig, nn, u, ei + 1)
                == #[trigger] out_edges_upto(orig, nn, u, ei as int) by {}
        }
        ei = ei + 1;
    }
    let mut visited: Vec<bool> = Vec::new();
    let mut in_stack: Vec<bool> = Vec::new();
    let mut i: usize = 0;
    while i < n
        invariant
            i <= n,
            visited@.len() == i,
            in_stack@.len() == i,
            forall|u: int| 0 <= u < i ==> !(#[trigger] visited@[u]) && !in_stack@[u],
        decreases n - i,
    {
        visited.push(false);
        in_stack.push(false);
        i = i + 1;
    }
    let mut reversed: Vec<usize> = Vec::new();
    let ghost s0 = initial_dfs_state(nn);
    assert(visited@ == s0.visited);
    assert(in_stack@ == s0.in_stack);
    let ghost goal = dfs_all(orig, nn, s0, 0);
    let ghost mut cur = s0;
    proof {
        assert(dfs_top_inv(orig, nn, s0, 0));
    }
    let mut start: usize = 0;
    while start < n
        invariant
            nn == n as nat,
            start <= n,
            adj_matches(adj@, orig, nn),
            orig.len() <= usize::MAX,
            dfs_top_inv(orig, nn, cur, start as int),
            visited@ == cur.visited,
            in_stack@ == cur.in_stack,
            reversed@ == cur.reversed,
            goal == dfs_all(orig, nn, cur, start as int),
        decreases n - start,
    {
        let ghost next = if !cur.visited[start as int] {
            dfs_visit(orig, nn, nn + 1, cur, start as int)
        } else {
            cur
        };
        if !visited[start] {
            proof {
                lemma_count_false_bound(cur.visited);
            }
            dfs_break_cycles(
                start,
                &adj,
                &mut visited,
                &mut in_stack,
                &mut reversed,
                Ghost(orig),
                Ghost(nn),
                Ghost(nn + 1),
                Ghost(cur),
            );
        }
        proof {
            lemma_dfs_all_step(orig, nn, cur, start as int);
            cur = next;
        }
        start = start + 1;
    }
    proof {
        lemma_break_cycles_leaves_no_cycle(nn, orig);
    }
    let rlen = reversed.len();
    let mut j: usize = 0;
    while j < rlen
        invariant
            rlen == reversed@.len(),
            reversed@ == back_edges(nn, orig),
            reversed@.no_duplicates(),
            orig.len() <= usize::MAX,
            forall|q: int|
                0 <= q < reversed@.len() ==> (#[trigger] reversed@[q] as int) < orig.len(),
            j <= rlen,
            edges@.len() == orig.len(),
            forall|x: int|
                0 <= x < orig.len() ==> #[trigger] edges@[x] == if reversed@.subrange(
                    0,
                    j as int,
                ).contains(x as usize) {
                    EdgeEnds { from: orig[x].to, to: orig[x].from }
                } else {
                    orig[x]
                },
        decreases rlen - j,
    {
        let x = reversed[j];
        let old_edge = edges[x];
        edges.set(x, EdgeEnds { from: old_edge.to, to: old_edge.from });
        proof {
            let pre = reversed@.subrange(0, j as int);
            let post = reversed@.subrange(0, j + 1);
            assert forall|y: int| 0 <= y < orig.len() implies #[trigger] post.contains(y as usize)
                == (pre.contains(y as usize) || y == x as int) by {
                if post.contains(y as usize) {
                    let q = choose|q: int| 0 <= q < post.len() && post[q] == y as usize;
                    if q < j {
                        assert(pre[q] == y as usize);
                    }
                }
                if pre.contains(y as usize) {
                    let q = choose|q: int| 0 <= q < pre.len() && pre[q] == y as usize;
                    assert(post[q] == y as usize);
                }
                if y == x as int {
                    assert(post[j as int] == x);
                }
            }
            assert(!pre.contains(x)) by {
                if pre.contains(x) {
                    let q = choose|q: int| 0 <= q < pre.len() && pre[q] == x;
                    assert(reversed@[q] == reversed@[j as int]);
                }
            }
        }
        j = j + 1;
    }
    assert(reversed@.subrange(0, rlen as int) =~= reversed@);
    assert(edges@ =~= reverse_listed(orig, reversed@));
    reversed
}

} // verus!

verus! {

// ─── layer assignment ───────────────────────────────────────────────────────

/// Targets of the resolved edges among `edges[0..m)` that leave `u`, in edge order.
pub open spec fn targets_upto(edges: Seq<EdgeEnds>, n: nat, u: int, m: int) -> Seq<usize> {
    out_edges_upto(edges, n, u, m).map_values(|e: usize| edges[e as int].to)
}

/// Targets of the resolved edges that leave `u`, in edge order.
pub open spec fn targets(edges: Seq<EdgeEnds>, n: nat, u: int) -> Seq<usize> {
    targets_upto(edges, n, u, edges.len() as int)
}

/// Number of occurrences of `v` in `s`.
pub open spec fn seq_count(s: Seq<usize>, v: usize) -> nat
    decreases s.len(),
{
    if s.len() == 0 {
        0
    } else {
        seq_count(s.drop_last(), v) + if s.last() == v {
            1nat
        } else {
            0nat
        }
    }
}

/// Number of resolved edges among `edges[0..m)` into `v` whose source is not `done`.
pub open spec fn in_count(edges: Seq<EdgeEnds>, n: nat, v: int, done: Seq<bool>, m: int) -> nat
    decreases m,
{
    if m <= 0 {
        0
    } else {
        let e = edges[m - 1];
        in_count(edges, n, v, done, m - 1) + if resolved(e, n) && e.to == v && !done[e.from as int] {
            1nat
        } else {
            0nat
        }
    }
}

/// Layers in which every resolved edge goes down at least one layer and every
/// node above layer 0 sits exactly one layer below one of its predecessors:
/// the longest-path layering.
pub open spec fn is_longest_path_layering(n: nat, edges: Seq<EdgeEnds>, layers: Seq<usize>) -> bool {
    &&& layers.len() == n
    &&& forall|e: int|
        #![trigger edges[e]]
        0 <= e < edges.len() && resolved(edges[e], n) ==> layers[edges[e].to as int]
            >= layers[edges[e].from as int] + 1
    &&& forall|v: int|
        0 <= v < n && #[trigger] layers[v] > 0 ==> exists|e: int|
            0 <= e < edges.len() && resolved(edges[e], n) && edges[e].to == v && layers[v]
                == #[trigger] layers[edges[e].from as int] + 1
}

/// No resolved edge is a self-loop.
pub open spec fn no_self_loops(n: nat, edges: Seq<EdgeEnds>) -> bool {
    forall|e: int|
        #![trigger edges[e]]
        0 <= e < edges.len() && resolved(edges[e], n) ==> edges[e].from != edges[e].to
}

/// Appending `x` adds one occurrence of `x`.
pub proof fn lemma_seq_count_push(s: Seq<usize>, x: usize, v: usize)
    ensures
        seq_count(s.push(x), v) == seq_count(s, v) + if x == v {
            1nat
        } else {
            0nat
        },
{
    assert(s.push(x).drop_last() =~= s);
}

proof fn lemma_seq_count_prefix_step(s: Seq<usize>, j: int, v: usize)
    requires
        0 <= j < s.len(),
    ensures
        seq_count(s.subrange(0, j + 1), v) == seq_count(s.subrange(0, j), v) + if s[j] == v {
            1nat
        } else {
            0nat
        },
{
    assert(s.subrange(0, j + 1) =~= s.subrange(0, j).push(s[j]));
    lemma_seq_count_push(s.subrange(0, j), s[j], v);
}

proof fn lemma_targets_upto_step(edges: Seq<EdgeEnds>, n: nat, u: int, m: int)
    requires
        0 < m <= edges.len(),
        edges.len() <= usize::MAX,
    ensures
        targets_upto(edges, n, u, m) == if resolved(edges[m - 1], n) && edges[m - 1].from == u {
            targets_upto(edges, n, u, m - 1).push(edges[m - 1].to)
        } else {
            targets_upto(edges, n, u, m - 1)
        },
{
    let prev = out_edges_upto(edges, n, u, m - 1);
    if resolved(edges[m - 1], n) && edges[m - 1].from == u {
        let a = prev.push((m - 1) as usize).map_values(|e: usize| edges[e as int].to);
        let b = prev.map_values(|e: usize| edges[e as int].to).push(edges[m - 1].to);
        assert(a.len() == b.len());
        assert forall|k: int| 0 <= k < a.len() implies a[k] == b[k] by {
            if k < prev.len() {
                assert(prev.push((m - 1) as usize)[k] == prev[k]);
            } else {
                assert(prev.push((m - 1) as usize)[k] == (m - 1) as usize);
            }
        }
        assert(a =~= b);
    }
}

/// Removing `u` from the pending sources lowers the count by the edges out of `u`.
proof fn lemma_in_count_split(edges: Seq<EdgeEnds>, n: nat, v: int, done: Seq<bool>, u: int, m: int)
    requires
        0 <= m <= edges.len(),
        0 <= u < done.len(),
        !done[u],
        done.len() == n,
        edges.len() <= usize::MAX,
        0 <= v <= usize::MAX,
    ensures
        in_count(edges, n, v, done, m) == in_count(edges, n, v, done.update(u, true), m) + seq_count(
            targets_upto(edges, n, u, m),
            v as usize,
        ),
    decreases m,
{
    if m > 0 {
        lemma_in_count_split(edges, n, v, done, u, m - 1);
        lemma_targets_upto_step(edges, n, u, m);
        let e = edges[m - 1];
        let d2 = done.update(u, true);
        if resolved(e, n) {
            assert(d2[e.from as int] == (done[e.from as int] || e.from == u));
        }
        if resolved(e, n) && e.from == u {
            lemma_seq_count_push(targets_upto(edges, n, u, m - 1), e.to, v as usize);
        }
    }
}

/// With every source done, nothing is pending.
proof fn lemma_in_count_zero(edges: Seq<EdgeEnds>, n: nat, v: int, done: Seq<bool>, m: int)
    requires
        0 <= m <= edges.len(),
        in_count(edges, n, v, done, m) == 0,
    ensures
        forall|e: int|
            0 <= e < m && resolved(edges[e], n) && edges[e].to == v ==> done[edges[e].from as int],
    decreases m,
{
    if m > 0 {
        lemma_in_count_zero(edges, n, v, done, m - 1);
    }
}

/// A pending edge into `v` makes the count positive.
pub proof fn lemma_in_count_pos(edges: Seq<EdgeEnds>, n: nat, v: int, done: Seq<bool>, m: int, e: int)
    requires
        0 <= e < m <= edges.len(),
        resolved(edges[e], n),
        edges[e].to == v,
        !done[edges[e].from as int],
    ensures
        in_count(edges, n, v, done, m) > 0,
    decreases m,
{
    if e < m - 1 {
        lemma_in_count_pos(edges, n, v, done, m - 1, e);
    }
}

proof fn lemma_in_count_bound(edges: Seq<EdgeEnds>, n: nat, v: int, done: Seq<bool>, m: int)
    requires
        0 <= m,
    ensures
        in_count(edges, n, v, done, m) <= m,
    decreases m,
{
    if m > 0 {
        lemma_in_count_bound(edges, n, v, done, m - 1);
    }
}

/// Among the nodes below `b` outside `queue`, one of least rank, if any.
proof fn lemma_min_rank_upto(rank: Seq<int>, queue: Seq<usize>, b: int) -> (m: int)
    requires
        0 <= b <= rank.len(),
    ensures
        m == -1 ==> forall|x: int| 0 <= x < b ==> #[trigger] queue.contains(x as usize),
        m != -1 ==> {
            &&& 0 <= m < b
            &&& !queue.contains(m as usize)
            &&& forall|x: int|
                0 <= x < b && !#[trigger] queue.contains(x as usize) ==> rank[m] <= rank[x]
        },
    decreases b,
{
    if b == 0 {
        -1
    } else {
        let m0 = lemma_min_rank_upto(rank, queue, b - 1);
        let x = b - 1;
        if queue.contains(x as usize) {
            m0
        } else if m0 == -1 {
            x
        } else if rank[x] < rank[m0] {
            x
        } else {
            m0
        }
    }
}

/// Among the nodes outside `queue`, one of least rank exists.
proof fn lemma_min_rank_outside(n: nat, rank: Seq<int>, queue: Seq<usize>, w: int) -> (m: int)
    requires
        rank.len() == n,
        0 <= w < n,
        !queue.contains(w as usize),
    ensures
        0 <= m < n,
        !queue.contains(m as usize),
        forall|x: int| 0 <= x < n && !#[trigger] queue.contains(x as usize) ==> rank[m] <= rank[x],
{
    lemma_min_rank_upto(rank, queue, n as int)
}

/// No node is done yet.
pub open spec fn none_done(n: nat) -> Seq<bool> {
    Seq::new(n, |i: int| false)
}

/// Entries of `order` are distinct nodes, and every resolved edge into an
/// entry comes from an entry listed before it.
pub open spec fn preds_listed_before(n: nat, edges: Seq<EdgeEnds>, order: Seq<usize>) -> bool {
    &&& order.no_duplicates()
    &&& forall|k: int| 0 <= k < order.len() ==> (#[trigger] order[k] as nat) < n
    &&& forall|qi: int, e: int|
        #![trigger order[qi], edges[e]]
        0 <= qi < order.len() && 0 <= e < edges.len() && resolved(edges[e], n) && edges[e].to
            == order[qi] ==> exists|p: int| 0 <= p < qi && #[trigger] order[p] == edges[e].from
}

/// `order` lists every node once, each after all of its predecessors.
pub open spec fn is_topological_order(n: nat, edges: Seq<EdgeEnds>, order: Seq<usize>) -> bool {
    &&& preds_listed_before(n, edges, order)
    &&& forall|x: int| 0 <= x < n ==> #[trigger] order.contains(x as usize)
}

/// The targets of `u` are the ends of its out-edges, each a node.
pub proof fn lemma_targets(edges: Seq<EdgeEnds>, n: nat, u: int)
    requires
        edges.len() <= usize::MAX,
    ensures
        targets(edges, n, u).len() == out_edges(edges, n, u).len(),
        forall|k: int|
            0 <= k < targets(edges, n, u).len() ==> #[trigger] targets(edges, n, u)[k] == edges[out_edges(
                edges,
                n,
                u,
            )[k] as int].to && (targets(edges, n, u)[k] as nat) < n,
{
    lemma_out_edges(edges, n, u);
    assert forall|k: int| 0 <= k < targets(edges, n, u).len() implies #[trigger] targets(
        edges,
        n,
        u,
    )[k] == edges[out_edges(edges, n, u)[k] as int].to && (targets(edges, n, u)[k] as nat) < n by {
        let e = out_edges(edges, n, u)[k];
    }
}

proof fn lemma_seq_count_prefix_le(s: Seq<usize>, j: int, v: usize)
    requires
        0 <= j <= s.len(),
    ensures
        seq_count(s.subrange(0, j), v) <= seq_count(s, v),
    decreases s.len() - j,
{
    if j < s.len() {
        lemma_seq_count_prefix_step(s, j, v);
        lemma_seq_count_prefix_le(s, j + 1, v);
    } else {
        assert(s.subrange(0, j) =~= s);
    }
}

/// A positive count comes from a pending edge.
proof fn lemma_in_count_witness(edges: Seq<EdgeEnds>, n: nat, v: int, done: Seq<bool>, m: int) -> (e: int)
    requires
        0 <= m <= edges.len(),
        in_count(edges, n, v, done, m) > 0,
    ensures
        0 <= e < m,
        resolved(edges[e], n),
        edges[e].to == v,
        !done[edges[e].from as int],
    decreases m,
{
    let last = edges[m - 1];
    if resolved(last, n) && last.to == v && !done[last.from as int] {
        m - 1
    } else {
        lemma_in_count_witness(edges, n, v, done, m - 1)
    }
}

fn vec_contains(v: &Vec<usize>, x: usize) -> (r: bool)
    ensures
        r == v@.contains(x),
{
    let mut i: usize = 0;
    while i < v.len()
        invariant
            i <= v@.len(),
            forall|k: int| 0 <= k < i ==> v@[k] != x,
        decreases v@.len() - i,
    {
        if v[i] == x {
            return true;
        }
        i = i + 1;
    }
    false
}

/// Layers after `node` has pushed the first `j` of its targets `tg`: each
/// target goes to one layer below `node` unless it is already lower.
#[verifier::opaque]
pub open spec fn relax_node(layers: Seq<usize>, node: usize, tg: Seq<usize>, j: int) -> Seq<usize>
    decreases j,
{
    if j <= 0 {
        layers
    } else {
        let l = relax_node(layers, node, tg, j - 1);
        let t = tg[j - 1];
        let cand = l[node as int] + 1;
        if cand > l[t as int] {
            l.update(t as int, cand as usize)
        } else {
            l
        }
    }
}

proof fn lemma_relax_node_step(base: Seq<usize>, node: usize, tg: Seq<usize>, j: int, before: Seq<usize>, after: Seq<usize>)
    requires
        0 <= j < tg.len(),
        before == relax_node(base, node, tg, j),
        (tg[j] as int) < before.len(),
        before[node as int] + 1 <= usize::MAX,
        after == (if before[node as int] + 1 > before[tg[j] as int] {
            before.update(tg[j] as int, (before[node as int] + 1) as usize)
        } else {
            before
        }),
    ensures
        after == relax_node(base, node, tg, j + 1),
{
    reveal_with_fuel(relax_node, 2);
}

/// Layers after the first `k` nodes of `order` have pushed their targets,
/// from all nodes on layer 0.
pub open spec fn relax_upto(n: nat, edges: Seq<EdgeEnds>, order: Seq<usize>, k: int) -> Seq<usize>
    decreases k,
{
    if k <= 0 {
        Seq::new(n, |v: int| 0usize)
    } else {
        let node = order[k - 1];
        let tg = targets(edges, n, node as int);
        relax_node(relax_upto(n, edges, order, k - 1), node, tg, tg.len() as int)
    }
}

/// State of Kahn's algorithm: the queue, the in-degrees still pending, the
/// position in the queue of the node being taken, and how many of its
/// targets it has released.
pub type KahnState = (Seq<usize>, Seq<usize>, int, int);

/// One step of Kahn's algorithm: the node at the head releases its next
/// target, whose pending in-degree drops by one (and which joins the queue
/// when none is left); once all its targets are released the head moves
/// on. Nothing changes once the head has passed the end of the queue.
pub open spec fn kahn_step(n: nat, edges: Seq<EdgeEnds>, st: KahnState) -> KahnState {
    let (queue, rem, head, j) = st;
    if head < 0 || head >= queue.len() {
        st
    } else {
        let tg = targets(edges, n, queue[head] as int);
        if 0 <= j < tg.len() {
            let t = tg[j];
            let r = (rem[t as int] - 1) as usize;
            (if r == 0 {
                queue.push(t)
            } else {
                queue
            }, rem.update(t as int, r), head, j + 1)
        } else {
            (queue, rem, head + 1, 0)
        }
    }
}

/// The state after `t` steps.
pub open spec fn kahn_run(n: nat, edges: Seq<EdgeEnds>, st: KahnState, t: nat) -> KahnState
    decreases t,
{
    if t == 0 {
        st
    } else {
        kahn_step(n, edges, kahn_run(n, edges, st, (t - 1) as nat))
    }
}

/// The nodes below `i` with no pending in-degree, in node order.
pub open spec fn sources_upto(deg: Seq<usize>, i: int) -> Seq<usize>
    decreases i,
{
    if i <= 0 {
        seq![]
    } else if deg[i - 1] == 0 {
        sources_upto(deg, i - 1).push((i - 1) as usize)
    } else {
        sources_upto(deg, i - 1)
    }
}

/// In-degrees of the resolved edges.
pub open spec fn in_degrees(n: nat, edges: Seq<EdgeEnds>) -> Seq<usize> {
    Seq::new(n, |v: int| in_count(edges, n, v, none_done(n), edges.len() as int) as usize)
}

/// Kahn's algorithm starts with the sources in node order in the queue.
pub open spec fn kahn_start(n: nat, edges: Seq<EdgeEnds>) -> KahnState {
    (sources_upto(in_degrees(n, edges), n as int), in_degrees(n, edges), 0, 0)
}

/// The head has passed the end of the queue.
pub open spec fn kahn_done(st: KahnState) -> bool {
    st.2 >= st.0.len()
}

/// The queue Kahn's algorithm ends with.
pub open spec fn kahn_queue(n: nat, edges: Seq<EdgeEnds>) -> Seq<usize> {
    kahn_run(n, edges, kahn_start(n, edges), choose|t: nat| kahn_done(#[trigger] kahn_run(n, edges, kahn_start(n, edges), t))).0
}

proof fn lemma_kahn_stays_done(n: nat, edges: Seq<EdgeEnds>, st: KahnState, t1: nat, t2: nat)
    requires
        t1 <= t2,
        kahn_done(kahn_run(n, edges, st, t1)),
        kahn_run(n, edges, st, t1).2 >= 0,
    ensures
        kahn_run(n, edges, st, t2) == kahn_run(n, edges, st, t1),
    decreases t2 - t1,
{
    if t1 < t2 {
        lemma_kahn_stays_done(n, edges, st, t1, (t2 - 1) as nat);
    }
}

proof fn lemma_kahn_queue(n: nat, edges: Seq<EdgeEnds>, t: nat)
    requires
        kahn_done(kahn_run(n, edges, kahn_start(n, edges), t)),
        kahn_run(n, edges, kahn_start(n, edges), t).2 >= 0,
    ensures
        kahn_queue(n, edges) == kahn_run(n, edges, kahn_start(n, edges), t).0,
{
    let st = kahn_start(n, edges);
    let t2 = choose|t: nat| kahn_done(#[trigger] kahn_run(n, edges, st, t));
    assert(kahn_done(kahn_run(n, edges, st, t2)));
    lemma_kahn_head_nonneg(n, edges, t2);
    if t <= t2 {
        lemma_kahn_stays_done(n, edges, st, t, t2);
    } else {
        lemma_kahn_stays_done(n, edges, st, t2, t);
    }
}

proof fn lemma_kahn_head_nonneg(n: nat, edges: Seq<EdgeEnds>, t: nat)
    ensures
        kahn_run(n, edges, kahn_start(n, edges), t).2 >= 0,
        kahn_run(n, edges, kahn_start(n, edges), t).3 >= 0,
    decreases t,
{
    if t > 0 {
        lemma_kahn_head_nonneg(n, edges, (t - 1) as nat);
    }
}

proof fn lemma_kahn_release(n: nat, edges: Seq<EdgeEnds>, st: KahnState, queue2: Seq<usize>, rem2: Seq<usize>)
    requires
        0 <= st.2 < st.0.len(),
        0 <= st.3 < targets(edges, n, st.0[st.2] as int).len(),
        st.1[targets(edges, n, st.0[st.2] as int)[st.3] as int] >= 1,
        ({
            let t = targets(edges, n, st.0[st.2] as int)[st.3];
            let r = (st.1[t as int] - 1) as usize;
            &&& rem2 == st.1.update(t as int, r)
            &&& queue2 == if r == 0 {
                st.0.push(t)
            } else {
                st.0
            }
        }),
    ensures
        kahn_step(n, edges, st) == (queue2, rem2, st.2, st.3 + 1),
{
}

proof fn lemma_kahn_advance(n: nat, edges: Seq<EdgeEnds>, st: KahnState)
    requires
        0 <= st.2 < st.0.len(),
        st.3 == targets(edges, n, st.0[st.2] as int).len(),
    ensures
        kahn_step(n, edges, st) == (st.0, st.1, st.2 + 1, 0int),
{
}

/// Kahn's algorithm: the sources in node order, then each node as soon as its
/// last pending predecessor is taken, successors in edge order.
fn kahn_order(n: usize, edges: &Vec<EdgeEnds>, adj: &Vec<Vec<usize>>, in_degree: Vec<usize>) -> (queue:
    Vec<usize>)
    requires
        adj@.len() == n,
        in_degree@.len() == n,
        forall|u: int| 0 <= u < n ==> (#[trigger] adj@[u])@ == targets(edges@, n as nat, u),
        forall|v: int|
            0 <= v < n ==> #[trigger] in_degree@[v] == in_count(
                edges@,
                n as nat,
                v,
                none_done(n as nat),
                edges@.len() as int,
            ),
    ensures
        queue@ == kahn_queue(n as nat, edges@),
        preds_listed_before(n as nat, edges@, queue@),
        has_topological_ranking(n as nat, edges@) && no_self_loops(n as nat, edges@) ==> forall|x: int|
            0 <= x < n ==> #[trigger] queue@.contains(x as usize),
{
    let ghost nn = n as nat;
    let ghost es = edges@;
    let m = edges.len();
    // sources, in node order
    let mut queue: Vec<usize> = Vec::new();
    let mut i: usize = 0;
    while i < n
        invariant
            nn == n as nat,
            i <= n,
            in_degree@.len() == n,
            forall|k: int| 0 <= k < queue@.len() ==> (#[trigger] queue@[k] as int) < i,
            forall|j: int, k: int| 0 <= j < k < queue@.len() ==> queue@[j] < queue@[k],
            forall|v: int| 0 <= v < i ==> (in_degree@[v] == 0) == #[trigger] queue@.contains(v as usize),
            queue@ == sources_upto(in_degree@, i as int),
        decreases n - i,
    {
        if in_degree[i] == 0 {
            let ghost before = queue@;
            queue.push(i);
            assert forall|v: int| 0 <= v < i + 1 implies (in_degree@[v] == 0)
                == #[trigger] queue@.contains(v as usize) by {
                if v < i {
                    if queue@.contains(v as usize) {
                        let k = choose|k: int| 0 <= k < queue@.len() && queue@[k] == v as usize;
                        if k == before.len() {
                        } else {
                            assert(before[k] == queue@[k]);
                        }
                    }
                    if before.contains(v as usize) {
                        let k = choose|k: int| 0 <= k < before.len() && before[k] == v as usize;
                        assert(queue@[k] == before[k]);
                    }
                } else {
                    assert(queue@[before.len() as int] == i);
                }
            }
        } else {
            assert forall|v: int| 0 <= v < i + 1 implies (in_degree@[v] == 0)
                == #[trigger] queue@.contains(v as usize) by {
                if v == i && queue@.contains(v as usize) {
                    let k = choose|k: int| 0 <= k < queue@.len() && queue@[k] == v as usize;
                }
            }
        }
        i = i + 1;
    }
    proof {
        assert(in_degree@ =~= in_degrees(nn, es));
    }
    let mut remaining = in_degree;
    let mut head: usize = 0;
    let ghost mut done = none_done(nn);
    let ghost mut steps: nat = 0;
    assert(kahn_run(nn, es, kahn_start(nn, es), steps) == (queue@, remaining@, head as int, 0int));
    proof {
        assert(queue@.no_duplicates());
        assert forall|qi: int, e: int|
            #![trigger queue@[qi], es[e]]
            0 <= qi < queue@.len() && 0 <= e < es.len() && resolved(es[e], nn) && es[e].to
                == queue@[qi] implies exists|p: int| 0 <= p < qi && #[trigger] queue@[p] == es[e].from by {
            let v = queue@[qi] as int;
            assert(queue@.contains(v as usize));
            lemma_in_count_zero(es, nn, v, none_done(nn), m as int);
        }
    }
    while head < queue.len()
        invariant
            nn == n as nat,
            es == edges@,
            m == es.len(),
            adj@.len() == n,
            forall|u: int| 0 <= u < n ==> (#[trigger] adj@[u])@ == targets(es, nn, u),
            remaining@.len() == n,
            done.len() == n,
            head <= queue@.len(),
            preds_listed_before(nn, es, queue@),
            forall|p: int| 0 <= p < head ==> done[#[trigger] queue@[p] as int],
            forall|x: int|
                0 <= x < n && #[trigger] done[x] ==> exists|p: int|
                    0 <= p < head && queue@[p] == x as usize,
            forall|v: int| 0 <= v < n ==> #[trigger] remaining@[v] == in_count(es, nn, v, done, m as int),
            forall|v: int| 0 <= v < n ==> (remaining@[v] == 0) == #[trigger] queue@.contains(v as usize),
            kahn_run(nn, es, kahn_start(nn, es), steps) == (queue@, remaining@, head as int, 0int),
        decreases count_false(done),
    {
        let node = queue[head];
        let ghost q0 = queue@;
        let ghost done1 = done.update(node as int, true);
        let ghost tg = targets(es, nn, node as int);
        proof {
            if done[node as int] {
                let p = choose|p: int| 0 <= p < head && queue@[p] == node;
                assert(queue@[p] == queue@[head as int]);
            }
            lemma_targets(es, nn, node as int);
            assert forall|v: int| 0 <= v < n implies #[trigger] in_count(es, nn, v, done, m as int)
                == in_count(es, nn, v, done1, m as int) + seq_count(tg, v as usize) by {
                lemma_in_count_split(es, nn, v, done, node as int, m as int);
            }
            assert(tg.subrange(0, 0) =~= Seq::<usize>::empty());
        }
        let tl = adj[node].len();
        let mut j: usize = 0;
        while j < tl
            invariant
                nn == n as nat,
                es == edges@,
                m == es.len(),
                adj@.len() == n,
                forall|u: int| 0 <= u < n ==> (#[trigger] adj@[u])@ == targets(es, nn, u),
                (node as int) < n,
                tg == targets(es, nn, node as int),
                tl == tg.len(),
                j <= tl,
                forall|k: int| 0 <= k < tg.len() ==> (#[trigger] tg[k] as nat) < nn,
                remaining@.len() == n,
                done.len() == n,
                done1 == done.update(node as int, true),
                !done[node as int],
                head < q0.len(),
                q0[head as int] == node,
                q0.len() <= queue@.len(),
                forall|p: int| 0 <= p < q0.len() ==> #[trigger] queue@[p] == q0[p],
                preds_listed_before(nn, es, queue@),
                forall|p: int| 0 <= p < head ==> done[#[trigger] q0[p] as int],
                forall|x: int|
                    0 <= x < n && #[trigger] done[x] ==> exists|p: int|
                        0 <= p < head && q0[p] == x as usize,
                forall|v: int|
                    0 <= v < n ==> #[trigger] in_count(es, nn, v, done, m as int) == in_count(
                        es,
                        nn,
                        v,
                        done1,
                        m as int,
                    ) + seq_count(tg, v as usize),
                forall|v: int|
                    0 <= v < n ==> #[trigger] remaining@[v] + seq_count(tg.subrange(0, j as int), v as usize)
                        == in_count(es, nn, v, done, m as int),
                forall|v: int| 0 <= v < n ==> (remaining@[v] == 0) == #[trigger] queue@.contains(v as usize),
                kahn_run(nn, es, kahn_start(nn, es), steps) == (queue@, remaining@, head as int, j as int),
            decreases tl - j,
        {
            let ghost st: KahnState = (queue@, remaining@, head as int, j as int);
            let t = adj[node][j];
            proof {
                assert(t == tg[j as int]);
                lemma_seq_count_prefix_step(tg, j as int, t);
                lemma_seq_count_prefix_le(tg, j as int + 1, t);
                assert(in_count(es, nn, t as int, done, m as int) == in_count(es, nn, t as int, done1, m as int)
                    + seq_count(tg, t));
                assert(remaining@[t as int] + seq_count(tg.subrange(0, j as int), t) == in_count(
                    es,
                    nn,
                    t as int,
                    done,
                    m as int,
                ));
            }
            let r = remaining[t];
            let ghost q_pre = queue@;
            let ghost rem_pre = remaining@;
            remaining.set(t, r - 1);
            if r - 1 == 0 {
                let ghost before = queue@;
                proof {
                    assert(!before.contains(t));
                    assert(in_count(es, nn, t as int, done1, m as int) == 0);
                    lemma_in_count_zero(es, nn, t as int, done1, m as int);
                }
                queue.push(t);
                proof {
                    assert forall|a: int, b: int|
                        0 <= a < queue@.len() && 0 <= b < queue@.len() && a != b implies queue@[a]
                        != queue@[b] by {
                        if a < before.len() && b < before.len() {
                            assert(before[a] != before[b]);
                        } else if a < before.len() {
                            assert(before.contains(before[a]));
                        } else if b < before.len() {
                            assert(before.contains(before[b]));
                        }
                    }
                    assert forall|qi: int, e: int|
                        #![trigger queue@[qi], es[e]]
                        0 <= qi < queue@.len() && 0 <= e < es.len() && resolved(es[e], nn) && es[e].to
                            == queue@[qi] implies exists|p: int|
                        0 <= p < qi && #[trigger] queue@[p] == es[e].from by {
                        if qi < before.len() {
                            assert(before[qi] == queue@[qi]);
                            let p = choose|p: int| 0 <= p < qi && #[trigger] before[p] == es[e].from;
                            assert(queue@[p] == before[p]);
                        } else {
                            let f = es[e].from as int;
                            assert(done1[f]);
                            if f == node as int {
                                assert(queue@[head as int] == q0[head as int]);
                            } else {
                                assert(done[f]);
                                let p = choose|p: int| 0 <= p < head && q0[p] == f as usize;
                                assert(queue@[p] == q0[p]);
                            }
                        }
                    }
                    assert forall|k: int| 0 <= k < queue@.len() implies (#[trigger] queue@[k] as nat) < nn by {
                        if k < before.len() {
                            assert(before[k] == queue@[k]);
                        }
                    }
                }
            }
            proof {
                assert(st.0[head as int] == node);
                lemma_kahn_release(nn, es, st, queue@, remaining@);
                steps = steps + 1;
                assert forall|v: int| 0 <= v < n implies #[trigger] remaining@[v] + seq_count(
                    tg.subrange(0, j + 1),
                    v as usize,
                ) == in_count(es, nn, v, done, m as int) by {
                    lemma_seq_count_prefix_step(tg, j as int, v as usize);
                }
                assert forall|v: int| 0 <= v < n implies (remaining@[v] == 0) == #[trigger] queue@.contains(
                    v as usize,
                ) by {
                    if v != t as int {
                        assert(remaining@[v] == rem_pre[v]);
                        if queue@.contains(v as usize) {
                            let k = choose|k: int| 0 <= k < queue@.len() && queue@[k] == v as usize;
                            if k < q_pre.len() {
                                assert(q_pre[k] == queue@[k]);
                                assert(q_pre.contains(v as usize));
                            }
                        }
                        if q_pre.contains(v as usize) {
                            let k = choose|k: int| 0 <= k < q_pre.len() && q_pre[k] == v as usize;
                            assert(queue@[k] == q_pre[k]);
                        }
                    } else if r - 1 == 0 {
                        assert(queue@[queue@.len() - 1] == t);
                    } else {
                        assert(!q_pre.contains(t));
                        assert(queue@ == q_pre);
                    }
                }
            }
            j = j + 1;
        }
        proof {
            assert(queue@[head as int] == node);
            lemma_kahn_advance(nn, es, (queue@, remaining@, head as int, j as int));
            steps = steps + 1;
            assert(tg.subrange(0, tl as int) =~= tg);
            lemma_count_false_update(done, node as int);
            assert forall|p: int| 0 <= p < head + 1 implies done1[#[trigger] queue@[p] as int] by {
                assert(queue@[p] == q0[p]);
            }
            assert forall|x: int| 0 <= x < n && #[trigger] done1[x] implies exists|p: int|
                0 <= p < head + 1 && queue@[p] == x as usize by {
                if x == node as int {
                    assert(queue@[head as int] == q0[head as int]);
                } else {
                    assert(done[x]);
                    let p = choose|p: int| 0 <= p < head && q0[p] == x as usize;
                    assert(queue@[p] == q0[p]);
                }
            }
            done = done1;
        }
        head = head + 1;
    }
    proof {
        lemma_kahn_head_nonneg(nn, es, steps);
        lemma_kahn_queue(nn, es, steps);
        if has_topological_ranking(nn, es) && no_self_loops(nn, es) {
            let rank = choose|rank: Seq<int>| #[trigger] is_topological_ranking(nn, es, rank);
            assert forall|x: int| 0 <= x < n implies #[trigger] queue@.contains(x as usize) by {
                if !queue@.contains(x as usize) {
                    let w = lemma_min_rank_outside(nn, rank, queue@, x);
                    assert(remaining@[w] != 0);
                    let e = lemma_in_count_witness(es, nn, w, done, m as int);
                    let f = es[e].from as int;
                    if queue@.contains(f as usize) {
                        let p = choose|p: int| 0 <= p < queue@.len() && queue@[p] == f as usize;
                        assert(done[queue@[p] as int]);
                    }
                    assert(es[e].from != es[e].to);
                    assert(rank[f] < rank[w]);
                }
            }
        }
    }
    queue
}


/// Positions in `order` of the nodes, where it lists them all.
pub open spec fn order_positions(n: nat, order: Seq<usize>) -> Seq<int> {
    Seq::new(n, |x: int| choose|p: int| 0 <= p < order.len() && order[p] == x as usize)
}

/// In a topological order, every resolved edge goes from an earlier to a later position.
proof fn lemma_order_positions(n: nat, edges: Seq<EdgeEnds>, order: Seq<usize>)
    requires
        is_topological_order(n, edges, order),
    ensures
        forall|x: int|
            0 <= x < n ==> 0 <= #[trigger] order_positions(n, order)[x] < order.len() && order[order_positions(
                n,
                order,
            )[x]] == x as usize,
        forall|p: int| 0 <= p < order.len() ==> order_positions(n, order)[#[trigger] order[p] as int] == p,
        forall|e: int|
            #![trigger edges[e]]
            0 <= e < edges.len() && resolved(edges[e], n) ==> order_positions(n, order)[edges[e].from as int]
                < order_positions(n, order)[edges[e].to as int],
{
    let pos = order_positions(n, order);
    assert forall|x: int| 0 <= x < n implies 0 <= #[trigger] pos[x] < order.len() && order[pos[x]]
        == x as usize by {
        assert(order.contains(x as usize));
    }
    assert forall|p: int| 0 <= p < order.len() implies pos[#[trigger] order[p] as int] == p by {
        let x = order[p] as int;
        assert(order.contains(x as usize));
        let q = pos[x];
        assert(order[q] == order[p]);
    }
    assert forall|e: int|
        #![trigger edges[e]]
        0 <= e < edges.len() && resolved(edges[e], n) implies pos[edges[e].from as int]
        < pos[edges[e].to as int] by {
        let qi = pos[edges[e].to as int];
        assert(order.contains(edges[e].to));
        assert(order[qi] == edges[e].to);
        let p = choose|p: int| 0 <= p < qi && #[trigger] order[p] == edges[e].from;
        assert(pos[order[p] as int] == p);
    }
}

/// Longest-path relaxation along `order`: each listed node in turn pushes
/// each of its successors to at least one layer below its own.
fn relax_layers(n: usize, edges: &Vec<EdgeEnds>, adj: &Vec<Vec<usize>>, order: &Vec<usize>) -> (layers:
    Vec<usize>)
    requires
        adj@.len() == n,
        forall|u: int| 0 <= u < n ==> (#[trigger] adj@[u])@ == targets(edges@, n as nat, u),
        forall|k: int| 0 <= k < order@.len() ==> (#[trigger] order@[k] as int) < n,
        order@.no_duplicates(),
    ensures
        layers@.len() == n,
        layers@ == relax_upto(n as nat, edges@, order@, order@.len() as int),
        is_topological_order(n as nat, edges@, order@) ==> is_longest_path_layering(
            n as nat,
            edges@,
            layers@,
        ),
{
    let ghost nn = n as nat;
    let ghost es = edges@;
    let m = edges.len();
    let ghost ok = is_topological_order(nn, es, order@);
    let ghost pos = order_positions(nn, order@);
    proof {
        if ok {
            lemma_order_positions(nn, es, order@);
        }
    }
    let mut layer: Vec<usize> = Vec::new();
    let mut i: usize = 0;
    while i < n
        invariant
            i <= n,
            layer@.len() == i,
            forall|v: int| 0 <= v < i ==> #[trigger] layer@[v] == 0,
        decreases n - i,
    {
        layer.push(0);
        i = i + 1;
    }
    assert(layer@ =~= relax_upto(nn, es, order@, 0));
    let ghost mut used: Set<int> = Set::empty();
    let mut k: usize = 0;
    while k < order.len()
        invariant
            nn == n as nat,
            es == edges@,
            m == es.len(),
            adj@.len() == n,
            forall|u: int| 0 <= u < n ==> (#[trigger] adj@[u])@ == targets(es, nn, u),
            forall|q: int| 0 <= q < order@.len() ==> (#[trigger] order@[q] as int) < n,
            order@.no_duplicates(),
            k <= order@.len(),
            layer@.len() == n,
            layer@ == relax_upto(nn, es, order@, k as int),
            used.finite(),
            forall|v: int| 0 <= v < n ==> #[trigger] layer@[v] <= used.len(),
            forall|e: int|
                #[trigger] used.contains(e) ==> 0 <= e < m && forall|q: int|
                    k <= q < order@.len() ==> es[e].from != #[trigger] order@[q],
            ok == is_topological_order(nn, es, order@),
            pos == order_positions(nn, order@),
            ok ==> forall|x: int|
                0 <= x < n ==> 0 <= #[trigger] pos[x] < order@.len() && order@[pos[x]] == x as usize,
            ok ==> forall|p: int| 0 <= p < order@.len() ==> pos[#[trigger] order@[p] as int] == p,
            ok ==> forall|e: int|
                #![trigger es[e]]
                0 <= e < m && resolved(es[e], nn) ==> pos[es[e].from as int] < pos[es[e].to as int],
            ok ==> forall|e: int|
                #![trigger es[e]]
                0 <= e < m && resolved(es[e], nn) && pos[es[e].from as int] < k ==> layer@[es[e].to as int]
                    >= layer@[es[e].from as int] + 1,
            ok ==> forall|v: int|
                0 <= v < n && #[trigger] layer@[v] > 0 ==> exists|e: int|
                    0 <= e < m && resolved(es[e], nn) && es[e].to == v && pos[es[e].from as int] < k
                        && layer@[v] == #[trigger] layer@[es[e].from as int] + 1,
        decreases order@.len() - k,
    {
        let node = order[k];
        let ghost oe = out_edges(es, nn, node as int);
        let ghost tg = targets(es, nn, node as int);
        proof {
            lemma_targets(es, nn, node as int);
            lemma_out_edges(es, nn, node as int);
            if ok {
                assert(pos[order@[k as int] as int] == k);
            }
        }
        let tl = adj[node].len();
        let mut j: usize = 0;
        let ghost base = layer@;
        proof {
            reveal(relax_node);
        }
        while j < tl
            invariant
                nn == n as nat,
                es == edges@,
                m == es.len(),
                adj@.len() == n,
                forall|u: int| 0 <= u < n ==> (#[trigger] adj@[u])@ == targets(es, nn, u),
                forall|q: int| 0 <= q < order@.len() ==> (#[trigger] order@[q] as int) < n,
                order@.no_duplicates(),
                k < order@.len(),
                node == order@[k as int],
                layer@.len() == n,
                tg == targets(es, nn, node as int),
                oe == out_edges(es, nn, node as int),
                tl == tg.len(),
                tg.len() == oe.len(),
                j <= tl,
                layer@ == relax_node(base, node, tg, j as int),
                forall|kk: int|
                    0 <= kk < tg.len() ==> #[trigger] tg[kk] == es[oe[kk] as int].to && (tg[kk] as nat) < nn,
                forall|kk: int|
                    0 <= kk < oe.len() ==> {
                        let e = #[trigger] oe[kk];
                        &&& (e as int) < es.len()
                        &&& resolved(es[e as int], nn)
                        &&& es[e as int].from == node
                    },
                forall|a: int, b: int| 0 <= a < b < oe.len() ==> oe[a] < oe[b],
                forall|e: int|
                    0 <= e < es.len() && resolved(es[e], nn) && es[e].from == node ==> oe.contains(
                        e as usize,
                    ),
                used.finite(),
                forall|v: int| 0 <= v < n ==> #[trigger] layer@[v] <= used.len(),
                forall|e: int|
                    #[trigger] used.contains(e) ==> 0 <= e < m && (forall|q: int|
                        k < q < order@.len() ==> es[e].from != #[trigger] order@[q]) && (es[e].from == node
                        ==> exists|i: int| 0 <= i < j && #[trigger] oe[i] == e as usize),
                ok == is_topological_order(nn, es, order@),
                pos == order_positions(nn, order@),
                ok ==> pos[node as int] == k,
                ok ==> forall|x: int|
                    0 <= x < n ==> 0 <= #[trigger] pos[x] < order@.len() && order@[pos[x]] == x as usize,
                ok ==> forall|p: int| 0 <= p < order@.len() ==> pos[#[trigger] order@[p] as int] == p,
                ok ==> forall|e: int|
                    #![trigger es[e]]
                    0 <= e < m && resolved(es[e], nn) ==> pos[es[e].from as int] < pos[es[e].to as int],
                ok ==> forall|e: int|
                    #![trigger es[e]]
                    0 <= e < m && resolved(es[e], nn) && pos[es[e].from as int] < k
                        ==> layer@[es[e].to as int] >= layer@[es[e].from as int] + 1,
                ok ==> forall|i: int|
                    0 <= i < j ==> layer@[#[trigger] tg[i] as int] >= layer@[node as int] + 1,
                ok ==> forall|v: int|
                    0 <= v < n && #[trigger] layer@[v] > 0 ==> exists|e: int|
                        0 <= e < m && resolved(es[e], nn) && es[e].to == v && pos[es[e].from as int] <= k
                            && layer@[v] == #[trigger] layer@[es[e].from as int] + 1,
            decreases tl - j,
        {
            let t = adj[node][j];
            let ghost ej = oe[j as int] as int;
            let ghost before = layer@;
            proof {
                assert(t == tg[j as int]);
                if used.contains(ej) {
                    let i = choose|i: int| 0 <= i < j && #[trigger] oe[i] == ej as usize;
                    assert(oe[i] < oe[j as int]);
                }
                let nu = used.insert(ej);
                vstd::set_lib::lemma_int_range(0, m as int);
                assert(nu.subset_of(vstd::set_lib::set_int_range(0, m as int)));
                vstd::set_lib::lemma_len_subset(nu, vstd::set_lib::set_int_range(0, m as int));
                if ok {
                    assert(resolved(es[ej], nn));
                    assert(pos[node as int] < pos[t as int]);
                }
            }
            let cur = layer[t];
            let cand = layer[node] + 1;
            if cand > cur {
                layer.set(t, cand);
            }
            proof {
                lemma_relax_node_step(base, node, tg, j as int, before, layer@);
                let nu = used.insert(ej);
                if ok {
                    assert forall|e: int|
                        #![trigger es[e]]
                        0 <= e < m && resolved(es[e], nn) && pos[es[e].from as int] < k implies layer@[es[e].to
                            as int] >= layer@[es[e].from as int] + 1 by {
                        assert(before[es[e].to as int] >= before[es[e].from as int] + 1);
                        assert(es[e].from != t);
                    }
                    assert forall|i: int| 0 <= i < j + 1 implies layer@[#[trigger] tg[i] as int] >= layer@[node
                        as int] + 1 by {
                        if i < j {
                            assert(before[tg[i] as int] >= before[node as int] + 1);
                        }
                    }
                    assert forall|v: int| 0 <= v < n && #[trigger] layer@[v] > 0 implies exists|e: int|
                        0 <= e < m && resolved(es[e], nn) && es[e].to == v && pos[es[e].from as int] <= k
                            && layer@[v] == #[trigger] layer@[es[e].from as int] + 1 by {
                        if v == t as int && cand > cur {
                            assert(es[ej].to == v && layer@[es[ej].from as int] == before[node as int]);
                        } else {
                            assert(layer@[v] == before[v]);
                            let e = choose|e: int|
                                0 <= e < m && resolved(es[e], nn) && es[e].to == v && pos[es[e].from as int]
                                    <= k && before[v] == #[trigger] before[es[e].from as int] + 1;
                            assert(es[e].from != t);
                            assert(layer@[es[e].from as int] == before[es[e].from as int]);
                        }
                    }
                }
                assert forall|e: int| #[trigger] nu.contains(e) implies 0 <= e < m && (forall|q: int|
                    k < q < order@.len() ==> es[e].from != #[trigger] order@[q]) && (es[e].from == node
                    ==> exists|i: int| 0 <= i < j + 1 && #[trigger] oe[i] == e as usize) by {
                    if e == ej {
                        assert forall|q: int| k < q < order@.len() implies es[e].from != #[trigger] order@[q] by {
                            assert(order@[q] != order@[k as int]);
                        }
                    } else {
                        assert(used.contains(e));
                        if es[e].from == node {
                            let i = choose|i: int| 0 <= i < j && #[trigger] oe[i] == e as usize;
                        }
                    }
                }
                used = nu;
            }
            j = j + 1;
        }
        proof {
            assert(layer@ == relax_upto(nn, es, order@, k + 1));
            assert forall|e: int| #[trigger] used.contains(e) implies 0 <= e < m && forall|q: int|
                k + 1 <= q < order@.len() ==> es[e].from != #[trigger] order@[q] by {
            }
            if ok {
                assert forall|e: int|
                    #![trigger es[e]]
                    0 <= e < m && resolved(es[e], nn) && pos[es[e].from as int] < k + 1 implies layer@[es[e].to
                        as int] >= layer@[es[e].from as int] + 1 by {
                    if pos[es[e].from as int] == k {
                        assert(order@[pos[es[e].from as int]] == es[e].from);
                        assert(es[e].from == node);
                        assert(oe.contains(e as usize));
                        let i = choose|i: int| 0 <= i < oe.len() && oe[i] == e as usize;
                        assert(tg[i] == es[e].to);
                    }
                }
            }
        }
        k = k + 1;
    }
    proof {
        if ok {
            assert forall|e: int|
                #![trigger es[e]]
                0 <= e < es.len() && resolved(es[e], nn) implies layer@[es[e].to as int] >= layer@[es[e].from
                    as int] + 1 by {
                assert(pos[es[e].from as int] < order@.len());
            }
            assert forall|v: int|
                0 <= v < nn && #[trigger] layer@[v] > 0 implies exists|e: int|
                    0 <= e < es.len() && resolved(es[e], nn) && es[e].to == v && layer@[v]
                        == #[trigger] layer@[es[e].from as int] + 1 by {
                let e = choose|e: int|
                    0 <= e < m && resolved(es[e], nn) && es[e].to == v && pos[es[e].from as int] < k
                        && layer@[v] == #[trigger] layer@[es[e].from as int] + 1;
            }
        }
    }
    layer
}

/// Successor lists (targets in edge order) and in-degrees of the resolved edges.
pub(crate) fn build_adjacency(node_count: usize, edges: &Vec<EdgeEnds>) -> (r: (Vec<Vec<usize>>, Vec<usize>))
    ensures
        r.0@.len() == node_count,
        r.1@.len() == node_count,
        forall|u: int| 0 <= u < node_count ==> (#[trigger] r.0@[u])@ == targets(edges@, node_count as nat, u),
        forall|v: int|
            0 <= v < node_count ==> #[trigger] r.1@[v] == in_count(
                edges@,
                node_count as nat,
                v,
                none_done(node_count as nat),
                edges@.len() as int,
            ),
{
    let n = node_count;
    let ghost nn = n as nat;
    let ghost es = edges@;
    let mut adj: Vec<Vec<usize>> = Vec::new();
    let mut in_degree: Vec<usize> = Vec::new();
    let mut i: usize = 0;
    while i < n
        invariant
            i <= n,
            adj@.len() == i,
            in_degree@.len() == i,
            forall|u: int| 0 <= u < i ==> (#[trigger] adj@[u])@.len() == 0,
            forall|u: int| 0 <= u < i ==> #[trigger] in_degree@[u] == 0,
        decreases n - i,
    {
        adj.push(Vec::new());
        in_degree.push(0);
        i = i + 1;
    }
    let m = edges.len();
    let mut ei: usize = 0;
    while ei < m
        invariant
            nn == n as nat,
            m == es.len(),
            es == edges@,
            ei <= m,
            adj@.len() == n,
            in_degree@.len() == n,
            forall|u: int| 0 <= u < n ==> (#[trigger] adj@[u])@ == targets_upto(es, nn, u, ei as int),
            forall|v: int|
                0 <= v < n ==> #[trigger] in_degree@[v] == in_count(es, nn, v, none_done(nn), ei as int),
        decreases m - ei,
    {
        let edge = edges[ei];
        proof {
            assert forall|u: int| 0 <= u < n implies #[trigger] targets_upto(es, nn, u, ei + 1) == if resolved(
                es[ei as int],
                nn,
            ) && es[ei as int].from == u {
                targets_upto(es, nn, u, ei as int).push(es[ei as int].to)
            } else {
                targets_upto(es, nn, u, ei as int)
            } by {
                lemma_targets_upto_step(es, nn, u, ei + 1);
            }
            assert forall|v: int| 0 <= v < n implies #[trigger] in_count(es, nn, v, none_done(nn), ei as int)
                <= ei by {
                lemma_in_count_bound(es, nn, v, none_done(nn), ei as int);
            }
        }
        if edge.from < n && edge.to < n {
            let ghost before = adj@;
            adj[edge.from].push(edge.to);
            let d = in_degree[edge.to];
            in_degree.set(edge.to, d + 1);
            assert forall|u: int| 0 <= u < n implies (#[trigger] adj@[u])@ == targets_upto(
                es,
                nn,
                u,
                ei + 1,
            ) by {
                if u != edge.from as int {
                    assert(adj@[u] == before[u]);
                }
            }
        }
        ei = ei + 1;
    }
    (adj, in_degree)
}

/// The nodes below `i` missing from `q`, in node order.
pub open spec fn missing_upto(q: Seq<usize>, i: int) -> Seq<usize>
    decreases i,
{
    if i <= 0 {
        seq![]
    } else if q.contains((i - 1) as usize) {
        missing_upto(q, i - 1)
    } else {
        missing_upto(q, i - 1).push((i - 1) as usize)
    }
}

/// The order in which nodes push their targets down: Kahn's queue, then,
/// when a cycle kept nodes out of it, those nodes in node order.
pub open spec fn layer_order(n: nat, edges: Seq<EdgeEnds>) -> Seq<usize> {
    let q = kahn_queue(n, edges);
    if q.len() < n {
        q + missing_upto(q, n as int)
    } else {
        q
    }
}

/// The layers `assign_layers` gives: every node on layer 0, then each node
/// of `layer_order` in turn pushing its targets at least one layer below
/// itself.
pub open spec fn spec_layers(n: nat, edges: Seq<EdgeEnds>) -> Seq<usize> {
    relax_upto(n, edges, layer_order(n, edges), layer_order(n, edges).len() as int)
}

proof fn lemma_missing_below(q: Seq<usize>, i: int)
    requires
        0 <= i <= usize::MAX + 1,
    ensures
        forall|k: int| 0 <= k < missing_upto(q, i).len() ==> (#[trigger] missing_upto(q, i)[k] as int) < i,
    decreases i,
{
    if i > 0 {
        lemma_missing_below(q, i - 1);
        let prev = missing_upto(q, i - 1);
        assert forall|k: int| 0 <= k < missing_upto(q, i).len() implies (#[trigger] missing_upto(q, i)[k] as int)
            < i by {
            if k < prev.len() {
                assert(missing_upto(q, i)[k] == prev[k]);
            }
        }
    }
}

/// Assign layers by longest path: a topological order is computed with
/// Kahn's algorithm (sources in node order, successors in edge order); nodes
/// left out by a remaining cycle are appended in node order; then each node,
/// in that order, pushes its successors at least one layer below itself.
/// Edges with an endpoint outside the graph are ignored.
///
/// On a graph without cycles, self-loops included, the result is the
/// longest-path layering.
pub fn assign_layers(node_count: usize, edges: &Vec<EdgeEnds>) -> (layers: Vec<usize>)
    ensures
        layers@ == spec_layers(node_count as nat, edges@),
        layers@.len() == node_count,
        has_topological_ranking(node_count as nat, edges@) && no_self_loops(node_count as nat, edges@)
            ==> is_longest_path_layering(node_count as nat, edges@, layers@),
{
    let n = node_count;
    let ghost nn = n as nat;
    let ghost es = edges@;
    let (adj, in_degree) = build_adjacency(n, edges);
    let mut order = kahn_order(n, edges, &adj, in_degree);
    let ghost kq = order@;
    // nodes that a remaining cycle kept out, in node order
    if order.len() < n {
        let mut i: usize = 0;
        while i < n
            invariant
                i <= n,
                order@.no_duplicates(),
                forall|k: int| 0 <= k < order@.len() ==> (#[trigger] order@[k] as int) < n,
                (forall|x: int| 0 <= x < n ==> #[trigger] kq.contains(x as usize)) ==> order@ == kq,
                order@ == kq + missing_upto(kq, i as int),
            decreases n - i,
        {
            proof {
                lemma_missing_below(kq, i as int);
                if order@.contains(i) {
                    let k = choose|k: int| 0 <= k < order@.len() && order@[k] == i;
                    if k >= kq.len() {
                        assert(missing_upto(kq, i as int)[k - kq.len()] == i);
                    }
                    assert(kq.contains(i));
                }
                if kq.contains(i) {
                    let k = choose|k: int| 0 <= k < kq.len() && kq[k] == i;
                    assert(order@[k] == i);
                }
            }
            let ghost prev = order@;
            if !vec_contains(&order, i) {
                proof {
                    if forall|x: int| 0 <= x < n ==> #[trigger] kq.contains(x as usize) {
                        let x = i as int;
                        assert(kq.contains(x as usize));
                        assert(false);
                    }
                }
                let ghost before = order@;
                order.push(i);
                proof {
                    assert forall|a: int, b: int|
                        0 <= a < order@.len() && 0 <= b < order@.len() && a != b implies order@[a]
                        != order@[b] by {
                        if a < before.len() && b < before.len() {
                            assert(before[a] != before[b]);
                        } else if a < before.len() {
                            assert(before.contains(before[a]));
                        } else if b < before.len() {
                            assert(before.contains(before[b]));
                        }
                    }
                    assert forall|k: int| 0 <= k < order@.len() implies (#[trigger] order@[k] as int) < n by {
                        if k < before.len() {
                            assert(before[k] == order@[k]);
                        }
                    }
                }
            }
            proof {
                assert(order@ =~= kq + missing_upto(kq, i + 1));
            }
            i = i + 1;
        }
    }
    proof {
        if has_topological_ranking(nn, es) && no_self_loops(nn, es) {
            assert(order@ == kq);
            assert(is_topological_order(nn, es, order@));
        }
        assert(order@ == layer_order(nn, es));
    }
    relax_layers(n, edges, &adj, &order)
}


/// Law: on a graph without self-loops, the graph that cycle breaking leaves
/// has no cycle and no self-loop, so that layer assignment on it returns the
/// longest-path layering (see the contract of `assign_layers`).
pub proof fn lemma_layers_after_breaking_cycles(n: nat, edges: Seq<EdgeEnds>)
    requires
        edges.len() <= usize::MAX,
        no_self_loops(n, edges),
    ensures
        has_topological_ranking(n, reverse_listed(edges, back_edges(n, edges))),
        no_self_loops(n, reverse_listed(edges, back_edges(n, edges))),
{
    lemma_break_cycles_leaves_no_cycle(n, edges);
    let out = reverse_listed(edges, back_edges(n, edges));
    assert forall|e: int|
        #![trigger out[e]]
        0 <= e < out.len() && resolved(out[e], n) implies out[e].from != out[e].to by {
        assert(resolved(edges[e], n));
    }
}

} // verus!
