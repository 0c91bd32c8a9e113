//! Class diagram placement: choosing the placed neighbour a new node is put
//! next to.
use vstd::prelude::*;

verus! {

/// Node `v` is one of the nodes and has been placed.
pub open spec fn is_placed(placed: Seq<bool>, v: usize) -> bool {
    (v as int) < placed.len() && placed[v as int]
}

/// Placed nodes among the first `k` entries of `list`.
pub open spec fn placed_count(list: Seq<usize>, placed: Seq<bool>, k: int) -> nat
    decreases k,
{
    if k <= 0 {
        0
    } else {
        placed_count(list, placed, k - 1) + if is_placed(placed, list[k - 1]) {
            1nat
        } else {
            0nat
        }
    }
}

/// How many of `v`'s neighbours are placed (0 for a node without an
/// adjacency list).
pub open spec fn placed_degree(adj: Seq<Vec<usize>>, placed: Seq<bool>, v: usize) -> nat {
    if (v as int) < adj.len() {
        placed_count(adj[v as int]@, placed, adj[v as int]@.len() as int)
    } else {
        0
    }
}

/// Among the placed entries of `list[0..k)`, the last one with the most
/// placed neighbours.
pub open spec fn best_placed_upto(adj: Seq<Vec<usize>>, placed: Seq<bool>, list: Seq<usize>, k: int) -> Option<
    usize,
>
    decreases k,
{
    if k <= 0 {
        None
    } else {
        let prev = best_placed_upto(adj, placed, list, k - 1);
        let v = list[k - 1];
        if !is_placed(placed, v) {
            prev
        } else {
            match prev {
                None => Some(v),
                Some(b) => if placed_degree(adj, placed, v) >= placed_degree(adj, placed, b) {
                    Some(v)
                } else {
                    Some(b)
                },
            }
        }
    }
}

proof fn lemma_placed_count_is_filter(list: Seq<usize>, placed: Seq<bool>, k: int)
    requires
        0 <= k <= list.len(),
    ensures
        placed_count(list, placed, k) == list.take(k).filter(
            |x: usize| (x as int) < placed.len() && placed[x as int],
        ).len(),
    decreases k,
{
    reveal(Seq::filter);
    let pred = |x: usize| (x as int) < placed.len() && placed[x as int];
    if k == 0 {
        assert(list.take(0) =~= Seq::<usize>::empty());
    } else {
        lemma_placed_count_is_filter(list, placed, k - 1);
        assert(list.take(k).drop_last() =~= list.take(k - 1));
        assert(list.take(k).last() == list[k - 1]);
    }
}

/// Law: a node's placed degree is the number of entries of its adjacency
/// list that are placed nodes (0 for a node without a list).
pub proof fn lemma_placed_degree_counts_placed_neighbours(adj: Seq<Vec<usize>>, placed: Seq<bool>, v: usize)
    ensures
        (v as int) < adj.len() ==> placed_degree(adj, placed, v) == adj[v as int]@.filter(
            |x: usize| (x as int) < placed.len() && placed[x as int],
        ).len(),
        (v as int) >= adj.len() ==> placed_degree(adj, placed, v) == 0,
{
    if (v as int) < adj.len() {
        let l = adj[v as int]@;
        lemma_placed_count_is_filter(l, placed, l.len() as int);
        assert(l.take(l.len() as int) =~= l);
    }
}

proof fn lemma_best_placed_upto_is_best(adj: Seq<Vec<usize>>, placed: Seq<bool>, list: Seq<usize>, k: int)
    requires
        0 <= k <= list.len(),
    ensures
        best_placed_upto(adj, placed, list, k) is None <==> forall|i: int|
            0 <= i < k ==> !is_placed(placed, #[trigger] list[i]),
        best_placed_upto(adj, placed, list, k) matches Some(b) ==> {
            &&& is_placed(placed, b)
            &&& exists|j: int|
                0 <= j < k && list[j] == b && forall|i: int|
                    j < i < k && is_placed(placed, #[trigger] list[i]) ==> placed_degree(adj, placed, list[i])
                        < placed_degree(adj, placed, b)
            &&& forall|i: int|
                0 <= i < k && is_placed(placed, #[trigger] list[i]) ==> placed_degree(adj, placed, list[i])
                    <= placed_degree(adj, placed, b)
        },
    decreases k,
{
    if k > 0 {
        lemma_best_placed_upto_is_best(adj, placed, list, k - 1);
        let prev = best_placed_upto(adj, placed, list, k - 1);
        let v = list[k - 1];
        if is_placed(placed, v) {
            match prev {
                None => {
                    assert(list[k - 1] == v);
                },
                Some(b) => {
                    let j = choose|j: int|
                        0 <= j < k - 1 && list[j] == b && forall|i: int|
                            j < i < k - 1 && is_placed(placed, #[trigger] list[i]) ==> placed_degree(
                                adj,
                                placed,
                                list[i],
                            ) < placed_degree(adj, placed, b);
                    if placed_degree(adj, placed, v) >= placed_degree(adj, placed, b) {
                        assert(list[k - 1] == v);
                    } else {
                        assert(list[j] == b);
                    }
                },
            }
        } else {
            if let Some(b) = prev {
                let j = choose|j: int|
                    0 <= j < k - 1 && list[j] == b && forall|i: int|
                        j < i < k - 1 && is_placed(placed, #[trigger] list[i]) ==> placed_degree(
                            adj,
                            placed,
                            list[i],
                        ) < placed_degree(adj, placed, b);
                assert(list[j] == b);
            }
        }
    }
}

/// Law: the neighbour a node is placed next to is one of its placed
/// neighbours with the most placed neighbours of its own, the last such in
/// adjacency order; there is none exactly when no neighbour is placed (or
/// the node has no adjacency list).
pub proof fn lemma_most_connected_placed_neighbour(node: usize, adj: Seq<Vec<usize>>, placed: Seq<bool>)
    requires
        (node as int) < adj.len(),
    ensures
        ({
            let list = adj[node as int]@;
            let r = best_placed_upto(adj, placed, list, list.len() as int);
            &&& r is None <==> forall|i: int|
                0 <= i < list.len() ==> !((#[trigger] list[i] as int) < placed.len() && placed[list[i] as int])
            &&& r matches Some(b) ==> {
                &&& (b as int) < placed.len() && placed[b as int]
                &&& exists|j: int|
                    0 <= j < list.len() && list[j] == b && forall|i: int|
                        j < i < list.len() && (#[trigger] list[i] as int) < placed.len() && placed[list[i] as int]
                            ==> placed_degree(adj, placed, list[i]) < placed_degree(adj, placed, b)
                &&& forall|i: int|
                    0 <= i < list.len() && (#[trigger] list[i] as int) < placed.len() && placed[list[i] as int]
                        ==> placed_degree(adj, placed, list[i]) <= placed_degree(adj, placed, b)
            }
        }),
{
    let list = adj[node as int]@;
    lemma_best_placed_upto_is_best(adj, placed, list, list.len() as int);
}

/// Number of placed nodes in `list`.
fn count_placed(list: &Vec<usize>, placed: &Vec<bool>) -> (c: usize)
    ensures
        c == placed_count(list@, placed@, list@.len() as int),
{
    let mut c: usize = 0;
    let mut i: usize = 0;
    while i < list.len()
        invariant
            i <= list.len(),
            c == placed_count(list@, placed@, i as int),
            c <= i,
        decreases list.len() - i,
    {
        let v = list[i];
        if v < placed.len() && placed[v] {
            c = c + 1;
        }
        i = i + 1;
    }
    c
}

fn placed_degree_of(adj: &Vec<Vec<usize>>, placed: &Vec<bool>, v: usize) -> (d: usize)
    ensures
        d == placed_degree(adj@, placed@, v),
{
    if v < adj.len() {
        count_placed(&adj[v], placed)
    } else {
        0
    }
}

/// The neighbour of `node` to place it next to: among its neighbours that
/// are already placed, the one with the most placed neighbours of its own,
/// the last such in adjacency order on a tie; `None` when `node` has no
/// adjacency list or no placed neighbour.
pub fn find_most_connected_placed_neighbour(node: usize, adj: &Vec<Vec<usize>>, placed: &Vec<bool>) -> (r:
    Option<usize>)
    ensures
        r == (if (node as int) < adj@.len() {
            best_placed_upto(adj@, placed@, adj@[node as int]@, adj@[node as int]@.len() as int)
        } else {
            None
        }),
{
    if node >= adj.len() {
        return None;
    }
    let list = &adj[node];
    let mut best: Option<usize> = None;
    let mut best_score: usize = 0;
    let mut i: usize = 0;
    while i < list.len()
        invariant
            node < adj@.len(),
            *list == adj@[node as int],
            i <= list.len(),
            best == best_placed_upto(adj@, placed@, list@, i as int),
            best matches Some(b) ==> best_score == placed_degree(adj@, placed@, b),
        decreases list.len() - i,
    {
        let v = list[i];
        if v < placed.len() && placed[v] {
            let s = placed_degree_of(adj, placed, v);
            match best {
                None => {
                    best = Some(v);
                    best_score = s;
                },
                Some(_) => {
                    if s >= best_score {
                        best = Some(v);
                        best_score = s;
                    }
                },
            }
        }
        i = i + 1;
    }
    best
}

} // verus!
