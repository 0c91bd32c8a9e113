//! Ordering within layers: barycentre sweeps that re-sort each layer by the
//! mean position of its neighbours in the adjacent layer.
//!
//! A barycentre is kept as the exact fraction `(sum, count)`; layers are
//! sorted stably, so nodes with equal keys keep their previous order.
use vstd::prelude::*;

use crate::placement::sugiyama::{resolved, EdgeEnds};

verus! {

/// Rounds of sweeps before the ordering stops even if it still moves.
pub const MAX_BARYCENTER_ITERATIONS: usize = 20;

/// Bound on node and edge counts under which the fractions are compared
/// exactly in 128-bit arithmetic.
pub open spec fn count_bound() -> int {
    0xFFFF_FFFF
}

/// An edge that links `x` to layer `nb` for a sweep: top-down (`down`), an
/// edge into `x` from a node of layer `nb`; bottom-up, an edge out of `x`
/// into a node of layer `nb`.
pub open spec fn links(e: EdgeEnds, n: nat, layers: Seq<usize>, x: int, nb: int, down: bool) -> bool {
    &&& resolved(e, n)
    &&& if down {
        e.to == x && layers[e.from as int] == nb
    } else {
        e.from == x && layers[e.to as int] == nb
    }
}

/// The other end of a linking edge.
pub open spec fn far_end(e: EdgeEnds, down: bool) -> int {
    if down {
        e.from as int
    } else {
        e.to as int
    }
}

/// Sum of the positions of the neighbours that the first `m` edges link to `x`.
pub open spec fn nb_sum(
    n: nat,
    edges: Seq<EdgeEnds>,
    layers: Seq<usize>,
    pos: Seq<usize>,
    x: int,
    nb: int,
    down: bool,
    m: int,
) -> int
    decreases m,
{
    if m <= 0 {
        0
    } else {
        nb_sum(n, edges, layers, pos, x, nb, down, m - 1) + if links(edges[m - 1], n, layers, x, nb, down) {
            pos[far_end(edges[m - 1], down)] as int
        } else {
            0
        }
    }
}

/// Number of neighbours that the first `m` edges link to `x` (an edge
/// listed twice counts twice).
pub open spec fn nb_count(n: nat, edges: Seq<EdgeEnds>, layers: Seq<usize>, x: int, nb: int, down: bool, m: int) -> int
    decreases m,
{
    if m <= 0 {
        0
    } else {
        nb_count(n, edges, layers, x, nb, down, m - 1) + if links(edges[m - 1], n, layers, x, nb, down) {
            1int
        } else {
            0
        }
    }
}

/// The layer a sweep looks at when it re-sorts layer `l`.
pub open spec fn adjacent_layer(l: int, down: bool) -> int {
    if down {
        l - 1
    } else {
        l + 1
    }
}

/// The sort key of `x` when layer `l` is re-sorted: the barycentre of its
/// neighbours in the adjacent layer as a fraction `(sum, count)`, or its
/// current position when it has none there.
pub open spec fn sort_key(
    n: nat,
    edges: Seq<EdgeEnds>,
    layers: Seq<usize>,
    pos: Seq<usize>,
    x: int,
    l: int,
    down: bool,
) -> (int, int) {
    let nb = adjacent_layer(l, down);
    let c = nb_count(n, edges, layers, x, nb, down, edges.len() as int);
    if c > 0 {
        (nb_sum(n, edges, layers, pos, x, nb, down, edges.len() as int), c)
    } else {
        (pos[x] as int, 1)
    }
}

/// A node with key `ky` at position `py` goes before one with key `kx` at
/// position `px`: a smaller key, or an equal key and an earlier position.
pub open spec fn goes_before(ky: (int, int), py: int, kx: (int, int), px: int) -> bool {
    ||| ky.0 * kx.1 < kx.0 * ky.1
    ||| (ky.0 * kx.1 == kx.0 * ky.1 && py < px)
}

/// Nodes among the first `k` that are in layer `l` and go before `x`.
pub open spec fn rank_upto(
    n: nat,
    edges: Seq<EdgeEnds>,
    layers: Seq<usize>,
    pos: Seq<usize>,
    x: int,
    l: int,
    down: bool,
    k: int,
) -> int
    decreases k,
{
    if k <= 0 {
        0
    } else {
        rank_upto(n, edges, layers, pos, x, l, down, k - 1) + if layers[k - 1] == l && goes_before(
            sort_key(n, edges, layers, pos, k - 1, l, down),
            pos[k - 1] as int,
            sort_key(n, edges, layers, pos, x, l, down),
            pos[x] as int,
        ) {
            1int
        } else {
            0
        }
    }
}

/// Positions after layer `l` is re-sorted stably by key: a node of the
/// layer moves to the number of layer nodes that go before it.
pub open spec fn resort(n: nat, edges: Seq<EdgeEnds>, layers: Seq<usize>, pos: Seq<usize>, l: int, down: bool) -> Seq<
    usize,
> {
    Seq::new(
        n,
        |x: int|
            if layers[x] == l {
                rank_upto(n, edges, layers, pos, x, l, down, n as int) as usize
            } else {
                pos[x]
            },
    )
}

/// A key `k` differs from the new position `r` by more than a thousandth.
pub open spec fn moved(k: (int, int), r: int) -> bool {
    let d = k.0 - r * k.1;
    1000 * (if d < 0 {
        -d
    } else {
        d
    }) > k.1
}

/// Some node among the first `k` of layer `l` moves in a top-down re-sort.
pub open spec fn moved_upto(n: nat, edges: Seq<EdgeEnds>, layers: Seq<usize>, pos: Seq<usize>, l: int, k: int) -> bool
    decreases k,
{
    if k <= 0 {
        false
    } else {
        moved_upto(n, edges, layers, pos, l, k - 1) || (layers[k - 1] == l && moved(
            sort_key(n, edges, layers, pos, k - 1, l, true),
            rank_upto(n, edges, layers, pos, k - 1, l, true, n as int),
        ))
    }
}

/// The top-down sweep over layers `1..=l`: each is re-sorted by the
/// barycentres of its predecessors; the flag tells whether any node moved.
pub open spec fn down_sweep(n: nat, edges: Seq<EdgeEnds>, layers: Seq<usize>, pos: Seq<usize>, l: int) -> (Seq<
    usize,
>, bool)
    decreases l,
{
    if l <= 0 {
        (pos, false)
    } else {
        let (p, moved_before) = down_sweep(n, edges, layers, pos, l - 1);
        (resort(n, edges, layers, p, l, true), moved_before || moved_upto(n, edges, layers, p, l, n as int))
    }
}

/// The bottom-up sweep over layers `top - 1` down to `top - k`: each is
/// re-sorted by the barycentres of its successors.
pub open spec fn up_sweep(n: nat, edges: Seq<EdgeEnds>, layers: Seq<usize>, pos: Seq<usize>, top: int, k: int) -> Seq<
    usize,
>
    decreases k,
{
    if k <= 0 {
        pos
    } else {
        resort(n, edges, layers, up_sweep(n, edges, layers, pos, top, k - 1), top - k, false)
    }
}

/// Up to `r` rounds of a top-down then a bottom-up sweep, stopping after
/// the first round in which the top-down sweep moved nothing.
pub open spec fn sweeps(n: nat, edges: Seq<EdgeEnds>, layers: Seq<usize>, pos: Seq<usize>, top: int, r: int) -> Seq<
    usize,
>
    decreases r,
{
    if r <= 0 {
        pos
    } else {
        let (p, any_moved) = down_sweep(n, edges, layers, pos, top);
        let q = up_sweep(n, edges, layers, p, top, top);
        if any_moved {
            sweeps(n, edges, layers, q, top, r - 1)
        } else {
            q
        }
    }
}

/// Nodes among the first `k` in layer `l`.
pub open spec fn in_layer_upto(layers: Seq<usize>, l: int, k: int) -> int
    decreases k,
{
    if k <= 0 {
        0
    } else {
        in_layer_upto(layers, l, k - 1) + if layers[k - 1] == l {
            1int
        } else {
            0
        }
    }
}

/// The starting positions: each node's place among the nodes of its layer,
/// in node order.
pub open spec fn initial_positions(n: nat, layers: Seq<usize>) -> Seq<usize> {
    Seq::new(n, |x: int| in_layer_upto(layers, layers[x] as int, x) as usize)
}

/// The highest layer among the first `k` nodes (0 when there are none).
pub open spec fn top_layer(layers: Seq<usize>, k: int) -> int
    decreases k,
{
    if k <= 0 {
        0
    } else {
        let t = top_layer(layers, k - 1);
        if layers[k - 1] as int > t {
            layers[k - 1] as int
        } else {
            t
        }
    }
}

/// The positions `order_within_layers` gives.
pub open spec fn barycenter_order(n: nat, edges: Seq<EdgeEnds>, layers: Seq<usize>) -> Seq<usize> {
    sweeps(
        n,
        edges,
        layers,
        initial_positions(n, layers),
        top_layer(layers, n as int),
        MAX_BARYCENTER_ITERATIONS as int,
    )
}

// ─── bounds ─────────────────────────────────────────────────────────────────

/// Well-formed input for the sweeps over `n` nodes.
pub open spec fn sweep_input(n: nat, edges: Seq<EdgeEnds>, layers: Seq<usize>, pos: Seq<usize>) -> bool {
    &&& n <= count_bound()
    &&& edges.len() <= count_bound()
    &&& layers.len() == n
    &&& pos.len() == n
    &&& forall|i: int| 0 <= i < n ==> #[trigger] pos[i] <= n
}

proof fn lemma_nb_bounds(
    n: nat,
    edges: Seq<EdgeEnds>,
    layers: Seq<usize>,
    pos: Seq<usize>,
    x: int,
    nb: int,
    down: bool,
    m: int,
)
    requires
        sweep_input(n, edges, layers, pos),
        0 <= m <= edges.len(),
    ensures
        0 <= nb_sum(n, edges, layers, pos, x, nb, down, m) <= m * n,
        0 <= nb_count(n, edges, layers, x, nb, down, m) <= m,
    decreases m,
{
    if m > 0 {
        lemma_nb_bounds(n, edges, layers, pos, x, nb, down, m - 1);
        let e = edges[m - 1];
        if links(e, n, layers, x, nb, down) {
            let f = far_end(e, down);
            assert(0 <= f < n);
            assert(pos[f] <= n);
        }
        assert((m - 1) * n + n == m * n) by (nonlinear_arith);
    }
}

proof fn lemma_key_bounds(
    n: nat,
    edges: Seq<EdgeEnds>,
    layers: Seq<usize>,
    pos: Seq<usize>,
    x: int,
    l: int,
    down: bool,
)
    requires
        sweep_input(n, edges, layers, pos),
        0 <= x < n,
    ensures
        ({
            let k = sort_key(n, edges, layers, pos, x, l, down);
            &&& 0 <= k.0 < 0x1_0000_0000_0000_0000
            &&& 1 <= k.1 <= 0x1_0000_0000
        }),
{
    let m = edges.len() as int;
    let nb = adjacent_layer(l, down);
    lemma_nb_bounds(n, edges, layers, pos, x, nb, down, m);
    assert(m * n <= 0xFFFF_FFFF * 0xFFFF_FFFF) by (nonlinear_arith)
        requires
            0 <= m <= 0xFFFF_FFFF,
            0 <= n <= 0xFFFF_FFFF,
    ;
}

proof fn lemma_rank_bound(
    n: nat,
    edges: Seq<EdgeEnds>,
    layers: Seq<usize>,
    pos: Seq<usize>,
    x: int,
    l: int,
    down: bool,
    k: int,
)
    requires
        0 <= k,
    ensures
        0 <= rank_upto(n, edges, layers, pos, x, l, down, k) <= k,
    decreases k,
{
    if k > 0 {
        lemma_rank_bound(n, edges, layers, pos, x, l, down, k - 1);
    }
}

proof fn lemma_in_layer_bound(layers: Seq<usize>, l: int, k: int)
    requires
        0 <= k,
    ensures
        0 <= in_layer_upto(layers, l, k) <= k,
    decreases k,
{
    if k > 0 {
        lemma_in_layer_bound(layers, l, k - 1);
    }
}

proof fn lemma_top_layer(layers: Seq<usize>, k: int)
    requires
        0 <= k <= layers.len(),
    ensures
        0 <= top_layer(layers, k),
        forall|i: int| 0 <= i < k ==> layers[i] <= top_layer(layers, k),
        top_layer(layers, k) == 0 || exists|i: int| 0 <= i < k && layers[i] == top_layer(layers, k),
    decreases k,
{
    if k > 0 {
        lemma_top_layer(layers, k - 1);
        if layers[k - 1] as int > top_layer(layers, k - 1) {
            assert(layers[k - 1] == top_layer(layers, k));
        }
    }
}

// ─── executable sweeps ──────────────────────────────────────────────────────

/// The sort key of `x` when layer `l` is re-sorted (see `sort_key`).
fn key_of(
    n: usize,
    edges: &Vec<EdgeEnds>,
    layers: &Vec<usize>,
    pos: &Vec<usize>,
    x: usize,
    l: usize,
    down: bool,
) -> (k: (u128, u128))
    requires
        sweep_input(n as nat, edges@, layers@, pos@),
        x < n,
        down ==> l >= 1,
        l < usize::MAX,
    ensures
        k.0 as int == sort_key(n as nat, edges@, layers@, pos@, x as int, l as int, down).0,
        k.1 as int == sort_key(n as nat, edges@, layers@, pos@, x as int, l as int, down).1,
        k.0 < 0x1_0000_0000_0000_0000,
        1 <= k.1 <= 0x1_0000_0000,
{
    let ghost nb = adjacent_layer(l as int, down);
    let mut sum: u128 = 0;
    let mut count: u128 = 0;
    let mut e: usize = 0;
    while e < edges.len()
        invariant
            sweep_input(n as nat, edges@, layers@, pos@),
            x < n,
            down ==> l >= 1,
            l < usize::MAX,
            nb == adjacent_layer(l as int, down),
            e <= edges.len(),
            sum as int == nb_sum(n as nat, edges@, layers@, pos@, x as int, nb, down, e as int),
            count as int == nb_count(n as nat, edges@, layers@, x as int, nb, down, e as int),
        decreases edges.len() - e,
    {
        proof {
            lemma_nb_bounds(n as nat, edges@, layers@, pos@, x as int, nb, down, e as int);
            assert(e * n <= 0xFFFF_FFFF * 0xFFFF_FFFF) by (nonlinear_arith)
                requires
                    0 <= e <= 0xFFFF_FFFF,
                    0 <= n <= 0xFFFF_FFFF,
            ;
        }
        let ed = edges[e];
        if ed.from < n && ed.to < n {
            if down {
                if ed.to == x && layers[ed.from] == l - 1 {
                    sum = sum + pos[ed.from] as u128;
                    count = count + 1;
                }
            } else {
                if ed.from == x && layers[ed.to] == l + 1 {
                    sum = sum + pos[ed.to] as u128;
                    count = count + 1;
                }
            }
        }
        e = e + 1;
    }
    proof {
        lemma_key_bounds(n as nat, edges@, layers@, pos@, x as int, l as int, down);
    }
    if count > 0 {
        (sum, count)
    } else {
        (pos[x] as u128, 1)
    }
}

/// Whether a node with key `ky` at `py` goes before one with key `kx` at `px`.
fn before(ky: (u128, u128), py: usize, kx: (u128, u128), px: usize) -> (b: bool)
    requires
        ky.0 < 0x1_0000_0000_0000_0000,
        kx.0 < 0x1_0000_0000_0000_0000,
        ky.1 <= 0x1_0000_0000,
        kx.1 <= 0x1_0000_0000,
    ensures
        b == goes_before((ky.0 as int, ky.1 as int), py as int, (kx.0 as int, kx.1 as int), px as int),
{
    assert(ky.0 * kx.1 <= 0x1_0000_0000_0000_0000 * 0x1_0000_0000) by (nonlinear_arith)
        requires
            ky.0 < 0x1_0000_0000_0000_0000,
            kx.1 <= 0x1_0000_0000,
    ;
    assert(kx.0 * ky.1 <= 0x1_0000_0000_0000_0000 * 0x1_0000_0000) by (nonlinear_arith)
        requires
            kx.0 < 0x1_0000_0000_0000_0000,
            ky.1 <= 0x1_0000_0000,
    ;
    let a = ky.0 * kx.1;
    let b = kx.0 * ky.1;
    a < b || (a == b && py < px)
}

/// Whether key `k` differs from the new position `r` by more than a thousandth.
fn far_moved(k: (u128, u128), r: usize) -> (b: bool)
    requires
        k.0 < 0x1_0000_0000_0000_0000,
        k.1 <= 0x1_0000_0000,
        r <= 0xFFFF_FFFF,
    ensures
        b == moved((k.0 as int, k.1 as int), r as int),
{
    assert(r * k.1 <= 0xFFFF_FFFF * 0x1_0000_0000) by (nonlinear_arith)
        requires
            r <= 0xFFFF_FFFF,
            k.1 <= 0x1_0000_0000,
    ;
    let target = r as u128 * k.1;
    let d = if k.0 >= target {
        k.0 - target
    } else {
        target - k.0
    };
    1000 * d > k.1
}

/// Re-sort layer `l` (see `resort`), and tell whether a node of the layer
/// moved by more than a thousandth from its key.
fn resort_layer(
    n: usize,
    edges: &Vec<EdgeEnds>,
    layers: &Vec<usize>,
    pos: &Vec<usize>,
    l: usize,
    down: bool,
) -> (r: (Vec<usize>, bool))
    requires
        sweep_input(n as nat, edges@, layers@, pos@),
        down ==> l >= 1,
        l < usize::MAX,
    ensures
        r.0@ == resort(n as nat, edges@, layers@, pos@, l as int, down),
        down ==> r.1 == moved_upto(n as nat, edges@, layers@, pos@, l as int, n as int),
        sweep_input(n as nat, edges@, layers@, r.0@),
{
    let mut keys: Vec<(u128, u128)> = Vec::new();
    let mut x: usize = 0;
    while x < n
        invariant
            sweep_input(n as nat, edges@, layers@, pos@),
            down ==> l >= 1,
            l < usize::MAX,
            x <= n,
            keys@.len() == x,
            forall|y: int|
                0 <= y < x ==> (#[trigger] keys@[y]).0 < 0x1_0000_0000_0000_0000 && keys@[y].1
                    <= 0x1_0000_0000,
            forall|y: int|
                0 <= y < x && layers@[y] == l ==> (#[trigger] keys@[y]).0 as int == sort_key(
                    n as nat,
                    edges@,
                    layers@,
                    pos@,
                    y,
                    l as int,
                    down,
                ).0 && keys@[y].1 as int == sort_key(n as nat, edges@, layers@, pos@, y, l as int, down).1,
        decreases n - x,
    {
        if layers[x] == l {
            let k = key_of(n, edges, layers, pos, x, l, down);
            keys.push(k);
        } else {
            keys.push((0, 1));
        }
        x = x + 1;
    }
    let ghost target = resort(n as nat, edges@, layers@, pos@, l as int, down);
    let mut out: Vec<usize> = Vec::new();
    let mut any_moved = false;
    let mut x: usize = 0;
    while x < n
        invariant
            sweep_input(n as nat, edges@, layers@, pos@),
            target == resort(n as nat, edges@, layers@, pos@, l as int, down),
            keys@.len() == n,
            forall|y: int|
                0 <= y < n ==> (#[trigger] keys@[y]).0 < 0x1_0000_0000_0000_0000 && keys@[y].1
                    <= 0x1_0000_0000,
            forall|y: int|
                0 <= y < n && layers@[y] == l ==> (#[trigger] keys@[y]).0 as int == sort_key(
                    n as nat,
                    edges@,
                    layers@,
                    pos@,
                    y,
                    l as int,
                    down,
                ).0 && keys@[y].1 as int == sort_key(n as nat, edges@, layers@, pos@, y, l as int, down).1,
            x <= n,
            out@.len() == x,
            forall|y: int| 0 <= y < x ==> #[trigger] out@[y] == target[y],
            forall|y: int| 0 <= y < x ==> #[trigger] out@[y] <= n,
            down ==> any_moved == moved_upto(n as nat, edges@, layers@, pos@, l as int, x as int),
        decreases n - x,
    {
        if layers[x] == l {
            let kx = keys[x];
            let mut r: usize = 0;
            let mut y: usize = 0;
            while y < n
                invariant
                    sweep_input(n as nat, edges@, layers@, pos@),
                    keys@.len() == n,
                    forall|z: int|
                        0 <= z < n ==> (#[trigger] keys@[z]).0 < 0x1_0000_0000_0000_0000
                            && keys@[z].1 <= 0x1_0000_0000,
                    forall|z: int|
                        0 <= z < n && layers@[z] == l ==> (#[trigger] keys@[z]).0 as int == sort_key(
                            n as nat,
                            edges@,
                            layers@,
                            pos@,
                            z,
                            l as int,
                            down,
                        ).0 && keys@[z].1 as int == sort_key(
                            n as nat,
                            edges@,
                            layers@,
                            pos@,
                            z,
                            l as int,
                            down,
                        ).1,
                    x < n,
                    layers@[x as int] == l,
                    kx == keys@[x as int],
                    y <= n,
                    r as int == rank_upto(n as nat, edges@, layers@, pos@, x as int, l as int, down, y as int),
                    r <= y,
                decreases n - y,
            {
                if layers[y] == l && before(keys[y], pos[y], kx, pos[x]) {
                    r = r + 1;
                }
                y = y + 1;
            }
            if down && far_moved(kx, r) {
                any_moved = true;
            }
            out.push(r);
        } else {
            out.push(pos[x]);
        }
        x = x + 1;
    }
    proof {
        assert(out@ =~= target);
    }
    (out, any_moved)
}

/// The top-down sweep over layers `1..=top` (see `down_sweep`).
fn sweep_down(n: usize, edges: &Vec<EdgeEnds>, layers: &Vec<usize>, pos: Vec<usize>, top: usize) -> (r: (
    Vec<usize>,
    bool,
))
    requires
        sweep_input(n as nat, edges@, layers@, pos@),
        top < usize::MAX,
    ensures
        (r.0@, r.1) == down_sweep(n as nat, edges@, layers@, pos@, top as int),
        sweep_input(n as nat, edges@, layers@, r.0@),
{
    let ghost start = pos@;
    let mut cur = pos;
    let mut any_moved = false;
    let mut l: usize = 1;
    while l <= top
        invariant
            sweep_input(n as nat, edges@, layers@, cur@),
            top < usize::MAX,
            1 <= l <= top + 1,
            (cur@, any_moved) == down_sweep(n as nat, edges@, layers@, start, l - 1),
        decreases top + 1 - l,
    {
        let (next, m) = resort_layer(n, edges, layers, &cur, l, true);
        any_moved = any_moved || m;
        cur = next;
        l = l + 1;
    }
    (cur, any_moved)
}

/// The bottom-up sweep over layers `top - 1` down to `0` (see `up_sweep`).
fn sweep_up(n: usize, edges: &Vec<EdgeEnds>, layers: &Vec<usize>, pos: Vec<usize>, top: usize) -> (r: Vec<
    usize,
>)
    requires
        sweep_input(n as nat, edges@, layers@, pos@),
        top < usize::MAX,
    ensures
        r@ == up_sweep(n as nat, edges@, layers@, pos@, top as int, top as int),
        sweep_input(n as nat, edges@, layers@, r@),
{
    let ghost start = pos@;
    let mut cur = pos;
    let mut k: usize = 0;
    while k < top
        invariant
            sweep_input(n as nat, edges@, layers@, cur@),
            top < usize::MAX,
            k <= top,
            cur@ == up_sweep(n as nat, edges@, layers@, start, top as int, k as int),
        decreases top - k,
    {
        let l = top - 1 - k;
        let (next, _) = resort_layer(n, edges, layers, &cur, l, false);
        cur = next;
        k = k + 1;
    }
    cur
}

/// Order the nodes within their layers by the barycentre heuristic.
///
/// Each node starts at its place among the nodes of its layer, in node
/// order. Then, for up to `MAX_BARYCENTER_ITERATIONS` rounds, a top-down
/// sweep re-sorts layers `1..=top` by the mean position of each node's
/// predecessors in the layer above, and a bottom-up sweep re-sorts layers
/// `top - 1` down to `0` by the mean position of its successors in the
/// layer below; a node with no such neighbour keeps its position as key,
/// and equal keys keep their order. The rounds stop after one whose
/// top-down sweep moved no node by more than a thousandth.
/// `positions[i]` is node `i`'s place within its layer; edges with an
/// endpoint outside the node list are ignored.
pub fn order_within_layers(node_count: usize, edges: &Vec<EdgeEnds>, layers: &Vec<usize>) -> (positions: Vec<
    usize,
>)
    requires
        layers.len() == node_count,
        node_count <= count_bound(),
        edges.len() <= count_bound(),
        forall|i: int| 0 <= i < node_count ==> #[trigger] layers@[i] < usize::MAX,
    ensures
        positions@ == barycenter_order(node_count as nat, edges@, layers@),
        positions@.len() == node_count,
{
    let n = node_count;
    let mut top: usize = 0;
    let mut i: usize = 0;
    while i < n
        invariant
            i <= n,
            layers.len() == n,
            top as int == top_layer(layers@, i as int),
        decreases n - i,
    {
        if layers[i] > top {
            top = layers[i];
        }
        i = i + 1;
    }
    proof {
        lemma_top_layer(layers@, n as int);
        if top != 0 {
            let w = choose|w: int| 0 <= w < n && layers@[w] == top_layer(layers@, n as int);
            assert(layers@[w] < usize::MAX);
        }
    }
    let mut pos: Vec<usize> = Vec::new();
    let mut x: usize = 0;
    while x < n
        invariant
            x <= n,
            layers.len() == n,
            pos@.len() == x,
            forall|y: int| 0 <= y < x ==> #[trigger] pos@[y] == initial_positions(n as nat, layers@)[y],
            forall|y: int| 0 <= y < x ==> #[trigger] pos@[y] <= n,
        decreases n - x,
    {
        let mut c: usize = 0;
        let mut y: usize = 0;
        while y < x
            invariant
                x < n,
                layers.len() == n,
                y <= x,
                c as int == in_layer_upto(layers@, layers@[x as int] as int, y as int),
                c <= y,
            decreases x - y,
        {
            if layers[y] == layers[x] {
                c = c + 1;
            }
            y = y + 1;
        }
        pos.push(c);
        x = x + 1;
    }
    let ghost init = initial_positions(n as nat, layers@);
    proof {
        assert(pos@ =~= init);
    }
    let ghost r0 = MAX_BARYCENTER_ITERATIONS as int;
    let mut it: usize = 0;
    while it < MAX_BARYCENTER_ITERATIONS
        invariant
            sweep_input(n as nat, edges@, layers@, pos@),
            top < usize::MAX,
            top as int == top_layer(layers@, n as int),
            it <= MAX_BARYCENTER_ITERATIONS,
            r0 == MAX_BARYCENTER_ITERATIONS as int,
            n == node_count,
            init == initial_positions(n as nat, layers@),
            sweeps(n as nat, edges@, layers@, init, top as int, r0) == sweeps(
                n as nat,
                edges@,
                layers@,
                pos@,
                top as int,
                r0 - it,
            ),
        decreases MAX_BARYCENTER_ITERATIONS - it,
    {
        let ghost before = pos@;
        let (p, any_moved) = sweep_down(n, edges, layers, pos, top);
        let q = sweep_up(n, edges, layers, p, top);
        proof {
            let ds = down_sweep(n as nat, edges@, layers@, before, top as int);
            assert(ds.0 == p@ && ds.1 == any_moved);
            assert(sweeps(n as nat, edges@, layers@, before, top as int, r0 - it) == (if any_moved {
                sweeps(n as nat, edges@, layers@, q@, top as int, r0 - it - 1)
            } else {
                q@
            }));
        }
        if !any_moved {
            return q;
        }
        pos = q;
        it = it + 1;
    }
    pos
}

// ─── positions stay a numbering of each layer ───────────────────────────────

/// Within every layer the positions are distinct and below the layer's size,
/// so the layer's nodes are numbered `0..size` without gaps.
pub open spec fn numbers_each_layer(n: nat, layers: Seq<usize>, pos: Seq<usize>) -> bool {
    &&& forall|x: int, y: int|
        0 <= x < n && 0 <= y < n && x != y && layers[x] == layers[y] ==> #[trigger] pos[x] != #[trigger] pos[y]
    &&& forall|x: int| 0 <= x < n ==> (#[trigger] pos[x] as int) < in_layer_upto(layers, layers[x] as int, n as int)
}

proof fn lemma_in_layer_mono(layers: Seq<usize>, l: int, i: int, j: int)
    requires
        0 <= i <= j,
    ensures
        in_layer_upto(layers, l, i) <= in_layer_upto(layers, l, j),
    decreases j - i,
{
    if i < j {
        lemma_in_layer_mono(layers, l, i, j - 1);
    }
}

proof fn lemma_initial_numbering(n: nat, layers: Seq<usize>)
    requires
        layers.len() == n,
        n <= usize::MAX,
    ensures
        numbers_each_layer(n, layers, initial_positions(n, layers)),
{
    let pos = initial_positions(n, layers);
    assert forall|x: int| 0 <= x < n implies (#[trigger] pos[x] as int) < in_layer_upto(
        layers,
        layers[x] as int,
        n as int,
    ) by {
        lemma_in_layer_bound(layers, layers[x] as int, x);
        lemma_in_layer_mono(layers, layers[x] as int, x + 1, n as int);
    }
    assert forall|x: int, y: int|
        0 <= x < n && 0 <= y < n && x != y && layers[x] == layers[y] implies #[trigger] pos[x]
        != #[trigger] pos[y] by {
        lemma_in_layer_bound(layers, layers[x] as int, x);
        lemma_in_layer_bound(layers, layers[x] as int, y);
        if x < y {
            lemma_in_layer_mono(layers, layers[x] as int, x + 1, y);
        } else {
            lemma_in_layer_mono(layers, layers[x] as int, y + 1, x);
        }
    }
}

proof fn lemma_before_trans(a: (int, int), pa: int, b: (int, int), pb: int, c: (int, int), pc: int)
    requires
        a.1 > 0,
        b.1 > 0,
        c.1 > 0,
        goes_before(a, pa, b, pb),
        goes_before(b, pb, c, pc),
    ensures
        goes_before(a, pa, c, pc),
{
    let (a0, a1) = a;
    let (b0, b1) = b;
    let (c0, c1) = c;
    assert(a0 * b1 <= b0 * a1 && b0 * c1 <= c0 * b1 ==> a0 * c1 <= c0 * a1) by (nonlinear_arith)
        requires
            a1 > 0,
            b1 > 0,
            c1 > 0,
    {
        if a0 * b1 <= b0 * a1 && b0 * c1 <= c0 * b1 {
            assert(a0 * b1 * c1 <= b0 * a1 * c1);
            assert(b0 * c1 * a1 <= c0 * b1 * a1);
            assert(a0 * c1 * b1 <= c0 * a1 * b1);
        }
    }
    assert(a0 * b1 < b0 * a1 && b0 * c1 <= c0 * b1 ==> a0 * c1 < c0 * a1) by (nonlinear_arith)
        requires
            a1 > 0,
            b1 > 0,
            c1 > 0,
    {
        if a0 * b1 < b0 * a1 && b0 * c1 <= c0 * b1 {
            assert(a0 * b1 * c1 < b0 * a1 * c1);
            assert(b0 * c1 * a1 <= c0 * b1 * a1);
            assert(a0 * c1 * b1 < c0 * a1 * b1);
        }
    }
    assert(a0 * b1 <= b0 * a1 && b0 * c1 < c0 * b1 ==> a0 * c1 < c0 * a1) by (nonlinear_arith)
        requires
            a1 > 0,
            b1 > 0,
            c1 > 0,
    {
        if a0 * b1 <= b0 * a1 && b0 * c1 < c0 * b1 {
            assert(a0 * b1 * c1 <= b0 * a1 * c1);
            assert(b0 * c1 * a1 < c0 * b1 * a1);
            assert(a0 * c1 * b1 < c0 * a1 * b1);
        }
    }
}

proof fn lemma_sort_key_den(
    n: nat,
    edges: Seq<EdgeEnds>,
    layers: Seq<usize>,
    pos: Seq<usize>,
    x: int,
    l: int,
    down: bool,
)
    ensures
        sort_key(n, edges, layers, pos, x, l, down).1 >= 1,
{
}

/// A node that goes before `x` has a smaller rank, counting itself out.
proof fn lemma_rank_step(
    n: nat,
    edges: Seq<EdgeEnds>,
    layers: Seq<usize>,
    pos: Seq<usize>,
    x: int,
    y: int,
    l: int,
    down: bool,
    k: int,
)
    requires
        0 <= k,
        layers[y] == l,
        goes_before(
            sort_key(n, edges, layers, pos, y, l, down),
            pos[y] as int,
            sort_key(n, edges, layers, pos, x, l, down),
            pos[x] as int,
        ),
    ensures
        rank_upto(n, edges, layers, pos, y, l, down, k) + (if 0 <= y < k {
            1int
        } else {
            0
        }) <= rank_upto(n, edges, layers, pos, x, l, down, k),
    decreases k,
{
    if k > 0 {
        lemma_rank_step(n, edges, layers, pos, x, y, l, down, k - 1);
        let z = k - 1;
        let kz = sort_key(n, edges, layers, pos, z, l, down);
        let ky = sort_key(n, edges, layers, pos, y, l, down);
        let kx = sort_key(n, edges, layers, pos, x, l, down);
        lemma_sort_key_den(n, edges, layers, pos, z, l, down);
        lemma_sort_key_den(n, edges, layers, pos, y, l, down);
        lemma_sort_key_den(n, edges, layers, pos, x, l, down);
        if goes_before(kz, pos[z] as int, ky, pos[y] as int) {
            lemma_before_trans(kz, pos[z] as int, ky, pos[y] as int, kx, pos[x] as int);
        }
    }
}

/// A rank counts only nodes of the layer, and never the node itself.
proof fn lemma_rank_below_layer(
    n: nat,
    edges: Seq<EdgeEnds>,
    layers: Seq<usize>,
    pos: Seq<usize>,
    x: int,
    l: int,
    down: bool,
    k: int,
)
    requires
        0 <= k,
        layers[x] == l,
    ensures
        rank_upto(n, edges, layers, pos, x, l, down, k) + (if 0 <= x < k {
            1int
        } else {
            0
        }) <= in_layer_upto(layers, l, k),
    decreases k,
{
    if k > 0 {
        lemma_rank_below_layer(n, edges, layers, pos, x, l, down, k - 1);
    }
}

proof fn lemma_resort_numbering(
    n: nat,
    edges: Seq<EdgeEnds>,
    layers: Seq<usize>,
    pos: Seq<usize>,
    l: int,
    down: bool,
)
    requires
        layers.len() == n,
        pos.len() == n,
        n <= usize::MAX,
        numbers_each_layer(n, layers, pos),
    ensures
        numbers_each_layer(n, layers, resort(n, edges, layers, pos, l, down)),
{
    let r = resort(n, edges, layers, pos, l, down);
    assert forall|x: int| 0 <= x < n implies (#[trigger] r[x] as int) < in_layer_upto(
        layers,
        layers[x] as int,
        n as int,
    ) by {
        if layers[x] == l {
            lemma_rank_below_layer(n, edges, layers, pos, x, l, down, n as int);
            lemma_rank_bound(n, edges, layers, pos, x, l, down, n as int);
        }
    }
    assert forall|x: int, y: int|
        0 <= x < n && 0 <= y < n && x != y && layers[x] == layers[y] implies #[trigger] r[x]
        != #[trigger] r[y] by {
        if layers[x] == l {
            let kx = sort_key(n, edges, layers, pos, x, l, down);
            let ky = sort_key(n, edges, layers, pos, y, l, down);
            lemma_rank_bound(n, edges, layers, pos, x, l, down, n as int);
            lemma_rank_bound(n, edges, layers, pos, y, l, down, n as int);
            assert(pos[x] != pos[y]);
            if goes_before(ky, pos[y] as int, kx, pos[x] as int) {
                lemma_rank_step(n, edges, layers, pos, x, y, l, down, n as int);
            } else {
                assert(goes_before(kx, pos[x] as int, ky, pos[y] as int));
                lemma_rank_step(n, edges, layers, pos, y, x, l, down, n as int);
            }
        }
    }
}

proof fn lemma_down_sweep_numbering(n: nat, edges: Seq<EdgeEnds>, layers: Seq<usize>, pos: Seq<usize>, l: int)
    requires
        layers.len() == n,
        pos.len() == n,
        n <= usize::MAX,
        numbers_each_layer(n, layers, pos),
    ensures
        numbers_each_layer(n, layers, down_sweep(n, edges, layers, pos, l).0),
        down_sweep(n, edges, layers, pos, l).0.len() == n,
    decreases l,
{
    if l > 0 {
        lemma_down_sweep_numbering(n, edges, layers, pos, l - 1);
        lemma_resort_numbering(n, edges, layers, down_sweep(n, edges, layers, pos, l - 1).0, l, true);
    }
}

proof fn lemma_up_sweep_numbering(
    n: nat,
    edges: Seq<EdgeEnds>,
    layers: Seq<usize>,
    pos: Seq<usize>,
    top: int,
    k: int,
)
    requires
        layers.len() == n,
        pos.len() == n,
        n <= usize::MAX,
        numbers_each_layer(n, layers, pos),
    ensures
        numbers_each_layer(n, layers, up_sweep(n, edges, layers, pos, top, k)),
        up_sweep(n, edges, layers, pos, top, k).len() == n,
    decreases k,
{
    if k > 0 {
        lemma_up_sweep_numbering(n, edges, layers, pos, top, k - 1);
        lemma_resort_numbering(n, edges, layers, up_sweep(n, edges, layers, pos, top, k - 1), top - k, false);
    }
}

proof fn lemma_sweeps_numbering(
    n: nat,
    edges: Seq<EdgeEnds>,
    layers: Seq<usize>,
    pos: Seq<usize>,
    top: int,
    r: int,
)
    requires
        layers.len() == n,
        pos.len() == n,
        n <= usize::MAX,
        numbers_each_layer(n, layers, pos),
    ensures
        numbers_each_layer(n, layers, sweeps(n, edges, layers, pos, top, r)),
    decreases r,
{
    if r > 0 {
        lemma_down_sweep_numbering(n, edges, layers, pos, top);
        let p = down_sweep(n, edges, layers, pos, top).0;
        lemma_up_sweep_numbering(n, edges, layers, p, top, top);
        lemma_sweeps_numbering(n, edges, layers, up_sweep(n, edges, layers, p, top, top), top, r - 1);
    }
}

/// The barycentre ordering numbers each layer: two nodes of one layer never
/// share a position, and every position is below the number of nodes in
/// the layer.
pub proof fn lemma_order_numbers_each_layer(n: nat, edges: Seq<EdgeEnds>, layers: Seq<usize>)
    requires
        layers.len() == n,
        n <= usize::MAX,
    ensures
        numbers_each_layer(n, layers, barycenter_order(n, edges, layers)),
{
    lemma_initial_numbering(n, layers);
    lemma_sweeps_numbering(
        n,
        edges,
        layers,
        initial_positions(n, layers),
        top_layer(layers, n as int),
        MAX_BARYCENTER_ITERATIONS as int,
    );
}

// ─── nodes of each layer in order ───────────────────────────────────────────

/// Node `a` comes before node `b` in their layer: the smaller position
/// first, equal positions in node order.
pub open spec fn before_in_layer(positions: Seq<usize>, a: usize, b: usize) -> bool {
    positions[a as int] < positions[b as int] || (positions[a as int] == positions[b as int] && a < b)
}

/// The highest layer among the first `n` nodes, 0 for none.
pub open spec fn max_layer_upto(layers: Seq<usize>, n: int) -> int
    decreases n,
{
    if n <= 0 {
        0
    } else {
        let m = max_layer_upto(layers, n - 1);
        if layers[n - 1] > m {
            layers[n - 1] as int
        } else {
            m
        }
    }
}

/// `members` lists the nodes below `bound` of layer `l`, each once, in
/// layer order.
pub open spec fn lists_layer(layers: Seq<usize>, positions: Seq<usize>, l: int, members: Seq<usize>, bound: int) -> bool {
    &&& forall|j: int|
        0 <= j < members.len() ==> (#[trigger] members[j] as int) < bound && layers[members[j] as int] == l
    &&& forall|i: int| 0 <= i < bound && layers[i] == l ==> #[trigger] members.contains(i as usize)
    &&& forall|j: int, k: int|
        0 <= j < k < members.len() ==> before_in_layer(positions, #[trigger] members[j], #[trigger] members[k])
}

/// The nodes of each layer, `0` up to the highest, ordered by their
/// positions within the layer (equal positions in node order).
pub fn group_by_layer(layers: &Vec<usize>, positions: &Vec<usize>) -> (groups: Vec<Vec<usize>>)
    requires
        layers@.len() == positions@.len(),
        forall|i: int| 0 <= i < layers@.len() ==> #[trigger] layers@[i] < usize::MAX,
    ensures
        groups@.len() == max_layer_upto(layers@, layers@.len() as int) + 1,
        forall|l: int|
            0 <= l < groups@.len() ==> lists_layer(
                layers@,
                positions@,
                l,
                #[trigger] groups@[l]@,
                layers@.len() as int,
            ),
{
    let n = layers.len();
    let mut max_layer: usize = 0;
    let mut i: usize = 0;
    while i < n
        invariant
            n == layers@.len(),
            i <= n,
            forall|q: int| 0 <= q < layers@.len() ==> #[trigger] layers@[q] < usize::MAX,
            max_layer == max_layer_upto(layers@, i as int),
            max_layer < usize::MAX,
            forall|q: int| 0 <= q < i ==> #[trigger] layers@[q] <= max_layer,
        decreases n - i,
    {
        if layers[i] > max_layer {
            max_layer = layers[i];
        }
        i = i + 1;
    }
    let mut groups: Vec<Vec<usize>> = Vec::new();
    let mut l: usize = 0;
    while l <= max_layer
        invariant
            max_layer < usize::MAX,
            n == layers@.len(),
            max_layer == max_layer_upto(layers@, n as int),
            forall|q: int| 0 <= q < n ==> #[trigger] layers@[q] <= max_layer,
            l <= max_layer + 1,
            groups@.len() == l,
            forall|q: int| 0 <= q < l ==> (#[trigger] groups@[q])@.len() == 0,
        decreases max_layer + 1 - l,
    {
        groups.push(Vec::new());
        l = l + 1;
    }
    let mut v: usize = 0;
    while v < n
        invariant
            n == layers@.len(),
            n == positions@.len(),
            v <= n,
            groups@.len() == max_layer + 1,
            max_layer == max_layer_upto(layers@, n as int),
            forall|q: int| 0 <= q < n ==> #[trigger] layers@[q] <= max_layer,
            forall|q: int|
                0 <= q < groups@.len() ==> lists_layer(layers@, positions@, q, #[trigger] groups@[q]@, v as int),
        decreases n - v,
    {
        let lv = layers[v];
        let ghost g = groups@[lv as int]@;
        let mut p: usize = 0;
        while p < groups[lv].len() && positions[groups[lv][p]] <= positions[v]
            invariant
                n == layers@.len(),
                n == positions@.len(),
                v < n,
                lv == layers@[v as int],
                lv < groups@.len(),
                g == groups@[lv as int]@,
                lists_layer(layers@, positions@, lv as int, g, v as int),
                p <= g.len(),
                forall|j: int| 0 <= j < p ==> before_in_layer(positions@, #[trigger] g[j], v as usize),
            decreases g.len() - p,
        {
            assert(g[p as int] < v);
            p = p + 1;
        }
        proof {
            if p < g.len() {
                assert forall|j: int| p <= j < g.len() implies before_in_layer(positions@, v as usize, #[trigger] g[j]) by {
                    if j > p {
                        assert(before_in_layer(positions@, g[p as int], g[j]));
                    }
                }
            }
        }
        let ghost before = groups@;
        groups[lv].insert(p, v);
        proof {
            let ng = g.insert(p as int, v as usize);
            assert(groups@[lv as int]@ == ng);
            assert forall|q: int| 0 <= q < groups@.len() implies lists_layer(
                layers@,
                positions@,
                q,
                #[trigger] groups@[q]@,
                v + 1,
            ) by {
                if q == lv {
                    assert forall|j: int| 0 <= j < ng.len() implies (#[trigger] ng[j] as int) < v + 1
                        && layers@[ng[j] as int] == q by {
                        if j > p {
                            assert(ng[j] == g[j - 1]);
                        } else if j < p {
                            assert(ng[j] == g[j]);
                        }
                    }
                    assert forall|i: int| 0 <= i < v + 1 && layers@[i] == q implies #[trigger] ng.contains(
                        i as usize,
                    ) by {
                        if i == v {
                            assert(ng[p as int] == v);
                        } else {
                            assert(g.contains(i as usize));
                            let j = choose|j: int| 0 <= j < g.len() && g[j] == i as usize;
                            if j < p {
                                assert(ng[j] == g[j]);
                            } else {
                                assert(ng[j + 1] == g[j]);
                            }
                        }
                    }
                    assert forall|j: int, k: int| 0 <= j < k < ng.len() implies before_in_layer(
                        positions@,
                        #[trigger] ng[j],
                        #[trigger] ng[k],
                    ) by {
                        if k < p {
                            assert(ng[j] == g[j] && ng[k] == g[k]);
                        } else if k == p {
                            assert(ng[j] == g[j]);
                        } else if j < p {
                            assert(ng[j] == g[j] && ng[k] == g[k - 1]);
                            assert(before_in_layer(positions@, g[j], v as usize));
                            assert(before_in_layer(positions@, v as usize, g[k - 1]));
                        } else if j == p {
                            assert(ng[k] == g[k - 1]);
                        } else {
                            assert(ng[j] == g[j - 1] && ng[k] == g[k - 1]);
                        }
                    }
                } else {
                    assert(groups@[q] == before[q]);
                    let gq = groups@[q]@;
                    assert forall|i: int| 0 <= i < v + 1 && layers@[i] == q implies #[trigger] gq.contains(
                        i as usize,
                    ) by {
                        assert(i != v);
                    }
                }
            }
        }
        v = v + 1;
    }
    groups
}

} // verus!
