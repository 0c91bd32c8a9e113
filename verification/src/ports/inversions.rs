//! Crossing counts along a node side: edges whose order along the side is
//! inverted relative to the positions of the nodes at their other ends.
use vstd::prelude::*;

verus! {

/// Entries among `keys[0..i)` greater than `keys[j]`.
pub open spec fn greater_before(keys: Seq<i64>, j: int, i: int) -> nat
    decreases i,
{
    if i <= 0 {
        0
    } else {
        greater_before(keys, j, i - 1) + if keys[i - 1] > keys[j] {
            1nat
        } else {
            0nat
        }
    }
}

/// Pairs `i < j < k` with `keys[i] > keys[j]`: edges whose order along a
/// side is inverted relative to the positions of their other nodes.
pub open spec fn inversions_upto(keys: Seq<i64>, k: int) -> nat
    decreases k,
{
    if k <= 0 {
        0
    } else {
        inversions_upto(keys, k - 1) + greater_before(keys, k - 1, k - 1)
    }
}

proof fn lemma_greater_before_le(keys: Seq<i64>, j: int, i: int)
    requires
        0 <= i,
    ensures
        greater_before(keys, j, i) <= i,
    decreases i,
{
    if i > 0 {
        lemma_greater_before_le(keys, j, i - 1);
    }
}

proof fn lemma_inversions_le(keys: Seq<i64>, k: int)
    requires
        0 <= k,
    ensures
        inversions_upto(keys, k) <= k * k,
    decreases k,
{
    if k > 0 {
        lemma_inversions_le(keys, k - 1);
        lemma_greater_before_le(keys, k - 1, k - 1);
        assert((k - 1) * (k - 1) + (k - 1) <= k * k) by (nonlinear_arith)
            requires
                k >= 1,
        ;
    }
}

/// Whether two edges on one side cross: the one earlier in port order has
/// its other node further along the side (`a_pos`) than the later one's
/// (`b_pos`).
pub fn would_cross(a_pos: i64, b_pos: i64) -> (r: bool)
    ensures
        r == (a_pos > b_pos),
{
    a_pos > b_pos
}

/// Number of crossing pairs among the edges on one side, in port order:
/// `keys[i]` is the position of edge `i`'s other node along the side (its
/// centre's `x` for the top and bottom sides, `y` for left and right, or
/// any numbers in the same order), and two edges cross when the earlier
/// one's other node lies further along.
pub fn count_inversions(keys: &Vec<i64>) -> (n: usize)
    requires
        keys@.len() * keys@.len() <= usize::MAX,
    ensures
        n == inversions_upto(keys@, keys@.len() as int),
{
    let mut count: usize = 0;
    let mut j: usize = 0;
    while j < keys.len()
        invariant
            j <= keys.len(),
            keys@.len() * keys@.len() <= usize::MAX,
            count == inversions_upto(keys@, j as int),
        decreases keys.len() - j,
    {
        let mut i: usize = 0;
        let ghost base = count;
        proof {
            lemma_inversions_le(keys@, j as int);
            lemma_greater_before_le(keys@, j as int, j as int);
            assert(j * j + j <= keys@.len() * keys@.len()) by (nonlinear_arith)
                requires
                    j < keys@.len(),
            ;
        }
        while i < j
            invariant
                i <= j,
                j < keys.len(),
                base == inversions_upto(keys@, j as int),
                base + j <= usize::MAX,
                count == base + greater_before(keys@, j as int, i as int),
            decreases j - i,
        {
            proof {
                lemma_greater_before_le(keys@, j as int, i as int);
            }
            if would_cross(keys[i], keys[j]) {
                count = count + 1;
            }
            i = i + 1;
        }
        j = j + 1;
    }
    count
}

/// Crossing pairs summed over the first `n` sides.
pub open spec fn total_inversions(sides: Seq<Seq<i64>>, n: int) -> nat
    decreases n,
{
    if n <= 0 {
        0
    } else {
        total_inversions(sides, n - 1) + inversions_upto(sides[n - 1], sides[n - 1].len() as int)
    }
}

/// Crossing pairs over every side of every node: `side_keys` holds, for each
/// node side that has edges, the positions of the edges' other nodes in port
/// order (see [`count_inversions`]); the estimate is the sum of their counts.
pub fn estimate_inversions(side_keys: &Vec<Vec<i64>>) -> (total: usize)
    requires
        forall|s: int|
            0 <= s < side_keys@.len() ==> #[trigger] side_keys@[s]@.len() * side_keys@[s]@.len()
                <= usize::MAX,
        total_inversions(side_keys@.map_values(|v: Vec<i64>| v@), side_keys@.len() as int)
            <= usize::MAX,
    ensures
        total == total_inversions(
            side_keys@.map_values(|v: Vec<i64>| v@),
            side_keys@.len() as int,
        ),
{
    let ghost sides = side_keys@.map_values(|v: Vec<i64>| v@);
    let mut total: usize = 0;
    let mut s: usize = 0;
    while s < side_keys.len()
        invariant
            s <= side_keys.len(),
            sides == side_keys@.map_values(|v: Vec<i64>| v@),
            forall|t: int|
                0 <= t < side_keys@.len() ==> #[trigger] side_keys@[t]@.len()
                    * side_keys@[t]@.len() <= usize::MAX,
            total_inversions(sides, side_keys@.len() as int) <= usize::MAX,
            total == total_inversions(sides, s as int),
        decreases side_keys.len() - s,
    {
        proof {
            lemma_total_inversions_monotone(sides, s as int + 1, side_keys@.len() as int);
        }
        let n = count_inversions(&side_keys[s]);
        total = total + n;
        s = s + 1;
    }
    total
}

proof fn lemma_total_inversions_monotone(sides: Seq<Seq<i64>>, a: int, b: int)
    requires
        a <= b,
    ensures
        total_inversions(sides, a) <= total_inversions(sides, b),
    decreases b - a,
{
    if a < b {
        lemma_total_inversions_monotone(sides, a, b - 1);
    }
}

// ─── reordering the ends of a side ──────────────────────────────────────────

/// The keys in the order `perm` lists them.
pub open spec fn permuted(keys: Seq<i64>, perm: Seq<usize>) -> Seq<i64> {
    perm.map_values(|p: usize| keys[p as int])
}

/// Crossing pairs when the ends are put in the order `perm`.
pub open spec fn crossings(keys: Seq<i64>, perm: Seq<usize>) -> int {
    inversions_upto(permuted(keys, perm), perm.len() as int) as int
}

/// The order `0, 1, .., k - 1`.
pub open spec fn identity_order(k: int) -> Seq<usize> {
    Seq::new(k as nat, |j: int| j as usize)
}

/// `perm` lists positions of a side with `k` ends.
pub open spec fn is_order_of(perm: Seq<usize>, k: int) -> bool {
    perm.len() == k && forall|j: int| 0 <= j < k ==> (#[trigger] perm[j] as int) < k
}

/// `perm` lists each position of a side with `k` ends exactly once.
pub open spec fn is_permutation(perm: Seq<usize>, k: int) -> bool {
    &&& is_order_of(perm, k)
    &&& forall|i: int, j: int| 0 <= i < j < k ==> perm[i] != perm[j]
}

/// Exchanging two entries of a permutation gives a permutation.
pub proof fn lemma_swapped_permutation(p: Seq<usize>, k: int, a: int, b: int)
    requires
        is_permutation(p, k),
        0 <= a < k,
        0 <= b < k,
    ensures
        is_permutation(swapped(p, a, b), k),
{
    let q = swapped(p, a, b);
    assert forall|j: int| 0 <= j < k implies (#[trigger] q[j] as int) < k by {
        assert(q[j] == p[j] || q[j] == p[a] || q[j] == p[b]);
    }
    assert forall|i: int, j: int| 0 <= i < j < k implies q[i] != q[j] by {
        let si = if i == a { b } else if i == b { a } else { i };
        let sj = if j == a { b } else if j == b { a } else { j };
        assert(q[i] == p[si]);
        assert(q[j] == p[sj]);
        if si < sj {
            assert(p[si] != p[sj]);
        } else {
            assert(p[sj] != p[si]);
        }
    }
}

/// `p` with the entries at `a` and `b` exchanged.
pub open spec fn swapped(p: Seq<usize>, a: int, b: int) -> Seq<usize> {
    p.update(a, p[b]).update(b, p[a])
}

/// State of the exhaustive search: the current order, the counters of
/// Heap's algorithm, the position it works at, the fewest crossings seen,
/// the order that had them, and whether an order without crossings was
/// found.
pub type HeapState = (Seq<usize>, Seq<usize>, int, int, Seq<usize>, bool);

/// One step of Heap's algorithm: at position `i`, while its counter is
/// below `i`, swap position `i` with position 0 (even `i`) or with the
/// counter's position (odd `i`), count the crossings of the new order and
/// keep it when it has fewer than any before, then restart at position 1;
/// once the counter reaches `i`, clear it and move to position `i + 1`.
pub open spec fn heap_step(keys: Seq<i64>, st: HeapState) -> HeapState {
    let (perm, c, i, best, best_perm, found) = st;
    if found || i >= keys.len() {
        st
    } else if (c[i] as int) < i {
        let next = if i % 2 == 0 {
            swapped(perm, 0, i)
        } else {
            swapped(perm, c[i] as int, i)
        };
        let inv = crossings(keys, next);
        let counters = c.update(i, (c[i] + 1) as usize);
        if inv < best {
            (next, counters, 1, inv, next, inv == 0)
        } else {
            (next, counters, 1, best, best_perm, false)
        }
    } else {
        (perm, c.update(i, 0usize), i + 1, best, best_perm, false)
    }
}

/// The search state after `t` steps.
pub open spec fn heap_run(keys: Seq<i64>, st: HeapState, t: nat) -> HeapState
    decreases t,
{
    if t == 0 {
        st
    } else {
        heap_step(keys, heap_run(keys, st, (t - 1) as nat))
    }
}

/// The search starts from the identity order with all counters clear.
pub open spec fn heap_start(keys: Seq<i64>) -> HeapState {
    let k = keys.len() as int;
    (
        identity_order(k),
        Seq::new(k as nat, |j: int| 0usize),
        1,
        crossings(keys, identity_order(k)),
        identity_order(k),
        false,
    )
}

/// The search is over: an order without crossings was found, or every
/// position was exhausted.
pub open spec fn heap_done(keys: Seq<i64>, st: HeapState) -> bool {
    st.5 || st.2 >= keys.len()
}

/// `perm` is the best order the exhaustive search ends with.
pub open spec fn heap_best(keys: Seq<i64>, perm: Seq<usize>) -> bool {
    exists|t: nat| heap_done(keys, heap_run(keys, heap_start(keys), t)) && perm == heap_run(
        keys,
        heap_start(keys),
        t,
    ).4
}

/// One left-to-right pass over the first `j` adjacent pairs, swapping each
/// pair whose ends cross; the flag tells whether any pair was swapped.
pub open spec fn swap_pass(keys: Seq<i64>, perm: Seq<usize>, j: int) -> (Seq<usize>, bool)
    decreases j,
{
    if j <= 0 {
        (perm, false)
    } else {
        let (p, changed) = swap_pass(keys, perm, j - 1);
        if keys[p[j - 1] as int] > keys[p[j] as int] {
            (swapped(p, j - 1, j), true)
        } else {
            (p, changed)
        }
    }
}

/// Up to `passes` passes, stopping after a pass that swapped nothing.
pub open spec fn swap_passes(keys: Seq<i64>, perm: Seq<usize>, passes: int) -> Seq<usize>
    decreases passes,
{
    if passes <= 0 {
        perm
    } else {
        let (p, changed) = swap_pass(keys, perm, keys.len() - 1);
        if changed {
            swap_passes(keys, p, passes - 1)
        } else {
            p
        }
    }
}

/// The order `minimize_crossings` gives: unchanged for at most one end or
/// no crossing; for up to 7 ends the best order of the exhaustive search;
/// for more, the result of up to `k * k` adjacent-swap passes.
pub open spec fn minimized(keys: Seq<i64>, perm: Seq<usize>) -> bool {
    let k = keys.len() as int;
    if k <= 1 || crossings(keys, identity_order(k)) == 0 && k < 8 {
        perm == identity_order(k)
    } else if k < 8 {
        heap_best(keys, perm)
    } else {
        perm == swap_passes(keys, identity_order(k), k * k)
    }
}

// ─── what reordering keeps ──────────────────────────────────────────────────

/// `s` with the entries at `a` and `b` exchanged.
pub open spec fn swapped_keys(s: Seq<i64>, a: int, b: int) -> Seq<i64> {
    s.update(a, s[b]).update(b, s[a])
}

proof fn lemma_greater_before_same_prefix(s: Seq<i64>, t: Seq<i64>, j: int, jj: int, i: int)
    requires
        0 <= i <= s.len(),
        i <= t.len(),
        0 <= j < s.len(),
        0 <= jj < t.len(),
        s[j] == t[jj],
        forall|q: int| 0 <= q < i ==> s[q] == t[q],
    ensures
        greater_before(s, j, i) == greater_before(t, jj, i),
    decreases i,
{
    if i > 0 {
        lemma_greater_before_same_prefix(s, t, j, jj, i - 1);
    }
}

/// Counting entries greater than a value over a prefix that reaches past
/// two exchanged neighbours gives the same count.
proof fn lemma_greater_before_swapped(s: Seq<i64>, m: int, j: int, jj: int, i: int)
    requires
        0 <= m,
        m + 2 <= i <= s.len(),
        0 <= j < s.len(),
        0 <= jj < s.len(),
        s[j] == swapped_keys(s, m, m + 1)[jj],
    ensures
        greater_before(s, j, i) == greater_before(swapped_keys(s, m, m + 1), jj, i),
    decreases i,
{
    let t = swapped_keys(s, m, m + 1);
    if i > m + 2 {
        lemma_greater_before_swapped(s, m, j, jj, i - 1);
        assert(t[i - 1] == s[i - 1]);
    } else {
        lemma_greater_before_same_prefix(s, t, j, jj, m);
        assert(t[m] == s[m + 1] && t[m + 1] == s[m]);
        assert(greater_before(s, j, m + 1) == greater_before(s, j, m) + if s[m] > s[j] {
            1nat
        } else {
            0nat
        });
        assert(greater_before(t, jj, m + 1) == greater_before(t, jj, m) + if t[m] > t[jj] {
            1nat
        } else {
            0nat
        });
    }
}

proof fn lemma_inversions_same_prefix(s: Seq<i64>, t: Seq<i64>, k: int)
    requires
        0 <= k <= s.len(),
        k <= t.len(),
        forall|q: int| 0 <= q < k ==> s[q] == t[q],
    ensures
        inversions_upto(s, k) == inversions_upto(t, k),
    decreases k,
{
    if k > 0 {
        lemma_inversions_same_prefix(s, t, k - 1);
        lemma_greater_before_same_prefix(s, t, k - 1, k - 1, k - 1);
    }
}

/// Exchanging two neighbours that cross removes exactly one crossing pair.
proof fn lemma_adjacent_swap(s: Seq<i64>, m: int, k: int)
    requires
        0 <= m,
        m + 2 <= k <= s.len(),
        s[m] > s[m + 1],
    ensures
        inversions_upto(swapped_keys(s, m, m + 1), k) + 1 == inversions_upto(s, k),
    decreases k,
{
    let t = swapped_keys(s, m, m + 1);
    if k > m + 2 {
        lemma_adjacent_swap(s, m, k - 1);
        assert(t[k - 1] == s[k - 1]);
        lemma_greater_before_swapped(s, m, k - 1, k - 1, k - 1);
    } else {
        assert(t[m] == s[m + 1] && t[m + 1] == s[m]);
        lemma_inversions_same_prefix(s, t, m);
        lemma_greater_before_same_prefix(s, t, m + 1, m, m);
        lemma_greater_before_same_prefix(s, t, m, m + 1, m);
        assert(greater_before(t, m + 1, m + 1) == greater_before(t, m + 1, m) + if t[m] > t[m + 1] {
            1nat
        } else {
            0nat
        });
        assert(greater_before(s, m + 1, m + 1) == greater_before(s, m + 1, m) + if s[m] > s[m + 1] {
            1nat
        } else {
            0nat
        });
        assert(inversions_upto(s, m + 2) == inversions_upto(s, m + 1) + greater_before(s, m + 1, m + 1));
        assert(inversions_upto(s, m + 1) == inversions_upto(s, m) + greater_before(s, m, m));
        assert(inversions_upto(t, m + 2) == inversions_upto(t, m + 1) + greater_before(t, m + 1, m + 1));
        assert(inversions_upto(t, m + 1) == inversions_upto(t, m) + greater_before(t, m, m));
    }
}

proof fn lemma_permuted_swapped(keys: Seq<i64>, p: Seq<usize>, a: int, b: int)
    requires
        0 <= a < p.len(),
        0 <= b < p.len(),
    ensures
        permuted(keys, swapped(p, a, b)) == swapped_keys(permuted(keys, p), a, b),
{
    assert(permuted(keys, swapped(p, a, b)) =~= swapped_keys(permuted(keys, p), a, b));
}

proof fn lemma_swap_pass_keeps(keys: Seq<i64>, perm: Seq<usize>, j: int)
    requires
        is_permutation(perm, keys.len() as int),
        j <= keys.len() - 1,
    ensures
        is_permutation(swap_pass(keys, perm, j).0, keys.len() as int),
        crossings(keys, swap_pass(keys, perm, j).0) <= crossings(keys, perm),
    decreases j,
{
    if j > 0 {
        lemma_swap_pass_keeps(keys, perm, j - 1);
        let p = swap_pass(keys, perm, j - 1).0;
        if keys[p[j - 1] as int] > keys[p[j] as int] {
            lemma_swapped_permutation(p, keys.len() as int, j - 1, j);
            lemma_permuted_swapped(keys, p, j - 1, j);
            lemma_adjacent_swap(permuted(keys, p), j - 1, keys.len() as int);
        }
    }
}

proof fn lemma_swap_passes_keeps(keys: Seq<i64>, perm: Seq<usize>, passes: int)
    requires
        is_permutation(perm, keys.len() as int),
    ensures
        is_permutation(swap_passes(keys, perm, passes), keys.len() as int),
        crossings(keys, swap_passes(keys, perm, passes)) <= crossings(keys, perm),
    decreases passes,
{
    if passes > 0 {
        lemma_swap_pass_keeps(keys, perm, keys.len() - 1);
        let p = swap_pass(keys, perm, keys.len() - 1).0;
        if swap_pass(keys, perm, keys.len() - 1).1 {
            lemma_swap_passes_keeps(keys, p, passes - 1);
        }
    }
}

/// What holds of every state the exhaustive search passes through: both
/// orders are permutations, the best count is the best order's crossings and
/// never above the starting order's.
pub open spec fn heap_ok(keys: Seq<i64>, st: HeapState) -> bool {
    let (perm, c, i, best, best_perm, found) = st;
    let k = keys.len() as int;
    &&& is_permutation(perm, k)
    &&& is_permutation(best_perm, k)
    &&& c.len() == k
    &&& i >= 1
    &&& forall|q: int| 1 <= q < k ==> #[trigger] c[q] as int <= q
    &&& best == crossings(keys, best_perm)
    &&& best <= crossings(keys, identity_order(k))
}

proof fn lemma_heap_run_ok(keys: Seq<i64>, t: nat)
    requires
        keys.len() <= usize::MAX,
    ensures
        heap_ok(keys, heap_run(keys, heap_start(keys), t)),
    decreases t,
{
    let k = keys.len() as int;
    if t == 0 {
        let id = identity_order(k);
        assert(is_permutation(id, k));
    } else {
        lemma_heap_run_ok(keys, (t - 1) as nat);
        let st = heap_run(keys, heap_start(keys), (t - 1) as nat);
        let (perm, c, i, best, best_perm, found) = st;
        if !found && i < k {
            if (c[i] as int) < i {
                lemma_swapped_permutation(perm, k, 0, i);
                lemma_swapped_permutation(perm, k, c[i] as int, i);
                let counters = c.update(i, (c[i] + 1) as usize);
                assert forall|q: int| 1 <= q < k implies #[trigger] counters[q] as int <= q by {
                    if q == i {
                        assert((c[i] + 1) as usize as int == c[i] + 1);
                    } else {
                        assert(counters[q] == c[q]);
                    }
                }
            } else {
                let counters = c.update(i, 0usize);
                assert forall|q: int| 1 <= q < k implies #[trigger] counters[q] as int <= q by {
                    if q != i {
                        assert(counters[q] == c[q]);
                    }
                }
            }
        }
    }
}

/// Law: reordering only permutes the ends of a side, and never leaves more
/// crossings than their order as given.
pub proof fn lemma_minimize_only_reorders(keys: Seq<i64>, order: Seq<usize>)
    requires
        keys.len() <= usize::MAX,
        minimized(keys, order),
    ensures
        is_permutation(order, keys.len() as int),
        crossings(keys, order) <= crossings(keys, identity_order(keys.len() as int)),
{
    let k = keys.len() as int;
    let id = identity_order(k);
    assert(is_permutation(id, k));
    if k <= 1 || crossings(keys, id) == 0 && k < 8 {
    } else if k < 8 {
        let t = choose|t: nat| heap_done(keys, heap_run(keys, heap_start(keys), t)) && order == heap_run(
            keys,
            heap_start(keys),
            t,
        ).4;
        lemma_heap_run_ok(keys, t);
    } else {
        lemma_swap_passes_keeps(keys, id, k * k);
    }
}

// ─── termination of the exhaustive search ───────────────────────────────────

/// `n!`.
pub open spec fn fact(n: int) -> int
    decreases n,
{
    if n <= 0 {
        1
    } else {
        n * fact(n - 1)
    }
}

/// The counters read as a number in the factorial base, positions below
/// `i` counted as full: it grows by one with every swap and stays put when
/// a counter is cleared.
pub open spec fn heap_potential(c: Seq<usize>, i: int, m: int) -> int
    decreases m,
{
    if m <= 1 {
        0
    } else {
        heap_potential(c, i, m - 1) + (if m - 1 < i {
            m - 1
        } else {
            c[m - 1] as int
        }) * fact(m - 1)
    }
}

proof fn lemma_fact_pos(n: int)
    ensures
        fact(n) >= 1,
    decreases n,
{
    if n > 0 {
        lemma_fact_pos(n - 1);
        assert(n * fact(n - 1) >= 1) by (nonlinear_arith)
            requires
                n >= 1,
                fact(n - 1) >= 1,
        ;
    }
}

proof fn lemma_fact_step(m: int)
    requires
        m >= 1,
    ensures
        fact(m) == m * fact(m - 1),
        (m - 1) * fact(m - 1) + fact(m - 1) == fact(m),
{
    assert((m - 1) * fact(m - 1) + fact(m - 1) == m * fact(m - 1)) by (nonlinear_arith);
}

proof fn lemma_potential_step(c: Seq<usize>, i: int, m: int)
    requires
        m > 1,
    ensures
        m - 1 < i ==> heap_potential(c, i, m) == heap_potential(c, i, m - 1) + (m - 1) * fact(m - 1),
        m - 1 >= i ==> heap_potential(c, i, m) == heap_potential(c, i, m - 1) + (c[m - 1] as int) * fact(
            m - 1,
        ),
{
}

/// Below position `i`, every counter counts as full: the potential of the
/// first `m <= i` positions is `m! - 1`.
proof fn lemma_potential_full(c: Seq<usize>, i: int, m: int)
    requires
        1 <= m <= i,
    ensures
        heap_potential(c, i, m) == fact(m) - 1,
    decreases m,
{
    if m > 1 {
        lemma_potential_full(c, i, m - 1);
        lemma_potential_step(c, i, m);
        lemma_fact_step(m);
    } else {
        assert(fact(1) == 1 * fact(0));
    }
}

/// The potential is below `m!`.
proof fn lemma_potential_bound(c: Seq<usize>, i: int, m: int)
    requires
        1 <= m <= c.len(),
        forall|j: int| 1 <= j < m && j >= i ==> #[trigger] c[j] as int <= j,
    ensures
        0 <= heap_potential(c, i, m) <= fact(m) - 1,
    decreases m,
{
    if m > 1 {
        lemma_potential_bound(c, i, m - 1);
        lemma_fact_pos(m - 1);
        lemma_potential_step(c, i, m);
        lemma_fact_step(m);
        let w = if m - 1 < i {
            m - 1
        } else {
            c[m - 1] as int
        };
        assert(0 <= w <= m - 1);
        assert(0 <= w * fact(m - 1) <= (m - 1) * fact(m - 1)) by (nonlinear_arith)
            requires
                0 <= w <= m - 1,
                fact(m - 1) >= 1,
        ;
    } else {
        assert(fact(1) == 1 * fact(0));
    }
}

/// With the counters below `i` clear, the potential of the first `m <= i`
/// positions from position 1 is 0.
proof fn lemma_potential_zero(c: Seq<usize>, m: int)
    requires
        1 <= m <= c.len(),
        forall|j: int| 1 <= j < m ==> #[trigger] c[j] == 0,
    ensures
        heap_potential(c, 1, m) == 0,
    decreases m,
{
    if m > 1 {
        lemma_potential_zero(c, m - 1);
        lemma_potential_step(c, 1, m);
        assert(c[m - 1] == 0);
    }
}

/// A swap at position `i` raises the potential by one.
proof fn lemma_potential_swap(c: Seq<usize>, i: int, m: int)
    requires
        1 <= i < m <= c.len(),
        forall|j: int| 1 <= j < i ==> #[trigger] c[j] == 0,
        (c[i] as int) < i,
        i < usize::MAX,
    ensures
        heap_potential(c.update(i, (c[i] + 1) as usize), 1, m) == heap_potential(c, i, m) + 1,
    decreases m,
{
    let c2 = c.update(i, (c[i] + 1) as usize);
    lemma_potential_step(c, i, m);
    lemma_potential_step(c2, 1, m);
    if m == i + 1 {
        lemma_potential_full(c, i, i);
        assert forall|j: int| 1 <= j < i implies #[trigger] c2[j] == 0 by {
            assert(c2[j] == c[j]);
        }
        lemma_potential_zero(c2, i);
        assert(c2[i] as int == c[i] + 1);
        assert((c[i] + 1) * fact(i) == c[i] * fact(i) + fact(i)) by (nonlinear_arith);
    } else {
        lemma_potential_swap(c, i, m - 1);
        assert(c2[m - 1] == c[m - 1]);
    }
}

/// Clearing a full counter and moving on keeps the potential.
proof fn lemma_potential_clear(c: Seq<usize>, i: int, m: int)
    requires
        1 <= i < m <= c.len(),
        c[i] as int == i,
    ensures
        heap_potential(c.update(i, 0usize), i + 1, m) == heap_potential(c, i, m),
    decreases m,
{
    let c2 = c.update(i, 0usize);
    lemma_potential_step(c, i, m);
    lemma_potential_step(c2, i + 1, m);
    if m > i + 1 {
        lemma_potential_clear(c, i, m - 1);
        assert(c2[m - 1] == c[m - 1]);
    } else {
        lemma_potential_same_below(c, c2, i, m - 1);
    }
}

/// Positions below `i` count as full whatever the counters hold.
proof fn lemma_potential_same_below(c: Seq<usize>, c2: Seq<usize>, i: int, m: int)
    requires
        1 <= m <= i,
    ensures
        heap_potential(c, i, m) == heap_potential(c2, i + 1, m),
    decreases m,
{
    if m > 1 {
        lemma_potential_same_below(c, c2, i, m - 1);
        lemma_potential_step(c, i, m);
        lemma_potential_step(c2, i + 1, m);
    }
}

// ─── executable reordering ──────────────────────────────────────────────────

pub(crate) fn identity_vec(k: usize) -> (v: Vec<usize>)
    ensures
        v@ == identity_order(k as int),
{
    let mut v: Vec<usize> = Vec::new();
    let mut j: usize = 0;
    while j < k
        invariant
            j <= k,
            v@ == identity_order(j as int),
        decreases k - j,
    {
        v.push(j);
        proof {
            assert(v@ =~= identity_order(j + 1));
        }
        j = j + 1;
    }
    v
}

pub(crate) fn copy_order(v: &Vec<usize>) -> (r: Vec<usize>)
    ensures
        r@ == v@,
{
    let mut r: Vec<usize> = Vec::new();
    let mut j: usize = 0;
    while j < v.len()
        invariant
            j <= v@.len(),
            r@ == v@.subrange(0, j as int),
        decreases v.len() - j,
    {
        r.push(v[j]);
        proof {
            assert(r@ =~= v@.subrange(0, j + 1));
        }
        j = j + 1;
    }
    proof {
        assert(v@.subrange(0, v@.len() as int) =~= v@);
    }
    r
}

pub(crate) fn swap_entries(v: &mut Vec<usize>, a: usize, b: usize)
    requires
        a < old(v)@.len(),
        b < old(v)@.len(),
    ensures
        final(v)@ == swapped(old(v)@, a as int, b as int),
{
    let x = v[a];
    let y = v[b];
    v.set(a, y);
    v.set(b, x);
}

pub(crate) fn permute(keys: &Vec<i64>, perm: &Vec<usize>) -> (r: Vec<i64>)
    requires
        forall|j: int| 0 <= j < perm@.len() ==> (#[trigger] perm@[j] as int) < keys@.len(),
    ensures
        r@ == permuted(keys@, perm@),
{
    let mut r: Vec<i64> = Vec::new();
    let mut j: usize = 0;
    while j < perm.len()
        invariant
            j <= perm@.len(),
            forall|q: int| 0 <= q < perm@.len() ==> (#[trigger] perm@[q] as int) < keys@.len(),
            r@ == permuted(keys@, perm@.subrange(0, j as int)),
        decreases perm.len() - j,
    {
        r.push(keys[perm[j]]);
        proof {
            assert(permuted(keys@, perm@.subrange(0, j + 1)) =~= permuted(keys@, perm@.subrange(0, j as int)).push(
                keys@[perm@[j as int] as int],
            ));
        }
        j = j + 1;
    }
    proof {
        assert(perm@.subrange(0, perm@.len() as int) =~= perm@);
    }
    r
}

/// Reorder the ends on one side of a node to reduce crossings, given
/// `keys[i]`, the position of end `i`'s other node along the side (see
/// `count_inversions`); returns the new order as indices into `keys`.
/// Up to 7 ends are searched exhaustively with Heap's algorithm, keeping
/// the first order with fewer crossings than any before and stopping at an
/// order without crossings; more ends get adjacent swaps of crossing pairs,
/// pass after pass, until a pass swaps nothing or `k * k` passes are done.
pub fn minimize_crossings(keys: &Vec<i64>) -> (order: Vec<usize>)
    requires
        keys@.len() * keys@.len() <= usize::MAX,
    ensures
        minimized(keys@, order@),
{
    let k = keys.len();
    let mut perm = identity_vec(k);
    if k <= 1 {
        return perm;
    }
    if k < 8 {
        proof {
            assert(permuted(keys@, identity_order(k as int)) =~= keys@);
        }
        let best0 = count_inversions(keys);
        if best0 == 0 {
            return perm;
        }
        let mut c: Vec<usize> = Vec::new();
        let mut z: usize = 0;
        while z < k
            invariant
                z <= k,
                c@ == Seq::new(z as nat, |j: int| 0usize),
            decreases k - z,
        {
            c.push(0);
            proof {
                assert(c@ =~= Seq::new((z + 1) as nat, |j: int| 0usize));
            }
            z = z + 1;
        }
        let mut best = best0;
        let mut best_perm = identity_vec(k);
        let mut i: usize = 1;
        let ghost start = heap_start(keys@);
        let ghost mut t: nat = 0;
        assert(heap_run(keys@, start, 0) == start);
        while i < k
            invariant
                k == keys@.len(),
                1 < k < 8,
                perm@.len() == k,
                c@.len() == k,
                best_perm@.len() == k,
                forall|j: int| 0 <= j < k ==> (#[trigger] perm@[j] as int) < k,
                1 <= i <= k,
                forall|j: int| 1 <= j < k ==> #[trigger] c@[j] as int <= j,
                forall|j: int| 1 <= j < i ==> #[trigger] c@[j] == 0,
                start == heap_start(keys@),
                crossings(keys@, identity_order(k as int)) != 0,
                heap_run(keys@, start, t) == (perm@, c@, i as int, best as int, best_perm@, false),
            decreases fact(k as int) - heap_potential(c@, i as int, k as int), k - i,
        {
            proof {
                lemma_potential_bound(c@, i as int, k as int);
            }
            let ghost st = (perm@, c@, i as int, best as int, best_perm@, false);
            if c[i] < i {
                let ci = c[i];
                if i % 2 == 0 {
                    swap_entries(&mut perm, 0, i);
                } else {
                    swap_entries(&mut perm, ci, i);
                }
                assert forall|j: int| 0 <= j < k implies (#[trigger] perm@[j] as int) < k by {
                    assert(perm@[j] == st.0[j] || perm@[j] == st.0[0] || perm@[j] == st.0[ci as int] || perm@[j]
                        == st.0[i as int]);
                }
                let temp = permute(keys, &perm);
                assert(temp@.len() * temp@.len() <= 64) by (nonlinear_arith)
                    requires
                        temp@.len() < 8,
                ;
                let inv = count_inversions(&temp);
                proof {
                    lemma_potential_swap(c@, i as int, k as int);
                }
                c.set(i, ci + 1);
                proof {
                    t = t + 1;
                    assert(heap_run(keys@, start, t) == heap_step(keys@, st));
                }
                if inv < best {
                    best = inv;
                    best_perm = copy_order(&perm);
                    if inv == 0 {
                        proof {
                            assert(heap_done(keys@, heap_run(keys@, heap_start(keys@), t)) && best_perm@
                                == heap_run(keys@, heap_start(keys@), t).4);
                        }
                        return best_perm;
                    }
                }
                i = 1;
                assert(heap_run(keys@, start, t) == (perm@, c@, i as int, best as int, best_perm@, false));
            } else {
                proof {
                    lemma_potential_clear(c@, i as int, k as int);
                }
                c.set(i, 0);
                i = i + 1;
                proof {
                    t = t + 1;
                    assert(heap_run(keys@, start, t) == heap_step(keys@, st));
                }
            }
        }
        proof {
            assert(heap_done(keys@, heap_run(keys@, heap_start(keys@), t)) && best_perm@ == heap_run(
                keys@,
                heap_start(keys@),
                t,
            ).4);
        }
        best_perm
    } else {
        let total = k * k;
        let ghost target = swap_passes(keys@, identity_order(k as int), total as int);
        let mut passes = total;
        let mut improved = true;
        while improved && passes > 0
            invariant
                k == keys@.len(),
                k >= 8,
                perm@.len() == k,
                forall|j: int| 0 <= j < k ==> (#[trigger] perm@[j] as int) < k,
                target == swap_passes(keys@, identity_order(k as int), (k * k) as int),
                improved ==> target == swap_passes(keys@, perm@, passes as int),
                !improved ==> target == perm@,
            decreases passes,
        {
            let ghost p0 = perm@;
            improved = false;
            passes = passes - 1;
            let mut j: usize = 0;
            while j < k - 1
                invariant
                    k == keys@.len(),
                    k >= 8,
                    j <= k - 1,
                    perm@.len() == k,
                    forall|q: int| 0 <= q < k ==> (#[trigger] perm@[q] as int) < k,
                    (perm@, improved) == swap_pass(keys@, p0, j as int),
                decreases k - 1 - j,
            {
                let ghost before = perm@;
                if keys[perm[j]] > keys[perm[j + 1]] {
                    swap_entries(&mut perm, j, j + 1);
                    improved = true;
                    assert forall|q: int| 0 <= q < k implies (#[trigger] perm@[q] as int) < k by {
                        assert(perm@[q] == before[q] || perm@[q] == before[j as int] || perm@[q] == before[j + 1]);
                    }
                }
                j = j + 1;
            }
        }
        perm
    }
}

} // verus!
