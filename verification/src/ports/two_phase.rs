//! The second step of the two-phase strategy: after each side has been
//! ordered on its own, passes of adjacent swaps over every side, keeping a
//! swap when it lowers the side's crossings.
use vstd::prelude::*;

use super::inversions::{
    count_inversions, crossings, identity_order, is_order_of, is_permutation, lemma_swapped_permutation, permute,
    swap_entries, swapped,
};

verus! {

/// Passes the refinement makes at most.
pub const REFINE_PASSES: usize = 3;

/// The first `j` adjacent pairs of one side after a pass: each pair is
/// swapped, and the swap kept when the side then has fewer crossings; the
/// flag tells whether a swap was kept.
pub open spec fn refine_pass(keys: Seq<i64>, perm: Seq<usize>, j: int) -> (Seq<usize>, bool)
    decreases j,
{
    if j <= 0 {
        (perm, false)
    } else {
        let (p, changed) = refine_pass(keys, perm, j - 1);
        let q = swapped(p, j - 1, j);
        if crossings(keys, q) < crossings(keys, p) {
            (q, true)
        } else {
            (p, changed)
        }
    }
}

/// One pass over the first `n` sides: each side's new order, and whether a
/// swap was kept on any of them.
pub open spec fn refine_sides(keys: Seq<Seq<i64>>, perms: Seq<Seq<usize>>, n: int) -> (Seq<Seq<usize>>, bool)
    decreases n,
{
    if n <= 0 {
        (seq![], false)
    } else {
        let (ps, changed) = refine_sides(keys, perms, n - 1);
        let (p, c) = refine_pass(keys[n - 1], perms[n - 1], keys[n - 1].len() - 1);
        (ps.push(p), changed || c)
    }
}

/// No side has crossings in the given orders.
pub open spec fn all_clear(keys: Seq<Seq<i64>>, perms: Seq<Seq<usize>>) -> bool {
    forall|s: int| 0 <= s < keys.len() ==> crossings(keys[s], #[trigger] perms[s]) == 0
}

/// Up to `passes` passes over all sides, stopping before a pass when no
/// side has crossings and after a pass that kept no swap.
pub open spec fn refine_passes(keys: Seq<Seq<i64>>, perms: Seq<Seq<usize>>, passes: int) -> Seq<Seq<usize>>
    decreases passes,
{
    if passes <= 0 || all_clear(keys, perms) {
        perms
    } else {
        let (ps, changed) = refine_sides(keys, perms, keys.len() as int);
        if changed {
            refine_passes(keys, ps, passes - 1)
        } else {
            ps
        }
    }
}

/// Each side's starting order: as given.
pub open spec fn identity_orders(keys: Seq<Seq<i64>>) -> Seq<Seq<usize>> {
    Seq::new(keys.len(), |s: int| identity_order(keys[s].len() as int))
}

/// The keys of each side.
pub open spec fn side_views(side_keys: Seq<Vec<i64>>) -> Seq<Seq<i64>> {
    side_keys.map_values(|v: Vec<i64>| v@)
}

/// The orders of each side.
pub open spec fn order_views(orders: Seq<Vec<usize>>) -> Seq<Seq<usize>> {
    orders.map_values(|v: Vec<usize>| v@)
}

fn side_crossings(keys: &Vec<i64>, perm: &Vec<usize>) -> (n: usize)
    requires
        is_order_of(perm@, keys@.len() as int),
        keys@.len() * keys@.len() <= usize::MAX,
    ensures
        n == crossings(keys@, perm@),
{
    let temp = permute(keys, perm);
    count_inversions(&temp)
}

/// One pass over one side (see `refine_pass`).
fn refine_side(keys: &Vec<i64>, perm: &mut Vec<usize>) -> (changed: bool)
    requires
        is_order_of(old(perm)@, keys@.len() as int),
        keys@.len() * keys@.len() <= usize::MAX,
    ensures
        is_order_of(final(perm)@, keys@.len() as int),
        (final(perm)@, changed) == refine_pass(keys@, old(perm)@, keys@.len() - 1),
{
    let k = keys.len();
    let ghost p0 = perm@;
    let mut changed = false;
    if k < 2 {
        return false;
    }
    let mut j: usize = 0;
    while j < k - 1
        invariant
            k == keys@.len(),
            k >= 2,
            j <= k - 1,
            keys@.len() * keys@.len() <= usize::MAX,
            is_order_of(perm@, k as int),
            (perm@, changed) == refine_pass(keys@, p0, j as int),
        decreases k - 1 - j,
    {
        let ghost before = perm@;
        let b = side_crossings(keys, perm);
        swap_entries(perm, j, j + 1);
        assert forall|q: int| 0 <= q < k implies (#[trigger] perm@[q] as int) < k by {
            assert(perm@[q] == before[q] || perm@[q] == before[j as int] || perm@[q] == before[j + 1]);
        }
        let a = side_crossings(keys, perm);
        if a < b {
            changed = true;
        } else {
            swap_entries(perm, j, j + 1);
            proof {
                assert(perm@ =~= before);
            }
        }
        j = j + 1;
    }
    changed
}

/// Whether the side has no crossings in the given order.
fn side_clear(keys: &Vec<i64>, perm: &Vec<usize>) -> (r: bool)
    requires
        is_order_of(perm@, keys@.len() as int),
        keys@.len() * keys@.len() <= usize::MAX,
    ensures
        r == (crossings(keys@, perm@) == 0),
{
    side_crossings(keys, perm) == 0
}

/// Global refinement over every side: `side_keys[s]` holds the positions of
/// side `s`'s ends' other nodes in its current port order (see
/// `count_inversions`). Up to `REFINE_PASSES` passes of adjacent swaps over
/// all sides (see `refine_passes`); gives each side's new order as indices
/// into its keys.
pub fn refine_side_orders(side_keys: &Vec<Vec<i64>>) -> (orders: Vec<Vec<usize>>)
    requires
        forall|s: int|
            0 <= s < side_keys@.len() ==> #[trigger] side_keys@[s]@.len() * side_keys@[s]@.len()
                <= usize::MAX,
    ensures
        order_views(orders@) == refine_passes(
            side_views(side_keys@),
            identity_orders(side_views(side_keys@)),
            REFINE_PASSES as int,
        ),
{
    let ghost keys = side_views(side_keys@);
    let n = side_keys.len();
    let mut orders: Vec<Vec<usize>> = Vec::new();
    let mut s: usize = 0;
    while s < n
        invariant
            n == side_keys@.len(),
            keys == side_views(side_keys@),
            s <= n,
            order_views(orders@) == identity_orders(keys).subrange(0, s as int),
            forall|t: int| 0 <= t < s ==> is_order_of(#[trigger] orders@[t]@, keys[t].len() as int),
        decreases n - s,
    {
        let v = super::inversions::identity_vec(side_keys[s].len());
        let ghost prev = orders@;
        orders.push(v);
        proof {
            assert(keys[s as int] == side_keys@[s as int]@);
            assert(identity_orders(keys)[s as int] == v@);
            assert(order_views(orders@) =~= order_views(prev).push(v@));
            assert(order_views(orders@) =~= identity_orders(keys).subrange(0, s + 1));
            assert(is_order_of(v@, keys[s as int].len() as int));
            assert forall|t: int| 0 <= t < s + 1 implies is_order_of(#[trigger] orders@[t]@, keys[t].len() as int) by {
                if t < s {
                    assert(orders@[t] == prev[t]);
                }
            }
        }
        s = s + 1;
    }
    proof {
        assert(order_views(orders@) =~= identity_orders(keys));
    }
    let ghost target = refine_passes(keys, identity_orders(keys), REFINE_PASSES as int);
    let mut passes: usize = REFINE_PASSES;
    loop
        invariant
            n == side_keys@.len(),
            n == orders@.len(),
            keys == side_views(side_keys@),
            forall|t: int|
                0 <= t < side_keys@.len() ==> #[trigger] side_keys@[t]@.len() * side_keys@[t]@.len()
                    <= usize::MAX,
            forall|t: int| 0 <= t < n ==> is_order_of(#[trigger] orders@[t]@, keys[t].len() as int),
            passes <= REFINE_PASSES,
            target == refine_passes(keys, identity_orders(keys), REFINE_PASSES as int),
            target == refine_passes(keys, order_views(orders@), passes as int),
        decreases passes,
    {
        if passes == 0 {
            return orders;
        }
        // stop when no side has crossings
        let mut clear = true;
        let mut t: usize = 0;
        while t < n
            invariant
                n == side_keys@.len(),
                n == orders@.len(),
                keys == side_views(side_keys@),
                forall|q: int|
                    0 <= q < side_keys@.len() ==> #[trigger] side_keys@[q]@.len() * side_keys@[q]@.len()
                        <= usize::MAX,
                forall|q: int| 0 <= q < n ==> is_order_of(#[trigger] orders@[q]@, keys[q].len() as int),
                t <= n,
                clear == forall|q: int| 0 <= q < t ==> crossings(keys[q], #[trigger] order_views(orders@)[q]) == 0,
            decreases n - t,
        {
            assert(keys[t as int] == side_keys@[t as int]@);
            assert(order_views(orders@)[t as int] == orders@[t as int]@);
            if !side_clear(&side_keys[t], &orders[t]) {
                clear = false;
            }
            t = t + 1;
        }
        if clear {
            proof {
                assert(all_clear(keys, order_views(orders@)));
            }
            return orders;
        }
        let ghost before = order_views(orders@);
        let mut changed = false;
        let mut u: usize = 0;
        let mut next: Vec<Vec<usize>> = Vec::new();
        while u < n
            invariant
                n == side_keys@.len(),
                n == orders@.len(),
                keys == side_views(side_keys@),
                before == order_views(orders@),
                forall|q: int|
                    0 <= q < side_keys@.len() ==> #[trigger] side_keys@[q]@.len() * side_keys@[q]@.len()
                        <= usize::MAX,
                forall|q: int| 0 <= q < n ==> is_order_of(#[trigger] orders@[q]@, keys[q].len() as int),
                u <= n,
                next@.len() == u,
                forall|q: int| 0 <= q < u ==> is_order_of(#[trigger] next@[q]@, keys[q].len() as int),
                (order_views(next@), changed) == refine_sides(keys, before, u as int),
            decreases n - u,
        {
            assert(keys[u as int] == side_keys@[u as int]@);
            let mut perm = super::inversions::copy_order(&orders[u]);
            let c = refine_side(&side_keys[u], &mut perm);
            let ghost prev = next@;
            next.push(perm);
            proof {
                assert(order_views(next@) =~= order_views(prev).push(perm@));
            }
            changed = changed || c;
            u = u + 1;
        }
        orders = next;
        passes = passes - 1;
        if !changed {
            return orders;
        }
    }
}

// ─── what the refinement keeps ──────────────────────────────────────────────

proof fn lemma_refine_pass_keeps(keys: Seq<i64>, perm: Seq<usize>, j: int)
    requires
        is_permutation(perm, keys.len() as int),
        j <= keys.len() - 1,
    ensures
        is_permutation(refine_pass(keys, perm, j).0, keys.len() as int),
        crossings(keys, refine_pass(keys, perm, j).0) <= crossings(keys, perm),
        !refine_pass(keys, perm, j).1 ==> refine_pass(keys, perm, j).0 == perm,
    decreases j,
{
    if j > 0 {
        lemma_refine_pass_keeps(keys, perm, j - 1);
        let p = refine_pass(keys, perm, j - 1).0;
        lemma_swapped_permutation(p, keys.len() as int, j - 1, j);
    }
}

proof fn lemma_refine_sides_entry(keys: Seq<Seq<i64>>, perms: Seq<Seq<usize>>, n: int, s: int)
    requires
        0 <= s < n,
    ensures
        refine_sides(keys, perms, n).0.len() == n,
        refine_sides(keys, perms, n).0[s] == refine_pass(keys[s], perms[s], keys[s].len() - 1).0,
        !refine_sides(keys, perms, n).1 ==> !refine_pass(keys[s], perms[s], keys[s].len() - 1).1,
    decreases n,
{
    if s < n - 1 {
        lemma_refine_sides_entry(keys, perms, n - 1, s);
    }
    lemma_refine_sides_len(keys, perms, n - 1);
}

proof fn lemma_refine_sides_len(keys: Seq<Seq<i64>>, perms: Seq<Seq<usize>>, n: int)
    requires
        0 <= n,
    ensures
        refine_sides(keys, perms, n).0.len() == n,
    decreases n,
{
    if n > 0 {
        lemma_refine_sides_len(keys, perms, n - 1);
    }
}

/// Every side's order is a permutation of its ends.
pub open spec fn all_permutations(keys: Seq<Seq<i64>>, perms: Seq<Seq<usize>>) -> bool {
    &&& perms.len() == keys.len()
    &&& forall|s: int| 0 <= s < keys.len() ==> is_permutation(#[trigger] perms[s], keys[s].len() as int)
}

proof fn lemma_refine_passes_keeps(keys: Seq<Seq<i64>>, perms: Seq<Seq<usize>>, passes: int)
    requires
        all_permutations(keys, perms),
    ensures
        all_permutations(keys, refine_passes(keys, perms, passes)),
        forall|s: int|
            0 <= s < keys.len() ==> crossings(keys[s], #[trigger] refine_passes(keys, perms, passes)[s])
                <= crossings(keys[s], perms[s]),
    decreases passes,
{
    if passes > 0 && !all_clear(keys, perms) {
        let n = keys.len() as int;
        let ps = refine_sides(keys, perms, n).0;
        lemma_refine_sides_len(keys, perms, n);
        assert forall|s: int| 0 <= s < n implies is_permutation(#[trigger] ps[s], keys[s].len() as int)
            && crossings(keys[s], ps[s]) <= crossings(keys[s], perms[s]) by {
            lemma_refine_sides_entry(keys, perms, n, s);
            lemma_refine_pass_keeps(keys[s], perms[s], keys[s].len() - 1);
        }
        if refine_sides(keys, perms, n).1 {
            lemma_refine_passes_keeps(keys, ps, passes - 1);
        }
    }
}

/// Law: the refinement only reorders: every side's result is a permutation
/// of its ends, with no more crossings than the order it started from.
pub proof fn lemma_refinement_only_reorders(keys: Seq<Seq<i64>>)
    requires
        forall|s: int| 0 <= s < keys.len() ==> #[trigger] keys[s].len() <= usize::MAX,
    ensures
        all_permutations(keys, refine_passes(keys, identity_orders(keys), REFINE_PASSES as int)),
        forall|s: int|
            0 <= s < keys.len() ==> crossings(
                keys[s],
                #[trigger] refine_passes(keys, identity_orders(keys), REFINE_PASSES as int)[s],
            ) <= crossings(keys[s], identity_order(keys[s].len() as int)),
{
    let ids = identity_orders(keys);
    assert forall|s: int| 0 <= s < keys.len() implies is_permutation(#[trigger] ids[s], keys[s].len() as int) by {
        assert(ids[s] == identity_order(keys[s].len() as int));
        assert(keys[s].len() <= usize::MAX);
    }
    lemma_refine_passes_keeps(keys, ids, REFINE_PASSES as int);
}

} // verus!
