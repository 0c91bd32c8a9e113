//! Trellis Basic port assignment: each edge end takes the free connector
//! nearest the centre of the node face closest to the other node, searching
//! faces in order of preference; claims are booked so that later edge ends
//! see earlier ones.
use vstd::prelude::*;
use std::collections::HashMap;

use crate::grid::NodeFootprint;
use crate::placement::sugiyama::EdgeEnds;
use crate::ports::assignment::{EdgePorts, Port, Side};
use crate::ports::prepass::{apply_pinned, pinned_pair, PinnedPorts};
use crate::ports::common::{
    enumerate_connectors,
    footprint_ok,
    frame_ok,
    side_connectors,
    Connector,
};

verus! {

broadcast use vstd::std_specs::hash::group_hash_axioms;

/// The Trellis Basic strategy (greedy, centre-first, corner-distance sides).
#[derive(Debug, Clone, Copy, PartialEq, Eq, Structural)]
pub struct TrellisBasicAssigner;

/// A corner of a node's rectangle.
#[derive(Debug, Clone, Copy, PartialEq, Eq, Structural)]
pub enum Corner {
    Tl,
    Tr,
    Bl,
    Br,
}

/// Reading order of the corners: top-left, top-right, bottom-left,
/// bottom-right.
pub open spec fn spec_corner_rank(c: Corner) -> u8 {
    match c {
        Corner::Tl => 0,
        Corner::Tr => 1,
        Corner::Bl => 2,
        Corner::Br => 3,
    }
}

/// The two sides that meet at a corner, the horizontal one first.
pub open spec fn spec_corner_sides(c: Corner) -> (Side, Side) {
    match c {
        Corner::Tl => (Side::Top, Side::Left),
        Corner::Tr => (Side::Top, Side::Right),
        Corner::Bl => (Side::Bottom, Side::Left),
        Corner::Br => (Side::Bottom, Side::Right),
    }
}

/// The two corners of a side.
pub open spec fn spec_corners_of_side(side: Side) -> (Corner, Corner) {
    match side {
        Side::Top => (Corner::Tl, Corner::Tr),
        Side::Bottom => (Corner::Bl, Corner::Br),
        Side::Left => (Corner::Tl, Corner::Bl),
        Side::Right => (Corner::Tr, Corner::Br),
    }
}

/// Tie-break rank of a corner (reading order).
pub fn corner_rank(c: Corner) -> (r: u8)
    ensures
        r == spec_corner_rank(c),
{
    match c {
        Corner::Tl => 0,
        Corner::Tr => 1,
        Corner::Bl => 2,
        Corner::Br => 3,
    }
}

/// The two sides that meet at a corner.
pub fn corner_sides(c: Corner) -> (r: (Side, Side))
    ensures
        r == spec_corner_sides(c),
{
    match c {
        Corner::Tl => (Side::Top, Side::Left),
        Corner::Tr => (Side::Top, Side::Right),
        Corner::Bl => (Side::Bottom, Side::Left),
        Corner::Br => (Side::Bottom, Side::Right),
    }
}

/// The two corners of a side, in connector order (index 0, then index N-1).
pub fn corners_of_side(side: Side) -> (r: (Corner, Corner))
    ensures
        r == spec_corners_of_side(side),
{
    match side {
        Side::Top => (Corner::Tl, Corner::Tr),
        Side::Bottom => (Corner::Bl, Corner::Br),
        Side::Left => (Corner::Tl, Corner::Bl),
        Side::Right => (Corner::Tr, Corner::Br),
    }
}

/// Law: the corners of a side lie on that side, and come in increasing rank.
pub proof fn lemma_corners_of_side(side: Side)
    ensures
        ({
            let (c0, c1) = spec_corners_of_side(side);
            &&& (spec_corner_sides(c0).0 == side || spec_corner_sides(c0).1 == side)
            &&& (spec_corner_sides(c1).0 == side || spec_corner_sides(c1).1 == side)
            &&& spec_corner_rank(c0) < spec_corner_rank(c1)
        }),
{
}

/// `order` lists the four corners, each once (closest to the other node first).
pub open spec fn is_corner_order(order: Seq<Corner>) -> bool {
    order.len() == 4 && order.no_duplicates()
}

proof fn lemma_corner_order_complete(order: Seq<Corner>, c: Corner)
    requires
        is_corner_order(order),
    ensures
        order.contains(c),
{
    if !order.contains(c) {
        assert(order[0] != c && order[1] != c && order[2] != c && order[3] != c);
        assert(order[0] != order[1] && order[0] != order[2] && order[0] != order[3]);
        assert(order[1] != order[2] && order[1] != order[3] && order[2] != order[3]);
    }
}

/// `a` comes before `b` in `order`.
pub open spec fn comes_before(order: Seq<Corner>, a: Corner, b: Corner) -> bool {
    exists|i: int, j: int| 0 <= i < j < order.len() && order[i] == a && order[j] == b
}

/// Connector indices `(near, far)` of the two ends of a side with `n`
/// connectors: the end at the corner that comes first in `order` is near.
pub open spec fn spec_near_far(side: Side, order: Seq<Corner>, n: int) -> (int, int) {
    let (c0, c1) = spec_corners_of_side(side);
    if comes_before(order, c0, c1) {
        (0, n - 1)
    } else {
        (n - 1, 0)
    }
}

/// For a side with `n` connectors, `(near, far)`: the connector index of the
/// side's corner that is closer to the other node (the one listed first in
/// `order`, the corners sorted by distance, ties by rank) and of the other one.
pub fn near_far_end_indices(side: Side, order: &Vec<Corner>, n: usize) -> (r: (usize, usize))
    requires
        n > 0,
        is_corner_order(order@),
    ensures
        r.0 == spec_near_far(side, order@, n as int).0,
        r.1 == spec_near_far(side, order@, n as int).1,
{
    let (c0, c1) = corners_of_side(side);
    proof {
        lemma_corner_order_complete(order@, c0);
        lemma_corner_order_complete(order@, c1);
    }
    let mut i: usize = 0;
    while i < order.len()
        invariant
            is_corner_order(order@),
            i <= 4,
            n > 0,
            (c0, c1) == spec_corners_of_side(side),
            order@.contains(c0),
            order@.contains(c1),
            forall|k: int| 0 <= k < i ==> order@[k] != c0 && order@[k] != c1,
        decreases 4 - i,
    {
        if order[i] == c0 {
            proof {
                let j = choose|j: int| 0 <= j < 4 && order@[j] == c1;
                assert(j > i);
                assert(comes_before(order@, c0, c1));
            }
            return (0, n - 1);
        }
        if order[i] == c1 {
            proof {
                if comes_before(order@, c0, c1) {
                    let (a, b) = choose|a: int, b: int|
                        0 <= a < b < order@.len() && order@[a] == c0 && order@[b] == c1;
                    assert(order@[b] == order@[i as int]);
                }
            }
            return (n - 1, 0);
        }
        i = i + 1;
    }
    proof {
        let j = choose|j: int| 0 <= j < 4 && order@[j] == c0;
    }
    (n - 1, 0)
}

// ─── connector search ───────────────────────────────────────────────────────

/// The grid point of a connector has been claimed.
pub open spec fn is_claimed(claimed: Seq<(i64, i64)>, c: Connector) -> bool {
    claimed.contains((c.grid_row, c.grid_col))
}

/// Indices walked from `from` to `to`, both included, one step at a time.
pub open spec fn sweep(from: int, to: int) -> Seq<int> {
    if from <= to {
        Seq::new((to - from + 1) as nat, |k: int| from + k)
    } else {
        Seq::new((from - to + 1) as nat, |k: int| from - k)
    }
}

/// The first index along `idxs` whose connector is not claimed.
pub open spec fn first_free(conns: Seq<Connector>, idxs: Seq<int>, claimed: Seq<(i64, i64)>) -> Option<
    int,
>
    decreases idxs.len(),
{
    if idxs.len() == 0 {
        None
    } else if !is_claimed(claimed, conns[idxs[0]]) {
        Some(idxs[0])
    } else {
        first_free(conns, idxs.drop_first(), claimed)
    }
}

proof fn lemma_sweep_step(from: int, to: int)
    requires
        from != to,
    ensures
        sweep(from, to).len() > 0,
        sweep(from, to)[0] == from,
        sweep(from, to).drop_first() == sweep(if from < to { from + 1 } else { from - 1 }, to),
{
    let next = if from < to {
        from + 1
    } else {
        from - 1
    };
    assert(sweep(from, to).drop_first() =~= sweep(next, to));
}

proof fn lemma_first_free_in_range(conns: Seq<Connector>, idxs: Seq<int>, claimed: Seq<(i64, i64)>)
    ensures
        first_free(conns, idxs, claimed) matches Some(i) ==> idxs.contains(i) && !is_claimed(
            claimed,
            conns[i],
        ),
    decreases idxs.len(),
{
    if idxs.len() > 0 && is_claimed(claimed, conns[idxs[0]]) {
        lemma_first_free_in_range(conns, idxs.drop_first(), claimed);
        if first_free(conns, idxs.drop_first(), claimed) is Some {
            let i = first_free(conns, idxs.drop_first(), claimed)->0;
            let k = choose|k: int| 0 <= k < idxs.drop_first().len() && idxs.drop_first()[k] == i;
            assert(idxs[k + 1] == i);
        }
    }
}

fn claimed_contains(claimed: &Vec<(i64, i64)>, row: i64, col: i64) -> (r: bool)
    ensures
        r == claimed@.contains((row, col)),
{
    let mut i: usize = 0;
    while i < claimed.len()
        invariant
            i <= claimed@.len(),
            forall|k: int| 0 <= k < i ==> claimed@[k] != (row, col),
        decreases claimed@.len() - i,
    {
        let (r, c) = claimed[i];
        if r == row && c == col {
            return true;
        }
        i = i + 1;
    }
    false
}

/// Walk the connectors from index `from` to index `to` (both included) and
/// return the index of the first one whose grid point is not claimed.
pub fn first_unclaimed(connectors: &Vec<Connector>, from: usize, to: usize, claimed: &Vec<(i64, i64)>) -> (r:
    Option<usize>)
    requires
        connectors@.len() == 0 || (from < connectors@.len() && to < connectors@.len()),
    ensures
        connectors@.len() == 0 ==> r is None,
        r matches Some(i) ==> i < connectors@.len(),
        connectors@.len() > 0 ==> (first_free(connectors@, sweep(from as int, to as int), claimed@) matches Some(
            t,
        ) ==> 0 <= t < connectors@.len()),
        connectors@.len() > 0 ==> r == match first_free(
            connectors@,
            sweep(from as int, to as int),
            claimed@,
        ) {
            Some(i) => Some(i as usize),
            None => None::<usize>,
        },
{
    if connectors.len() == 0 {
        return None;
    }
    let ghost target = first_free(connectors@, sweep(from as int, to as int), claimed@);
    proof {
        lemma_first_free_in_range(connectors@, sweep(from as int, to as int), claimed@);
        if target is Some {
            let k = choose|k: int|
                0 <= k < sweep(from as int, to as int).len() && sweep(from as int, to as int)[k]
                    == target->0;
        }
    }
    let mut i = from;
    loop
        invariant
            from < connectors@.len(),
            to < connectors@.len(),
            i < connectors@.len(),
            target matches Some(t) ==> 0 <= t < connectors@.len(),
            target == first_free(connectors@, sweep(from as int, to as int), claimed@),
            from <= to ==> from <= i <= to,
            from > to ==> to <= i <= from,
            target == first_free(connectors@, sweep(i as int, to as int), claimed@),
        decreases if from <= to {
            to - i
        } else {
            i - to
        },
    {
        let c = connectors[i];
        let ghost sw = sweep(i as int, to as int);
        proof {
            assert(sw.len() > 0);
            assert(sw[0] == i);
        }
        if !claimed_contains(claimed, c.grid_row, c.grid_col) {
            proof {
                assert(!is_claimed(claimed@, connectors@[sw[0]]));
                assert(first_free(connectors@, sw, claimed@) == Some(i as int));
            }
            return Some(i);
        }
        if i == to {
            proof {
                assert(sw.drop_first() =~= Seq::<int>::empty());
                assert(is_claimed(claimed@, connectors@[sw[0]]));
                assert(first_free(connectors@, sw, claimed@) == first_free(
                    connectors@,
                    sw.drop_first(),
                    claimed@,
                ));
            }
            return None;
        }
        proof {
            lemma_sweep_step(i as int, to as int);
        }
        if to > i {
            i = i + 1;
        } else {
            i = i - 1;
        }
    }
}

/// The connector a side offers: walking from its centre to its near end,
/// then from its centre to its far end, the first one not claimed.
pub open spec fn side_pick(
    fp: NodeFootprint,
    diamond: bool,
    side: Side,
    order: Seq<Corner>,
    claimed: Seq<(i64, i64)>,
    cell_size: i32,
    offset_x: i32,
    offset_y: i32,
) -> Option<Connector> {
    let conns = side_connectors(fp, diamond, side, cell_size, offset_x, offset_y);
    let n = conns.len() as int;
    let center = n / 2;
    let (near, far) = spec_near_far(side, order, n);
    if n == 0 {
        None
    } else if let Some(i) = first_free(conns, sweep(center, near), claimed) {
        Some(conns[i])
    } else if let Some(i) = first_free(conns, sweep(center, far), claimed) {
        Some(conns[i])
    } else {
        None
    }
}

/// The first side of `sides` that offers a connector, with the connector.
pub open spec fn priority_pick(
    fp: NodeFootprint,
    diamond: bool,
    sides: Seq<Side>,
    order: Seq<Corner>,
    claimed: Seq<(i64, i64)>,
    cell_size: i32,
    offset_x: i32,
    offset_y: i32,
) -> Option<(Side, Connector)>
    decreases sides.len(),
{
    if sides.len() == 0 {
        None
    } else if let Some(c) = side_pick(
        fp,
        diamond,
        sides[0],
        order,
        claimed,
        cell_size,
        offset_x,
        offset_y,
    ) {
        Some((sides[0], c))
    } else {
        priority_pick(fp, diamond, sides.drop_first(), order, claimed, cell_size, offset_x, offset_y)
    }
}

/// The four sides in scanning order.
pub open spec fn scan_order() -> Seq<Side> {
    seq![Side::Top, Side::Right, Side::Bottom, Side::Left]
}

/// The first unclaimed connector of the first side in `sides` that has one,
/// each side read in connector order.
pub open spec fn scan_pick(
    fp: NodeFootprint,
    diamond: bool,
    sides: Seq<Side>,
    claimed: Seq<(i64, i64)>,
    cell_size: i32,
    offset_x: i32,
    offset_y: i32,
) -> Option<(Side, Connector)>
    decreases sides.len(),
{
    if sides.len() == 0 {
        None
    } else {
        let conns = side_connectors(fp, diamond, sides[0], cell_size, offset_x, offset_y);
        if conns.len() > 0 && first_free(conns, sweep(0, conns.len() - 1), claimed) is Some {
            Some((sides[0], conns[first_free(conns, sweep(0, conns.len() - 1), claimed)->0]))
        } else {
            scan_pick(fp, diamond, sides.drop_first(), claimed, cell_size, offset_x, offset_y)
        }
    }
}

/// Where an edge end attaches: the first priority side that offers a
/// connector; else the first unclaimed connector of any side, scanning
/// top, right, bottom, left; else the middle connector of the top side.
pub open spec fn chosen_connector(
    fp: NodeFootprint,
    diamond: bool,
    sides: Seq<Side>,
    order: Seq<Corner>,
    claimed: Seq<(i64, i64)>,
    cell_size: i32,
    offset_x: i32,
    offset_y: i32,
) -> (Side, Connector) {
    if let Some(p) = priority_pick(fp, diamond, sides, order, claimed, cell_size, offset_x, offset_y) {
        p
    } else if let Some(p) = scan_pick(fp, diamond, scan_order(), claimed, cell_size, offset_x, offset_y) {
        p
    } else {
        let top = side_connectors(fp, diamond, Side::Top, cell_size, offset_x, offset_y);
        (Side::Top, top[(top.len() / 2) as int])
    }
}

/// The search ends somewhere: the top side has a connector, or some side
/// has an unclaimed one.
pub open spec fn search_ends(
    fp: NodeFootprint,
    diamond: bool,
    claimed: Seq<(i64, i64)>,
    cell_size: i32,
    offset_x: i32,
    offset_y: i32,
) -> bool {
    side_connectors(fp, diamond, Side::Top, cell_size, offset_x, offset_y).len() > 0 || scan_pick(
        fp,
        diamond,
        scan_order(),
        claimed,
        cell_size,
        offset_x,
        offset_y,
    ) is Some
}

fn pick_on_side(
    fp: NodeFootprint,
    diamond: bool,
    side: Side,
    order: &Vec<Corner>,
    claimed: &Vec<(i64, i64)>,
    cell_size: i32,
    offset_x: i32,
    offset_y: i32,
) -> (r: Option<Connector>)
    requires
        footprint_ok(fp),
        frame_ok(cell_size, offset_x, offset_y),
        is_corner_order(order@),
    ensures
        r == side_pick(fp, diamond, side, order@, claimed@, cell_size, offset_x, offset_y),
{
    let connectors = enumerate_connectors(fp, diamond, side, cell_size, offset_x, offset_y);
    if connectors.len() == 0 {
        return None;
    }
    let n = connectors.len();
    let center_idx = n / 2;
    let (near_idx, far_idx) = near_far_end_indices(side, order, n);
    let ghost conns = side_connectors(fp, diamond, side, cell_size, offset_x, offset_y);
    let ghost near_pick = first_free(conns, sweep(center_idx as int, near_idx as int), claimed@);
    let ghost far_pick = first_free(conns, sweep(center_idx as int, far_idx as int), claimed@);
    match first_unclaimed(&connectors, center_idx, near_idx, claimed) {
        Some(idx) => {
            proof {
                assert(near_pick == Some(idx as int));
            }
            return Some(connectors[idx]);
        },
        None => {
            proof {
                assert(near_pick is None);
            }
        },
    }
    match first_unclaimed(&connectors, center_idx, far_idx, claimed) {
        Some(idx) => {
            proof {
                assert(far_pick == Some(idx as int));
            }
            Some(connectors[idx])
        },
        None => None,
    }
}

fn pick_scanning(
    fp: NodeFootprint,
    diamond: bool,
    side: Side,
    claimed: &Vec<(i64, i64)>,
    cell_size: i32,
    offset_x: i32,
    offset_y: i32,
) -> (r: Option<Connector>)
    requires
        footprint_ok(fp),
        frame_ok(cell_size, offset_x, offset_y),
    ensures
        ({
            let conns = side_connectors(fp, diamond, side, cell_size, offset_x, offset_y);
            r == if conns.len() > 0 && first_free(conns, sweep(0, conns.len() - 1), claimed@) is Some {
                Some(conns[first_free(conns, sweep(0, conns.len() - 1), claimed@)->0])
            } else {
                None
            }
        }),
{
    let connectors = enumerate_connectors(fp, diamond, side, cell_size, offset_x, offset_y);
    if connectors.len() == 0 {
        return None;
    }
    let ghost conns = side_connectors(fp, diamond, side, cell_size, offset_x, offset_y);
    let ghost pick = first_free(conns, sweep(0, conns.len() - 1), claimed@);
    match first_unclaimed(&connectors, 0, connectors.len() - 1, claimed) {
        Some(idx) => {
            proof {
                assert(pick == Some(idx as int));
            }
            Some(connectors[idx])
        },
        None => None,
    }
}

/// Whether the search for a connector ends (see `search_ends`): the top
/// side has a connector, or some side has an unclaimed one.
fn search_ends_at(
    fp: NodeFootprint,
    diamond: bool,
    claimed: &Vec<(i64, i64)>,
    cell_size: i32,
    offset_x: i32,
    offset_y: i32,
) -> (r: bool)
    requires
        footprint_ok(fp),
        frame_ok(cell_size, offset_x, offset_y),
    ensures
        r == search_ends(fp, diamond, claimed@, cell_size, offset_x, offset_y),
{
    let top = enumerate_connectors(fp, diamond, Side::Top, cell_size, offset_x, offset_y);
    if top.len() > 0 {
        return true;
    }
    let ghost scan = scan_order();
    let scan_sides = [Side::Top, Side::Right, Side::Bottom, Side::Left];
    proof {
        assert(scan_sides@ =~= scan);
        assert(scan.subrange(0, 4) =~= scan);
    }
    let mut k: usize = 0;
    while k < 4
        invariant
            footprint_ok(fp),
            frame_ok(cell_size, offset_x, offset_y),
            scan == scan_order(),
            scan_sides@ == scan,
            k <= 4,
            scan_pick(fp, diamond, scan, claimed@, cell_size, offset_x, offset_y) == scan_pick(
                fp,
                diamond,
                scan.subrange(k as int, 4),
                claimed@,
                cell_size,
                offset_x,
                offset_y,
            ),
        decreases 4 - k,
    {
        let side = scan_sides[k];
        let ghost rest = scan.subrange(k as int, 4);
        proof {
            assert(rest[0] == side);
            assert(rest.drop_first() =~= scan.subrange(k + 1, 4));
        }
        match pick_scanning(fp, diamond, side, claimed, cell_size, offset_x, offset_y) {
            Some(c) => {
                return true;
            },
            None => {},
        }
        k = k + 1;
    }
    proof {
        assert(scan.subrange(4, 4) =~= Seq::<Side>::empty());
    }
    false
}

/// Find the connector for an edge end: for each side in priority order,
/// walk from the side's centre toward its near end, then toward its far
/// end, and take the first unclaimed connector; failing that, scan all
/// sides; failing that, take the middle of the top side.
pub fn find_connector(
    fp: NodeFootprint,
    diamond: bool,
    priority_sides: &Vec<Side>,
    order: &Vec<Corner>,
    claimed: &Vec<(i64, i64)>,
    cell_size: i32,
    offset_x: i32,
    offset_y: i32,
) -> (r: (Side, Connector))
    requires
        footprint_ok(fp),
        frame_ok(cell_size, offset_x, offset_y),
        is_corner_order(order@),
        search_ends(fp, diamond, claimed@, cell_size, offset_x, offset_y),
    ensures
        r == chosen_connector(
            fp,
            diamond,
            priority_sides@,
            order@,
            claimed@,
            cell_size,
            offset_x,
            offset_y,
        ),
{
    let ghost sides = priority_sides@;
    proof {
        assert(sides.subrange(0, sides.len() as int) =~= sides);
    }
    let mut i: usize = 0;
    while i < priority_sides.len()
        invariant
            footprint_ok(fp),
            frame_ok(cell_size, offset_x, offset_y),
            is_corner_order(order@),
            sides == priority_sides@,
            i <= sides.len(),
            priority_pick(fp, diamond, sides, order@, claimed@, cell_size, offset_x, offset_y)
                == priority_pick(
                fp,
                diamond,
                sides.subrange(i as int, sides.len() as int),
                order@,
                claimed@,
                cell_size,
                offset_x,
                offset_y,
            ),
        decreases sides.len() - i,
    {
        let side = priority_sides[i];
        let ghost rest = sides.subrange(i as int, sides.len() as int);
        proof {
            assert(rest[0] == side);
            assert(rest.drop_first() =~= sides.subrange(i + 1, sides.len() as int));
        }
        match pick_on_side(fp, diamond, side, order, claimed, cell_size, offset_x, offset_y) {
            Some(c) => {
                return (side, c);
            },
            None => {},
        }
        i = i + 1;
    }
    proof {
        assert(sides.subrange(sides.len() as int, sides.len() as int) =~= Seq::<Side>::empty());
    }
    let ghost scan = scan_order();
    let scan_sides = [Side::Top, Side::Right, Side::Bottom, Side::Left];
    proof {
        assert(scan_sides@ =~= scan);
        assert(scan.subrange(0, 4) =~= scan);
    }
    let mut k: usize = 0;
    while k < 4
        invariant
            footprint_ok(fp),
            frame_ok(cell_size, offset_x, offset_y),
            scan == scan_order(),
            scan_sides@ == scan,
            sides == priority_sides@,
            k <= 4,
            priority_pick(fp, diamond, sides, order@, claimed@, cell_size, offset_x, offset_y) is None,
            scan_pick(fp, diamond, scan, claimed@, cell_size, offset_x, offset_y) == scan_pick(
                fp,
                diamond,
                scan.subrange(k as int, 4),
                claimed@,
                cell_size,
                offset_x,
                offset_y,
            ),
        decreases 4 - k,
    {
        let side = scan_sides[k];
        let ghost rest = scan.subrange(k as int, 4);
        proof {
            assert(rest[0] == side);
            assert(rest.drop_first() =~= scan.subrange(k + 1, 4));
        }
        match pick_scanning(fp, diamond, side, claimed, cell_size, offset_x, offset_y) {
            Some(c) => {
                proof {
                    assert(scan_pick(fp, diamond, rest, claimed@, cell_size, offset_x, offset_y) == Some(
                        (side, c),
                    ));
                }
                return (side, c);
            },
            None => {},
        }
        k = k + 1;
    }
    proof {
        assert(scan.subrange(4, 4) =~= Seq::<Side>::empty());
    }
    let connectors = enumerate_connectors(fp, diamond, Side::Top, cell_size, offset_x, offset_y);
    let idx = connectors.len() / 2;
    (Side::Top, connectors[idx])
}

/// Find the connector for an edge end (see `find_connector`) and book its
/// grid point, so that later edge ends of the node see the claim.
pub fn claim_connector(
    fp: NodeFootprint,
    diamond: bool,
    priority_sides: &Vec<Side>,
    order: &Vec<Corner>,
    claimed: &mut Vec<(i64, i64)>,
    cell_size: i32,
    offset_x: i32,
    offset_y: i32,
) -> (r: (Side, Connector))
    requires
        footprint_ok(fp),
        frame_ok(cell_size, offset_x, offset_y),
        is_corner_order(order@),
        search_ends(fp, diamond, old(claimed)@, cell_size, offset_x, offset_y),
    ensures
        r == chosen_connector(
            fp,
            diamond,
            priority_sides@,
            order@,
            old(claimed)@,
            cell_size,
            offset_x,
            offset_y,
        ),
        final(claimed)@ == old(claimed)@.push((r.1.grid_row, r.1.grid_col)),
{
    let r = find_connector(fp, diamond, priority_sides, order, claimed, cell_size, offset_x, offset_y);
    claimed.push((r.1.grid_row, r.1.grid_col));
    r
}

// ─── chosen connectors are free ─────────────────────────────────────────────

proof fn lemma_sweep_bounds(from: int, to: int, k: int)
    requires
        0 <= k < sweep(from, to).len(),
    ensures
        from <= to ==> from <= sweep(from, to)[k] <= to,
        to < from ==> to <= sweep(from, to)[k] <= from,
{
}

proof fn lemma_picked_from_sweep(conns: Seq<Connector>, from: int, to: int, claimed: Seq<(i64, i64)>)
    requires
        0 <= from < conns.len(),
        0 <= to < conns.len(),
    ensures
        first_free(conns, sweep(from, to), claimed) matches Some(i) ==> 0 <= i < conns.len()
            && !is_claimed(claimed, conns[i]) && conns.contains(conns[i]),
{
    lemma_first_free_in_range(conns, sweep(from, to), claimed);
    if first_free(conns, sweep(from, to), claimed) is Some {
        let i = first_free(conns, sweep(from, to), claimed)->0;
        let k = choose|k: int| 0 <= k < sweep(from, to).len() && sweep(from, to)[k] == i;
        lemma_sweep_bounds(from, to, k);
    }
}

proof fn lemma_side_pick_free(
    fp: NodeFootprint,
    diamond: bool,
    side: Side,
    order: Seq<Corner>,
    claimed: Seq<(i64, i64)>,
    cell_size: i32,
    offset_x: i32,
    offset_y: i32,
)
    ensures
        side_pick(fp, diamond, side, order, claimed, cell_size, offset_x, offset_y) matches Some(c)
            ==> !is_claimed(claimed, c) && side_connectors(
            fp,
            diamond,
            side,
            cell_size,
            offset_x,
            offset_y,
        ).contains(c),
{
    let conns = side_connectors(fp, diamond, side, cell_size, offset_x, offset_y);
    let n = conns.len() as int;
    if n > 0 {
        let center = n / 2;
        let (near, far) = spec_near_far(side, order, n);
        lemma_picked_from_sweep(conns, center, near, claimed);
        lemma_picked_from_sweep(conns, center, far, claimed);
    }
}

proof fn lemma_priority_pick_free(
    fp: NodeFootprint,
    diamond: bool,
    sides: Seq<Side>,
    order: Seq<Corner>,
    claimed: Seq<(i64, i64)>,
    cell_size: i32,
    offset_x: i32,
    offset_y: i32,
)
    ensures
        priority_pick(fp, diamond, sides, order, claimed, cell_size, offset_x, offset_y) matches Some(p)
            ==> !is_claimed(claimed, p.1) && side_connectors(
            fp,
            diamond,
            p.0,
            cell_size,
            offset_x,
            offset_y,
        ).contains(p.1),
    decreases sides.len(),
{
    if sides.len() > 0 {
        lemma_side_pick_free(fp, diamond, sides[0], order, claimed, cell_size, offset_x, offset_y);
        lemma_priority_pick_free(fp, diamond, sides.drop_first(), order, claimed, cell_size, offset_x, offset_y);
    }
}

proof fn lemma_scan_pick_free(
    fp: NodeFootprint,
    diamond: bool,
    sides: Seq<Side>,
    claimed: Seq<(i64, i64)>,
    cell_size: i32,
    offset_x: i32,
    offset_y: i32,
)
    ensures
        scan_pick(fp, diamond, sides, claimed, cell_size, offset_x, offset_y) matches Some(p) ==> !is_claimed(
            claimed,
            p.1,
        ) && side_connectors(fp, diamond, p.0, cell_size, offset_x, offset_y).contains(p.1),
    decreases sides.len(),
{
    if sides.len() > 0 {
        let conns = side_connectors(fp, diamond, sides[0], cell_size, offset_x, offset_y);
        if conns.len() > 0 {
            lemma_picked_from_sweep(conns, 0, conns.len() - 1, claimed);
        }
        lemma_scan_pick_free(fp, diamond, sides.drop_first(), claimed, cell_size, offset_x, offset_y);
    }
}

/// While some side of the node still has an unclaimed connector, the
/// connector chosen for an edge end is one of the node's connectors on the
/// chosen side and is not claimed yet: two edge ends of a node never share
/// a grid point until every connector is taken.
pub proof fn lemma_chosen_connector_is_free(
    fp: NodeFootprint,
    diamond: bool,
    sides: Seq<Side>,
    order: Seq<Corner>,
    claimed: Seq<(i64, i64)>,
    cell_size: i32,
    offset_x: i32,
    offset_y: i32,
)
    requires
        scan_pick(fp, diamond, scan_order(), claimed, cell_size, offset_x, offset_y) is Some,
    ensures
        ({
            let (side, c) = chosen_connector(fp, diamond, sides, order, claimed, cell_size, offset_x, offset_y);
            &&& !is_claimed(claimed, c)
            &&& side_connectors(fp, diamond, side, cell_size, offset_x, offset_y).contains(c)
        }),
{
    lemma_priority_pick_free(fp, diamond, sides, order, claimed, cell_size, offset_x, offset_y);
    lemma_scan_pick_free(fp, diamond, scan_order(), claimed, cell_size, offset_x, offset_y);
}

// ─── priority sides ─────────────────────────────────────────────────────────

/// The sides of `s[0..k)` in order, each kept at its first occurrence.
pub open spec fn first_occurrences(s: Seq<Side>, k: int) -> Seq<Side>
    decreases k,
{
    if k <= 0 {
        seq![]
    } else {
        let prev = first_occurrences(s, k - 1);
        if prev.contains(s[k - 1]) {
            prev
        } else {
            prev.push(s[k - 1])
        }
    }
}

/// The priority list of sides: the primary side of each corner, corners
/// taken closest first, with repeated sides dropped.
pub fn build_priority_sides(primary_sides: &Vec<Side>) -> (r: Vec<Side>)
    ensures
        r@ == first_occurrences(primary_sides@, primary_sides@.len() as int),
{
    let mut out: Vec<Side> = Vec::new();
    let mut i: usize = 0;
    while i < primary_sides.len()
        invariant
            i <= primary_sides.len(),
            out@ == first_occurrences(primary_sides@, i as int),
        decreases primary_sides.len() - i,
    {
        let side = primary_sides[i];
        let mut present = false;
        let mut j: usize = 0;
        while j < out.len()
            invariant
                j <= out.len(),
                present == (exists|t: int| 0 <= t < j && out@[t] == side),
            decreases out.len() - j,
        {
            if out[j] == side {
                present = true;
            }
            j = j + 1;
        }
        if !present {
            out.push(side);
        }
        i = i + 1;
    }
    out
}

// ─── the whole strategy ─────────────────────────────────────────────────────

/// One edge end to attach, in processing order: the node it attaches to,
/// the edge, which end it is, the sides to try first and the node's corners
/// ordered by distance to the other node.
#[derive(Debug, Clone)]
pub struct BasicStep {
    pub node: usize,
    pub edge: usize,
    pub is_source: bool,
    pub priority_sides: Vec<Side>,
    pub corner_order: Vec<Corner>,
}

/// Everything a Trellis Basic run reads: node footprints and shapes, the
/// edges, the edge ends in processing order, the pinned ports and the grid
/// frame.
pub struct BasicInput {
    pub footprints: Vec<NodeFootprint>,
    pub diamonds: Vec<bool>,
    pub edges: Vec<EdgeEnds>,
    pub steps: Vec<BasicStep>,
    pub pinned: HashMap<usize, PinnedPorts>,
    pub cell_size: i32,
    pub offset_x: i32,
    pub offset_y: i32,
}

/// The placeholder port an edge end has until it is assigned.
pub open spec fn unset_port() -> Port {
    Port { x: 0, y: 0, grid_row: 0, grid_col: 0, side: Side::Top }
}

/// The claim lists as sequences.
pub open spec fn claims_view(c: Seq<Vec<(i64, i64)>>) -> Seq<Seq<(i64, i64)>> {
    c.map_values(|v: Vec<(i64, i64)>| v@)
}

/// Claims booked by the pinned edges among the first `k`: each books its
/// source point on its source node and its target point on its target node.
pub open spec fn pinned_claims(inp: BasicInput, k: int) -> Seq<Seq<(i64, i64)>>
    decreases k,
{
    if k <= 0 {
        Seq::new(inp.footprints.len() as nat, |i: int| Seq::<(i64, i64)>::empty())
    } else {
        let prev = pinned_claims(inp, k - 1);
        let e = (k - 1) as usize;
        if inp.pinned@.contains_key(e) {
            let pp = inp.pinned@[e];
            let f = inp.edges@[k - 1].from as int;
            let t = inp.edges@[k - 1].to as int;
            let c1 = prev.update(f, prev[f].push((pp.source.grid_row, pp.source.grid_col)));
            c1.update(t, c1[t].push((pp.target.grid_row, pp.target.grid_col)))
        } else {
            prev
        }
    }
}

/// The connector chosen for step `s` given the claims so far.
pub open spec fn step_choice(inp: BasicInput, s: BasicStep, claims: Seq<Seq<(i64, i64)>>) -> (
    Side,
    Connector,
) {
    chosen_connector(
        inp.footprints@[s.node as int],
        inp.diamonds@[s.node as int],
        s.priority_sides@,
        s.corner_order@,
        claims[s.node as int],
        inp.cell_size,
        inp.offset_x,
        inp.offset_y,
    )
}

/// Claims and ports after the first `k` steps, from the pinned claims: a
/// step of a pinned edge is passed over; any other takes its chosen
/// connector, books it on its node and becomes the source or target port of
/// its edge (the other end stays unset until its own step).
pub open spec fn basic_run(inp: BasicInput, k: int) -> (Seq<Seq<(i64, i64)>>, Map<usize, EdgePorts>)
    decreases k,
{
    if k <= 0 {
        (pinned_claims(inp, inp.edges.len() as int), Map::empty())
    } else {
        let (claims, ports) = basic_run(inp, k - 1);
        let s = inp.steps@[k - 1];
        if inp.pinned@.contains_key(s.edge) {
            (claims, ports)
        } else {
            let (side, c) = step_choice(inp, s, claims);
            let port = Port { x: c.x, y: c.y, grid_row: c.grid_row, grid_col: c.grid_col, side };
            let base = if ports.contains_key(s.edge) {
                ports[s.edge]
            } else {
                EdgePorts { source_port: unset_port(), target_port: unset_port() }
            };
            let ep = if s.is_source {
                EdgePorts { source_port: port, target_port: base.target_port }
            } else {
                EdgePorts { source_port: base.source_port, target_port: port }
            };
            let n = s.node as int;
            (claims.update(n, claims[n].push((c.grid_row, c.grid_col))), ports.insert(s.edge, ep))
        }
    }
}

// ─── distinct slots ─────────────────────────────────────────────────────────

proof fn lemma_pinned_claims_len(inp: BasicInput, k: int)
    requires
        basic_input_ok(inp),
        k <= inp.edges.len(),
    ensures
        pinned_claims(inp, k).len() == inp.footprints.len(),
    decreases k,
{
    if k > 0 {
        lemma_pinned_claims_len(inp, k - 1);
        let prev = pinned_claims(inp, k - 1);
        let e = (k - 1) as usize;
        if inp.pinned@.contains_key(e) {
            let pp = inp.pinned@[e];
            let f = inp.edges@[k - 1].from as int;
            let t = inp.edges@[k - 1].to as int;
            let c1 = prev.update(f, prev[f].push((pp.source.grid_row, pp.source.grid_col)));
            assert(c1.len() == prev.len());
            assert(c1.update(t, c1[t].push((pp.target.grid_row, pp.target.grid_col))).len()
                == prev.len());
        }
    }
}

proof fn lemma_basic_run_len(inp: BasicInput, k: int)
    requires
        basic_input_ok(inp),
        k <= inp.steps.len(),
    ensures
        basic_run(inp, k).0.len() == inp.footprints.len(),
    decreases k,
{
    if k > 0 {
        lemma_basic_run_len(inp, k - 1);
        let (claims, ports) = basic_run(inp, k - 1);
        let s = inp.steps@[k - 1];
        if !inp.pinned@.contains_key(s.edge) {
            let c = step_choice(inp, s, claims).1;
            let n = s.node as int;
            assert(claims.update(n, claims[n].push((c.grid_row, c.grid_col))).len()
                == claims.len());
        }
    } else {
        lemma_pinned_claims_len(inp, inp.edges.len() as int);
    }
}

/// Claims are never given up: what a node has claimed after `j` steps it
/// still has after `k`.
proof fn lemma_claims_kept(inp: BasicInput, j: int, k: int, v: int, p: (i64, i64))
    requires
        basic_input_ok(inp),
        0 <= j <= k <= inp.steps.len(),
        0 <= v < inp.footprints.len(),
        basic_run(inp, j).0[v].contains(p),
    ensures
        basic_run(inp, k).0[v].contains(p),
    decreases k - j,
{
    if j < k {
        lemma_claims_kept(inp, j, k - 1, v, p);
        lemma_basic_run_len(inp, k - 1);
        let (claims, ports) = basic_run(inp, k - 1);
        let s = inp.steps@[k - 1];
        if !inp.pinned@.contains_key(s.edge) {
            let c = step_choice(inp, s, claims).1;
            let n = s.node as int;
            if v == n && 0 <= n < claims.len() {
                let i = choose|i: int| 0 <= i < claims[v].len() && claims[v][i] == p;
                assert(claims[v].push((c.grid_row, c.grid_col))[i] == p);
            }
        }
    }
}

/// Law: Trellis Basic never gives two edge ends on one node the same grid
/// point unless the last resort is taken: when a later step on the node
/// still finds an unclaimed connector somewhere, its point differs from
/// that of every earlier step on the node.
pub proof fn lemma_basic_slots_distinct(inp: BasicInput, j1: int, j2: int)
    requires
        basic_input_ok(inp),
        0 <= j1 < j2 < inp.steps.len(),
        inp.steps@[j1].node == inp.steps@[j2].node,
        !inp.pinned@.contains_key(inp.steps@[j1].edge),
        !inp.pinned@.contains_key(inp.steps@[j2].edge),
        scan_pick(
            inp.footprints@[inp.steps@[j2].node as int],
            inp.diamonds@[inp.steps@[j2].node as int],
            scan_order(),
            basic_run(inp, j2).0[inp.steps@[j2].node as int],
            inp.cell_size,
            inp.offset_x,
            inp.offset_y,
        ) is Some,
    ensures
        ({
            let c1 = step_choice(inp, inp.steps@[j1], basic_run(inp, j1).0).1;
            let c2 = step_choice(inp, inp.steps@[j2], basic_run(inp, j2).0).1;
            (c1.grid_row, c1.grid_col) != (c2.grid_row, c2.grid_col)
        }),
{
    let v = inp.steps@[j1].node as int;
    let s1 = inp.steps@[j1];
    let c1 = step_choice(inp, s1, basic_run(inp, j1).0).1;
    let p = (c1.grid_row, c1.grid_col);
    lemma_basic_run_len(inp, j1);
    let claims = basic_run(inp, j1).0;
    let after = basic_run(inp, j1 + 1).0;
    assert(after == claims.update(v, claims[v].push(p)));
    assert(after[v][claims[v].len() as int] == p);
    assert(after[v].contains(p));
    lemma_claims_kept(inp, j1 + 1, j2, v, p);
    let s2 = inp.steps@[j2];
    lemma_chosen_connector_is_free(
        inp.footprints@[v],
        inp.diamonds@[v],
        s2.priority_sides@,
        s2.corner_order@,
        basic_run(inp, j2).0[v],
        inp.cell_size,
        inp.offset_x,
        inp.offset_y,
    );
}

/// Every unpinned step among the first `k` has a connector to fall back on.
pub open spec fn never_stuck(inp: BasicInput, k: int) -> bool {
    forall|j: int|
        0 <= j < k && !inp.pinned@.contains_key(#[trigger] inp.steps@[j].edge) ==> search_ends(
            inp.footprints@[inp.steps@[j].node as int],
            inp.diamonds@[inp.steps@[j].node as int],
            basic_run(inp, j).0[inp.steps@[j].node as int],
            inp.cell_size,
            inp.offset_x,
            inp.offset_y,
        )
}

/// The assignment `ports` with every pinned edge given its pinned pair.
pub open spec fn with_pinned(ports: Map<usize, EdgePorts>, pinned: Map<usize, PinnedPorts>) -> Map<
    usize,
    EdgePorts,
> {
    Map::new(
        |k: usize| ports.contains_key(k) || pinned.contains_key(k),
        |k: usize|
            if pinned.contains_key(k) {
                pinned_pair(pinned[k])
            } else {
                ports[k]
            },
    )
}

/// The input is consistent: one shape flag per footprint, footprints and
/// frame within bounds, edges and steps naming known nodes, pinned ports
/// only on known edges, and each corner order listing the four corners.
pub open spec fn basic_input_ok(inp: BasicInput) -> bool {
    let n = inp.footprints.len();
    &&& inp.diamonds.len() == n
    &&& frame_ok(inp.cell_size, inp.offset_x, inp.offset_y)
    &&& forall|i: int| 0 <= i < n ==> footprint_ok(#[trigger] inp.footprints@[i])
    &&& forall|e: int|
        0 <= e < inp.edges.len() ==> (#[trigger] inp.edges@[e]).from < n && inp.edges@[e].to < n
    &&& forall|e: usize| #[trigger] inp.pinned@.contains_key(e) ==> e < inp.edges.len()
    &&& forall|j: int|
        0 <= j < inp.steps.len() ==> (#[trigger] inp.steps@[j]).node < n && is_corner_order(
            inp.steps@[j].corner_order@,
        )
}

/// Trellis Basic over all edge ends: the pinned edges book their points
/// first; then each step in turn takes the connector `find_connector`
/// chooses given the claims so far and books it; finally every pinned edge
/// gets its pinned pair.
pub fn assign_trellis_basic(inp: &BasicInput) -> (r: HashMap<usize, EdgePorts>)
    requires
        basic_input_ok(*inp),
        never_stuck(*inp, inp.steps.len() as int),
    ensures
        r@ == with_pinned(basic_run(*inp, inp.steps.len() as int).1, inp.pinned@),
{
    match try_assign_trellis_basic(inp) {
        Some(r) => r,
        None => {
            assert(false);
            HashMap::new()
        },
    }
}

/// Trellis Basic as `assign_trellis_basic`, checking before each unpinned
/// step that the search for its connector ends: `None` where some step
/// finds no connector at all (the top side empty and every connector
/// claimed).
pub fn try_assign_trellis_basic(inp: &BasicInput) -> (r: Option<HashMap<usize, EdgePorts>>)
    requires
        basic_input_ok(*inp),
    ensures
        r is Some <==> never_stuck(*inp, inp.steps.len() as int),
        r matches Some(m) ==> m@ == with_pinned(basic_run(*inp, inp.steps.len() as int).1, inp.pinned@),
{
    let n = inp.footprints.len();
    let mut claims: Vec<Vec<(i64, i64)>> = Vec::new();
    let mut i: usize = 0;
    while i < n
        invariant
            i <= n,
            n == inp.footprints.len(),
            claims@.len() == i,
            forall|j: int| 0 <= j < i ==> (#[trigger] claims@[j])@ == Seq::<(i64, i64)>::empty(),
        decreases n - i,
    {
        claims.push(Vec::new());
        i = i + 1;
    }
    proof {
        assert(claims_view(claims@) =~= pinned_claims(*inp, 0));
    }
    let mut e: usize = 0;
    while e < inp.edges.len()
        invariant
            basic_input_ok(*inp),
            n == inp.footprints.len(),
            e <= inp.edges.len(),
            claims@.len() == n,
            claims_view(claims@) == pinned_claims(*inp, e as int),
        decreases inp.edges.len() - e,
    {
        let ghost prev = pinned_claims(*inp, e as int);
        proof {
            assert(pinned_claims(*inp, e + 1) == (if inp.pinned@.contains_key(e) {
                let pp = inp.pinned@[e];
                let f = inp.edges@[e as int].from as int;
                let t = inp.edges@[e as int].to as int;
                let c1 = prev.update(f, prev[f].push((pp.source.grid_row, pp.source.grid_col)));
                c1.update(t, c1[t].push((pp.target.grid_row, pp.target.grid_col)))
            } else {
                prev
            }));
        }
        match inp.pinned.get(&e) {
            Some(pp) => {
                let f = inp.edges[e].from;
                let t = inp.edges[e].to;
                claims[f].push((pp.source.grid_row, pp.source.grid_col));
                let ghost c1 = claims_view(claims@);
                proof {
                    assert(c1 =~= prev.update(
                        f as int,
                        prev[f as int].push((pp.source.grid_row, pp.source.grid_col)),
                    ));
                }
                claims[t].push((pp.target.grid_row, pp.target.grid_col));
                proof {
                    assert(claims_view(claims@) =~= c1.update(
                        t as int,
                        c1[t as int].push((pp.target.grid_row, pp.target.grid_col)),
                    ));
                }
            },
            None => {},
        }
        e = e + 1;
    }
    let mut ports: HashMap<usize, EdgePorts> = HashMap::new();
    let mut k: usize = 0;
    while k < inp.steps.len()
        invariant
            basic_input_ok(*inp),
            never_stuck(*inp, k as int),
            n == inp.footprints.len(),
            k <= inp.steps.len(),
            claims@.len() == n,
            claims_view(claims@) == basic_run(*inp, k as int).0,
            ports@ == basic_run(*inp, k as int).1,
        decreases inp.steps.len() - k,
    {
        let step = &inp.steps[k];
        let ghost before = claims_view(claims@);
        if !inp.pinned.contains_key(&step.edge) {
            let node = step.node;
            assert(inp.steps@[k as int] == *step);
            assert(footprint_ok(inp.footprints@[node as int]));
            assert(claims_view(claims@)[node as int] == claims@[node as int]@);
            if !search_ends_at(inp.footprints[node], inp.diamonds[node], &claims[node], inp.cell_size, inp.offset_x, inp.offset_y) {
                proof {
                    assert(!never_stuck(*inp, inp.steps.len() as int)) by {
                        assert(inp.steps@[k as int].edge == step.edge);
                    }
                }
                return None;
            }
            let (side, c) = claim_connector(
                inp.footprints[node],
                inp.diamonds[node],
                &step.priority_sides,
                &step.corner_order,
                &mut claims[node],
                inp.cell_size,
                inp.offset_x,
                inp.offset_y,
            );
            proof {
                assert(claims_view(claims@) =~= before.update(
                    node as int,
                    before[node as int].push((c.grid_row, c.grid_col)),
                ));
            }
            let port = Port { x: c.x, y: c.y, grid_row: c.grid_row, grid_col: c.grid_col, side };
            let unset = Port { x: 0, y: 0, grid_row: 0, grid_col: 0, side: Side::Top };
            let base = match ports.get(&step.edge) {
                Some(b) => *b,
                None => EdgePorts { source_port: unset, target_port: unset },
            };
            let ep = if step.is_source {
                EdgePorts { source_port: port, target_port: base.target_port }
            } else {
                EdgePorts { source_port: base.source_port, target_port: port }
            };
            ports.insert(step.edge, ep);
        }
        proof {
            assert forall|j: int|
                0 <= j < k + 1 && !inp.pinned@.contains_key(#[trigger] inp.steps@[j].edge) implies search_ends(
                inp.footprints@[inp.steps@[j].node as int],
                inp.diamonds@[inp.steps@[j].node as int],
                basic_run(*inp, j).0[inp.steps@[j].node as int],
                inp.cell_size,
                inp.offset_x,
                inp.offset_y,
            ) by {
                if j < k {
                    assert(never_stuck(*inp, k as int));
                }
            }
        }
        k = k + 1;
    }
    let ghost run = basic_run(*inp, inp.steps.len() as int).1;
    apply_pinned(&mut ports, &inp.pinned);
    proof {
        assert(ports@ =~= with_pinned(run, inp.pinned@));
    }
    Some(ports)
}

} // verus!
