//! Spreading a node's edge ends over its sides: the surplus of a side with
//! more ends than connectors moves to the next side clockwise, and each
//! side's ends are spaced evenly over its connectors.
//!
//! Sides are numbered top 0, right 1, bottom 2, left 3.
use vstd::prelude::*;
use std::collections::HashMap;

use crate::grid::NodeFootprint;
use crate::ports::assignment::{EdgePorts, Port, Side};
use crate::ports::common::{
    enumerate_connectors,
    footprint_ok,
    frame_ok,
    side_connectors,
    spec_clockwise,
    spec_counter_clockwise,
    Connector,
};
use crate::ports::trellis_basic::unset_port;

verus! {

broadcast use vstd::std_specs::hash::group_hash_axioms;

/// An edge end at a node. `boundary_*` order the ends by how close the
/// direction to the other node lies to the nearest edge of each side's
/// sector, `center_*` by how close it lies to the middle of each side's
/// sector (smaller is closer): the angular distances, or any integers in
/// the same order.
#[derive(Debug, Clone, Copy, PartialEq, Eq, Structural)]
pub struct SideEnd {
    pub edge: usize,
    pub is_source: bool,
    pub boundary_top: i64,
    pub boundary_right: i64,
    pub boundary_bottom: i64,
    pub boundary_left: i64,
    pub center_top: i64,
    pub center_right: i64,
    pub center_bottom: i64,
    pub center_left: i64,
}

/// The number of a side.
pub open spec fn side_slot(s: Side) -> int {
    match s {
        Side::Top => 0,
        Side::Right => 1,
        Side::Bottom => 2,
        Side::Left => 3,
    }
}

/// The side with number `k`.
pub open spec fn slot_side(k: int) -> Side {
    if k == 0 {
        Side::Top
    } else if k == 1 {
        Side::Right
    } else if k == 2 {
        Side::Bottom
    } else {
        Side::Left
    }
}

/// How close an end lies to the boundary of side `s`'s sector.
pub open spec fn boundary_key(e: SideEnd, s: Side) -> i64 {
    match s {
        Side::Top => e.boundary_top,
        Side::Right => e.boundary_right,
        Side::Bottom => e.boundary_bottom,
        Side::Left => e.boundary_left,
    }
}

/// How close an end lies to the middle of side `s`'s sector.
pub open spec fn center_key(e: SideEnd, s: Side) -> i64 {
    match s {
        Side::Top => e.center_top,
        Side::Right => e.center_right,
        Side::Bottom => e.center_bottom,
        Side::Left => e.center_left,
    }
}

/// Index, among the first `k` ends, of the one closest to the boundary of
/// `s` (the last such on a tie); 0 for an empty list.
pub open spec fn closest_upto(list: Seq<SideEnd>, s: Side, k: int) -> int
    decreases k,
{
    if k <= 1 {
        0
    } else {
        let b = closest_upto(list, s, k - 1);
        if boundary_key(list[k - 1], s) <= boundary_key(list[b], s) {
            k - 1
        } else {
            b
        }
    }
}

/// The lists after moving ends off side `s` while it holds more than `cap`
/// (at most `fuel` moves): each move takes the end closest to the side's
/// boundary and appends it to the next side clockwise.
pub open spec fn move_surplus(lists: Seq<Seq<SideEnd>>, s: Side, cap: int, fuel: nat) -> Seq<Seq<SideEnd>>
    decreases fuel,
{
    let l = lists[side_slot(s)];
    if fuel == 0 || l.len() <= cap {
        lists
    } else {
        let i = closest_upto(l, s, l.len() as int);
        let t = side_slot(spec_clockwise(s));
        let moved = lists.update(side_slot(s), l.remove(i)).update(t, lists[t].push(l[i]));
        move_surplus(moved, s, cap, (fuel - 1) as nat)
    }
}

/// How many ends side `s` can hold: its connectors, and at least one.
pub open spec fn side_capacity(
    fp: NodeFootprint,
    diamond: bool,
    s: Side,
    cell_size: i32,
    offset_x: i32,
    offset_y: i32,
) -> int {
    let n = side_connectors(fp, diamond, s, cell_size, offset_x, offset_y).len() as int;
    if n > 1 {
        n
    } else {
        1
    }
}

/// The lists after the surplus of sides `0..k` was moved, side by side.
pub open spec fn overflow_upto(
    lists: Seq<Seq<SideEnd>>,
    fp: NodeFootprint,
    diamond: bool,
    cell_size: i32,
    offset_x: i32,
    offset_y: i32,
    k: int,
) -> Seq<Seq<SideEnd>>
    decreases k,
{
    if k <= 0 {
        lists
    } else {
        let prev = overflow_upto(lists, fp, diamond, cell_size, offset_x, offset_y, k - 1);
        let s = slot_side(k - 1);
        move_surplus(
            prev,
            s,
            side_capacity(fp, diamond, s, cell_size, offset_x, offset_y),
            prev[k - 1].len(),
        )
    }
}

/// The end lists as sequences.
pub open spec fn lists_view(v: Seq<Vec<SideEnd>>) -> Seq<Seq<SideEnd>> {
    v.map_values(|l: Vec<SideEnd>| l@)
}

fn closest_index(list: &Vec<SideEnd>, s: Side) -> (i: usize)
    requires
        list@.len() > 0,
    ensures
        i == closest_upto(list@, s, list@.len() as int),
        i < list@.len(),
{
    let mut best: usize = 0;
    let mut k: usize = 1;
    while k < list.len()
        invariant
            1 <= k <= list@.len(),
            best == closest_upto(list@, s, k as int),
            best < k,
        decreases list.len() - k,
    {
        let e = list[k];
        let b = list[best];
        let (ke, kb) = match s {
            Side::Top => (e.boundary_top, b.boundary_top),
            Side::Right => (e.boundary_right, b.boundary_right),
            Side::Bottom => (e.boundary_bottom, b.boundary_bottom),
            Side::Left => (e.boundary_left, b.boundary_left),
        };
        if ke <= kb {
            best = k;
        }
        k = k + 1;
    }
    best
}

fn slot_of(s: Side) -> (k: usize)
    ensures
        k == side_slot(s),
{
    match s {
        Side::Top => 0,
        Side::Right => 1,
        Side::Bottom => 2,
        Side::Left => 3,
    }
}

/// Move the surplus of every side clockwise, the sides taken top, right,
/// bottom, left (see `overflow_upto`); `lists[k]` holds the ends of side `k`.
pub fn handle_overflow(
    lists: &mut Vec<Vec<SideEnd>>,
    fp: NodeFootprint,
    diamond: bool,
    cell_size: i32,
    offset_x: i32,
    offset_y: i32,
)
    requires
        old(lists)@.len() == 4,
        footprint_ok(fp),
        frame_ok(cell_size, offset_x, offset_y),
    ensures
        final(lists)@.len() == 4,
        lists_view(final(lists)@) == overflow_upto(
            lists_view(old(lists)@),
            fp,
            diamond,
            cell_size,
            offset_x,
            offset_y,
            4,
        ),
{
    let ghost start = lists_view(lists@);
    let order = [Side::Top, Side::Right, Side::Bottom, Side::Left];
    let mut k: usize = 0;
    while k < 4
        invariant
            footprint_ok(fp),
            frame_ok(cell_size, offset_x, offset_y),
            order@ == seq![Side::Top, Side::Right, Side::Bottom, Side::Left],
            k <= 4,
            lists@.len() == 4,
            lists_view(lists@) == overflow_upto(start, fp, diamond, cell_size, offset_x, offset_y, k as int),
        decreases 4 - k,
    {
        let s = order[k];
        assert(s == slot_side(k as int));
        let si = slot_of(s);
        let ti = slot_of(match s {
            Side::Top => Side::Right,
            Side::Right => Side::Bottom,
            Side::Bottom => Side::Left,
            Side::Left => Side::Top,
        });
        assert(ti == side_slot(spec_clockwise(s)));
        let n = enumerate_connectors(fp, diamond, s, cell_size, offset_x, offset_y).len();
        let cap = if n > 1 {
            n
        } else {
            1
        };
        let ghost before = lists_view(lists@);
        proof {
            assert(si == k);
        }
        while lists[si].len() > cap
            invariant
                lists@.len() == 4,
                si < 4,
                ti < 4,
                si != ti,
                si == side_slot(s),
                ti == side_slot(spec_clockwise(s)),
                cap as int == side_capacity(fp, diamond, s, cell_size, offset_x, offset_y),
                move_surplus(before, s, cap as int, before[si as int].len()) == move_surplus(
                    lists_view(lists@),
                    s,
                    cap as int,
                    lists@[si as int]@.len(),
                ),
            decreases lists@[si as int]@.len(),
        {
            let ghost cur = lists_view(lists@);
            let i = closest_index(&lists[si], s);
            let e = lists[si].remove(i);
            lists[ti].push(e);
            proof {
                let l = cur[si as int];
                assert(lists_view(lists@) =~= cur.update(si as int, l.remove(i as int)).update(
                    ti as int,
                    cur[ti as int].push(l[i as int]),
                ));
            }
        }
        proof {
            assert(before[si as int] == before[k as int]);
        }
        k = k + 1;
    }
}

// ─── rebalancing congested sides ────────────────────────────────────────────

/// Index, among the first `k` ends, of the one closest to the middle of
/// side `t` (the first such on a tie); 0 for an empty list.
pub open spec fn nearest_center_upto(list: Seq<SideEnd>, t: Side, k: int) -> int
    decreases k,
{
    if k <= 1 {
        0
    } else {
        let b = nearest_center_upto(list, t, k - 1);
        if center_key(list[k - 1], t) < center_key(list[b], t) {
            k - 1
        } else {
            b
        }
    }
}

/// The load of a side over its capacity exceeds `num / den`.
pub open spec fn load_above(load: int, cap: int, num: int, den: int) -> bool {
    load * den > num * cap
}

/// The lists after one pass of rebalancing side `s`: when its load over
/// its capacity exceeds `high_num / high_den`, the less loaded of its two
/// neighbours (clockwise on a tie) takes the end closest to its own middle,
/// provided that neighbour's load is below `low_num / low_den` and `s`
/// keeps at least one end.
pub open spec fn rebalance_side(
    lists: Seq<Seq<SideEnd>>,
    s: Side,
    fp: NodeFootprint,
    diamond: bool,
    cell_size: i32,
    offset_x: i32,
    offset_y: i32,
    high_num: int,
    high_den: int,
    low_num: int,
    low_den: int,
) -> Seq<Seq<SideEnd>> {
    let load_s = lists[side_slot(s)].len() as int;
    let cap_s = side_capacity(fp, diamond, s, cell_size, offset_x, offset_y);
    let cw = spec_clockwise(s);
    let ccw = spec_counter_clockwise(s);
    let load_cw = lists[side_slot(cw)].len() as int;
    let cap_cw = side_capacity(fp, diamond, cw, cell_size, offset_x, offset_y);
    let load_ccw = lists[side_slot(ccw)].len() as int;
    let cap_ccw = side_capacity(fp, diamond, ccw, cell_size, offset_x, offset_y);
    let t = if load_cw * cap_ccw <= load_ccw * cap_cw {
        cw
    } else {
        ccw
    };
    let load_t = lists[side_slot(t)].len() as int;
    let cap_t = side_capacity(fp, diamond, t, cell_size, offset_x, offset_y);
    if !load_above(load_s, cap_s, high_num, high_den) {
        lists
    } else if !(load_t * low_den < low_num * cap_t) {
        lists
    } else if load_s <= 1 {
        lists
    } else {
        let list = lists[side_slot(s)];
        let i = nearest_center_upto(list, t, list.len() as int);
        lists.update(side_slot(s), list.remove(i)).update(side_slot(t), lists[side_slot(t)].push(list[i]))
    }
}

/// The lists after rebalancing sides `0..k`, in turn.
pub open spec fn rebalance_upto(
    lists: Seq<Seq<SideEnd>>,
    fp: NodeFootprint,
    diamond: bool,
    cell_size: i32,
    offset_x: i32,
    offset_y: i32,
    high_num: int,
    high_den: int,
    low_num: int,
    low_den: int,
    k: int,
) -> Seq<Seq<SideEnd>>
    decreases k,
{
    if k <= 0 {
        lists
    } else {
        rebalance_side(
            rebalance_upto(
                lists,
                fp,
                diamond,
                cell_size,
                offset_x,
                offset_y,
                high_num,
                high_den,
                low_num,
                low_den,
                k - 1,
            ),
            slot_side(k - 1),
            fp,
            diamond,
            cell_size,
            offset_x,
            offset_y,
            high_num,
            high_den,
            low_num,
            low_den,
        )
    }
}

fn nearest_center_index(list: &Vec<SideEnd>, t: Side) -> (i: usize)
    requires
        list@.len() > 0,
    ensures
        i == nearest_center_upto(list@, t, list@.len() as int),
        i < list@.len(),
{
    let mut best: usize = 0;
    let mut k: usize = 1;
    while k < list.len()
        invariant
            1 <= k <= list@.len(),
            best == nearest_center_upto(list@, t, k as int),
            best < k,
        decreases list.len() - k,
    {
        let e = list[k];
        let b = list[best];
        let (ke, kb) = match t {
            Side::Top => (e.center_top, b.center_top),
            Side::Right => (e.center_right, b.center_right),
            Side::Bottom => (e.center_bottom, b.center_bottom),
            Side::Left => (e.center_left, b.center_left),
        };
        if ke < kb {
            best = k;
        }
        k = k + 1;
    }
    best
}

fn capacity_of(fp: NodeFootprint, diamond: bool, s: Side, cell_size: i32, offset_x: i32, offset_y: i32) -> (c:
    u128)
    requires
        footprint_ok(fp),
        frame_ok(cell_size, offset_x, offset_y),
    ensures
        c as int == side_capacity(fp, diamond, s, cell_size, offset_x, offset_y),
        1 <= c <= 0x1_0000_0000,
{
    proof {
        lemma_side_connectors_len(fp, diamond, s, cell_size, offset_x, offset_y);
    }
    let n = enumerate_connectors(fp, diamond, s, cell_size, offset_x, offset_y).len();
    if n > 1 {
        n as u128
    } else {
        1
    }
}

/// Move one end off each side whose load over capacity exceeds
/// `high_num / high_den` to a neighbour below `low_num / low_den`, the
/// sides taken top, right, bottom, left (see `rebalance_side`).
pub fn rebalance_sides(
    lists: &mut Vec<Vec<SideEnd>>,
    fp: NodeFootprint,
    diamond: bool,
    cell_size: i32,
    offset_x: i32,
    offset_y: i32,
    high_num: u64,
    high_den: u64,
    low_num: u64,
    low_den: u64,
)
    requires
        old(lists)@.len() == 4,
        footprint_ok(fp),
        frame_ok(cell_size, offset_x, offset_y),
        high_den > 0,
        low_den > 0,
    ensures
        final(lists)@.len() == 4,
        lists_view(final(lists)@) == rebalance_upto(
            lists_view(old(lists)@),
            fp,
            diamond,
            cell_size,
            offset_x,
            offset_y,
            high_num as int,
            high_den as int,
            low_num as int,
            low_den as int,
            4,
        ),
{
    let ghost start = lists_view(lists@);
    let order = [Side::Top, Side::Right, Side::Bottom, Side::Left];
    let mut k: usize = 0;
    while k < 4
        invariant
            footprint_ok(fp),
            frame_ok(cell_size, offset_x, offset_y),
            order@ == seq![Side::Top, Side::Right, Side::Bottom, Side::Left],
            k <= 4,
            lists@.len() == 4,
            lists_view(lists@) == rebalance_upto(
                start,
                fp,
                diamond,
                cell_size,
                offset_x,
                offset_y,
                high_num as int,
                high_den as int,
                low_num as int,
                low_den as int,
                k as int,
            ),
        decreases 4 - k,
    {
        let ghost cur = lists_view(lists@);
        let s = order[k];
        assert(s == slot_side(k as int));
        let cw = match s {
            Side::Top => Side::Right,
            Side::Right => Side::Bottom,
            Side::Bottom => Side::Left,
            Side::Left => Side::Top,
        };
        let ccw = match s {
            Side::Top => Side::Left,
            Side::Right => Side::Top,
            Side::Bottom => Side::Right,
            Side::Left => Side::Bottom,
        };
        assert(cw == spec_clockwise(s) && ccw == spec_counter_clockwise(s));
        let si = slot_of(s);
        let cwi = slot_of(cw);
        let ccwi = slot_of(ccw);
        let load_s = lists[si].len() as u128;
        let load_cw = lists[cwi].len() as u128;
        let load_ccw = lists[ccwi].len() as u128;
        let cap_s = capacity_of(fp, diamond, s, cell_size, offset_x, offset_y);
        let cap_cw = capacity_of(fp, diamond, cw, cell_size, offset_x, offset_y);
        let cap_ccw = capacity_of(fp, diamond, ccw, cell_size, offset_x, offset_y);
        assert(load_cw * cap_ccw <= 0xFFFF_FFFF_FFFF_FFFF * 0x1_0000_0000) by (nonlinear_arith)
            requires
                load_cw <= 0xFFFF_FFFF_FFFF_FFFF,
                cap_ccw <= 0x1_0000_0000,
        ;
        assert(load_ccw * cap_cw <= 0xFFFF_FFFF_FFFF_FFFF * 0x1_0000_0000) by (nonlinear_arith)
            requires
                load_ccw <= 0xFFFF_FFFF_FFFF_FFFF,
                cap_cw <= 0x1_0000_0000,
        ;
        let to_cw = load_cw * cap_ccw <= load_ccw * cap_cw;
        let (t, ti, load_t, cap_t) = if to_cw {
            (cw, cwi, load_cw, cap_cw)
        } else {
            (ccw, ccwi, load_ccw, cap_ccw)
        };
        assert(load_s * (high_den as u128) <= 0xFFFF_FFFF_FFFF_FFFF * 0xFFFF_FFFF_FFFF_FFFF)
            by (nonlinear_arith)
            requires
                load_s <= 0xFFFF_FFFF_FFFF_FFFF,
                high_den <= 0xFFFF_FFFF_FFFF_FFFF,
        ;
        assert((high_num as u128) * cap_s <= 0xFFFF_FFFF_FFFF_FFFF * 0x1_0000_0000) by (nonlinear_arith)
            requires
                high_num <= 0xFFFF_FFFF_FFFF_FFFF,
                cap_s <= 0x1_0000_0000,
        ;
        assert(load_t * (low_den as u128) <= 0xFFFF_FFFF_FFFF_FFFF * 0xFFFF_FFFF_FFFF_FFFF) by (nonlinear_arith)
            requires
                load_t <= 0xFFFF_FFFF_FFFF_FFFF,
                low_den <= 0xFFFF_FFFF_FFFF_FFFF,
        ;
        assert((low_num as u128) * cap_t <= 0xFFFF_FFFF_FFFF_FFFF * 0x1_0000_0000) by (nonlinear_arith)
            requires
                low_num <= 0xFFFF_FFFF_FFFF_FFFF,
                cap_t <= 0x1_0000_0000,
        ;
        let congested = load_s * (high_den as u128) > (high_num as u128) * cap_s;
        let roomy = load_t * (low_den as u128) < (low_num as u128) * cap_t;
        if congested && roomy && load_s > 1 {
            let i = nearest_center_index(&lists[si], t);
            let e = lists[si].remove(i);
            lists[ti].push(e);
            proof {
                let l = cur[si as int];
                assert(lists_view(lists@) =~= cur.update(si as int, l.remove(i as int)).update(
                    ti as int,
                    cur[ti as int].push(l[i as int]),
                ));
            }
        } else {
            assert(lists_view(lists@) == cur);
        }
        k = k + 1;
    }
}

// ─── even spacing over the connectors ───────────────────────────────────────

/// The connector the `i`-th of `n_ends` ends on a side with `n_conn`
/// connectors takes: the middle one for a single end; else the position
/// `(i + 1) / (n_ends + 1)` of the way along, rounded half up, and at most
/// the last.
pub open spec fn spec_connector_index(i: int, n_ends: int, n_conn: int) -> int {
    if n_ends == 1 {
        n_conn / 2
    } else {
        let r = (2 * (i + 1) * n_conn + (n_ends + 1)) / (2 * (n_ends + 1));
        if r < n_conn - 1 {
            r
        } else {
            n_conn - 1
        }
    }
}

/// The connector index of the `i`-th of `n_ends` ends (see
/// `spec_connector_index`).
pub fn connector_index(i: usize, n_ends: usize, n_conn: usize) -> (r: usize)
    requires
        i < n_ends,
        0 < n_conn <= 0x1_0000_0000,
    ensures
        r == spec_connector_index(i as int, n_ends as int, n_conn as int),
        r < n_conn,
{
    if n_ends == 1 {
        return n_conn / 2;
    }
    assert(2 * (i + 1) * n_conn <= 2 * 0x1_0000_0000_0000_0000 * 0x1_0000_0000) by (nonlinear_arith)
        requires
            i + 1 <= 0x1_0000_0000_0000_0000,
            n_conn <= 0x1_0000_0000,
    ;
    let num = 2 * (i as u128 + 1) * (n_conn as u128) + (n_ends as u128 + 1);
    let den = 2 * (n_ends as u128 + 1);
    let r = num / den;
    if r < n_conn as u128 - 1 {
        r as usize
    } else {
        n_conn - 1
    }
}

/// The port of connector `c` on side `s`.
pub open spec fn port_of(c: Connector, s: Side) -> Port {
    Port { x: c.x, y: c.y, grid_row: c.grid_row, grid_col: c.grid_col, side: s }
}

/// The assignment after the first `k` ends of `list` took their connectors
/// on side `s`: each becomes the source or target port of its edge.
pub open spec fn place_ends(
    ports: Map<usize, EdgePorts>,
    list: Seq<SideEnd>,
    conns: Seq<Connector>,
    s: Side,
    k: int,
) -> Map<usize, EdgePorts>
    decreases k,
{
    if k <= 0 || conns.len() == 0 {
        ports
    } else {
        let prev = place_ends(ports, list, conns, s, k - 1);
        let e = list[k - 1];
        let c = conns[spec_connector_index(k - 1, list.len() as int, conns.len() as int)];
        let base = if prev.contains_key(e.edge) {
            prev[e.edge]
        } else {
            EdgePorts { source_port: unset_port(), target_port: unset_port() }
        };
        let ep = if e.is_source {
            EdgePorts { source_port: port_of(c, s), target_port: base.target_port }
        } else {
            EdgePorts { source_port: base.source_port, target_port: port_of(c, s) }
        };
        prev.insert(e.edge, ep)
    }
}

/// The assignment after the ends of sides `0..k` took their connectors.
pub open spec fn connectors_upto(
    ports: Map<usize, EdgePorts>,
    lists: Seq<Seq<SideEnd>>,
    fp: NodeFootprint,
    diamond: bool,
    cell_size: i32,
    offset_x: i32,
    offset_y: i32,
    k: int,
) -> Map<usize, EdgePorts>
    decreases k,
{
    if k <= 0 {
        ports
    } else {
        let prev = connectors_upto(ports, lists, fp, diamond, cell_size, offset_x, offset_y, k - 1);
        let s = slot_side(k - 1);
        let list = lists[k - 1];
        place_ends(
            prev,
            list,
            side_connectors(fp, diamond, s, cell_size, offset_x, offset_y),
            s,
            list.len() as int,
        )
    }
}

/// Give every end on the node's sides its connector: the ends of a side,
/// in list order, spread evenly over the side's connectors (see
/// `spec_connector_index`); a side without connectors is passed over.
pub fn assign_connectors(
    lists: &Vec<Vec<SideEnd>>,
    fp: NodeFootprint,
    diamond: bool,
    cell_size: i32,
    offset_x: i32,
    offset_y: i32,
    ports: &mut HashMap<usize, EdgePorts>,
)
    requires
        lists@.len() == 4,
        footprint_ok(fp),
        frame_ok(cell_size, offset_x, offset_y),
    ensures
        final(ports)@ == connectors_upto(
            old(ports)@,
            lists_view(lists@),
            fp,
            diamond,
            cell_size,
            offset_x,
            offset_y,
            4,
        ),
{
    let ghost start = ports@;
    let order = [Side::Top, Side::Right, Side::Bottom, Side::Left];
    let mut k: usize = 0;
    while k < 4
        invariant
            lists@.len() == 4,
            footprint_ok(fp),
            frame_ok(cell_size, offset_x, offset_y),
            order@ == seq![Side::Top, Side::Right, Side::Bottom, Side::Left],
            k <= 4,
            ports@ == connectors_upto(
                start,
                lists_view(lists@),
                fp,
                diamond,
                cell_size,
                offset_x,
                offset_y,
                k as int,
            ),
        decreases 4 - k,
    {
        let s = order[k];
        assert(s == slot_side(k as int));
        let list = &lists[k];
        let conns = enumerate_connectors(fp, diamond, s, cell_size, offset_x, offset_y);
        let ghost before = ports@;
        proof {
            lemma_side_connectors_len(fp, diamond, s, cell_size, offset_x, offset_y);
        }
        if conns.len() > 0 {
            let mut i: usize = 0;
            while i < list.len()
                invariant
                    0 < conns@.len() <= 0x1_0000_0000,
                    i <= list@.len(),
                    ports@ == place_ends(before, list@, conns@, s, i as int),
                decreases list.len() - i,
            {
                let e = list[i];
                let idx = connector_index(i, list.len(), conns.len());
                let c = conns[idx];
                let port = Port { x: c.x, y: c.y, grid_row: c.grid_row, grid_col: c.grid_col, side: s };
                let unset = Port { x: 0, y: 0, grid_row: 0, grid_col: 0, side: Side::Top };
                let base = match ports.get(&e.edge) {
                    Some(b) => *b,
                    None => EdgePorts { source_port: unset, target_port: unset },
                };
                let ep = if e.is_source {
                    EdgePorts { source_port: port, target_port: base.target_port }
                } else {
                    EdgePorts { source_port: base.source_port, target_port: port }
                };
                ports.insert(e.edge, ep);
                i = i + 1;
            }
        }
        proof {
            assert(lists_view(lists@)[k as int] == list@);
        }
        k = k + 1;
    }
}

proof fn lemma_side_connectors_len(
    fp: NodeFootprint,
    diamond: bool,
    s: Side,
    cell_size: i32,
    offset_x: i32,
    offset_y: i32,
)
    requires
        footprint_ok(fp),
    ensures
        side_connectors(fp, diamond, s, cell_size, offset_x, offset_y).len() <= 0x1_0000_0000,
{
}

} // verus!
