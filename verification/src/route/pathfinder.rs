//! Negotiated-congestion routing (PathFinder) with bounded rip-up and
//! reroute on top of [`astar_route`].
//!
//! Each iteration rips up all committed dust, routes every net with A* on
//! the current cost map, and raises the current congestion of every
//! committed cell. A cell claimed by two or more nets is over-used: its
//! accumulated congestion is raised and the iteration is retried, up to
//! the configured cap.
use vstd::prelude::*;

use std::collections::BTreeMap;

use rayon::iter::{IntoParallelRefIterator, ParallelIterator};

use crate::error::RouteError;
use crate::geom::{all_directions, key_pos, manhattan, pos_key, Bbox3, Direction, Pos3};
use crate::grid3d::{key_lt, sorted_keys_of, NetTag};
use crate::route::astar::{allowed_step, astar_route, cheapest, cost_admissible, cost_path_ok};
use crate::route::cost::{CostMap, EdgeCostConfig};
use crate::route::lee::{annotate_with, segment_path, RouteSegment, RoutedWire, MAX_SIGNAL, is_repeater_index};
use crate::text::{net_label, net_label_text, pos_debug, pos_debug_text};

verus! {

/// Tunables of [`route_pathfinder`].
#[derive(Debug, Clone, Copy)]
pub struct PathFinderConfig {
    /// Edge-cost tuning.
    pub edge: EdgeCostConfig,
    /// Cap on iterations.
    pub max_iterations: u32,
    /// Accumulated-congestion bump per over-used cell per iteration.
    pub history_growth: u16,
    /// Current-congestion bump per committed cell per iteration.
    pub present_growth: u16,
    /// Cap on the cells A* may expand per net.
    pub max_explored_cells: usize,
    /// Whether committed dust shadows its six neighbours against foreign
    /// nets (pins exempt).
    pub adjacency_isolation: bool,
    /// Give up after this many consecutive iterations without progress in
    /// the congestion count; `0` disables the guard.
    pub stall_limit: u32,
}

impl Default for PathFinderConfig {
    /// Default edge costs, 8 iterations, history growth 8, present growth
    /// 2, 64 000 explored cells, adjacency isolation on, stall limit 6.
    fn default() -> (r: PathFinderConfig)
        ensures
            r.edge.straight_base == 1,
            r.edge.level_change_base == 3,
            r.edge.turn_penalty == 4,
            r.edge.down_penalty == 6,
            r.edge.up_penalty == 10,
            r.max_iterations == 8,
            r.history_growth == 8,
            r.present_growth == 2,
            r.max_explored_cells == 64_000,
            r.adjacency_isolation,
            r.stall_limit == 6,
    {
        PathFinderConfig {
            edge: EdgeCostConfig::default(),
            max_iterations: 8,
            history_growth: 8,
            present_growth: 2,
            max_explored_cells: 64_000,
            adjacency_isolation: true,
            stall_limit: 6,
        }
    }
}

/// Facing of a repeater at `path[i]` in a negotiated route: the
/// direction its output points, that of the horizontal move into `path[i]`
/// (East when there is none).
pub open spec fn pf_facing(path: Seq<Pos3>, i: int) -> Direction {
    let prev = if i == 0 { path[0] } else { path[i - 1] };
    let cur = path[i];
    if cur.x > prev.x {
        Direction::East
    } else if cur.x < prev.x {
        Direction::West
    } else if cur.z > prev.z {
        Direction::South
    } else if cur.z < prev.z {
        Direction::North
    } else {
        Direction::East
    }
}

/// Segments of a negotiated route.
pub open spec fn pf_annotated(path: Seq<Pos3>) -> Seq<RouteSegment> {
    annotate_with(path, |p: Seq<Pos3>, i: int| pf_facing(p, i))
}

fn facing_for(path: &Vec<Pos3>, i: usize) -> (d: Direction)
    requires
        i < path@.len(),
    ensures
        d == pf_facing(path@, i as int),
{
    let prev = if i == 0 { path[0] } else { path[i - 1] };
    let cur = path[i];
    if cur.x > prev.x {
        Direction::East
    } else if cur.x < prev.x {
        Direction::West
    } else if cur.z > prev.z {
        Direction::South
    } else if cur.z < prev.z {
        Direction::North
    } else {
        Direction::East
    }
}

/// Segments of a negotiated path: a repeater on every fifteenth cell.
fn path_to_segments(path: &Vec<Pos3>) -> (segs: Vec<RouteSegment>)
    ensures
        segs@ == pf_annotated(path@),
{
    let mut segs: Vec<RouteSegment> = Vec::new();
    let mut run: u8 = 0;
    for i in 0..path.len()
        invariant
            run as int == (i as int) % (MAX_SIGNAL as int),
            segs@ == pf_annotated(path@).take(i as int),
    {
        let p = path[i];
        if run >= MAX_SIGNAL - 1 {
            let facing = facing_for(path, i);
            segs.push(RouteSegment::Repeater { pos: p, facing });
            run = 0;
        } else {
            segs.push(RouteSegment::Dust { pos: p });
            run = run + 1;
        }
        proof {
            assert(segs@ =~= pf_annotated(path@).take(i as int + 1));
        }
    }
    proof {
        assert(segs@ =~= pf_annotated(path@));
    }
    segs
}

/// `p` runs from `source` to `sink` in unit steps without repeating a
/// cell.
pub open spec fn plain_path_ok(source: Pos3, sink: Pos3, p: Seq<Pos3>) -> bool {
    &&& p.len() >= 1
    &&& p[0] == source
    &&& p.last() == sink
    &&& p.no_duplicates()
    &&& forall|i: int| 0 <= i < p.len() - 1 ==> manhattan(#[trigger] p[i], p[i + 1]) == 1
}

/// Wire `w` routes `route` as the negotiated router lays it out.
pub open spec fn wire_ok(route: (NetTag, Pos3, Pos3), w: RoutedWire) -> bool {
    &&& w.net == route.0
    &&& plain_path_ok(route.1, route.2, segment_path(w.segments@))
    &&& w.segments@ == pf_annotated(segment_path(w.segments@))
}

/// No cell is used by wires of two different nets.
pub open spec fn no_shared_cells(ws: Seq<RoutedWire>) -> bool {
    forall|i: int, j: int, a: int, b: int|
        0 <= i < ws.len() && 0 <= j < ws.len() && ws[i].net != ws[j].net && 0 <= a
            < ws[i].segments@.len() && 0 <= b < ws[j].segments@.len() ==> (#[trigger] ws[i].segments@[a]).spec_pos()
            != (#[trigger] ws[j].segments@[b]).spec_pos()
}

/// Every cell of `p` after the first lies in `b`.
pub open spec fn path_in(b: Bbox3, p: Seq<Pos3>) -> bool {
    forall|i: int| 1 <= i < p.len() ==> b.spec_contains(#[trigger] p[i])
}

/// An A* path enters only cells of the routing region.
proof fn lemma_cost_path_in(cost: CostMap, net: NetTag, sources: Seq<Pos3>, sink: Pos3, p: Seq<Pos3>)
    requires
        cost_path_ok(cost, net, sources, sink, p),
    ensures
        path_in(cost.bounds, p),
{
    assert forall|i: int| 1 <= i < p.len() implies cost.bounds.spec_contains(#[trigger] p[i]) by {
        assert(allowed_step(cost, net, p[i - 1], p[i - 1 + 1]));
    }
}

/// `b` keeps every entry of `a`, none lowered.
pub open spec fn grows(a: Map<(i32, i32, i32), u16>, b: Map<(i32, i32, i32), u16>) -> bool {
    forall|k: (i32, i32, i32)| #[trigger] a.contains_key(k) ==> b.contains_key(k) && a[k] <= b[k]
}

/// Bumping never lowers an entry.
proof fn lemma_bumped_grows(m: Map<(i32, i32, i32), u16>, cells: Seq<Pos3>, delta: u16)
    ensures
        grows(m, crate::route::cost::bumped(m, cells, delta)),
    decreases cells.len(),
{
    if cells.len() > 0 {
        lemma_bumped_grows(m, cells.drop_last(), delta);
    }
}

/// No cell of `p` sits next to a cell of `q`, pins excepted.
pub open spec fn far_apart(p: Seq<Pos3>, q: Seq<Pos3>, pins: Set<(i32, i32, i32)>) -> bool {
    forall|a: int, b: int|
        0 <= a < p.len() && 0 <= b < q.len() && !pins.contains(pos_key(#[trigger] p[a])) && !pins.contains(
            pos_key(#[trigger] q[b]),
        ) ==> manhattan(p[a], q[b]) != 1
}

/// Any two planned paths of routes of different nets are far apart.
pub open spec fn paths_isolated(
    paths: Seq<Option<Vec<Pos3>>>,
    routes: Seq<(NetTag, Pos3, Pos3)>,
    pins: Set<(i32, i32, i32)>,
) -> bool {
    forall|i: int, j: int|
        0 <= i < paths.len() && 0 <= j < paths.len() && i != j && routes[i].0 != routes[j].0 && (
        #[trigger] paths[i]) is Some && (#[trigger] paths[j]) is Some ==> far_apart(
            paths[i].unwrap()@,
            paths[j].unwrap()@,
            pins,
        )
}

/// Any two wires of different nets are far apart: no dust of one net
/// sits next to dust of another, pins excepted.
pub open spec fn wires_isolated(ws: Seq<RoutedWire>, pins: Set<(i32, i32, i32)>) -> bool {
    forall|i: int, j: int|
        0 <= i < ws.len() && 0 <= j < ws.len() && i != j && ws[i].net != ws[j].net ==> far_apart(
            segment_path((#[trigger] ws[i]).segments@),
            segment_path((#[trigger] ws[j]).segments@),
            pins,
        )
}

/// Cells at Manhattan distance one are one step apart.
proof fn lemma_neighbour_step(q: Pos3, c: Pos3)
    requires
        manhattan(q, c) == 1,
    ensures
        exists|d: Direction| q.can_step(d) && #[trigger] q.spec_step(d) == c,
{
    if c.x == q.x + 1 {
        assert(q.spec_step(Direction::East) == c);
    } else if c.x == q.x - 1 {
        assert(q.spec_step(Direction::West) == c);
    } else if c.y == q.y + 1 {
        assert(q.spec_step(Direction::Up) == c);
    } else if c.y == q.y - 1 {
        assert(q.spec_step(Direction::Down) == c);
    } else if c.z == q.z + 1 {
        assert(q.spec_step(Direction::South) == c);
    } else {
        assert(q.spec_step(Direction::North) == c);
    }
}

/// An A* result for a single source is a plain path from it.
proof fn lemma_cost_path_plain(cost: CostMap, net: NetTag, source: Pos3, sink: Pos3, p: Seq<Pos3>)
    requires
        cost_path_ok(cost, net, seq![source], sink, p),
    ensures
        plain_path_ok(source, sink, p),
{
    assert forall|i: int| 0 <= i < p.len() - 1 implies manhattan(#[trigger] p[i], p[i + 1]) == 1 by {
        assert(allowed_step(cost, net, p[i], p[i + 1]));
        let d = choose|d: Direction|
            p[i].can_step(d) && #[trigger] p[i].spec_step(d) == p[i + 1] && !cost.edge_forbidden(p[i], d, p[i + 1], net);
        assert(p[i].spec_step(d) == p[i + 1]);
    }
}

/// The routes' A* paths on a shared snapshot of the cost map, computed in
/// parallel with rayon's `par_iter`; element `i` is what [`astar_route`]
/// returns for route `i`.
#[verifier::external_body]
fn par_astar_all(cost: &CostMap, routes: &[(NetTag, Pos3, Pos3)], cfg: &PathFinderConfig) -> (r: Vec<
    Option<Vec<Pos3>>,
>)
    requires
        cfg.edge.fits(),
    ensures
        r@.len() == routes@.len(),
        forall|i: int|
            0 <= i < r@.len() ==> ((#[trigger] r@[i]) matches Some(p) ==> cost_path_ok(
                *cost,
                routes@[i].0,
                seq![routes@[i].1],
                routes@[i].2,
                p@,
            )),
        forall|i: int|
            0 <= i < r@.len() && routes@[i].1 == routes@[i].2 ==> (#[trigger] r@[i] matches Some(p) && p@
                == seq![routes@[i].2]),
        forall|i: int|
            0 <= i < r@.len() ==> ((#[trigger] r@[i]) matches Some(p) ==> (cost_admissible(cfg.edge) ==> cheapest(
                *cost,
                routes@[i].0,
                cfg.edge,
                seq![routes@[i].1],
                routes@[i].2,
                p@,
            ))),
{
    routes.par_iter().map(
        |r: &(NetTag, Pos3, Pos3)| astar_route(cost, r.0, r.1, r.2, &cfg.edge, cfg.max_explored_cells),
    ).collect()
}

/// `p` is a neighbour of `cell` inside the routing region of `c`, not a
/// pin and not owned by `net`: a cell that `net`'s dust at `cell` shadows.
pub open spec fn shadow_target(c: CostMap, cell: Pos3, net: NetTag, p: Pos3) -> bool {
    exists|d: Direction|
        cell.can_step(d) && #[trigger] cell.spec_step(d) == p && c.bounds.spec_contains(p) && !c.is_pin(p)
            && !c.owned_by(p, net)
}

/// `p` is shadowed from `cell` by one of the first `n` directions.
spec fn shadow_target_upto(c: CostMap, cell: Pos3, net: NetTag, p: Pos3, n: int) -> bool {
    exists|j: int|
        0 <= j < n && cell.can_step(all_directions()[j]) && #[trigger] cell.spec_step(all_directions()[j]) == p
            && c.bounds.spec_contains(p) && !c.is_pin(p) && !c.owned_by(p, net)
}

/// `p` is shadowed by `net` or contested in `c`.
spec fn shadow_claimed(c: CostMap, p: Pos3, net: NetTag) -> bool {
    ||| (c.shadows@.contains_key(pos_key(p)) && c.shadows@[pos_key(p)] == net)
    ||| c.contested@.contains(pos_key(p))
}

/// Casts the adjacency shadow of `net`'s dust at `cell` onto its six
/// neighbours inside the routing region that are not pins: each such
/// neighbour not owned by `net` and not yet shadowed becomes shadowed by
/// `net`; existing shadows are kept.
fn shadow_neighbours(cost: &mut CostMap, cell: Pos3, net: NetTag)
    ensures
        forall|k: (i32, i32, i32)|
            #[trigger] final(cost).shadows@.contains_key(k) <==> old(cost).shadows@.contains_key(k) || shadow_target(
                *old(cost),
                cell,
                net,
                key_pos(k),
            ),
        forall|k: (i32, i32, i32)|
            #[trigger] old(cost).shadows@.contains_key(k) ==> final(cost).shadows@[k] == old(cost).shadows@[k],
        forall|k: (i32, i32, i32)|
            #[trigger] final(cost).shadows@.contains_key(k) && !old(cost).shadows@.contains_key(k)
                ==> final(cost).shadows@[k] == net,
        forall|k: (i32, i32, i32)| #[trigger] old(cost).contested@.contains(k) ==> final(cost).contested@.contains(k),
        forall|d: Direction|
            cell.can_step(d) && old(cost).bounds.spec_contains(cell.spec_step(d)) && !old(cost).is_pin(cell.spec_step(d))
                && !old(cost).owned_by(cell.spec_step(d), net) ==> shadow_claimed(*final(cost), #[trigger] cell.spec_step(d), net),
        final(cost).bounds == old(cost).bounds,
        final(cost).cells@ == old(cost).cells@,
        final(cost).present_cost@ == old(cost).present_cost@,
        final(cost).history_cost@ == old(cost).history_cost@,
        final(cost).assigned@ == old(cost).assigned@,
        final(cost).pins@ == old(cost).pins@,
{
    let ghost c0 = *cost;
    for di in 0..6usize
        invariant
            cost.bounds == c0.bounds,
            cost.cells@ == c0.cells@,
            cost.present_cost@ == c0.present_cost@,
            cost.history_cost@ == c0.history_cost@,
            cost.assigned@ == c0.assigned@,
            cost.pins@ == c0.pins@,
            c0 == *old(cost),
            forall|k: (i32, i32, i32)|
                #[trigger] cost.shadows@.contains_key(k) <==> c0.shadows@.contains_key(k) || shadow_target_upto(
                    c0,
                    cell,
                    net,
                    key_pos(k),
                    di as int,
                ),
            forall|k: (i32, i32, i32)| #[trigger] c0.shadows@.contains_key(k) ==> cost.shadows@[k] == c0.shadows@[k],
            forall|k: (i32, i32, i32)|
                #[trigger] cost.shadows@.contains_key(k) && !c0.shadows@.contains_key(k) ==> cost.shadows@[k] == net,
            forall|k: (i32, i32, i32)| #[trigger] c0.contested@.contains(k) ==> cost.contested@.contains(k),
            forall|j: int|
                0 <= j < di && cell.can_step(all_directions()[j]) && c0.bounds.spec_contains(
                    cell.spec_step(all_directions()[j]),
                ) && !c0.is_pin(cell.spec_step(all_directions()[j])) && !c0.owned_by(cell.spec_step(all_directions()[j]), net)
                    ==> shadow_claimed(*cost, #[trigger] cell.spec_step(all_directions()[j]), net),
    {
        let d = Direction::nth(di);
        let ghost cb = *cost;
        let ghost s0 = cost.shadows@;
        let ghost hit = cell.can_step(d) && c0.bounds.spec_contains(cell.spec_step(d)) && !c0.is_pin(cell.spec_step(d))
            && !c0.owned_by(cell.spec_step(d), net);
        if let Some(n) = cell.checked_step(d) {
            if cost.bounds.contains(n) && !cost.pins.contains(&n.key()) {
                cost.mark_shadow(n, net);
            }
        }
        proof {
            assert forall|j: int|
                0 <= j < di + 1 && cell.can_step(all_directions()[j]) && c0.bounds.spec_contains(
                    cell.spec_step(all_directions()[j]),
                ) && !c0.is_pin(cell.spec_step(all_directions()[j])) && !c0.owned_by(cell.spec_step(all_directions()[j]), net)
                    implies shadow_claimed(*cost, #[trigger] cell.spec_step(all_directions()[j]), net) by {
                let q = cell.spec_step(all_directions()[j]);
                if j < di {
                    assert(shadow_claimed(cb, q, net));
                    if cb.shadows@.contains_key(pos_key(q)) {
                        assert(cost.shadows@.contains_key(pos_key(q)));
                    }
                } else {
                    assert(all_directions()[j] == d);
                    assert(c0.owned_by(q, net) == cb.owned_by(q, net));
                }
            }
        }
        proof {
            assert forall|k: (i32, i32, i32)| #[trigger] cost.shadows@.contains_key(k) <==> c0.shadows@.contains_key(k)
                || shadow_target_upto(c0, cell, net, key_pos(k), di as int + 1) by {
                if shadow_target_upto(c0, cell, net, key_pos(k), di as int + 1) && !shadow_target_upto(
                    c0,
                    cell,
                    net,
                    key_pos(k),
                    di as int,
                ) {
                    let j = choose|j: int|
                        0 <= j < di as int + 1 && cell.can_step(all_directions()[j]) && #[trigger] cell.spec_step(
                            all_directions()[j],
                        ) == key_pos(k) && c0.bounds.spec_contains(key_pos(k)) && !c0.is_pin(key_pos(k))
                            && !c0.owned_by(key_pos(k), net);
                    assert(j == di as int);
                    assert(pos_key(key_pos(k)) == k);
                }
                if shadow_target_upto(c0, cell, net, key_pos(k), di as int) {
                    let j = choose|j: int|
                        0 <= j < di as int && cell.can_step(all_directions()[j]) && #[trigger] cell.spec_step(
                            all_directions()[j],
                        ) == key_pos(k) && c0.bounds.spec_contains(key_pos(k)) && !c0.is_pin(key_pos(k))
                            && !c0.owned_by(key_pos(k), net);
                    assert(shadow_target_upto(c0, cell, net, key_pos(k), di as int + 1));
                }
                if hit && k == pos_key(cell.spec_step(d)) {
                    assert(key_pos(k) == cell.spec_step(all_directions()[di as int]));
                    assert(shadow_target_upto(c0, cell, net, key_pos(k), di as int + 1));
                }
                if k != pos_key(cell.spec_step(d)) || !cell.can_step(d) {
                    assert(cost.shadows@.contains_key(k) == s0.contains_key(k));
                    if shadow_target_upto(c0, cell, net, key_pos(k), di as int + 1) {
                        let j = choose|j: int|
                            0 <= j < di as int + 1 && cell.can_step(all_directions()[j]) && #[trigger] cell.spec_step(
                                all_directions()[j],
                            ) == key_pos(k) && c0.bounds.spec_contains(key_pos(k)) && !c0.is_pin(key_pos(k))
                                && !c0.owned_by(key_pos(k), net);
                        if j == di as int {
                            assert(pos_key(key_pos(k)) == k);
                        }
                    }
                }
            }
        }
    }
    proof {
        assert forall|d: Direction|
            cell.can_step(d) && c0.bounds.spec_contains(cell.spec_step(d)) && !c0.is_pin(cell.spec_step(d))
                && !c0.owned_by(cell.spec_step(d), net) implies shadow_claimed(*cost, #[trigger] cell.spec_step(d), net) by {
            let j: int = match d {
                Direction::North => 0,
                Direction::South => 1,
                Direction::East => 2,
                Direction::West => 3,
                Direction::Up => 4,
                Direction::Down => 5,
            };
            assert(all_directions()[j] == d);
        }
        assert forall|k: (i32, i32, i32)| shadow_target_upto(c0, cell, net, key_pos(k), 6) <==> #[trigger] shadow_target(
            c0,
            cell,
            net,
            key_pos(k),
        ) by {
            if shadow_target_upto(c0, cell, net, key_pos(k), 6) {
                let j = choose|j: int|
                    0 <= j < 6 && cell.can_step(all_directions()[j]) && #[trigger] cell.spec_step(all_directions()[j])
                        == key_pos(k) && c0.bounds.spec_contains(key_pos(k)) && !c0.is_pin(key_pos(k)) && !c0.owned_by(
                        key_pos(k),
                        net,
                    );
                let dd = all_directions()[j];
                assert(cell.spec_step(dd) == key_pos(k));
            }
            if shadow_target(c0, cell, net, key_pos(k)) {
                let dd = choose|dd: Direction|
                    cell.can_step(dd) && #[trigger] cell.spec_step(dd) == key_pos(k) && c0.bounds.spec_contains(key_pos(k))
                        && !c0.is_pin(key_pos(k)) && !c0.owned_by(key_pos(k), net);
                let j: int = match dd {
                    Direction::North => 0,
                    Direction::South => 1,
                    Direction::East => 2,
                    Direction::West => 3,
                    Direction::Up => 4,
                    Direction::Down => 5,
                };
                assert(all_directions()[j] == dd);
            }
        }
    }
}

/// Key of a position in `(x, y, z)` order, the order over-used cells are
/// reported in.
pub open spec fn xyz_key(p: Pos3) -> (i32, i32, i32) {
    (p.x, p.y, p.z)
}

/// Text of an over-used cell's diagnostic label.
pub open spec fn overuse_label_text(p: Pos3) -> Seq<char> {
    "overuse@"@ + pos_debug_text(p)
}

/// The names reported when negotiation gives up: either all of them are
/// labels of unrouted nets, or (when every net routed) all of them are
/// labels of over-used cells.
pub open spec fn convergence_names_ok(names: Seq<String>, routes: Seq<(NetTag, Pos3, Pos3)>) -> bool {
    ||| (forall|j: int|
        0 <= j < names.len() ==> exists|i: int|
            0 <= i < routes.len() && (#[trigger] names[j])@ == net_label_text(routes[i].0.0))
    ||| (forall|j: int| 0 <= j < names.len() ==> is_overuse_label((#[trigger] names[j])@))
}

/// `s` is the label of some over-used cell.
pub open spec fn is_overuse_label(s: Seq<char>) -> bool {
    exists|p: Pos3| s == #[trigger] overuse_label_text(p)
}

/// Route every source-to-sink pair by negotiated congestion. Every source
/// and sink becomes a pin. `Ok` holds one wire per route, in order, each
/// a unit-step path from its source to its sink with a repeater on every
/// fifteenth cell, and no cell shared by two nets. When the iteration cap
/// or the stall guard is reached first,
/// [`RouteError::ConvergenceExhausted`] names the unrouted nets (or, when
/// all routed, the over-used cells), the iteration count (the cap itself,
/// unless the stall guard stopped it), and the number of over-used cells.
/// The cost map keeps its region, cell attributes and pins (gaining the
/// routes' ends as pins); accumulated congestion never drops. Every cell
/// of a routed wire after its source lies inside the routing region, and
/// with adjacency isolation on and every route on its own net, no dust of
/// one wire sits next to dust of another (pins excepted).
pub fn route_pathfinder(
    cost: &mut CostMap,
    routes: &[(NetTag, Pos3, Pos3)],
    cfg: &PathFinderConfig,
) -> (r: Result<Vec<RoutedWire>, RouteError>)
    requires
        cfg.edge.fits(),
    ensures
        final(cost).bounds == old(cost).bounds,
        final(cost).cells@ == old(cost).cells@,
        forall|k: (i32, i32, i32)| #[trigger] old(cost).pins@.contains(k) ==> final(cost).pins@.contains(k),
        grows(old(cost).history_cost@, final(cost).history_cost@),
        r matches Ok(ws) ==> forall|k: int|
            0 <= k < ws@.len() ==> path_in(old(cost).bounds, segment_path((#[trigger] ws@[k]).segments@)),
        r matches Ok(ws) ==> (cfg.adjacency_isolation ==> wires_isolated(ws@, final(cost).pins@)),
        forall|i: int|
            0 <= i < routes@.len() ==> final(cost).pins@.contains(pos_key((#[trigger] routes@[i]).1))
                && final(cost).pins@.contains(pos_key(routes@[i].2)),
        r matches Ok(ws) ==> ws@.len() == routes@.len() && (forall|i: int|
            0 <= i < ws@.len() ==> wire_ok(routes@[i], #[trigger] ws@[i])) && no_shared_cells(ws@),
        r matches Err(e) ==> (e matches RouteError::ConvergenceExhausted {
            unrouted,
            iterations,
            peak_congestion,
        } && iterations <= cfg.max_iterations && (iterations == cfg.max_iterations || (cfg.stall_limit != 0
            && iterations + 1 >= cfg.stall_limit))
            && unrouted@.len() > 0 && convergence_names_ok(unrouted@, routes@)),
{
    for i in 0..routes.len()
        invariant
            forall|j: int|
                0 <= j < i ==> cost.pins@.contains(pos_key((#[trigger] routes@[j]).1))
                    && cost.pins@.contains(pos_key(routes@[j].2)),
            cost.bounds == old(cost).bounds,
            cost.cells@ == old(cost).cells@,
            cost.history_cost@ == old(cost).history_cost@,
            forall|k: (i32, i32, i32)| #[trigger] old(cost).pins@.contains(k) ==> cost.pins@.contains(k),
    {
        cost.mark_pin(routes[i].1);
        cost.mark_pin(routes[i].2);
    }
    let mut attempt: u32 = 0;
    let mut best_congestion: usize = usize::MAX;
    let mut stale: u32 = 0;
    loop
        invariant
            cfg.edge.fits(),
            attempt <= cfg.max_iterations,
            forall|j: int|
                0 <= j < routes@.len() ==> cost.pins@.contains(pos_key((#[trigger] routes@[j]).1))
                    && cost.pins@.contains(pos_key(routes@[j].2)),
            cost.bounds == old(cost).bounds,
            cost.cells@ == old(cost).cells@,
            grows(old(cost).history_cost@, cost.history_cost@),
            forall|k: (i32, i32, i32)| #[trigger] old(cost).pins@.contains(k) ==> cost.pins@.contains(k),
            stale <= attempt,
        decreases cfg.max_iterations - attempt,
    {
        cost.clear_iteration_state();
        let paths = plan_paths(cost, routes, cfg);
        let ghost pins_plan = cost.pins@;
        let (committed, unrouted, owners) = commit_paths(cost, routes, &paths, cfg);
        let overused = overused_cells(&owners);
        if overused.len() == 0 && unrouted.len() == 0 {
            proof {
                lemma_uncontested_unshared(owners@, committed@);
                if cfg.adjacency_isolation {
                    assert forall|x: int, y: int| 0 <= x < committed@.len() && 0 <= y < committed@.len() && x != y
                        && committed@[x].net != committed@[y].net implies far_apart(
                        segment_path((#[trigger] committed@[x]).segments@),
                        segment_path((#[trigger] committed@[y]).segments@),
                        cost.pins@,
                    ) by {
                        assert(laid_from(paths@[x], committed@[x]) && laid_from(paths@[y], committed@[y]));
                        assert(far_apart(paths@[x].unwrap()@, paths@[y].unwrap()@, pins_plan));
                    }
                }
            }
            return Ok(committed);
        }
        let total = if overused.len() <= usize::MAX - unrouted.len() {
            overused.len() + unrouted.len()
        } else {
            usize::MAX
        };
        if total < best_congestion {
            best_congestion = total;
            stale = 0;
        } else {
            stale = stale.saturating_add(1);
        }
        let stalled = cfg.stall_limit != 0 && stale >= cfg.stall_limit;
        if attempt >= cfg.max_iterations || stalled {
            let peak = #[verifier::truncate] (overused.len() as u32);
            let names = if unrouted.len() == 0 {
                overuse_labels(&overused)
            } else {
                unrouted
            };
            proof {
                if unrouted@.len() == 0 {
                    assert(overused@.len() > 0);
                    assert forall|j: int| 0 <= j < names@.len() implies is_overuse_label(
                        (#[trigger] names@[j])@,
                    ) by {
                        assert(names@[j]@ == overuse_label_text(overused@[j]));
                    }
                } else {
                    assert(labels_of(names@, routes@));
                }
                assert(names@.len() > 0);
                assert(convergence_names_ok(names@, routes@));
            }
            return Err(
                RouteError::ConvergenceExhausted {
                    unrouted: names,
                    iterations: attempt,
                    peak_congestion: peak,
                },
            );
        }
        let ghost h0 = cost.history_cost@;
        cost.bump_history(&overused, cfg.history_growth);
        proof {
            lemma_bumped_grows(h0, overused@, cfg.history_growth);
        }
        attempt = attempt + 1;
    }
}

/// Commits one planned path for `net`: claims its cells, casts its shadow
/// when adjacency isolation is on, raises their current congestion, and
/// returns the wire with repeaters inserted.
fn commit_wire(
    cost: &mut CostMap,
    owners: &mut BTreeMap<(i32, i32, i32), (u32, bool)>,
    p: &Vec<Pos3>,
    net: NetTag,
    cfg: &PathFinderConfig,
) -> (w: RoutedWire)
    ensures
        w.net == net,
        segment_path(w.segments@) == p@,
        w.segments@ == pf_annotated(p@),
        forall|a: int| 0 <= a < w.segments@.len() ==> owner_ok(final(owners)@, (#[trigger] w.segments@[a]).spec_pos(), net),
        forall|q: Pos3, n: NetTag| owner_ok(old(owners)@, q, n) ==> #[trigger] owner_ok(final(owners)@, q, n),
        final(cost).pins@ == old(cost).pins@,
        final(cost).bounds == old(cost).bounds,
        final(cost).cells@ == old(cost).cells@,
        final(cost).history_cost@ == old(cost).history_cost@,
{
    let ghost o0 = owners@;
    for ci in 0..p.len()
        invariant
            forall|q: Pos3, n: NetTag| owner_ok(o0, q, n) ==> #[trigger] owner_ok(owners@, q, n),
            forall|a: int| 0 <= a < ci ==> owner_ok(owners@, #[trigger] p@[a], net),
            cost.pins@ == old(cost).pins@,
            cost.bounds == old(cost).bounds,
            cost.cells@ == old(cost).cells@,
            cost.history_cost@ == old(cost).history_cost@,
    {
        let cell = p[ci];
        cost.assign(cell, net);
        claim(owners, cell, net);
    }
    if cfg.adjacency_isolation {
        for ci in 0..p.len()
            invariant
                cost.pins@ == old(cost).pins@,
                cost.bounds == old(cost).bounds,
                cost.cells@ == old(cost).cells@,
                cost.history_cost@ == old(cost).history_cost@,
        {
            shadow_neighbours(cost, p[ci], net);
        }
    }
    cost.bump_present(p, cfg.present_growth);
    let segments = path_to_segments(p);
    proof {
        crate::route::lee::lemma_annotated_path(p@, |q: Seq<Pos3>, k: int| pf_facing(q, k));
        assert forall|a: int| 0 <= a < segments@.len() implies owner_ok(
            owners@,
            (#[trigger] segments@[a]).spec_pos(),
            net,
        ) by {
            assert(segment_path(segments@)[a] == segments@[a].spec_pos());
            assert(owner_ok(owners@, p@[a], net));
        }
    }
    RoutedWire { net, segments }
}

/// Every cell of every wire of `ws` has an owner record consistent with
/// the wire's net.
spec fn owners_cover(owners: Map<(i32, i32, i32), (u32, bool)>, ws: Seq<RoutedWire>) -> bool {
    forall|j: int, a: int|
        0 <= j < ws.len() && 0 <= a < ws[j].segments@.len() ==> owner_ok(
            owners,
            (#[trigger] ws[j].segments@[a]).spec_pos(),
            ws[j].net,
        )
}

/// The first `ws.len()` routes are routed by `ws`, in order.
spec fn wires_match(routes: Seq<(NetTag, Pos3, Pos3)>, ws: Seq<RoutedWire>) -> bool {
    forall|j: int| 0 <= j < ws.len() ==> wire_ok(routes[j], #[trigger] ws[j])
}

proof fn lemma_cover_push(
    o0: Map<(i32, i32, i32), (u32, bool)>,
    o1: Map<(i32, i32, i32), (u32, bool)>,
    before: Seq<RoutedWire>,
    w: RoutedWire,
)
    requires
        owners_cover(o0, before),
        forall|q: Pos3, n: NetTag| owner_ok(o0, q, n) ==> #[trigger] owner_ok(o1, q, n),
        forall|a: int| 0 <= a < w.segments@.len() ==> owner_ok(o1, (#[trigger] w.segments@[a]).spec_pos(), w.net),
    ensures
        owners_cover(o1, before.push(w)),
{
    let ws = before.push(w);
    assert forall|j: int, a: int| 0 <= j < ws.len() && 0 <= a < ws[j].segments@.len() implies owner_ok(
        o1,
        (#[trigger] ws[j].segments@[a]).spec_pos(),
        ws[j].net,
    ) by {
        if j < before.len() {
            assert(ws[j] == before[j]);
            assert(owner_ok(o0, before[j].segments@[a].spec_pos(), before[j].net));
        }
    }
}

proof fn lemma_match_push(routes: Seq<(NetTag, Pos3, Pos3)>, before: Seq<RoutedWire>, w: RoutedWire)
    requires
        wires_match(routes, before),
        before.len() < routes.len(),
        wire_ok(routes[before.len() as int], w),
    ensures
        wires_match(routes, before.push(w)),
{
    let ws = before.push(w);
    assert forall|j: int| 0 <= j < ws.len() implies wire_ok(routes[j], #[trigger] ws[j]) by {
        if j < before.len() {
            assert(ws[j] == before[j]);
        }
    }
}

/// With no contested cell, no two nets share a cell.
proof fn lemma_uncontested_unshared(owners: Map<(i32, i32, i32), (u32, bool)>, ws: Seq<RoutedWire>)
    requires
        owners_cover(owners, ws),
        forall|k: (i32, i32, i32)| #[trigger] owners.contains_key(k) ==> !owners[k].1,
    ensures
        no_shared_cells(ws),
{
    assert forall|i: int, j: int, a: int, b: int|
        0 <= i < ws.len() && 0 <= j < ws.len() && ws[i].net != ws[j].net && 0 <= a
            < ws[i].segments@.len() && 0 <= b < ws[j].segments@.len() implies (#[trigger] ws[i].segments@[a]).spec_pos()
        != (#[trigger] ws[j].segments@[b]).spec_pos() by {
        let c = ws[i].segments@[a].spec_pos();
        assert(owner_ok(owners, c, ws[i].net));
        if c == ws[j].segments@[b].spec_pos() {
            assert(owner_ok(owners, c, ws[j].net));
            assert(!owners[xyz_key(c)].1);
        }
    }
}

/// Commits every planned path in route order: one wire per route with a
/// non-empty path, the label of every other route's net in `unrouted`,
/// and the owner record of every committed cell.
fn commit_paths(
    cost: &mut CostMap,
    routes: &[(NetTag, Pos3, Pos3)],
    paths: &Vec<Option<Vec<Pos3>>>,
    cfg: &PathFinderConfig,
) -> (r: (Vec<RoutedWire>, Vec<String>, BTreeMap<(i32, i32, i32), (u32, bool)>))
    requires
        paths@.len() == routes@.len(),
        forall|j: int|
            0 <= j < paths@.len() ==> ((#[trigger] paths@[j]) matches Some(p) ==> plain_path_ok(
                routes@[j].1,
                routes@[j].2,
                p@,
            )),
        forall|j: int| 0 <= j < paths@.len() ==> ((#[trigger] paths@[j]) matches Some(p) ==> path_in(old(cost).bounds, p@)),
    ensures
        r.1@.len() == 0 ==> r.0@.len() == routes@.len() && wires_match(routes@, r.0@),
        forall|k: int| 0 <= k < r.0@.len() ==> path_in(old(cost).bounds, segment_path((#[trigger] r.0@[k]).segments@)),
        r.1@.len() == 0 ==> forall|k: int| 0 <= k < r.0@.len() ==> laid_from(paths@[k], #[trigger] r.0@[k]),
        final(cost).bounds == old(cost).bounds,
        final(cost).cells@ == old(cost).cells@,
        final(cost).history_cost@ == old(cost).history_cost@,
        owners_cover(r.2@, r.0@),
        labels_of(r.1@, routes@),
        final(cost).pins@ == old(cost).pins@,
{
    let mut committed: Vec<RoutedWire> = Vec::new();
    let mut unrouted: Vec<String> = Vec::new();
    let mut owners: BTreeMap<(i32, i32, i32), (u32, bool)> = BTreeMap::new();
    for i in 0..routes.len()
        invariant
            paths@.len() == routes@.len(),
            forall|j: int|
                0 <= j < paths@.len() ==> ((#[trigger] paths@[j]) matches Some(p) ==> plain_path_ok(
                    routes@[j].1,
                    routes@[j].2,
                    p@,
                )),
            unrouted@.len() == 0 ==> committed@.len() == i && wires_match(routes@, committed@),
            owners_cover(owners@, committed@),
            labels_of(unrouted@, routes@),
            cost.pins@ == old(cost).pins@,
            cost.bounds == old(cost).bounds,
            cost.cells@ == old(cost).cells@,
            cost.history_cost@ == old(cost).history_cost@,
            forall|j: int| 0 <= j < paths@.len() ==> ((#[trigger] paths@[j]) matches Some(p) ==> path_in(old(cost).bounds, p@)),
            forall|k: int| 0 <= k < committed@.len() ==> path_in(old(cost).bounds, segment_path((#[trigger] committed@[k]).segments@)),
            unrouted@.len() == 0 ==> forall|k: int| 0 <= k < committed@.len() ==> laid_from(paths@[k], #[trigger] committed@[k]),
    {
        let net = routes[i].0;
        let path_opt = &paths[i];
        proof {
            assert(paths@[i as int] == *path_opt);
        }
        match path_opt {
            Some(p) => {
                if p.len() > 0 {
                    let ghost before = committed@;
                    let ghost o0 = owners@;
                    let w = commit_wire(cost, &mut owners, p, net, cfg);
                    proof {
                        lemma_cover_push(o0, owners@, before, w);
                        if unrouted@.len() == 0 {
                            assert(plain_path_ok(routes@[i as int].1, routes@[i as int].2, p@));
                            lemma_match_push(routes@, before, w);
                        }
                    }
                    committed.push(w);
                    proof {
                        assert(committed@[committed@.len() - 1] == w);
                        assert forall|k: int| 0 <= k < committed@.len() implies path_in(
                            old(cost).bounds,
                            segment_path((#[trigger] committed@[k]).segments@),
                        ) by {
                            if k < before.len() {
                                assert(committed@[k] == before[k]);
                            }
                        }
                        if unrouted@.len() == 0 {
                            assert forall|k: int| 0 <= k < committed@.len() implies laid_from(
                                paths@[k],
                                #[trigger] committed@[k],
                            ) by {
                                if k < before.len() {
                                    assert(committed@[k] == before[k]);
                                    assert(laid_from(paths@[k], before[k]));
                                } else {
                                    assert(k == i);
                                    assert(committed@[k] == w);
                                    assert(segment_path(w.segments@) == p@);
                                    assert(paths@[k] == Some(*p));
                                }
                            }
                        }
                    }
                } else {
                    push_label(&mut unrouted, net, Ghost(routes@), Ghost(i as int));
                }
            },
            None => {
                push_label(&mut unrouted, net, Ghost(routes@), Ghost(i as int));
            },
        }
    }
    (committed, unrouted, owners)
}

/// Wire `w` was laid along the planned path `p`.
spec fn laid_from(p: Option<Vec<Pos3>>, w: RoutedWire) -> bool {
    p matches Some(v) && segment_path(w.segments@) == v@
}

/// `unrouted` holds labels of routes' nets.
spec fn labels_of(names: Seq<String>, routes: Seq<(NetTag, Pos3, Pos3)>) -> bool {
    forall|j: int|
        0 <= j < names.len() ==> exists|i: int|
            0 <= i < routes.len() && (#[trigger] names[j])@ == net_label_text(routes[i].0.0)
}

fn push_label(
    names: &mut Vec<String>,
    net: NetTag,
    Ghost(routes): Ghost<Seq<(NetTag, Pos3, Pos3)>>,
    Ghost(i): Ghost<int>,
)
    requires
        labels_of(old(names)@, routes),
        0 <= i < routes.len(),
        routes[i].0 == net,
    ensures
        labels_of(final(names)@, routes),
        final(names)@.len() == old(names)@.len() + 1,
{
    let ghost before = names@;
    names.push(net_label(net.0));
    proof {
        assert forall|j: int| 0 <= j < names@.len() implies exists|k: int|
            0 <= k < routes.len() && (#[trigger] names@[j])@ == net_label_text(routes[k].0.0) by {
            if j < before.len() {
                assert(names@[j] == before[j]);
            } else {
                assert(names@[j]@ == net_label_text(routes[i].0.0));
            }
        }
    }
}

/// The owner record of `p` is consistent with `net` owning it: unless the
/// cell is marked as contested, its first owner is `net`.
spec fn owner_ok(owners: Map<(i32, i32, i32), (u32, bool)>, p: Pos3, net: NetTag) -> bool {
    owners.contains_key(xyz_key(p)) && (!owners[xyz_key(p)].1 ==> owners[xyz_key(p)].0 == net.0)
}

/// Records that `net` uses `cell`: the first user is kept and the cell is
/// marked contested when a different net uses it.
fn claim(owners: &mut BTreeMap<(i32, i32, i32), (u32, bool)>, cell: Pos3, net: NetTag)
    ensures
        owner_ok(final(owners)@, cell, net),
        forall|q: Pos3, n: NetTag| owner_ok(old(owners)@, q, n) ==> #[trigger] owner_ok(final(owners)@, q, n),
{
    let k = (cell.x, cell.y, cell.z);
    let next = match owners.get(&k) {
        Some(e) => (e.0, e.1 || e.0 != net.0),
        None => (net.0, false),
    };
    owners.insert(k, next);
    proof {
        assert forall|q: Pos3, n: NetTag| owner_ok(old(owners)@, q, n) implies #[trigger] owner_ok(owners@, q, n) by {
            if xyz_key(q) == k {
            }
        }
    }
}

/// Cells marked contested, in `(x, y, z)` order.
fn overused_cells(owners: &BTreeMap<(i32, i32, i32), (u32, bool)>) -> (v: Vec<Pos3>)
    ensures
        v@.len() == 0 ==> forall|k: (i32, i32, i32)| #[trigger] owners@.contains_key(k) ==> !owners@[k].1,
        forall|i: int| 0 <= i < v@.len() ==> owners@.contains_key(xyz_key(#[trigger] v@[i])) && owners@[xyz_key(v@[i])].1,
        forall|i: int, j: int| 0 <= i < j < v@.len() ==> key_lt(xyz_key(v@[i]), xyz_key(v@[j])),
{
    let keys = sorted_keys_of(owners);
    let mut v: Vec<Pos3> = Vec::new();
    let ghost mut idx: Seq<int> = Seq::empty();
    for i in 0..keys.len()
        invariant
            keys@.len() == owners@.dom().len(),
            forall|j: int| 0 <= j < keys@.len() ==> owners@.contains_key(#[trigger] keys@[j]),
            forall|j: int, l: int| 0 <= j < l < keys@.len() ==> key_lt(keys@[j], keys@[l]),
            idx.len() == v@.len(),
            forall|j: int| 0 <= j < v@.len() ==> 0 <= #[trigger] idx[j] < i && xyz_key(v@[j]) == keys@[idx[j]],
            forall|j: int, l: int| 0 <= j < l < v@.len() ==> idx[j] < idx[l],
            forall|j: int| 0 <= j < v@.len() ==> owners@.contains_key(xyz_key(#[trigger] v@[j])) && owners@[xyz_key(v@[j])].1,
            forall|j: int| 0 <= j < i && owners@[keys@[j]].1 ==> exists|l: int| 0 <= l < v@.len() && #[trigger] idx[l] == j,
    {
        let k = keys[i];
        let contested = match owners.get(&k) {
            Some(e) => e.1,
            None => false,
        };
        let ghost idx0 = idx;
        if contested {
            v.push(Pos3 { x: k.0, y: k.1, z: k.2 });
            proof {
                idx = idx.push(i as int);
                assert(idx[idx.len() - 1] == i);
            }
        }
        proof {
            assert forall|j: int| 0 <= j < i + 1 && owners@[keys@[j]].1 implies exists|l: int|
                0 <= l < v@.len() && #[trigger] idx[l] == j by {
                if j == i {
                    assert(idx[v@.len() - 1] == j);
                } else {
                    let l = choose|l: int| 0 <= l < idx0.len() && #[trigger] idx0[l] == j;
                    assert(idx[l] == j);
                }
            }
        }
    }
    proof {
        assert forall|i: int, j: int| 0 <= i < j < v@.len() implies key_lt(xyz_key(v@[i]), xyz_key(v@[j])) by {
            assert(idx[i] < idx[j]);
        }
        if v@.len() == 0 {
            assert forall|k: (i32, i32, i32)| #[trigger] owners@.contains_key(k) implies !owners@[k].1 by {
                let j = choose|j: int| 0 <= j < keys@.len() && keys@[j] == k;
                if owners@[k].1 {
                    assert(owners@[keys@[j]].1);
                }
            }
        }
    }
    v
}

/// Diagnostic labels of over-used cells.
fn overuse_labels(cells: &Vec<Pos3>) -> (v: Vec<String>)
    ensures
        v@.len() == cells@.len(),
        forall|i: int| 0 <= i < v@.len() ==> (#[trigger] v@[i])@ == overuse_label_text(cells@[i]),
{
    let mut v: Vec<String> = Vec::new();
    for i in 0..cells.len()
        invariant
            v@.len() == i,
            forall|j: int| 0 <= j < i ==> (#[trigger] v@[j])@ == overuse_label_text(cells@[j]),
    {
        let mut s = String::from_str("overuse@");
        let d = pos_debug(cells[i]);
        s.append(d.as_str());
        v.push(s);
    }
    v
}

/// Every in-region, non-pin neighbour of `q` is owned, shadowed by `net`
/// or contested.
spec fn guarded(cost: CostMap, q: Pos3, net: NetTag) -> bool {
    forall|d: Direction|
        q.can_step(d) && cost.bounds.spec_contains(q.spec_step(d)) && !cost.is_pin(q.spec_step(d)) ==> cost.assigned@.contains_key(
            pos_key(#[trigger] q.spec_step(d)),
        ) || shadow_claimed(cost, q.spec_step(d), net)
}

/// Cell key `k` is a cell of the planned path of route `r`, which is of
/// net `net`.
spec fn on_planned(routes: Seq<(NetTag, Pos3, Pos3)>, out: Seq<Option<Vec<Pos3>>>, k: (i32, i32, i32), net: NetTag) -> bool {
    exists|r: int, a: int|
        0 <= r < out.len() && out[r] is Some && 0 <= a < out[r].unwrap()@.len() && pos_key(
            #[trigger] out[r].unwrap()@[a],
        ) == k && routes[r].0 == net
}

/// The provisional claims while planning the first `out.len()` routes
/// with adjacency isolation: every owned cell lies on a planned path of
/// its owner's net, the non-pin cells of each planned path are owned by
/// its net, and every cell of a planned path is guarded for its net.
spec fn plan_state_ok(cost: CostMap, routes: Seq<(NetTag, Pos3, Pos3)>, out: Seq<Option<Vec<Pos3>>>) -> bool {
    &&& forall|k: (i32, i32, i32)|
        #[trigger] cost.assigned@.contains_key(k) ==> on_planned(routes, out, k, cost.assigned@[k])
    &&& forall|r: int, a: int|
        0 <= r < out.len() && out[r] is Some && 0 <= a < out[r].unwrap()@.len() && !cost.is_pin(
            #[trigger] out[r].unwrap()@[a],
        ) ==> cost.owned_by(out[r].unwrap()@[a], routes[r].0)
    &&& forall|r: int, a: int|
        0 <= r < out.len() && out[r] is Some && 0 <= a < out[r].unwrap()@.len() ==> guarded(
            cost,
            #[trigger] out[r].unwrap()@[a],
            routes[r].0,
        )
}

/// A non-pin cell that a path allowed for `net` enters lies in the
/// routing region, and is owned by `net` if it is owned at all, covered
/// by another net's shadow, or contested.
proof fn lemma_entered_unclaimed(cost: CostMap, net: NetTag, sources: Seq<Pos3>, sink: Pos3, p: Seq<Pos3>, b: int)
    requires
        cost_path_ok(cost, net, sources, sink, p),
        forall|s: Pos3| #[trigger] sources.contains(s) ==> cost.is_pin(s),
        0 <= b < p.len(),
        !cost.is_pin(p[b]),
    ensures
        cost.assigned@.contains_key(pos_key(p[b])) ==> cost.assigned@[pos_key(p[b])] == net,
        cost.shadows@.contains_key(pos_key(p[b])) && cost.shadows@[pos_key(p[b])] != net ==> cost.owned_by(p[b], net),
        cost.contested@.contains(pos_key(p[b])) ==> cost.owned_by(p[b], net),
        cost.bounds.spec_contains(p[b]),
{
    assert(b >= 1) by {
        if b == 0 {
            assert(sources.contains(p[0]));
        }
    }
    assert(allowed_step(cost, net, p[b - 1], p[b - 1 + 1]));
}

/// An A* path for the route after the planned ones stays far from each
/// planned path of another net.
proof fn lemma_new_path_apart(
    cost: CostMap,
    routes: Seq<(NetTag, Pos3, Pos3)>,
    out: Seq<Option<Vec<Pos3>>>,
    p: Seq<Pos3>,
    r: int,
)
    requires
        plan_state_ok(cost, routes, out),
        paths_isolated(out, routes, cost.pins@),
        out.len() < routes.len(),
        cost_path_ok(cost, routes[out.len() as int].0, seq![routes[out.len() as int].1], routes[out.len() as int].2, p),
        cost.is_pin(routes[out.len() as int].1),
        0 <= r < out.len(),
        out[r] is Some,
        routes[r].0 != routes[out.len() as int].0,
    ensures
        far_apart(out[r].unwrap()@, p, cost.pins@),
        far_apart(p, out[r].unwrap()@, cost.pins@),
{
    let q = out[r].unwrap()@;
    let net = routes[out.len() as int].0;
    assert forall|s: Pos3| #[trigger] seq![routes[out.len() as int].1].contains(s) implies cost.is_pin(s) by {
        assert(seq![routes[out.len() as int].1][0] == s);
    }
    assert forall|a: int, b: int|
        0 <= a < q.len() && 0 <= b < p.len() && !cost.pins@.contains(pos_key(#[trigger] q[a])) && !cost.pins@.contains(
            pos_key(#[trigger] p[b]),
        ) implies manhattan(q[a], p[b]) != 1 by {
        if manhattan(q[a], p[b]) == 1 {
            lemma_entered_unclaimed(cost, net, seq![routes[out.len() as int].1], routes[out.len() as int].2, p, b);
            lemma_neighbour_step(q[a], p[b]);
            let d = choose|d: Direction| q[a].can_step(d) && #[trigger] q[a].spec_step(d) == p[b];
            assert(guarded(cost, q[a], routes[r].0));
            assert(q[a].spec_step(d) == p[b]);
            let k = pos_key(p[b]);
            assert(cost.assigned@.contains_key(k) && cost.assigned@[k] == net);
            assert(on_planned(routes, out, k, net));
            let (r2, a2) = choose|r2: int, a2: int|
                0 <= r2 < out.len() && out[r2] is Some && 0 <= a2 < out[r2].unwrap()@.len() && pos_key(
                    #[trigger] out[r2].unwrap()@[a2],
                ) == k && routes[r2].0 == net;
            let c = out[r2].unwrap()@[a2];
            assert(key_pos(pos_key(c)) == c && key_pos(pos_key(p[b])) == p[b]);
            assert(c == p[b]);
            assert(far_apart(out[r2].unwrap()@, q, cost.pins@));
            assert(manhattan(c, q[a]) == manhattan(q[a], p[b]));
        }
    }
    assert forall|b: int, a: int|
        0 <= b < p.len() && 0 <= a < q.len() && !cost.pins@.contains(pos_key(#[trigger] p[b])) && !cost.pins@.contains(
            pos_key(#[trigger] q[a]),
        ) implies manhattan(p[b], q[a]) != 1 by {
        assert(manhattan(p[b], q[a]) == manhattan(q[a], p[b]));
    }
}

/// Plans one path per route on the current cost map: in parallel on a
/// shared snapshot when adjacency isolation is off and there are at least
/// 32 routes, else one after another, each provisionally claiming its
/// cells (and shadow) so that later routes of the same iteration avoid
/// them; the provisional claims are dropped afterwards.
fn plan_paths(cost: &mut CostMap, routes: &[(NetTag, Pos3, Pos3)], cfg: &PathFinderConfig) -> (paths: Vec<
    Option<Vec<Pos3>>,
>)
    requires
        cfg.edge.fits(),
        old(cost).assigned@ == Map::<(i32, i32, i32), NetTag>::empty(),
        old(cost).shadows@ == Map::<(i32, i32, i32), NetTag>::empty(),
        forall|j: int|
            0 <= j < routes@.len() ==> old(cost).is_pin((#[trigger] routes@[j]).1) && old(cost).is_pin(
                routes@[j].2,
            ),
    ensures
        paths@.len() == routes@.len(),
        cfg.adjacency_isolation ==> paths_isolated(paths@, routes@, old(cost).pins@),
        forall|j: int|
            0 <= j < paths@.len() ==> ((#[trigger] paths@[j]) matches Some(p) ==> plain_path_ok(
                routes@[j].1,
                routes@[j].2,
                p@,
            )),
        forall|j: int| 0 <= j < paths@.len() ==> ((#[trigger] paths@[j]) matches Some(p) ==> path_in(old(cost).bounds, p@)),
        final(cost).pins@ == old(cost).pins@,
        final(cost).bounds == old(cost).bounds,
        final(cost).cells@ == old(cost).cells@,
        final(cost).history_cost@ == old(cost).history_cost@,
{
    if !cfg.adjacency_isolation && routes.len() >= 32 {
        let r = par_astar_all(cost, routes, cfg);
        proof {
            assert forall|j: int| 0 <= j < r@.len() implies ((#[trigger] r@[j]) matches Some(p) ==> plain_path_ok(
                routes@[j].1,
                routes@[j].2,
                p@,
            )) by {
                if let Some(p) = r@[j] {
                    lemma_cost_path_plain(*cost, routes@[j].0, routes@[j].1, routes@[j].2, p@);
                }
            }
            assert forall|j: int| 0 <= j < r@.len() implies ((#[trigger] r@[j]) matches Some(p) ==> path_in(
                cost.bounds,
                p@,
            )) by {
                if let Some(p) = r@[j] {
                    lemma_cost_path_in(*cost, routes@[j].0, seq![routes@[j].1], routes@[j].2, p@);
                }
            }
        }
        return r;
    }
    let mut out: Vec<Option<Vec<Pos3>>> = Vec::new();
    let ghost iso = cfg.adjacency_isolation;
    for i in 0..routes.len()
        invariant
            cfg.edge.fits(),
            out@.len() == i,
            forall|j: int|
                0 <= j < out@.len() ==> ((#[trigger] out@[j]) matches Some(p) ==> plain_path_ok(
                    routes@[j].1,
                    routes@[j].2,
                    p@,
                )),
            forall|j: int| 0 <= j < out@.len() ==> ((#[trigger] out@[j]) matches Some(p) ==> path_in(old(cost).bounds, p@)),
            cost.pins@ == old(cost).pins@,
            cost.bounds == old(cost).bounds,
            cost.cells@ == old(cost).cells@,
            cost.history_cost@ == old(cost).history_cost@,
            iso == cfg.adjacency_isolation,
            forall|j: int|
                0 <= j < routes@.len() ==> cost.is_pin((#[trigger] routes@[j]).1) && cost.is_pin(routes@[j].2),
            iso ==> plan_state_ok(*cost, routes@, out@),
            iso ==> paths_isolated(out@, routes@, cost.pins@),
    {
        let (net, source, sink) = routes[i];
        let p = astar_route(cost, net, source, sink, &cfg.edge, cfg.max_explored_cells);
        let ghost c0 = *cost;
        let ghost o0 = out@;
        proof {
            assert(routes@[i as int] == (net, source, sink));
            if p is Some {
                lemma_cost_path_plain(*cost, net, source, sink, p.unwrap()@);
                lemma_cost_path_in(*cost, net, seq![source], sink, p.unwrap()@);
            }
        }
        if let Some(path) = &p {
            if path.len() > 0 {
                for ci in 0..path.len()
                    invariant
                        cost.pins@ == old(cost).pins@,
                        cost.bounds == old(cost).bounds,
                        cost.cells@ == old(cost).cells@,
                        cost.history_cost@ == old(cost).history_cost@,
                        cost.pins@ == c0.pins@,
                        cost.bounds == c0.bounds,
                        cost.shadows@ == c0.shadows@,
                        forall|k: (i32, i32, i32)| #[trigger] c0.assigned@.contains_key(k) ==> cost.assigned@.contains_key(k),
                        iso ==> forall|k: (i32, i32, i32)|
                            #[trigger] cost.assigned@.contains_key(k) ==> (c0.assigned@.contains_key(k) && cost.assigned@[k]
                                == c0.assigned@[k]) || (cost.assigned@[k] == net && exists|a: int|
                                0 <= a < ci && pos_key(#[trigger] path@[a]) == k),
                        iso ==> forall|a: int| 0 <= a < ci && !cost.is_pin(path@[a]) ==> cost.owned_by(#[trigger] path@[a], net),
                        iso ==> forall|k: (i32, i32, i32)|
                            #[trigger] c0.assigned@.contains_key(k) && !c0.pins@.contains(k) ==> cost.assigned@[k] == c0.assigned@[k],
                        iso ==> plan_state_ok(c0, routes@, o0),
                        iso ==> cost_path_ok(c0, net, seq![source], sink, path@),
                        o0.len() == i,
                        i < routes@.len(),
                        routes@[i as int] == (net, source, sink),
                        c0.is_pin(source),
                        cost.contested@ == c0.contested@,
                {
                    let ghost ca = *cost;
                    proof {
                        if iso && !c0.is_pin(path@[ci as int]) {
                            assert forall|x: Pos3| #[trigger] seq![source].contains(x) implies c0.is_pin(x) by {
                                assert(seq![source][0] == x);
                            }
                            lemma_entered_unclaimed(c0, net, seq![source], sink, path@, ci as int);
                        }
                    }
                    cost.assign(path[ci], net);
                    proof {
                        if iso {
                            assert forall|k: (i32, i32, i32)|
                                #[trigger] cost.assigned@.contains_key(k) implies (c0.assigned@.contains_key(k)
                                    && cost.assigned@[k] == c0.assigned@[k]) || (cost.assigned@[k] == net && exists|a: int|
                                    0 <= a < ci + 1 && pos_key(#[trigger] path@[a]) == k) by {
                                if k == pos_key(path@[ci as int]) {
                                    assert(pos_key(path@[ci as int]) == k);
                                } else {
                                    assert(ca.assigned@.contains_key(k) && cost.assigned@[k] == ca.assigned@[k]);
                                    if !(c0.assigned@.contains_key(k) && ca.assigned@[k] == c0.assigned@[k]) {
                                        let a = choose|a: int| 0 <= a < ci && pos_key(#[trigger] path@[a]) == k;
                                        assert(0 <= a < ci + 1 && pos_key(path@[a]) == k);
                                    }
                                }
                            }
                            assert forall|a: int| 0 <= a < ci + 1 && !cost.is_pin(path@[a]) implies cost.owned_by(
                                #[trigger] path@[a],
                                net,
                            ) by {
                                if a < ci {
                                    assert(path@[a] != path@[ci as int]);
                                    assert(pos_key(path@[a]) != pos_key(path@[ci as int]));
                                }
                            }
                        }
                    }
                }
                if cfg.adjacency_isolation {
                    for ci in 0..path.len()
                        invariant
                            cost.pins@ == old(cost).pins@,
                            cost.bounds == old(cost).bounds,
                            cost.cells@ == old(cost).cells@,
                            cost.history_cost@ == old(cost).history_cost@,
                            cost.pins@ == c0.pins@,
                            cost.bounds == c0.bounds,
                            forall|k: (i32, i32, i32)| #[trigger] c0.assigned@.contains_key(k) ==> cost.assigned@.contains_key(k),
                            forall|k: (i32, i32, i32)| #[trigger] c0.shadows@.contains_key(k) ==> cost.shadows@.contains_key(k)
                                && cost.shadows@[k] == c0.shadows@[k],
                            forall|k: (i32, i32, i32)| #[trigger] c0.contested@.contains(k) ==> cost.contested@.contains(k),
                            iso ==> forall|k: (i32, i32, i32)|
                                #[trigger] cost.assigned@.contains_key(k) ==> (c0.assigned@.contains_key(k) && cost.assigned@[k]
                                    == c0.assigned@[k]) || (cost.assigned@[k] == net && exists|a: int|
                                    0 <= a < path@.len() && pos_key(#[trigger] path@[a]) == k),
                            iso ==> forall|a: int| 0 <= a < path@.len() && !cost.is_pin(path@[a]) ==> cost.owned_by(#[trigger] path@[a], net),
                            iso ==> forall|k: (i32, i32, i32)|
                                #[trigger] c0.assigned@.contains_key(k) && !c0.pins@.contains(k) ==> cost.assigned@[k] == c0.assigned@[k],
                            iso ==> forall|a: int| 0 <= a < ci ==> guarded(*cost, #[trigger] path@[a], net),
                    {
                        let ghost before = *cost;
                        shadow_neighbours(cost, path[ci], net);
                        proof {
                            if iso {
                                assert forall|a: int| 0 <= a < ci + 1 implies guarded(*cost, #[trigger] path@[a], net) by {
                                    let q = path@[a];
                                    assert forall|d: Direction|
                                        q.can_step(d) && cost.bounds.spec_contains(q.spec_step(d)) && !cost.is_pin(q.spec_step(d)) implies cost.assigned@.contains_key(
                                        pos_key(#[trigger] q.spec_step(d)),
                                    ) || shadow_claimed(*cost, q.spec_step(d), net) by {
                                        let c = q.spec_step(d);
                                        if a < ci {
                                            assert(guarded(before, q, net));
                                            if before.shadows@.contains_key(pos_key(c)) {
                                                assert(cost.shadows@.contains_key(pos_key(c)));
                                            }
                                        } else if !before.owned_by(c, net) {
                                            assert(shadow_claimed(*cost, path@[ci as int].spec_step(d), net));
                                        }
                                    }
                                }
                            }
                        }
                    }
                }
                proof {
                    assert(p.unwrap()@ == path@);
                }
            }
        }
        out.push(p);
        proof {
            if iso {
                let o1 = out@;
                assert(o1.drop_last() =~= o0);
                assert(o1[i as int] == p);
                assert forall|k: (i32, i32, i32)| #[trigger] cost.assigned@.contains_key(k) implies on_planned(
                    routes@,
                    o1,
                    k,
                    cost.assigned@[k],
                ) by {
                    if c0.assigned@.contains_key(k) && cost.assigned@[k] == c0.assigned@[k] {
                        assert(on_planned(routes@, o0, k, c0.assigned@[k]));
                        let (r, a) = choose|r: int, a: int|
                            0 <= r < o0.len() && o0[r] is Some && 0 <= a < o0[r].unwrap()@.len() && pos_key(
                                #[trigger] o0[r].unwrap()@[a],
                            ) == k && routes@[r].0 == c0.assigned@[k];
                        assert(o1[r] == o0[r]);
                        assert(pos_key(o1[r].unwrap()@[a]) == k);
                    } else {
                        let a = choose|a: int| 0 <= a < p.unwrap()@.len() && pos_key(#[trigger] p.unwrap()@[a]) == k;
                        assert(pos_key(o1[i as int].unwrap()@[a]) == k);
                    }
                }
                assert forall|r: int, a: int|
                    0 <= r < o1.len() && o1[r] is Some && 0 <= a < o1[r].unwrap()@.len() && !cost.is_pin(
                        #[trigger] o1[r].unwrap()@[a],
                    ) implies cost.owned_by(o1[r].unwrap()@[a], routes@[r].0) by {
                    if r < o0.len() {
                        assert(o1[r] == o0[r]);
                        assert(c0.owned_by(o0[r].unwrap()@[a], routes@[r].0));
                    }
                }
                assert forall|r: int, a: int|
                    0 <= r < o1.len() && o1[r] is Some && 0 <= a < o1[r].unwrap()@.len() implies guarded(
                        *cost,
                        #[trigger] o1[r].unwrap()@[a],
                        routes@[r].0,
                    ) by {
                    if r < o0.len() {
                        assert(o1[r] == o0[r]);
                        let q = o0[r].unwrap()@[a];
                        assert(guarded(c0, q, routes@[r].0));
                        assert forall|d: Direction|
                            q.can_step(d) && cost.bounds.spec_contains(q.spec_step(d)) && !cost.is_pin(q.spec_step(d)) implies cost.assigned@.contains_key(
                            pos_key(#[trigger] q.spec_step(d)),
                        ) || shadow_claimed(*cost, q.spec_step(d), routes@[r].0) by {
                            let c = q.spec_step(d);
                            assert(c0.assigned@.contains_key(pos_key(c)) || shadow_claimed(c0, c, routes@[r].0));
                            if c0.shadows@.contains_key(pos_key(c)) {
                                assert(cost.shadows@.contains_key(pos_key(c)));
                            }
                        }
                    }
                }
                assert(plan_state_ok(*cost, routes@, o1));
                assert forall|x: int, y: int|
                    0 <= x < o1.len() && 0 <= y < o1.len() && x != y && routes@[x].0 != routes@[y].0 && (
                    #[trigger] o1[x]) is Some && (#[trigger] o1[y]) is Some implies far_apart(
                    o1[x].unwrap()@,
                    o1[y].unwrap()@,
                    cost.pins@,
                ) by {
                    if x < o0.len() && y < o0.len() {
                        assert(o1[x] == o0[x] && o1[y] == o0[y]);
                    } else if x == i {
                        lemma_new_path_apart(c0, routes@, o0, o1[x].unwrap()@, y);
                        assert(o1[y] == o0[y]);
                    } else {
                        lemma_new_path_apart(c0, routes@, o0, o1[y].unwrap()@, x);
                        assert(o1[x] == o0[x]);
                    }
                }
            }
        }
    }
    proof {
        assert(out@.len() == routes@.len());
    }
    cost.assigned.clear();
    cost.shadows.clear();
    out
}

/// A repeater the negotiated router lays faces the way the signal travels: when
/// the path enters the repeater's cell by a horizontal step in direction
/// `d` from the cell before it, the repeater faces `d` (East for +x, West
/// for -x, South for +z, North for -z), so stepping from the previous
/// cell in the facing direction reaches the repeater.
pub proof fn law_pf_repeater_faces_travel(path: Seq<Pos3>, i: int, d: Direction)
    requires
        1 <= i < path.len(),
        d == Direction::North || d == Direction::South || d == Direction::East || d == Direction::West,
        path[i - 1].can_step(d),
        path[i - 1].spec_step(d) == path[i],
    ensures
        pf_annotated(path)[i] is Repeater ==> (pf_annotated(path)[i] matches RouteSegment::Repeater { pos, facing } && pos
            == path[i] && facing == d && path[i - 1].spec_step(facing) == pos),
{
}

} // verus!
