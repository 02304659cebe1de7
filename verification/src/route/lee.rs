//! 3D maze router (Lee's algorithm) with adjacency-aware obstruction and
//! automatic repeater insertion.
use vstd::prelude::*;

use std::collections::BTreeMap;

use crate::error::RouteError;
use crate::geom::{all_directions, key_pos, manhattan, pos_key, Direction, Pos3};
use crate::grid3d::{passable, sorted_keys_of, key_lt, CellState, Grid3D, NetTag};
use crate::text::{decimal, net_label, net_label_text, string_views, u64_to_string};

verus! {

/// Maximum signal strength a redstone source produces.
pub const MAX_SIGNAL: u8 = 15;

/// Tunables for [`route_with_retry`].
#[derive(Debug, Clone, Copy)]
pub struct RouteConfig {
    /// Manhattan-distance cap of the search on the first attempt.
    pub initial_max_distance: u32,
    /// Slack each retry adds to the cap.
    pub bbox_grow_step: u32,
    /// Number of retries before [`RouteError::Exhausted`].
    pub max_bbox_retries: u8,
    /// Seed reserved for randomized routing steps (none are used).
    pub seed: u64,
}

impl Default for RouteConfig {
    /// Cap 64, grow step 64, 4 retries, the crate's default seed.
    fn default() -> (r: RouteConfig)
        ensures
            r.initial_max_distance == 64,
            r.bbox_grow_step == 64,
            r.max_bbox_retries == 4,
            r.seed == crate::DEFAULT_SEED,
    {
        RouteConfig {
            initial_max_distance: 64,
            bbox_grow_step: 64,
            max_bbox_retries: 4,
            seed: crate::DEFAULT_SEED,
        }
    }
}

/// One segment of a routed wire, in world coordinates.
#[derive(Debug, Clone, Copy, PartialEq, Eq, Structural)]
pub enum RouteSegment {
    /// Plain redstone dust.
    Dust {
        /// World position.
        pos: Pos3,
    },
    /// A repeater, which restores full signal strength downstream.
    Repeater {
        /// World position.
        pos: Pos3,
        /// Facing of the repeater.
        facing: Direction,
    },
}

impl RouteSegment {
    /// Position of the segment.
    pub open spec fn spec_pos(self) -> Pos3 {
        match self {
            RouteSegment::Dust { pos } => pos,
            RouteSegment::Repeater { pos, .. } => pos,
        }
    }

    /// Position of the segment.
    pub fn pos(&self) -> (p: Pos3)
        ensures
            p == self.spec_pos(),
    {
        match self {
            RouteSegment::Dust { pos } => *pos,
            RouteSegment::Repeater { pos, .. } => *pos,
        }
    }
}

/// A routed wire: one net, one source to one sink.
#[derive(Debug, Clone)]
pub struct RoutedWire {
    /// Net the wire belongs to.
    pub net: NetTag,
    /// Segments in source-first order.
    pub segments: Vec<RouteSegment>,
}

/// Outcome of routing one net.
#[derive(Debug, Clone)]
pub enum SingleRouteOutcome {
    /// A path was found and committed to the grid.
    Routed(RoutedWire),
    /// No path was found.
    Unroutable,
}

/// True iff `p` is not on the outermost layer of the `i32` coordinate
/// range, so that all of its neighbours (including diagonal ones in the
/// obstruction ring) exist.
pub open spec fn in_world(p: Pos3) -> bool {
    i32::MIN < p.x < i32::MAX && i32::MIN < p.y < i32::MAX && i32::MIN < p.z < i32::MAX
}

/// State of `p` in a grid view (Air when unpopulated).
pub open spec fn state_of(g: Map<Pos3, CellState>, p: Pos3) -> CellState {
    if g.contains_key(p) {
        g[p]
    } else {
        CellState::Air
    }
}

/// `path` is a route for `net` from `source` to `sink` on grid `g`: unit
/// steps, no cell twice, every interior cell passable for `net`, all
/// cells inside the world.
pub open spec fn is_route(
    g: Map<Pos3, CellState>,
    net: NetTag,
    source: Pos3,
    sink: Pos3,
    path: Seq<Pos3>,
) -> bool {
    &&& path.len() >= 1
    &&& path[0] == source
    &&& path.last() == sink
    &&& path.no_duplicates()
    &&& forall|i: int| 0 <= i < path.len() - 1 ==> manhattan(#[trigger] path[i], path[i + 1]) == 1
    &&& forall|i: int| 0 < i < path.len() - 1 ==> passable(state_of(g, #[trigger] path[i]), net)
    &&& forall|i: int| 0 <= i < path.len() ==> in_world(#[trigger] path[i])
}

/// Facing of a repeater at `path[i]` for the maze router: the direction of
/// signal flow from the previous cell (East when there is no horizontal
/// move).
pub open spec fn lee_facing(path: Seq<Pos3>, i: int) -> Direction {
    let prev = if i == 0 { path[0] } else { path[i - 1] };
    let cur = path[i];
    if cur.x > prev.x {
        Direction::East
    } else if cur.x < prev.x {
        Direction::West
    } else if cur.z > prev.z {
        Direction::South
    } else if cur.z < prev.z {
        Direction::North
    } else {
        Direction::East
    }
}

/// Index `i` of a path carries a repeater: every fifteenth cell, counting
/// the source as the first.
pub open spec fn is_repeater_index(i: int) -> bool {
    (i + 1) % (MAX_SIGNAL as int) == 0
}

/// The segments of a path with repeaters inserted, with `facing` giving
/// each repeater's facing.
pub open spec fn annotate_with(path: Seq<Pos3>, facing: spec_fn(Seq<Pos3>, int) -> Direction) -> Seq<
    RouteSegment,
> {
    Seq::new(
        path.len(),
        |i: int|
            if is_repeater_index(i) {
                RouteSegment::Repeater { pos: path[i], facing: facing(path, i) }
            } else {
                RouteSegment::Dust { pos: path[i] }
            },
    )
}

/// Segments of a maze-router path.
pub open spec fn lee_annotated(path: Seq<Pos3>) -> Seq<RouteSegment> {
    annotate_with(path, |p: Seq<Pos3>, i: int| lee_facing(p, i))
}

/// Positions of a segment list.
pub open spec fn segment_path(segs: Seq<RouteSegment>) -> Seq<Pos3> {
    segs.map_values(|s: RouteSegment| s.spec_pos())
}

/// Facing of the repeater at `path[i]` (signal-flow direction).
fn facing_for(path: &Vec<Pos3>, i: usize) -> (d: Direction)
    requires
        i < path@.len(),
    ensures
        d == lee_facing(path@, i as int),
{
    let prev = if i == 0 { path[0] } else { path[i - 1] };
    let cur = path[i];
    if cur.x > prev.x {
        Direction::East
    } else if cur.x < prev.x {
        Direction::West
    } else if cur.z > prev.z {
        Direction::South
    } else if cur.z < prev.z {
        Direction::North
    } else {
        Direction::East
    }
}

/// Turns a path into segments, inserting a repeater on every fifteenth
/// cell so that signal strength never runs out between source and sink.
pub fn annotate_with_repeaters(path: &Vec<Pos3>) -> (segs: Vec<RouteSegment>)
    ensures
        segs@ == lee_annotated(path@),
{
    let mut segs: Vec<RouteSegment> = Vec::new();
    let mut run: u8 = 0;
    for i in 0..path.len()
        invariant
            run as int == (i as int) % (MAX_SIGNAL as int),
            segs@ == lee_annotated(path@).take(i as int),
    {
        let p = path[i];
        if run >= MAX_SIGNAL - 1 {
            let facing = facing_for(path, i);
            segs.push(RouteSegment::Repeater { pos: p, facing });
            run = 0;
        } else {
            segs.push(RouteSegment::Dust { pos: p });
            run = run + 1;
        }
        proof {
            assert(segs@ =~= lee_annotated(path@).take(i as int + 1));
        }
    }
    proof {
        assert(segs@ =~= lee_annotated(path@));
    }
    segs
}

/// The twelve cells that dust at `p` would short into: the four
/// horizontal neighbours of `p` and of the cells directly above and
/// below it, in the order the router visits them.
pub open spec fn ring_cells(p: Pos3) -> Seq<Pos3> {
    let lvl = |dy: int|
        seq![
            Pos3 { x: p.x, y: (p.y + dy) as i32, z: (p.z - 1) as i32 },
            Pos3 { x: p.x, y: (p.y + dy) as i32, z: (p.z + 1) as i32 },
            Pos3 { x: (p.x + 1) as i32, y: (p.y + dy) as i32, z: p.z },
            Pos3 { x: (p.x - 1) as i32, y: (p.y + dy) as i32, z: p.z },
        ];
    lvl(-1) + lvl(0) + lvl(1)
}

/// Grid `g` after marking every free cell among the first `k` ring cells
/// of `p` as obstructed for `net`.
pub open spec fn obstruct_upto(g: Map<Pos3, CellState>, net: NetTag, p: Pos3, k: int) -> Map<
    Pos3,
    CellState,
> {
    Map::new(
        |q: Pos3| g.contains_key(q) || ring_cells(p).take(k).contains(q),
        |q: Pos3|
            if g.contains_key(q) {
                g[q]
            } else {
                CellState::Obstructed(net)
            },
    )
}

/// Grid `g` after marking the free ring cells of `p` as obstructed.
pub open spec fn obstruct_ring(g: Map<Pos3, CellState>, net: NetTag, p: Pos3) -> Map<
    Pos3,
    CellState,
> {
    obstruct_upto(g, net, p, 12)
}

/// The grid state a committed segment leaves in its own cell.
pub open spec fn segment_state(s: RouteSegment, net: NetTag) -> CellState {
    match s {
        RouteSegment::Dust { .. } => CellState::Dust(net),
        RouteSegment::Repeater { .. } => CellState::Repeater(net),
    }
}

/// Grid `g` after committing `segs` for `net`: each segment writes its own
/// cell and then obstructs its free ring cells.
pub open spec fn commit_spec(g: Map<Pos3, CellState>, net: NetTag, segs: Seq<RouteSegment>) -> Map<
    Pos3,
    CellState,
>
    decreases segs.len(),
{
    if segs.len() == 0 {
        g
    } else {
        let prev = commit_spec(g, net, segs.drop_last());
        let s = segs.last();
        obstruct_ring(prev.insert(s.spec_pos(), segment_state(s, net)), net, s.spec_pos())
    }
}

/// Grid `g` after committing every wire of `ws` in order.
pub open spec fn commit_wires(g: Map<Pos3, CellState>, ws: Seq<RoutedWire>) -> Map<Pos3, CellState>
    decreases ws.len(),
{
    if ws.len() == 0 {
        g
    } else {
        let w = ws.last();
        commit_spec(commit_wires(g, ws.drop_last()), w.net, w.segments@)
    }
}

/// Marks the free ring cells of `p` as obstructed for `net`.
fn propagate_obstruction(grid: &mut Grid3D, net: NetTag, p: Pos3)
    requires
        in_world(p),
    ensures
        final(grid)@ == obstruct_ring(old(grid)@, net, p),
{
    let ghost g0 = old(grid)@;
    proof {
        assert(grid@ =~= obstruct_upto(g0, net, p, 0));
    }
    for di in 0..3usize
        invariant
            in_world(p),
            grid@ == obstruct_upto(g0, net, p, 4 * di as int),
    {
        let dy: i32 = if di == 0 { -1 } else if di == 1 { 0 } else { 1 };
        let c = p.translate(0, dy, 0);
        let ns = c.neighbors4();
        for ni in 0..4usize
            invariant
                in_world(p),
                di < 3,
                dy == di as int - 1,
                c == (Pos3 { x: p.x, y: (p.y + dy) as i32, z: p.z }),
                ns@.len() == 4,
                forall|j: int| 0 <= j < 4 ==> ns@[j] == ring_cells(p)[4 * di + j],
                grid@ == obstruct_upto(g0, net, p, 4 * di + ni),
        {
            let n = ns[ni];
            let ghost k = 4 * di + ni;
            let ghost before = grid@;
            proof {
                assert(ring_cells(p).take(k + 1) =~= ring_cells(p).take(k).push(n));
            }
            if grid.get(n) == CellState::Air {
                grid.set(n, CellState::Obstructed(net));
            }
            proof {
                assert(n == ring_cells(p)[k]);
                assert(ring_cells(p).len() == 12);
                assert(ring_cells(p).take(k + 1)[k] == n);
                assert(ring_cells(p).take(k + 1).contains(n));
                assert forall|q: Pos3| #[trigger] grid@.contains_key(q) == obstruct_upto(g0, net, p, k + 1).contains_key(q) by {
                    if q != n {
                        assert(ring_cells(p).take(k + 1).contains(q) == ring_cells(p).take(k).contains(q));
                    }
                }
                assert(grid@ =~= obstruct_upto(g0, net, p, k + 1));
            }
        }
    }
}

/// Writes the segments of a route for `net` into the grid, obstructing
/// the free ring cells of each.
fn commit_route(grid: &mut Grid3D, net: NetTag, segments: &Vec<RouteSegment>)
    requires
        forall|i: int| 0 <= i < segments@.len() ==> in_world(#[trigger] segments@[i].spec_pos()),
    ensures
        final(grid)@ == commit_spec(old(grid)@, net, segments@),
{
    let ghost g0 = old(grid)@;
    for i in 0..segments.len()
        invariant
            forall|j: int| 0 <= j < segments@.len() ==> in_world(#[trigger] segments@[j].spec_pos()),
            grid@ == commit_spec(g0, net, segments@.take(i as int)),
    {
        let seg = segments[i];
        proof {
            assert(segments@.take(i as int + 1).drop_last() =~= segments@.take(i as int));
            assert(in_world(segments@[i as int].spec_pos()));
        }
        match seg {
            RouteSegment::Dust { pos } => {
                grid.set(pos, CellState::Dust(net));
                propagate_obstruction(grid, net, pos);
            },
            RouteSegment::Repeater { pos, .. } => {
                grid.set(pos, CellState::Repeater(net));
                propagate_obstruction(grid, net, pos);
            },
        }
    }
    proof {
        assert(segments@.take(segments@.len() as int) =~= segments@);
    }
}

/// A wire routed for `net` from `source` to `sink` on grid `g`: its cells
/// form a route and its segments carry the repeaters the maze router
/// inserts.
pub open spec fn routed_ok(g: Map<Pos3, CellState>, net: NetTag, source: Pos3, sink: Pos3, w: RoutedWire) -> bool {
    &&& w.net == net
    &&& is_route(g, net, source, sink, segment_path(w.segments@))
    &&& w.segments@ == lee_annotated(segment_path(w.segments@))
}

/// Positions of annotated segments are the path itself.
pub proof fn lemma_annotated_path(path: Seq<Pos3>, facing: spec_fn(Seq<Pos3>, int) -> Direction)
    ensures
        segment_path(annotate_with(path, facing)) == path,
{
    assert(segment_path(annotate_with(path, facing)) =~= path);
}

/// `s` is a state a commit for `net` writes: its dust, repeater or
/// obstruction.
pub open spec fn own_state(s: CellState, net: NetTag) -> bool {
    s == CellState::Dust(net) || s == CellState::Repeater(net) || s == CellState::Obstructed(net)
}

/// A commit for `net` keeps every populated cell populated, and each cell
/// it leaves populated either holds its state from before or one of
/// `net`'s own states.
proof fn lemma_commit_keeps_or_owns(g: Map<Pos3, CellState>, net: NetTag, segs: Seq<RouteSegment>, q: Pos3)
    ensures
        g.contains_key(q) ==> commit_spec(g, net, segs).contains_key(q),
        commit_spec(g, net, segs).contains_key(q) ==> (g.contains_key(q) && commit_spec(g, net, segs)[q] == g[q])
            || own_state(commit_spec(g, net, segs)[q], net),
    decreases segs.len(),
{
    if segs.len() > 0 {
        lemma_commit_keeps_or_owns(g, net, segs.drop_last(), q);
    }
}

/// The ring cells of every committed segment end up populated.
proof fn lemma_commit_covers_rings(g: Map<Pos3, CellState>, net: NetTag, segs: Seq<RouteSegment>, j: int, q: Pos3)
    requires
        0 <= j < segs.len(),
        ring_cells(segs[j].spec_pos()).contains(q),
    ensures
        commit_spec(g, net, segs).contains_key(q),
    decreases segs.len(),
{
    let p = segs.last().spec_pos();
    if j == segs.len() - 1 {
        assert(ring_cells(p).take(12) =~= ring_cells(p));
    } else {
        assert(segs.drop_last()[j] == segs[j]);
        lemma_commit_covers_rings(g, net, segs.drop_last(), j, q);
    }
}

/// Adjacency isolation: after a wire of `net` is committed, every cell
/// next to one of its segments is populated, and such a cell that another
/// net may still enter was populated before the commit and is unchanged.
pub proof fn law_commit_isolates_wire(
    g: Map<Pos3, CellState>,
    net: NetTag,
    segs: Seq<RouteSegment>,
    other: NetTag,
    j: int,
    q: Pos3,
)
    requires
        other != net,
        0 <= j < segs.len(),
        ring_cells(segs[j].spec_pos()).contains(q),
    ensures
        commit_spec(g, net, segs).contains_key(q),
        passable(state_of(commit_spec(g, net, segs), q), other) ==> g.contains_key(q)
            && commit_spec(g, net, segs)[q] == g[q],
{
    lemma_commit_covers_rings(g, net, segs, j, q);
    lemma_commit_keeps_or_owns(g, net, segs, q);
}

/// Some segment among `segs[i..i + MAX_SIGNAL]` is a repeater.
pub open spec fn repeater_within(segs: Seq<RouteSegment>, i: int) -> bool {
    exists|j: int| i <= j < i + MAX_SIGNAL && (#[trigger] segs[j]) is Repeater
}

/// Signal strength: in the segments of any annotated path, every
/// `MAX_SIGNAL` consecutive segments hold a repeater (so dust never runs
/// longer than the signal carries), and a path shorter than `MAX_SIGNAL`
/// is dust throughout.
pub proof fn law_repeater_spacing(path: Seq<Pos3>, facing: spec_fn(Seq<Pos3>, int) -> Direction)
    ensures
        forall|i: int|
            0 <= i && i + MAX_SIGNAL <= path.len() ==> #[trigger] repeater_within(annotate_with(path, facing), i),
        path.len() < MAX_SIGNAL ==> forall|i: int|
            0 <= i < path.len() ==> (#[trigger] annotate_with(path, facing)[i]) is Dust,
{
    let segs = annotate_with(path, facing);
    assert forall|i: int| 0 <= i && i + MAX_SIGNAL <= path.len() implies #[trigger] repeater_within(segs, i) by {
        let r = i % 15;
        let j = i + 14 - r;
        assert(0 <= r < 15);
        assert((j + 1) % 15 == 0) by {
            assert(i == 15 * (i / 15) + r);
            assert(j + 1 == 15 * (i / 15 + 1));
            vstd::arithmetic::div_mod::lemma_mod_multiples_basic(i / 15 + 1, 15);
        }
        assert(is_repeater_index(j));
        assert(segs[j] is Repeater);
    }
    if path.len() < MAX_SIGNAL {
        assert forall|i: int| 0 <= i < path.len() implies (#[trigger] segs[i]) is Dust by {
            assert((i + 1) % 15 == i + 1) by {
                vstd::arithmetic::div_mod::lemma_small_mod((i + 1) as nat, 15);
            }
        }
    }
}

/// One step in any direction moves Manhattan distance one.
proof fn lemma_step_unit(p: Pos3, d: Direction)
    requires
        p.can_step(d),
    ensures
        manhattan(p, p.spec_step(d)) == 1,
{
}

/// `q` may be entered by the maze router searching for `net` towards
/// `sink`: inside the world and either the sink or passable for `net`.
pub open spec fn enterable(g: Map<Pos3, CellState>, net: NetTag, sink: Pos3, q: Pos3) -> bool {
    in_world(q) && (q == sink || passable(state_of(g, q), net))
}

/// The `d`-th neighbour of the reached cell `p`, when it can be entered,
/// has been reached at most one step later than `p`.
spec fn closed_dir(
    g: Map<Pos3, CellState>,
    net: NetTag,
    sink: Pos3,
    depth: Map<(i32, i32, i32), nat>,
    p: Pos3,
    d: int,
) -> bool {
    let dir = all_directions()[d];
    (p.can_step(dir) && enterable(g, net, sink, p.spec_step(dir))) ==> depth.contains_key(
        pos_key(p.spec_step(dir)),
    ) && depth[pos_key(p.spec_step(dir))] <= depth[pos_key(p)] + 1
}

/// Every enterable neighbour of the reached cell `p` has been reached.
spec fn closed_at(g: Map<Pos3, CellState>, net: NetTag, sink: Pos3, depth: Map<(i32, i32, i32), nat>, p: Pos3) -> bool {
    forall|d: int| 0 <= d < 6 ==> #[trigger] closed_dir(g, net, sink, depth, p, d)
}

/// Every cell reached within `bound` steps has all its enterable
/// neighbours reached.
spec fn closed_upto(g: Map<Pos3, CellState>, net: NetTag, sink: Pos3, depth: Map<(i32, i32, i32), nat>, bound: int) -> bool {
    forall|p: Pos3|
        depth.contains_key(pos_key(p)) && depth[pos_key(p)] <= bound ==> #[trigger] closed_at(g, net, sink, depth, p)
}

/// `d1` keeps every entry of `d0`.
spec fn extends(d0: Map<(i32, i32, i32), nat>, d1: Map<(i32, i32, i32), nat>) -> bool {
    forall|k: (i32, i32, i32)| #[trigger] d0.contains_key(k) ==> d1.contains_key(k) && d1[k] == d0[k]
}

proof fn lemma_closed_extends(
    g: Map<Pos3, CellState>,
    net: NetTag,
    sink: Pos3,
    d0: Map<(i32, i32, i32), nat>,
    d1: Map<(i32, i32, i32), nat>,
    p: Pos3,
)
    requires
        extends(d0, d1),
        d0.contains_key(pos_key(p)),
        closed_at(g, net, sink, d0, p),
    ensures
        closed_at(g, net, sink, d1, p),
{
    assert forall|d: int| 0 <= d < 6 implies #[trigger] closed_dir(g, net, sink, d1, p, d) by {
        assert(closed_dir(g, net, sink, d0, p, d));
    }
}

/// Two cells one step apart are joined by one of the six directions.
proof fn lemma_unit_step_dir(a: Pos3, b: Pos3) -> (d: int)
    requires
        manhattan(a, b) == 1,
    ensures
        0 <= d < 6,
        a.can_step(all_directions()[d]),
        a.spec_step(all_directions()[d]) == b,
{
    if b.x == a.x + 1 {
        2
    } else if b.x == a.x - 1 {
        3
    } else if b.z == a.z - 1 {
        0
    } else if b.z == a.z + 1 {
        1
    } else if b.y == a.y + 1 {
        4
    } else {
        5
    }
}

/// Along any route, each cell has been reached no later than its index,
/// as long as the cells before it are closed: within `bound` steps, or
/// all of them when `full` (every reached cell within `bound`).
#[verifier::spinoff_prover]
#[verifier::rlimit(40)]
proof fn lemma_route_reached(
    g: Map<Pos3, CellState>,
    net: NetTag,
    source: Pos3,
    sink: Pos3,
    depth: Map<(i32, i32, i32), nat>,
    bound: int,
    full: bool,
    path: Seq<Pos3>,
    i: int,
)
    requires
        is_route(g, net, source, sink, path),
        0 <= i < path.len(),
        depth.contains_key(pos_key(source)),
        depth[pos_key(source)] == 0,
        closed_upto(g, net, sink, depth, bound),
        full ==> forall|k: (i32, i32, i32)| #[trigger] depth.contains_key(k) ==> depth[k] <= bound,
        !full ==> i <= bound + 1,
    ensures
        depth.contains_key(pos_key(path[i])),
        depth[pos_key(path[i])] <= i,
    decreases i,
{
    if i > 0 {
        lemma_route_reached(g, net, source, sink, depth, bound, full, path, i - 1);
        let a = path[i - 1];
        let b = path[i];
        assert(manhattan(path[i - 1], path[i - 1 + 1]) == 1);
        assert(depth[pos_key(a)] <= bound);
        assert(closed_at(g, net, sink, depth, a));
        let d = lemma_unit_step_dir(a, b);
        assert(closed_dir(g, net, sink, depth, a, d));
        assert(in_world(path[i]));
        if i < path.len() - 1 {
            assert(passable(state_of(g, path[i]), net));
        }
        assert(enterable(g, net, sink, b));
    }
}

fn in_world_exec(p: Pos3) -> (r: bool)
    ensures
        r == in_world(p),
{
    i32::MIN < p.x && p.x < i32::MAX && i32::MIN < p.y && p.y < i32::MAX && i32::MIN < p.z && p.z
        < i32::MAX
}

/// The search tree recorded by the maze router: every reached cell other
/// than the source has a parent one step closer to the source, and every
/// reached cell other than the sink may carry `net`'s dust.
spec fn tree_ok(
    g: Map<Pos3, CellState>,
    net: NetTag,
    source: Pos3,
    sink: Pos3,
    parent: Map<(i32, i32, i32), Pos3>,
    depth: Map<(i32, i32, i32), nat>,
) -> bool {
    &&& in_world(source)
    &&& depth.contains_key(pos_key(source))
    &&& depth[pos_key(source)] == 0
    &&& forall|k: (i32, i32, i32)| #[trigger]
        depth.contains_key(k) && k != pos_key(source) ==> parent.contains_key(k)
    &&& forall|k: (i32, i32, i32)| #[trigger] parent.contains_key(k) ==> parent_ok(g, net, sink, parent, depth, k)
}

spec fn parent_ok(
    g: Map<Pos3, CellState>,
    net: NetTag,
    sink: Pos3,
    parent: Map<(i32, i32, i32), Pos3>,
    depth: Map<(i32, i32, i32), nat>,
    k: (i32, i32, i32),
) -> bool {
    let q = key_pos(k);
    let pp = parent[k];
    &&& depth.contains_key(k)
    &&& depth.contains_key(pos_key(pp))
    &&& depth[k] == depth[pos_key(pp)] + 1
    &&& manhattan(pp, q) == 1
    &&& in_world(q)
    &&& (q != sink ==> passable(state_of(g, q), net))
}

/// State of one breadth-first layer sweep.
spec fn sweep_ok(
    g: Map<Pos3, CellState>,
    net: NetTag,
    source: Pos3,
    sink: Pos3,
    visited: Map<(i32, i32, i32), ()>,
    parent: Map<(i32, i32, i32), Pos3>,
    depth: Map<(i32, i32, i32), nat>,
    dist: int,
) -> bool {
    &&& tree_ok(g, net, source, sink, parent, depth)
    &&& visited.dom() == depth.dom()
    &&& forall|k: (i32, i32, i32)| #[trigger] depth.contains_key(k) ==> depth[k] <= dist + 1
    &&& !depth.contains_key(pos_key(sink))
    &&& in_world(sink)
    &&& source != sink
}

fn reversed(v: &Vec<Pos3>) -> (r: Vec<Pos3>)
    ensures
        r@ == v@.reverse(),
{
    let mut r: Vec<Pos3> = Vec::new();
    let n = v.len();
    for i in 0..n
        invariant
            n == v@.len(),
            r@ == v@.reverse().take(i as int),
    {
        r.push(v[n - 1 - i]);
        proof {
            assert(r@ =~= v@.reverse().take(i as int + 1));
        }
    }
    proof {
        assert(r@ =~= v@.reverse());
    }
    r
}

/// Walks the parent links back from the sink and returns the path
/// source-first.
#[verifier::rlimit(100)]
#[verifier::spinoff_prover]
fn reconstruct(
    source: Pos3,
    sink: Pos3,
    parent: &BTreeMap<(i32, i32, i32), Pos3>,
    Ghost(g): Ghost<Map<Pos3, CellState>>,
    Ghost(net): Ghost<NetTag>,
    Ghost(depth): Ghost<Map<(i32, i32, i32), nat>>,
) -> (path: Vec<Pos3>)
    requires
        tree_ok(g, net, source, sink, parent@, depth),
        depth.contains_key(pos_key(sink)),
        source != sink,
    ensures
        is_route(g, net, source, sink, path@),
        path@.len() == depth[pos_key(sink)] + 1,
{
    let mut rev: Vec<Pos3> = Vec::new();
    rev.push(sink);
    let mut cur = sink;
    let ghost ds = depth[pos_key(sink)];
    while cur != source
        invariant
            tree_ok(g, net, source, sink, parent@, depth),
            depth.contains_key(pos_key(sink)),
            ds == depth[pos_key(sink)],
            rev@.len() >= 1,
            rev@[0] == sink,
            rev@.last() == cur,
            forall|i: int|
                0 <= i < rev@.len() ==> depth.contains_key(pos_key(#[trigger] rev@[i])) && depth[pos_key(
                    rev@[i],
                )] + i == ds,
            forall|i: int| 0 <= i < rev@.len() - 1 ==> manhattan(rev@[i + 1], #[trigger] rev@[i]) == 1,
        decreases depth[pos_key(cur)],
    {
        let ck = cur.key();
        proof {
            assert(depth.contains_key(ck));
            assert(ck != pos_key(source)) by {
                assert(key_pos(ck) == cur);
                assert(key_pos(pos_key(source)) == source);
            }
            assert(parent_ok(g, net, sink, parent@, depth, ck));
        }
        let next = match parent.get(&ck) {
            Some(p) => *p,
            None => {
                proof {
                    assert(false);
                }
                cur
            },
        };
        proof {
            assert(key_pos(ck) == cur);
        }
        cur = next;
        rev.push(cur);
    }
    let path = reversed(&rev);
    proof {
        let l = rev@.len() as int;
        assert(depth[pos_key(source)] == 0);
        assert(l == ds + 1);
        assert forall|i: int| 0 <= i < l implies #[trigger] path@[i] == rev@[l - 1 - i]
            && depth.contains_key(pos_key(path@[i])) && depth[pos_key(path@[i])] == i by {
            assert(depth[pos_key(rev@[l - 1 - i])] + (l - 1 - i) == ds);
        }
        assert(path@.no_duplicates()) by {
            assert forall|i: int, j: int| 0 <= i < l && 0 <= j < l && i != j implies path@[i] != path@[j] by {
                assert(depth[pos_key(path@[i])] == i);
                assert(depth[pos_key(path@[j])] == j);
            }
        }
        assert forall|i: int| 0 <= i < path@.len() - 1 implies manhattan(#[trigger] path@[i], path@[i + 1]) == 1 by {
            assert(path@[i] == rev@[l - 1 - i]);
            assert(path@[i + 1] == rev@[l - 2 - i]);
            assert(manhattan(rev@[(l - 2 - i) + 1], rev@[l - 2 - i]) == 1);
        }
        assert forall|i: int| 0 <= i < path@.len() implies in_world(#[trigger] path@[i]) by {
            let k = pos_key(path@[i]);
            if i > 0 {
                assert(k != pos_key(source));
                assert(parent@.contains_key(k));
                assert(parent_ok(g, net, sink, parent@, depth, k));
                assert(key_pos(k) == path@[i]);
            }
        }
        assert forall|i: int| 0 < i < path@.len() - 1 implies passable(state_of(g, #[trigger] path@[i]), net) by {
            let k = pos_key(path@[i]);
            assert(k != pos_key(source));
            assert(parent@.contains_key(k));
            assert(parent_ok(g, net, sink, parent@, depth, k));
            assert(key_pos(k) == path@[i]);
            assert(path@[i] != sink) by {
                assert(depth[pos_key(sink)] == l - 1);
            }
        }
    }
    path
}

/// Closure within `bound` survives adding cells reached later than `bound`.
proof fn lemma_closed_upto_extends(
    g: Map<Pos3, CellState>,
    net: NetTag,
    sink: Pos3,
    d0: Map<(i32, i32, i32), nat>,
    d1: Map<(i32, i32, i32), nat>,
    bound: int,
)
    requires
        extends(d0, d1),
        forall|k: (i32, i32, i32)| #[trigger] d1.contains_key(k) && !d0.contains_key(k) ==> d1[k] > bound,
        closed_upto(g, net, sink, d0, bound),
    ensures
        closed_upto(g, net, sink, d1, bound),
{
    assert forall|p: Pos3| d1.contains_key(pos_key(p)) && d1[pos_key(p)] <= bound implies #[trigger] closed_at(
        g,
        net,
        sink,
        d1,
        p,
    ) by {
        assert(d0.contains_key(pos_key(p)));
        assert(closed_at(g, net, sink, d0, p));
        lemma_closed_extends(g, net, sink, d0, d1, p);
    }
}

/// Next-layer bookkeeping: `next` holds exactly the cells reached at
/// distance `dist + 1`.
spec fn next_ok(next: Map<(i32, i32, i32), ()>, depth: Map<(i32, i32, i32), nat>, dist: int) -> bool {
    &&& forall|k: (i32, i32, i32)| #[trigger] next.contains_key(k) ==> depth.contains_key(k) && depth[k] == dist + 1
    &&& forall|p: Pos3|
        depth.contains_key(pos_key(p)) && depth[pos_key(p)] == dist + 1 ==> #[trigger] next.contains_key(pos_key(p))
}

/// `d1` extends `d0` with cells reached at distance `dist + 1` only.
spec fn grown_by_layer(d0: Map<(i32, i32, i32), nat>, d1: Map<(i32, i32, i32), nat>, dist: int) -> bool {
    &&& extends(d0, d1)
    &&& forall|k: (i32, i32, i32)| #[trigger] d1.contains_key(k) && !d0.contains_key(k) ==> d1[k] == dist + 1
}

/// Tries the `di`-th neighbour of `pos` (a cell `dist` steps from the
/// source): when it is enterable and not reached yet, reaches it at
/// distance `dist + 1`. Returns whether it is the sink, and the new
/// distances.
fn try_neighbor(
    grid: &Grid3D,
    net: NetTag,
    source: Pos3,
    sink: Pos3,
    pos: Pos3,
    dist: u32,
    di: usize,
    visited: &mut BTreeMap<(i32, i32, i32), ()>,
    parent: &mut BTreeMap<(i32, i32, i32), Pos3>,
    next: &mut BTreeMap<(i32, i32, i32), ()>,
    Ghost(depth0): Ghost<Map<(i32, i32, i32), nat>>,
) -> (r: (bool, Ghost<Map<(i32, i32, i32), nat>>))
    requires
        di < 6,
        sweep_ok(grid@, net, source, sink, old(visited)@, old(parent)@, depth0, dist as int),
        depth0.contains_key(pos_key(pos)),
        depth0[pos_key(pos)] == dist,
        next_ok(old(next)@, depth0, dist as int),
    ensures
        grown_by_layer(depth0, r.1@, dist as int),
        !r.0 ==> {
            &&& sweep_ok(grid@, net, source, sink, final(visited)@, final(parent)@, r.1@, dist as int)
            &&& next_ok(final(next)@, r.1@, dist as int)
            &&& closed_dir(grid@, net, sink, r.1@, pos, di as int)
        },
        r.0 ==> {
            &&& tree_ok(grid@, net, source, sink, final(parent)@, r.1@)
            &&& r.1@.contains_key(pos_key(sink))
        },
{
    let ghost g = grid@;
    let ghost mut depth = depth0;
    let dir = Direction::nth(di);
    if let Some(q) = pos.checked_step(dir) {
        let qk = q.key();
        if in_world_exec(q) && !visited.contains_key(&qk) {
            if q == sink || grid.is_passable_for(q, net) {
                proof {
                    lemma_step_unit(pos, dir);
                    assert(key_pos(qk) == q);
                    assert(!depth.contains_key(qk));
                }
                visited.insert(qk, ());
                parent.insert(qk, pos);
                proof {
                    depth = depth.insert(qk, (dist + 1) as nat);
                    assert(visited@.dom() =~= depth.dom());
                    assert forall|k: (i32, i32, i32)| #[trigger] parent@.contains_key(k) implies parent_ok(
                        g,
                        net,
                        sink,
                        parent@,
                        depth,
                        k,
                    ) by {
                        if k != qk {
                            assert(parent_ok(g, net, sink, parent@, depth0, k));
                        }
                    }
                    assert forall|k: (i32, i32, i32)| #[trigger] depth0.contains_key(k) implies depth.contains_key(k)
                        && depth[k] == depth0[k] by {
                        assert(k != qk);
                    }
                }
                if q == sink {
                    return (true, Ghost(depth));
                }
                next.insert(qk, ());
                proof {
                    assert forall|p: Pos3| depth.contains_key(pos_key(p)) && depth[pos_key(p)] == dist + 1 implies #[trigger] next@.contains_key(
                        pos_key(p),
                    ) by {
                        if pos_key(p) != qk {
                            assert(depth0.contains_key(pos_key(p)));
                        }
                    }
                    assert(all_directions()[di as int] == dir);
                }
                return (false, Ghost(depth));
            }
        }
    }
    proof {
        assert(all_directions()[di as int] == dir);
    }
    (false, Ghost(depth))
}

/// Reaches the enterable neighbours of `pos` (a cell `dist` steps from
/// the source) that were not reached yet, at distance `dist + 1`, and
/// records them in `next`. Returns whether the sink was reached, and the
/// new distances.
fn expand_cell(
    grid: &Grid3D,
    net: NetTag,
    source: Pos3,
    sink: Pos3,
    pos: Pos3,
    dist: u32,
    visited: &mut BTreeMap<(i32, i32, i32), ()>,
    parent: &mut BTreeMap<(i32, i32, i32), Pos3>,
    next: &mut BTreeMap<(i32, i32, i32), ()>,
    Ghost(depth0): Ghost<Map<(i32, i32, i32), nat>>,
) -> (r: (bool, Ghost<Map<(i32, i32, i32), nat>>))
    requires
        sweep_ok(grid@, net, source, sink, old(visited)@, old(parent)@, depth0, dist as int),
        depth0.contains_key(pos_key(pos)),
        depth0[pos_key(pos)] == dist,
        closed_upto(grid@, net, sink, depth0, dist - 1),
        next_ok(old(next)@, depth0, dist as int),
    ensures
        grown_by_layer(depth0, r.1@, dist as int),
        !r.0 ==> {
            &&& sweep_ok(grid@, net, source, sink, final(visited)@, final(parent)@, r.1@, dist as int)
            &&& closed_at(grid@, net, sink, r.1@, pos)
            &&& next_ok(final(next)@, r.1@, dist as int)
        },
        r.0 ==> {
            &&& tree_ok(grid@, net, source, sink, final(parent)@, r.1@)
            &&& r.1@.contains_key(pos_key(sink))
            &&& r.1@[pos_key(sink)] == dist + 1
            &&& forall|p2: Seq<Pos3>| #[trigger] is_route(grid@, net, source, sink, p2) ==> p2.len() >= dist + 2
        },
{
    let ghost g = grid@;
    let ghost mut depth = depth0;
    for di in 0..6usize
        invariant
            g == grid@,
            sweep_ok(g, net, source, sink, visited@, parent@, depth, dist as int),
            grown_by_layer(depth0, depth, dist as int),
            depth0.contains_key(pos_key(pos)),
            depth0[pos_key(pos)] == dist,
            closed_upto(g, net, sink, depth0, dist - 1),
            next_ok(next@, depth, dist as int),
            forall|d: int| 0 <= d < di ==> #[trigger] closed_dir(g, net, sink, depth, pos, d),
    {
        let ghost dprev = depth;
        let (found, Ghost(d1)) = try_neighbor(
            grid,
            net,
            source,
            sink,
            pos,
            dist,
            di,
            visited,
            parent,
            next,
            Ghost(depth),
        );
        proof {
            depth = d1;
            assert(extends(depth0, depth)) by {
                assert forall|k: (i32, i32, i32)| #[trigger] depth0.contains_key(k) implies depth.contains_key(k)
                    && depth[k] == depth0[k] by {
                    assert(dprev.contains_key(k));
                }
            }
            assert forall|k: (i32, i32, i32)| #[trigger] depth.contains_key(k) && !depth0.contains_key(k) implies depth[k]
                == dist + 1 by {
                if dprev.contains_key(k) {
                    assert(dprev[k] == dist + 1);
                }
            }
        }
        if found {
            proof {
                assert(!dprev.contains_key(pos_key(sink)));
                assert(depth[pos_key(sink)] == dist + 1);
                lemma_closed_upto_extends(g, net, sink, depth0, dprev, dist - 1);
                assert forall|p2: Seq<Pos3>| #[trigger] is_route(g, net, source, sink, p2) implies p2.len() >= dist
                    + 2 by {
                    if p2.len() < dist + 2 {
                        lemma_route_reached(g, net, source, sink, dprev, dist - 1, false, p2, p2.len() - 1);
                        assert(p2[p2.len() - 1] == sink);
                    }
                }
            }
            return (true, Ghost(depth));
        }
        proof {
            assert forall|d: int| 0 <= d < di + 1 implies #[trigger] closed_dir(g, net, sink, depth, pos, d) by {
                if d < di {
                    assert(closed_dir(g, net, sink, dprev, pos, d));
                }
            }
        }
    }
    proof {
        assert(closed_at(g, net, sink, depth, pos));
    }
    (false, Ghost(depth))
}

/// `layer` holds exactly the cells reached at distance `dist`.
spec fn layer_ok(layer: Seq<Pos3>, depth: Map<(i32, i32, i32), nat>, dist: int) -> bool {
    &&& forall|i: int|
        0 <= i < layer.len() ==> depth.contains_key(pos_key(#[trigger] layer[i])) && depth[pos_key(layer[i])] == dist
    &&& forall|p: Pos3| depth.contains_key(pos_key(p)) && depth[pos_key(p)] == dist ==> #[trigger] layer.contains(p)
}

/// The sweep facts after one more cell of the layer has been expanded.
proof fn lemma_layer_step(
    g: Map<Pos3, CellState>,
    net: NetTag,
    sink: Pos3,
    layer: Seq<Pos3>,
    li: int,
    d0: Map<(i32, i32, i32), nat>,
    d1: Map<(i32, i32, i32), nat>,
    dist: int,
)
    requires
        0 <= li < layer.len(),
        grown_by_layer(d0, d1, dist),
        layer_ok(layer, d0, dist),
        closed_upto(g, net, sink, d0, dist - 1),
        forall|i: int| 0 <= i < li ==> #[trigger] closed_at(g, net, sink, d0, layer[i]),
        closed_at(g, net, sink, d1, layer[li]),
    ensures
        layer_ok(layer, d1, dist),
        closed_upto(g, net, sink, d1, dist - 1),
        forall|i: int| 0 <= i < li + 1 ==> #[trigger] closed_at(g, net, sink, d1, layer[i]),
{
    lemma_closed_upto_extends(g, net, sink, d0, d1, dist - 1);
    assert forall|i: int| 0 <= i < li + 1 implies #[trigger] closed_at(g, net, sink, d1, layer[i]) by {
        if i < li {
            assert(closed_at(g, net, sink, d0, layer[i]));
            assert(d0.contains_key(pos_key(layer[i])));
            lemma_closed_extends(g, net, sink, d0, d1, layer[i]);
        }
    }
    assert forall|i: int| 0 <= i < layer.len() implies d1.contains_key(pos_key(#[trigger] layer[i])) && d1[pos_key(
        layer[i],
    )] == dist by {
        assert(d0.contains_key(pos_key(layer[i])));
    }
    assert forall|p: Pos3| d1.contains_key(pos_key(p)) && d1[pos_key(p)] == dist implies #[trigger] layer.contains(p) by {
        assert(d0.contains_key(pos_key(p)));
    }
}

/// After a whole layer has been expanded, every cell within `dist` steps
/// is closed.
proof fn lemma_layer_done(
    g: Map<Pos3, CellState>,
    net: NetTag,
    sink: Pos3,
    layer: Seq<Pos3>,
    depth: Map<(i32, i32, i32), nat>,
    dist: int,
)
    requires
        layer_ok(layer, depth, dist),
        closed_upto(g, net, sink, depth, dist - 1),
        forall|i: int| 0 <= i < layer.len() ==> #[trigger] closed_at(g, net, sink, depth, layer[i]),
    ensures
        closed_upto(g, net, sink, depth, dist),
{
    assert forall|p: Pos3| depth.contains_key(pos_key(p)) && depth[pos_key(p)] <= dist implies #[trigger] closed_at(
        g,
        net,
        sink,
        depth,
        p,
    ) by {
        if depth[pos_key(p)] == dist {
            assert(layer.contains(p));
            let i = choose|i: int| 0 <= i < layer.len() && layer[i] == p;
            assert(closed_at(g, net, sink, depth, layer[i]));
        }
    }
}

/// Breadth-first search from `source` to `sink` over cells passable for
/// `net` (the sink itself is always enterable), exploring layers of equal
/// distance in `(y, z, x)` order and never exploring a cell more than
/// `max_distance` steps from `source`. The cells on the outermost `i32`
/// layer are never entered. A route found is a shortest one; none is found
/// only when no route of at most `max_distance` steps exists.
#[verifier::rlimit(100)]
#[verifier::spinoff_prover]
fn bfs(grid: &Grid3D, net: NetTag, source: Pos3, sink: Pos3, max_distance: u32) -> (r: Option<Vec<Pos3>>)
    requires
        in_world(source),
        in_world(sink),
    ensures
        r matches Some(p) ==> is_route(grid@, net, source, sink, p@) && p@.len() <= max_distance + 1 && forall|
            p2: Seq<Pos3>,
        | #[trigger] is_route(grid@, net, source, sink, p2) ==> p@.len() <= p2.len(),
        r is None ==> forall|p2: Seq<Pos3>| #[trigger] is_route(grid@, net, source, sink, p2) ==> p2.len() > max_distance
            + 1,
{
    if source == sink {
        let mut v: Vec<Pos3> = Vec::new();
        v.push(source);
        proof {
            assert(v@.no_duplicates());
        }
        return Some(v);
    }
    let ghost g = grid@;
    let mut visited: BTreeMap<(i32, i32, i32), ()> = BTreeMap::new();
    let mut parent: BTreeMap<(i32, i32, i32), Pos3> = BTreeMap::new();
    let ghost mut depth: Map<(i32, i32, i32), nat> = Map::empty().insert(pos_key(source), 0nat);
    visited.insert(source.key(), ());
    let mut layer: Vec<Pos3> = Vec::new();
    layer.push(source);
    let mut dist: u32 = 0;
    proof {
        assert(visited@.dom() =~= depth.dom());
        assert(key_pos(pos_key(sink)) == sink);
        assert forall|p: Pos3| depth.contains_key(pos_key(p)) && depth[pos_key(p)] == 0 implies #[trigger] layer@.contains(
            p,
        ) by {
            assert(pos_key(p) == pos_key(source));
            assert(layer@[0] == source);
        }
    }
    loop
        invariant
            g == grid@,
            in_world(source),
            dist <= max_distance,
            sweep_ok(g, net, source, sink, visited@, parent@, depth, dist as int),
            forall|k: (i32, i32, i32)| #[trigger] depth.contains_key(k) ==> depth[k] <= dist,
            layer_ok(layer@, depth, dist as int),
            closed_upto(g, net, sink, depth, dist - 1),
        decreases max_distance - dist,
    {
        if dist == max_distance {
            proof {
                assert forall|p2: Seq<Pos3>| #[trigger] is_route(g, net, source, sink, p2) implies p2.len() > max_distance
                    + 1 by {
                    if p2.len() <= max_distance + 1 {
                        lemma_route_reached(g, net, source, sink, depth, dist - 1, false, p2, p2.len() - 1);
                        assert(p2[p2.len() - 1] == sink);
                    }
                }
            }
            return None;
        }
        let mut next: BTreeMap<(i32, i32, i32), ()> = BTreeMap::new();
        proof {
            assert forall|p: Pos3| depth.contains_key(pos_key(p)) && depth[pos_key(p)] == dist + 1 implies #[trigger] next@.contains_key(
                pos_key(p),
            ) by {
                assert(depth[pos_key(p)] <= dist);
            }
        }
        for li in 0..layer.len()
            invariant
                g == grid@,
                in_world(source),
                dist < max_distance,
                sweep_ok(g, net, source, sink, visited@, parent@, depth, dist as int),
                layer_ok(layer@, depth, dist as int),
                closed_upto(g, net, sink, depth, dist - 1),
                next_ok(next@, depth, dist as int),
                forall|i: int| 0 <= i < li ==> #[trigger] closed_at(g, net, sink, depth, layer@[i]),
        {
            let pos = layer[li];
            let ghost d0 = depth;
            let (found, Ghost(d1)) = expand_cell(
                grid,
                net,
                source,
                sink,
                pos,
                dist,
                &mut visited,
                &mut parent,
                &mut next,
                Ghost(depth),
            );
            proof {
                depth = d1;
            }
            if found {
                let path = reconstruct(source, sink, &parent, Ghost(g), Ghost(net), Ghost(depth));
                return Some(path);
            }
            proof {
                lemma_layer_step(g, net, sink, layer@, li as int, d0, depth, dist as int);
            }
        }
        proof {
            lemma_layer_done(g, net, sink, layer@, depth, dist as int);
            assert forall|k: (i32, i32, i32)| #[trigger] depth.contains_key(k) implies depth[k] <= dist + 1 by {
                assert(sweep_ok(g, net, source, sink, visited@, parent@, depth, dist as int));
            }
        }
        if next.is_empty() {
            proof {
                assert forall|k: (i32, i32, i32)| #[trigger] depth.contains_key(k) implies depth[k] <= dist by {
                    if depth[k] == dist + 1 {
                        assert(pos_key(key_pos(k)) == k);
                        assert(next@.contains_key(k));
                        assert(next@.dom().contains(k));
                    }
                }
                assert forall|p2: Seq<Pos3>| #[trigger] is_route(g, net, source, sink, p2) implies p2.len() > max_distance
                    + 1 by {
                    lemma_route_reached(g, net, source, sink, depth, dist as int, true, p2, p2.len() - 1);
                    assert(p2[p2.len() - 1] == sink);
                }
            }
            return None;
        }
        let keys = sorted_keys_of(&next);
        let mut new_layer: Vec<Pos3> = Vec::new();
        for i in 0..keys.len()
            invariant
                new_layer@.len() == i,
                forall|j: int| 0 <= j < i ==> #[trigger] new_layer@[j] == key_pos(keys@[j]),
        {
            new_layer.push(Pos3::from_key(keys[i]));
        }
        proof {
            assert forall|i: int| 0 <= i < new_layer@.len() implies depth.contains_key(
                pos_key(#[trigger] new_layer@[i]),
            ) && depth[pos_key(new_layer@[i])] == dist + 1 by {
                assert(pos_key(key_pos(keys@[i])) == keys@[i]);
                assert(next@.contains_key(keys@[i]));
            }
            assert forall|p: Pos3| depth.contains_key(pos_key(p)) && depth[pos_key(p)] == dist + 1 implies #[trigger] new_layer@.contains(
                p,
            ) by {
                assert(next@.contains_key(pos_key(p)));
                let j = choose|j: int| 0 <= j < keys@.len() && keys@[j] == pos_key(p);
                assert(new_layer@[j] == key_pos(keys@[j]));
                assert(key_pos(pos_key(p)) == p);
            }
        }
        layer = new_layer;
        dist = dist + 1;
    }
}

/// Like [`route_single`], but the search gives up once the distance from
/// `source` would exceed `max_distance`: it fails exactly when no route of
/// at most `max_distance` steps (`max_distance + 1` cells) exists. A route found is a shortest one,
/// committed to the grid; on failure the grid is unchanged.
pub fn route_single_bounded(
    grid: &mut Grid3D,
    net: NetTag,
    source: Pos3,
    sink: Pos3,
    max_distance: u32,
) -> (r: SingleRouteOutcome)
    requires
        in_world(source),
        in_world(sink),
    ensures
        r is Unroutable ==> final(grid)@ == old(grid)@ && forall|p: Seq<Pos3>|
            #[trigger] is_route(old(grid)@, net, source, sink, p) ==> p.len() > max_distance + 1,
        r matches SingleRouteOutcome::Routed(w) ==> routed_ok(old(grid)@, net, source, sink, w)
            && w.segments@.len() <= max_distance + 1 && final(grid)@ == commit_spec(
            old(grid)@,
            net,
            w.segments@,
        ) && forall|p: Seq<Pos3>| #[trigger] is_route(old(grid)@, net, source, sink, p) ==> w.segments@.len()
            <= p.len(),
{
    let path = match bfs(grid, net, source, sink, max_distance) {
        Some(p) => p,
        None => return SingleRouteOutcome::Unroutable,
    };
    let segments = annotate_with_repeaters(&path);
    proof {
        lemma_annotated_path(path@, |p: Seq<Pos3>, i: int| lee_facing(p, i));
        assert forall|i: int| 0 <= i < segments@.len() implies in_world(#[trigger] segments@[i].spec_pos()) by {
            assert(segment_path(segments@)[i] == segments@[i].spec_pos());
            assert(in_world(path@[i]));
        }
    }
    commit_route(grid, net, &segments);
    SingleRouteOutcome::Routed(RoutedWire { net, segments })
}

/// Route one source-to-sink pair for `net` along a shortest route, with
/// the search capped only by `u32::MAX`; on success the route is committed
/// to the grid.
pub fn route_single(grid: &mut Grid3D, net: NetTag, source: Pos3, sink: Pos3) -> (r: SingleRouteOutcome)
    requires
        in_world(source),
        in_world(sink),
    ensures
        r is Unroutable ==> final(grid)@ == old(grid)@ && forall|p: Seq<Pos3>|
            #[trigger] is_route(old(grid)@, net, source, sink, p) ==> p.len() > u32::MAX + 1,
        r matches SingleRouteOutcome::Routed(w) ==> routed_ok(old(grid)@, net, source, sink, w)
            && w.segments@.len() <= u32::MAX + 1 && final(grid)@ == commit_spec(old(grid)@, net, w.segments@)
            && forall|p: Seq<Pos3>| #[trigger] is_route(old(grid)@, net, source, sink, p) ==> w.segments@.len()
            <= p.len(),
{
    route_single_bounded(grid, net, source, sink, u32::MAX)
}

/// Every endpoint of `routes` is inside the world.
pub open spec fn routes_in_world(routes: Seq<(NetTag, Pos3, Pos3)>) -> bool {
    forall|i: int| 0 <= i < routes.len() ==> in_world((#[trigger] routes[i]).1) && in_world(routes[i].2)
}

/// `ws` routes `routes` one for one, in order, each on the grid left by
/// committing the wires before it.
pub open spec fn all_routed(g: Map<Pos3, CellState>, routes: Seq<(NetTag, Pos3, Pos3)>, ws: Seq<RoutedWire>) -> bool {
    &&& ws.len() == routes.len()
    &&& forall|i: int|
        0 <= i < ws.len() ==> routed_ok(
            commit_wires(g, ws.take(i)),
            routes[i].0,
            routes[i].1,
            routes[i].2,
            #[trigger] ws[i],
        )
}

/// Appending a wire routed on the current grid extends a routed prefix.
proof fn lemma_all_routed_push(
    g0: Map<Pos3, CellState>,
    routes: Seq<(NetTag, Pos3, Pos3)>,
    i: int,
    before: Seq<RoutedWire>,
    w: RoutedWire,
)
    requires
        0 <= i < routes.len(),
        all_routed(g0, routes.take(i), before),
        routed_ok(commit_wires(g0, before), routes[i].0, routes[i].1, routes[i].2, w),
    ensures
        all_routed(g0, routes.take(i + 1), before.push(w)),
        commit_wires(g0, before.push(w)) == commit_spec(commit_wires(g0, before), w.net, w.segments@),
{
    let after = before.push(w);
    assert(after.drop_last() =~= before);
    assert(after.take(i) =~= before);
    assert forall|j: int| 0 <= j < after.len() implies routed_ok(
        commit_wires(g0, after.take(j)),
        routes.take(i + 1)[j].0,
        routes.take(i + 1)[j].1,
        routes.take(i + 1)[j].2,
        #[trigger] after[j],
    ) by {
        if j < i {
            assert(after.take(j) =~= before.take(j));
            assert(routes.take(i + 1)[j] == routes.take(i)[j]);
        }
    }
}

/// The wires among the outcomes `outs`, in order.
pub open spec fn wires_of(outs: Seq<Option<RoutedWire>>) -> Seq<RoutedWire>
    decreases outs.len(),
{
    if outs.len() == 0 {
        Seq::empty()
    } else {
        match outs.last() {
            Some(w) => wires_of(outs.drop_last()).push(w),
            None => wires_of(outs.drop_last()),
        }
    }
}

/// The labels of the routes whose outcome in `outs` is a failure, in
/// order.
pub open spec fn failed_labels(routes: Seq<(NetTag, Pos3, Pos3)>, outs: Seq<Option<RoutedWire>>) -> Seq<Seq<char>>
    decreases outs.len(),
{
    if outs.len() == 0 {
        Seq::empty()
    } else if outs.last() is None {
        failed_labels(routes, outs.drop_last()).push(net_label_text(routes[outs.len() - 1].0.0))
    } else {
        failed_labels(routes, outs.drop_last())
    }
}

/// Outcome `out` of trying `route` on grid `g` with search cap `cap`: a
/// shortest route of at most `cap + 1` cells, or a failure when no route
/// that short exists.
pub open spec fn turn_ok(g: Map<Pos3, CellState>, route: (NetTag, Pos3, Pos3), cap: int, out: Option<RoutedWire>) -> bool {
    match out {
        Some(w) => {
            &&& routed_ok(g, route.0, route.1, route.2, w)
            &&& w.segments@.len() <= cap + 1
            &&& forall|p: Seq<Pos3>| #[trigger] is_route(g, route.0, route.1, route.2, p) ==> w.segments@.len() <= p.len()
        },
        None => forall|p: Seq<Pos3>| #[trigger] is_route(g, route.0, route.1, route.2, p) ==> p.len() > cap + 1,
    }
}

/// `outs` records trying `routes` one after another on `g` with search
/// cap `cap`, each on the grid left by committing the wires before it.
pub open spec fn routed_in_turn(
    g: Map<Pos3, CellState>,
    routes: Seq<(NetTag, Pos3, Pos3)>,
    cap: int,
    outs: Seq<Option<RoutedWire>>,
) -> bool {
    &&& outs.len() == routes.len()
    &&& forall|i: int|
        0 <= i < outs.len() ==> #[trigger] turn_ok(commit_wires(g, wires_of(outs.take(i))), routes[i], cap, outs[i])
}

/// Recording one more outcome extends a record of a prefix of the routes.
pub proof fn lemma_routed_in_turn_push(
    g: Map<Pos3, CellState>,
    routes: Seq<(NetTag, Pos3, Pos3)>,
    cap: int,
    outs: Seq<Option<RoutedWire>>,
    o: Option<RoutedWire>,
)
    requires
        outs.len() < routes.len(),
        routed_in_turn(g, routes.take(outs.len() as int), cap, outs),
        turn_ok(commit_wires(g, wires_of(outs)), routes[outs.len() as int], cap, o),
    ensures
        routed_in_turn(g, routes.take(outs.len() as int + 1), cap, outs.push(o)),
        wires_of(outs.push(o)) == (match o {
            Some(w) => wires_of(outs).push(w),
            None => wires_of(outs),
        }),
        failed_labels(routes, outs.push(o)) == (if o is None {
            failed_labels(routes, outs).push(net_label_text(routes[outs.len() as int].0.0))
        } else {
            failed_labels(routes, outs)
        }),
{
    let n = outs.len() as int;
    let o2 = outs.push(o);
    assert(o2.drop_last() =~= outs);
    assert forall|i: int| 0 <= i < o2.len() implies #[trigger] turn_ok(
        commit_wires(g, wires_of(o2.take(i))),
        routes.take(n + 1)[i],
        cap,
        o2[i],
    ) by {
        if i < n {
            assert(o2.take(i) =~= outs.take(i));
            assert(routes.take(n + 1)[i] == routes.take(n)[i]);
            assert(turn_ok(commit_wires(g, wires_of(outs.take(i))), routes.take(n)[i], cap, outs[i]));
        } else {
            assert(o2.take(i) =~= outs);
        }
    }
}

/// The record of no routes is empty.
pub proof fn lemma_routed_in_turn_empty(g: Map<Pos3, CellState>, routes: Seq<(NetTag, Pos3, Pos3)>, cap: int)
    ensures
        routed_in_turn(g, routes.take(0), cap, Seq::empty()),
        wires_of(Seq::empty()) == Seq::<RoutedWire>::empty(),
        failed_labels(routes, Seq::empty()) == Seq::<Seq<char>>::empty(),
{
}

/// Every name in `names` is the diagnostic label of one of the routes'
/// nets.
pub open spec fn labels_of_routes(names: Seq<String>, routes: Seq<(NetTag, Pos3, Pos3)>) -> bool {
    forall|j: int|
        0 <= j < names.len() ==> exists|i: int|
            0 <= i < routes.len() && (#[trigger] names[j])@ == net_label_text(routes[i].0.0)
}

/// Route every pair in order on `grid`, each along a shortest route on the
/// grid left by the ones before it (a pair with no route is skipped). `Ok`
/// when all of them routed, with the grid holding every wire; otherwise
/// [`RouteError::Exhausted`] with the labels of the nets that did not
/// route, in order, no retries and no bound.
pub fn route_all(grid: &mut Grid3D, routes: &[(NetTag, Pos3, Pos3)]) -> (r: Result<
    Vec<RoutedWire>,
    RouteError,
>)
    requires
        routes_in_world(routes@),
    ensures
        exists|outs: Seq<Option<RoutedWire>>|
            #[trigger] routed_in_turn(old(grid)@, routes@, u32::MAX as int, outs) && final(grid)@ == commit_wires(
                old(grid)@,
                wires_of(outs),
            ) && (r is Ok <==> failed_labels(routes@, outs).len() == 0) && (r matches Ok(ws) ==> ws@ == wires_of(
                outs,
            )) && (r matches Err(e) ==> e matches RouteError::Exhausted { unrouted, .. } && string_views(unrouted@)
                == failed_labels(routes@, outs)),
        r matches Ok(ws) ==> all_routed(old(grid)@, routes@, ws@) && final(grid)@ == commit_wires(
            old(grid)@,
            ws@,
        ),
        r matches Err(e) ==> (e matches RouteError::Exhausted { unrouted, retries, final_bbox }
            && retries == 0 && final_bbox@ == "n/a"@ && unrouted@.len() > 0 && labels_of_routes(
            unrouted@,
            routes@,
        )),
{
    let mut wires: Vec<RoutedWire> = Vec::new();
    let mut unrouted_names: Vec<String> = Vec::new();
    let ghost g0 = old(grid)@;
    let ghost mut outs: Seq<Option<RoutedWire>> = Seq::empty();
    proof {
        lemma_routed_in_turn_empty(g0, routes@, u32::MAX as int);
        assert(string_views(unrouted_names@) =~= Seq::<Seq<char>>::empty());
    }
    for i in 0..routes.len()
        invariant
            routes_in_world(routes@),
            outs.len() == i,
            routed_in_turn(g0, routes@.take(i as int), u32::MAX as int, outs),
            grid@ == commit_wires(g0, wires_of(outs)),
            wires@ == wires_of(outs),
            string_views(unrouted_names@) == failed_labels(routes@, outs),
            unrouted_names@.len() == 0 ==> all_routed(g0, routes@.take(i as int), wires@),
            labels_of_routes(unrouted_names@, routes@),
    {
        let (net, source, sink) = routes[i];
        proof {
            assert(in_world(routes@[i as int].1) && in_world(routes@[i as int].2));
        }
        let ghost before = wires@;
        let ghost names0 = unrouted_names@;
        match route_single(grid, net, source, sink) {
            SingleRouteOutcome::Routed(w) => {
                proof {
                    if unrouted_names@.len() == 0 {
                        lemma_all_routed_push(g0, routes@, i as int, before, w);
                    }
                    assert(routes@[i as int] == (net, source, sink));
                    lemma_routed_in_turn_push(g0, routes@, u32::MAX as int, outs, Some(w));
                    assert(before.push(w).drop_last() =~= before);
                    outs = outs.push(Some(w));
                }
                wires.push(w);
            },
            SingleRouteOutcome::Unroutable => {
                let name = net_label(net.0);
                unrouted_names.push(name);
                proof {
                    assert(routes@[i as int] == (net, source, sink));
                    lemma_routed_in_turn_push(g0, routes@, u32::MAX as int, outs, None);
                    outs = outs.push(None);
                    assert(string_views(unrouted_names@) =~= string_views(names0).push(net_label_text(net.0)));
                    assert forall|j: int| 0 <= j < unrouted_names@.len() implies exists|k: int|
                        0 <= k < routes@.len() && (#[trigger] unrouted_names@[j])@ == net_label_text(
                            routes@[k].0.0,
                        ) by {
                        if j == unrouted_names@.len() - 1 {
                            assert(routes@[i as int].0 == net);
                        } else {
                            assert(unrouted_names@[j] == names0[j]);
                        }
                    }
                }
            },
        }
    }
    proof {
        assert(routes@.take(routes@.len() as int) =~= routes@);
    }
    if unrouted_names.len() > 0 {
        return Err(
            RouteError::Exhausted {
                unrouted: unrouted_names,
                retries: 0,
                final_bbox: String::from_str("n/a"),
            },
        );
    }
    Ok(wires)
}

/// `a + b` saturated at `u32::MAX`.
pub open spec fn sat_u32(v: int) -> int {
    if v > u32::MAX { u32::MAX as int } else { v }
}

/// Distance cap of retry `attempt`: the initial cap plus `attempt` grow
/// steps, each operation saturating.
pub open spec fn distance_cap(cfg: RouteConfig, attempt: int) -> int {
    sat_u32(cfg.initial_max_distance + sat_u32(attempt * cfg.bbox_grow_step))
}

/// Some record of trying `routes` in turn on `g` with search cap `cap` has
/// a failure.
pub open spec fn attempt_fails(g: Map<Pos3, CellState>, routes: Seq<(NetTag, Pos3, Pos3)>, cap: int) -> bool {
    exists|outs: Seq<Option<RoutedWire>>|
        #[trigger] routed_in_turn(g, routes, cap, outs) && failed_labels(routes, outs).len() > 0
}

/// Tries every pair once, in order, on `grid` under the distance cap
/// `cap`, each along a shortest route on the grid left by the ones before
/// it, committing the ones that route. Returns the wires and the labels of
/// the nets that did not route.
pub(crate) fn route_each(grid: &mut Grid3D, routes: &[(NetTag, Pos3, Pos3)], cap: u32) -> (r: (
    Vec<RoutedWire>,
    Vec<String>,
))
    requires
        routes_in_world(routes@),
    ensures
        exists|outs: Seq<Option<RoutedWire>>|
            #[trigger] routed_in_turn(old(grid)@, routes@, cap as int, outs) && final(grid)@ == commit_wires(
                old(grid)@,
                wires_of(outs),
            ) && r.0@ == wires_of(outs) && string_views(r.1@) == failed_labels(routes@, outs),
        r.1@.len() == 0 ==> all_routed(old(grid)@, routes@, r.0@) && forall|j: int|
            0 <= j < r.0@.len() ==> (#[trigger] r.0@[j]).segments@.len() <= cap + 1,
        labels_of_routes(r.1@, routes@),
{
    let mut wires: Vec<RoutedWire> = Vec::new();
    let mut unrouted: Vec<String> = Vec::new();
    let ghost g0 = old(grid)@;
    let ghost mut outs: Seq<Option<RoutedWire>> = Seq::empty();
    proof {
        lemma_routed_in_turn_empty(g0, routes@, cap as int);
        assert(string_views(unrouted@) =~= Seq::<Seq<char>>::empty());
    }
    for i in 0..routes.len()
        invariant
            routes_in_world(routes@),
            g0 == old(grid)@,
            outs.len() == i,
            routed_in_turn(g0, routes@.take(i as int), cap as int, outs),
            grid@ == commit_wires(g0, wires_of(outs)),
            wires@ == wires_of(outs),
            string_views(unrouted@) == failed_labels(routes@, outs),
            unrouted@.len() == 0 ==> all_routed(g0, routes@.take(i as int), wires@) && forall|j: int|
                0 <= j < wires@.len() ==> (#[trigger] wires@[j]).segments@.len() <= cap + 1,
            labels_of_routes(unrouted@, routes@),
    {
        let (net, source, sink) = routes[i];
        proof {
            assert(in_world(routes@[i as int].1) && in_world(routes@[i as int].2));
        }
        let ghost before = wires@;
        let ghost names0 = unrouted@;
        match route_single_bounded(grid, net, source, sink, cap) {
            SingleRouteOutcome::Routed(w) => {
                proof {
                    if unrouted@.len() == 0 {
                        lemma_all_routed_push(g0, routes@, i as int, before, w);
                    }
                    assert(routes@[i as int] == (net, source, sink));
                    lemma_routed_in_turn_push(g0, routes@, cap as int, outs, Some(w));
                    assert(before.push(w).drop_last() =~= before);
                    outs = outs.push(Some(w));
                }
                wires.push(w);
            },
            SingleRouteOutcome::Unroutable => {
                let name = net_label(net.0);
                unrouted.push(name);
                proof {
                    assert(routes@[i as int] == (net, source, sink));
                    lemma_routed_in_turn_push(g0, routes@, cap as int, outs, None);
                    outs = outs.push(None);
                    assert(string_views(unrouted@) =~= string_views(names0).push(net_label_text(net.0)));
                    assert forall|j: int| 0 <= j < unrouted@.len() implies exists|k: int|
                        0 <= k < routes@.len() && (#[trigger] unrouted@[j])@ == net_label_text(routes@[k].0.0) by {
                        if j == unrouted@.len() - 1 {
                            assert(routes@[i as int].0 == net);
                        } else {
                            assert(unrouted@[j] == names0[j]);
                        }
                    }
                }
            },
        }
    }
    proof {
        assert(routes@.take(routes@.len() as int) =~= routes@);
    }
    (wires, unrouted)
}

/// One attempt of [`route_with_retry`]: every pair tried in order on a copy
/// of `template_grid` under the distance cap `cap`. Returns the grid, the
/// wires and the labels of the nets that did not route.
fn route_attempt(template_grid: &Grid3D, routes: &[(NetTag, Pos3, Pos3)], cap: u32) -> (r: (
    Grid3D,
    Vec<RoutedWire>,
    Vec<String>,
))
    requires
        routes_in_world(routes@),
    ensures
        exists|outs: Seq<Option<RoutedWire>>|
            #[trigger] routed_in_turn(template_grid@, routes@, cap as int, outs) && r.0@ == commit_wires(
                template_grid@,
                wires_of(outs),
            ) && r.1@ == wires_of(outs) && string_views(r.2@) == failed_labels(routes@, outs),
        r.2@.len() == 0 ==> all_routed(template_grid@, routes@, r.1@) && forall|j: int|
            0 <= j < r.1@.len() ==> (#[trigger] r.1@[j]).segments@.len() <= cap + 1,
        labels_of_routes(r.2@, routes@),
{
    let mut grid = template_grid.clone();
    let (wires, unrouted) = route_each(&mut grid, routes, cap);
    (grid, wires, unrouted)
}

/// Route every pair with a growing distance cap: each attempt starts from
/// a copy of `template_grid` and tries all pairs in order under the cap of
/// that attempt, each along a shortest route. `Ok` with the routed grid and
/// wires of the first attempt that routes everything; when the attempt
/// after `cfg.max_bbox_retries` retries still fails,
/// [`RouteError::Exhausted`] with the nets of that attempt that did not
/// route and its cap.
pub fn route_with_retry(template_grid: &Grid3D, routes: &[(NetTag, Pos3, Pos3)], cfg: &RouteConfig) -> (r:
    Result<(Grid3D, Vec<RoutedWire>), RouteError>)
    requires
        routes_in_world(routes@),
    ensures
        r matches Ok(t) ==> all_routed(template_grid@, routes@, t.1@) && t.0@ == commit_wires(
            template_grid@,
            t.1@,
        ) && exists|a: int|
            0 <= a <= cfg.max_bbox_retries && (forall|b: int|
                0 <= b < a ==> #[trigger] attempt_fails(template_grid@, routes@, distance_cap(*cfg, b)))
                && (exists|outs: Seq<Option<RoutedWire>>|
                #[trigger] routed_in_turn(template_grid@, routes@, distance_cap(*cfg, a), outs)
                    && failed_labels(routes@, outs).len() == 0 && t.1@ == wires_of(outs)) && forall|i: int|
                0 <= i < t.1@.len() ==> (#[trigger] t.1@[i]).segments@.len() <= #[trigger] distance_cap(
                    *cfg,
                    a,
                ) + 1,
        r matches Err(e) ==> (e matches RouteError::Exhausted { unrouted, retries, final_bbox }
            && retries == cfg.max_bbox_retries && final_bbox@ == "max_distance="@ + decimal(
            distance_cap(*cfg, cfg.max_bbox_retries as int) as nat,
        ) && unrouted@.len() > 0 && labels_of_routes(unrouted@, routes@) && (forall|b: int|
            0 <= b < cfg.max_bbox_retries ==> #[trigger] attempt_fails(template_grid@, routes@, distance_cap(*cfg, b)))
            && exists|outs: Seq<Option<RoutedWire>>|
            #[trigger] routed_in_turn(
                template_grid@,
                routes@,
                distance_cap(*cfg, cfg.max_bbox_retries as int),
                outs,
            ) && string_views(unrouted@) == failed_labels(routes@, outs)),
{
    let mut attempt: u8 = 0;
    loop
        invariant
            routes_in_world(routes@),
            attempt <= cfg.max_bbox_retries,
            forall|b: int| 0 <= b < attempt ==> #[trigger] attempt_fails(template_grid@, routes@, distance_cap(*cfg, b)),
        decreases cfg.max_bbox_retries - attempt,
    {
        let a64 = attempt as u64;
        let s64 = cfg.bbox_grow_step as u64;
        assert(a64 * s64 <= 0xff * 0xffff_ffff) by (nonlinear_arith)
            requires
                a64 <= 0xff,
                s64 <= 0xffff_ffff,
        ;
        let prod = a64 * s64;
        let grown: u32 = if prod > u32::MAX as u64 {
            u32::MAX
        } else {
            prod as u32
        };
        let distance_cap_now = cfg.initial_max_distance.saturating_add(grown);
        proof {
            assert(distance_cap_now == distance_cap(*cfg, attempt as int));
        }
        let (grid, wires, unrouted) = route_attempt(template_grid, routes, distance_cap_now);
        let ghost outs = choose|outs: Seq<Option<RoutedWire>>|
            #[trigger] routed_in_turn(template_grid@, routes@, distance_cap_now as int, outs) && grid@
                == commit_wires(template_grid@, wires_of(outs)) && wires@ == wires_of(outs) && string_views(
                unrouted@,
            ) == failed_labels(routes@, outs);
        if unrouted.len() == 0 {
            proof {
                assert(failed_labels(routes@, outs) =~= string_views(unrouted@));
            }
            return Ok((grid, wires));
        }
        proof {
            assert(string_views(unrouted@).len() > 0);
            assert(attempt_fails(template_grid@, routes@, distance_cap(*cfg, attempt as int)));
        }
        if attempt >= cfg.max_bbox_retries {
            let mut text = String::from_str("max_distance=");
            let d = u64_to_string(distance_cap_now as u64);
            text.append(d.as_str());
            return Err(RouteError::Exhausted { unrouted, retries: attempt, final_bbox: text });
        }
        attempt = attempt + 1;
    }
}

/// A repeater the maze router lays faces the way the signal travels: when
/// the path enters the repeater's cell by a horizontal step in direction
/// `d` from the cell before it, the repeater faces `d` (East for +x, West
/// for -x, South for +z, North for -z), so stepping from the previous
/// cell in the facing direction reaches the repeater.
pub proof fn law_lee_repeater_faces_travel(path: Seq<Pos3>, i: int, d: Direction)
    requires
        1 <= i < path.len(),
        d == Direction::North || d == Direction::South || d == Direction::East || d == Direction::West,
        path[i - 1].can_step(d),
        path[i - 1].spec_step(d) == path[i],
    ensures
        lee_annotated(path)[i] is Repeater ==> (lee_annotated(path)[i] matches RouteSegment::Repeater { pos, facing } && pos
            == path[i] && facing == d && path[i - 1].spec_step(facing) == pos),
{
}

} // verus!
