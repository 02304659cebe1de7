//! Per-net A* search on the [`CostMap`]: Manhattan-distance heuristic,
//! deterministic `(f, y, z, x)` expansion order.
use vstd::prelude::*;

use std::collections::BTreeMap;

use crate::geom::{all_directions, key_pos, pos_key, Direction, Pos3};
use crate::grid3d::NetTag;
use crate::route::cost::{CostMap, EdgeCostConfig};

verus! {

/// `a` steps to `b` in some direction along an edge that `cost` allows
/// for `net`.
pub open spec fn allowed_step(cost: CostMap, net: NetTag, a: Pos3, b: Pos3) -> bool {
    exists|d: Direction|
        a.can_step(d) && #[trigger] a.spec_step(d) == b && !cost.edge_forbidden(a, d, b, net)
}

/// `path` runs from one of `sources` to `sink` along allowed edges of the
/// cost map, visiting no cell twice.
pub open spec fn cost_path_ok(
    cost: CostMap,
    net: NetTag,
    sources: Seq<Pos3>,
    sink: Pos3,
    path: Seq<Pos3>,
) -> bool {
    &&& path.len() >= 1
    &&& sources.contains(path[0])
    &&& path.last() == sink
    &&& path.no_duplicates()
    &&& forall|i: int| 0 <= i < path.len() - 1 ==> allowed_step(cost, net, #[trigger] path[i], path[i + 1])
}

/// Cost of the unit step `a -> b` when turns are free: the base cost of
/// the axis, the vertical penalty, and both congestion penalties of `b`.
pub open spec fn unit_cost(cost: CostMap, cfg: EdgeCostConfig, a: Pos3, b: Pos3) -> int {
    let base = if a.y != b.y { cfg.level_change_base } else { cfg.straight_base };
    let vertical = if b.y > a.y {
        cfg.up_penalty
    } else if b.y < a.y {
        cfg.down_penalty
    } else {
        0
    };
    base + vertical + CostMap::penalty(cost.present_cost@, b) + CostMap::penalty(cost.history_cost@, b)
}

/// Cost of walking `path` cell by cell, each step at its unit cost.
pub open spec fn path_cost(cost: CostMap, cfg: EdgeCostConfig, path: Seq<Pos3>) -> int
    decreases path.len(),
{
    if path.len() <= 1 {
        0
    } else {
        path_cost(cost, cfg, path.drop_last()) + unit_cost(cost, cfg, path[path.len() - 2], path.last())
    }
}

/// Edge costs under which the Manhattan distance is a consistent
/// heuristic for A* keyed by cell: turns are free and every step costs at
/// least one.
pub open spec fn cost_admissible(cfg: EdgeCostConfig) -> bool {
    cfg.turn_penalty == 0 && cfg.straight_base >= 1 && cfg.level_change_base >= 1
}

/// With free turns, the cost of a step is its unit cost, whatever the
/// direction of the step before it.
proof fn lemma_step_unit(cost: CostMap, cfg: EdgeCostConfig, a: Pos3, d: Direction, pd: Option<Direction>)
    requires
        cfg.turn_penalty == 0,
        a.can_step(d),
    ensures
        cost.step_cost(pd, d, a.spec_step(d), cfg) == unit_cost(cost, cfg, a, a.spec_step(d)),
{
}

/// Under admissible costs every unit step costs at least one and lowers
/// the heuristic by at most its cost.
proof fn lemma_h_consistent(cost: CostMap, cfg: EdgeCostConfig, a: Pos3, d: Direction, sink: Pos3)
    requires
        cost_admissible(cfg),
        a.can_step(d),
    ensures
        unit_cost(cost, cfg, a, a.spec_step(d)) >= 1,
        heuristic_spec(a, sink) <= unit_cost(cost, cfg, a, a.spec_step(d)) + heuristic_spec(a.spec_step(d), sink),
{
    let b = a.spec_step(d);
    assert(crate::geom::manhattan(a, sink) <= crate::geom::manhattan(b, sink) + 1);
}

/// Key of an A* frontier entry: `(f, y, z, x, arrival number)`.
pub type FrontierKey = (u32, i32, i32, i32, u128);

/// Lexicographic strict order on frontier keys (the order of the tuple's
/// `Ord`).
pub open spec fn frontier_key_lt(a: FrontierKey, b: FrontierKey) -> bool {
    ||| a.0 < b.0
    ||| (a.0 == b.0 && a.1 < b.1)
    ||| (a.0 == b.0 && a.1 == b.1 && a.2 < b.2)
    ||| (a.0 == b.0 && a.1 == b.1 && a.2 == b.2 && a.3 < b.3)
    ||| (a.0 == b.0 && a.1 == b.1 && a.2 == b.2 && a.3 == b.3 && a.4 < b.4)
}

/// `BTreeMap::first_key_value`: the least key of the map under the
/// tuple's order, or `None` when the map is empty.
#[verifier::external_body]
fn first_key(m: &BTreeMap<FrontierKey, (Pos3, Option<Direction>)>) -> (r: Option<FrontierKey>)
    ensures
        r is None <==> m@.dom().len() == 0,
        r matches Some(k) ==> m@.contains_key(k),
        r matches Some(k) ==> forall|o: FrontierKey| #[trigger] m@.contains_key(o) ==> !frontier_key_lt(o, k),
{
    match m.first_key_value() {
        Some((k, _)) => Some(*k),
        None => None,
    }
}

/// `v` saturated at `u32::MAX`.
pub open spec fn sat32(v: int) -> int {
    if v > u32::MAX { u32::MAX as int } else { v }
}

/// The A* heuristic: Manhattan distance to `sink`, saturated at
/// `u32::MAX`.
pub open spec fn heuristic_spec(p: Pos3, sink: Pos3) -> int {
    sat32(crate::geom::manhattan(p, sink) as int)
}

fn abs_diff(a: i32, b: i32) -> (r: u32)
    ensures
        r == crate::geom::abs_int(a - b),
{
    let d: i64 = a as i64 - b as i64;
    if d < 0 {
        (-d) as u32
    } else {
        d as u32
    }
}

fn sat_add(a: u32, b: u32) -> (r: u32)
    ensures
        r == sat32(a + b),
{
    if a as u64 + b as u64 > u32::MAX as u64 {
        u32::MAX
    } else {
        a + b
    }
}

/// Manhattan distance from `p` to `sink`, saturated at `u32::MAX`.
fn heuristic(p: Pos3, sink: Pos3) -> (r: u32)
    ensures
        r == heuristic_spec(p, sink),
{
    let dx = abs_diff(p.x, sink.x);
    let dy = abs_diff(p.y, sink.y);
    let dz = abs_diff(p.z, sink.z);
    sat_add(sat_add(dx, dy), dz)
}

/// Lexicographic order on `(g-score, stamp)` pairs.
spec fn lex_lt(a: (int, int), b: (int, int)) -> bool {
    a.0 < b.0 || (a.0 == b.0 && a.1 < b.1)
}

/// The search state: every reached cell is a seed or has a predecessor
/// reached along an allowed edge, and predecessors come strictly earlier
/// in `(g-score, stamp)` order, so that following them ends at a seed.
spec fn search_ok(
    cost: CostMap,
    net: NetTag,
    sources: Seq<Pos3>,
    seeds: Map<(i32, i32, i32), ()>,
    g: Map<(i32, i32, i32), u32>,
    came: Map<(i32, i32, i32), (Pos3, Direction)>,
    stamp: Map<(i32, i32, i32), nat>,
) -> bool {
    &&& forall|k: (i32, i32, i32)| #[trigger] seeds.contains_key(k) ==> sources.contains(key_pos(k))
    &&& forall|k: (i32, i32, i32)| #[trigger] seeds.contains_key(k) ==> g.contains_key(k) && g[k] == 0 && stamp.contains_key(k) && stamp[k] == 0 && !came.contains_key(k)
    &&& forall|k: (i32, i32, i32)| #[trigger] g.contains_key(k) ==> seeds.contains_key(k) || came.contains_key(k)
    &&& forall|k: (i32, i32, i32)| #[trigger] came.contains_key(k) ==> came_ok(cost, net, g, came, stamp, k)
}

spec fn measure(g: Map<(i32, i32, i32), u32>, stamp: Map<(i32, i32, i32), nat>, k: (i32, i32, i32)) -> (int, int) {
    (g[k] as int, stamp[k] as int)
}

spec fn came_ok(
    cost: CostMap,
    net: NetTag,
    g: Map<(i32, i32, i32), u32>,
    came: Map<(i32, i32, i32), (Pos3, Direction)>,
    stamp: Map<(i32, i32, i32), nat>,
    k: (i32, i32, i32),
) -> bool {
    let p = came[k].0;
    let d = came[k].1;
    &&& g.contains_key(k)
    &&& stamp.contains_key(k)
    &&& stamp[k] >= 1
    &&& g.contains_key(pos_key(p))
    &&& stamp.contains_key(pos_key(p))
    &&& p.can_step(d)
    &&& p.spec_step(d) == key_pos(k)
    &&& !cost.edge_forbidden(p, d, key_pos(k), net)
    &&& lex_lt(measure(g, stamp, pos_key(p)), measure(g, stamp, k))
}

/// `p` costs no more than any path from one of `sources` to `sink`
/// whose cost stays below `u32::MAX`.
pub open spec fn cheapest(
    cost: CostMap,
    net: NetTag,
    cfg: EdgeCostConfig,
    sources: Seq<Pos3>,
    sink: Pos3,
    p: Seq<Pos3>,
) -> bool {
    forall|q: Seq<Pos3>|
        #[trigger] cost_path_ok(cost, net, sources, sink, q) && path_cost(cost, cfg, q) < u32::MAX ==> path_cost(
            cost,
            cfg,
            p,
        ) <= path_cost(cost, cfg, q)
}

/// Cell `k` waits in `frontier` under its current g-score plus heuristic.
spec fn pending(
    frontier: Map<FrontierKey, (Pos3, Option<Direction>)>,
    g: Map<(i32, i32, i32), u32>,
    sink: Pos3,
    k: (i32, i32, i32),
) -> bool {
    exists|q: FrontierKey|
        #[trigger] frontier.contains_key(q) && pos_key(frontier[q].0) == k && q.0 == sat32(
            g[k] + heuristic_spec(key_pos(k), sink),
        )
}

/// The step out of cell `k` in direction `d`, when allowed, reaches a
/// cell whose g-score is no worse than through `k`.
spec fn relaxed_dir(cost: CostMap, net: NetTag, cfg: EdgeCostConfig, g: Map<(i32, i32, i32), u32>, k: (i32, i32, i32), d: Direction) -> bool {
    let a = key_pos(k);
    let c = cost.spec_cost(a, None, d, a.spec_step(d), net, cfg);
    a.can_step(d) && c < u32::MAX ==> g.contains_key(pos_key(a.spec_step(d))) && g[pos_key(a.spec_step(d))] <= sat32(
        g[k] + c,
    )
}

/// Every step out of cell `k` has been relaxed.
spec fn relaxed(cost: CostMap, net: NetTag, cfg: EdgeCostConfig, g: Map<(i32, i32, i32), u32>, k: (i32, i32, i32)) -> bool {
    forall|d: Direction| #[trigger] relaxed_dir(cost, net, cfg, g, k, d)
}

/// Every reached cell waits in the frontier or has had its steps relaxed.
spec fn open_or_relaxed(
    cost: CostMap,
    net: NetTag,
    cfg: EdgeCostConfig,
    sink: Pos3,
    frontier: Map<FrontierKey, (Pos3, Option<Direction>)>,
    g: Map<(i32, i32, i32), u32>,
) -> bool {
    forall|k: (i32, i32, i32)|
        #[trigger] g.contains_key(k) ==> pending(frontier, g, sink, k) || relaxed(cost, net, cfg, g, k)
}

/// Every predecessor link costs no more than the g-score it explains.
spec fn chain_cost_ok(
    cost: CostMap,
    cfg: EdgeCostConfig,
    g: Map<(i32, i32, i32), u32>,
    came: Map<(i32, i32, i32), (Pos3, Direction)>,
) -> bool {
    forall|k: (i32, i32, i32)|
        #[trigger] came.contains_key(k) ==> g[k] >= sat32(
            g[pos_key(came[k].0)] + unit_cost(cost, cfg, came[k].0, key_pos(k)),
        )
}

/// A path cost extends by one unit step at the front.
proof fn lemma_path_cost_prepend(cost: CostMap, cfg: EdgeCostConfig, x: Pos3, r: Seq<Pos3>)
    requires
        r.len() >= 1,
    ensures
        path_cost(cost, cfg, seq![x] + r) == unit_cost(cost, cfg, x, r[0]) + path_cost(cost, cfg, r),
    decreases r.len(),
{
    let s = seq![x] + r;
    assert(s.len() == r.len() + 1);
    assert(s[s.len() - 2] == (if r.len() == 1 { x } else { r[r.len() - 2] }));
    assert(s.last() == r.last());
    if r.len() == 1 {
        assert(s.drop_last() =~= seq![x]);
        assert(path_cost(cost, cfg, s.drop_last()) == 0);
        assert(path_cost(cost, cfg, r) == 0);
    } else {
        lemma_path_cost_prepend(cost, cfg, x, r.drop_last());
        assert(s.drop_last() =~= seq![x] + r.drop_last());
        assert(r.drop_last()[0] == r[0]);
    }
}

/// Along a path the heuristic never exceeds the cost still to walk.
proof fn lemma_h_rest(
    cost: CostMap,
    net: NetTag,
    cfg: EdgeCostConfig,
    sources: Seq<Pos3>,
    sink: Pos3,
    path: Seq<Pos3>,
    j: int,
)
    requires
        cost_admissible(cfg),
        cost_path_ok(cost, net, sources, sink, path),
        0 <= j < path.len(),
    ensures
        heuristic_spec(path[j], sink) <= path_cost(cost, cfg, path) - path_cost(cost, cfg, path.take(j + 1)),
    decreases path.len() - j,
{
    if j == path.len() - 1 {
        assert(path.take(j + 1) =~= path);
    } else {
        lemma_h_rest(cost, net, cfg, sources, sink, path, j + 1);
        assert(path.take(j + 2).drop_last() =~= path.take(j + 1));
        assert(allowed_step(cost, net, path[j], path[j + 1]));
        let d = choose|d: Direction|
            path[j].can_step(d) && #[trigger] path[j].spec_step(d) == path[j + 1] && !cost.edge_forbidden(
                path[j],
                d,
                path[j + 1],
                net,
            );
        lemma_h_consistent(cost, cfg, path[j], d, sink);
    }
}

/// While the search runs, a path to the sink of cost below `u32::MAX`
/// either already gave the sink a g-score no worse than its cost, or has
/// a cell waiting in the frontier under a key no greater than its cost.
proof fn lemma_cheap_path_seen(
    cost: CostMap,
    net: NetTag,
    cfg: EdgeCostConfig,
    sources: Seq<Pos3>,
    sink: Pos3,
    frontier: Map<FrontierKey, (Pos3, Option<Direction>)>,
    g: Map<(i32, i32, i32), u32>,
    path: Seq<Pos3>,
    j: int,
)
    requires
        cost_admissible(cfg),
        open_or_relaxed(cost, net, cfg, sink, frontier, g),
        cost_path_ok(cost, net, sources, sink, path),
        path_cost(cost, cfg, path) < u32::MAX,
        0 <= j < path.len(),
        g.contains_key(pos_key(path[j])),
        g[pos_key(path[j])] <= path_cost(cost, cfg, path.take(j + 1)),
    ensures
        (g.contains_key(pos_key(sink)) && g[pos_key(sink)] <= path_cost(cost, cfg, path)) || exists|q: FrontierKey|
            #[trigger] frontier.contains_key(q) && q.0 <= path_cost(cost, cfg, path),
    decreases path.len() - j,
{
    let k = pos_key(path[j]);
    assert(key_pos(k) == path[j]);
    lemma_h_rest(cost, net, cfg, sources, sink, path, j);
    if pending(frontier, g, sink, k) {
        let q = choose|q: FrontierKey|
            #[trigger] frontier.contains_key(q) && pos_key(frontier[q].0) == k && q.0 == sat32(
                g[k] + heuristic_spec(key_pos(k), sink),
            );
        assert(frontier.contains_key(q) && q.0 <= path_cost(cost, cfg, path));
    } else if j == path.len() - 1 {
        assert(path.take(j + 1) =~= path);
    } else {
        assert(relaxed(cost, net, cfg, g, k));
        assert(allowed_step(cost, net, path[j], path[j + 1]));
        let d = choose|d: Direction|
            path[j].can_step(d) && #[trigger] path[j].spec_step(d) == path[j + 1] && !cost.edge_forbidden(
                path[j],
                d,
                path[j + 1],
                net,
            );
        lemma_step_unit(cost, cfg, path[j], d, None);
        lemma_h_rest(cost, net, cfg, sources, sink, path, j + 1);
        assert(path.take(j + 2).drop_last() =~= path.take(j + 1));
        assert(relaxed_dir(cost, net, cfg, g, k, d));
        lemma_cheap_path_seen(cost, net, cfg, sources, sink, frontier, g, path, j + 1);
    }
}

/// Every reached cell other than `pk` waits in the frontier or has had
/// its steps relaxed.
spec fn open_except(
    cost: CostMap,
    net: NetTag,
    cfg: EdgeCostConfig,
    sink: Pos3,
    frontier: Map<FrontierKey, (Pos3, Option<Direction>)>,
    g: Map<(i32, i32, i32), u32>,
    pk: (i32, i32, i32),
) -> bool {
    forall|k: (i32, i32, i32)|
        #[trigger] g.contains_key(k) && k != pk ==> pending(frontier, g, sink, k) || relaxed(cost, net, cfg, g, k)
}

/// Lowering the g-score of `nk` to `t` and queueing it under a fresh key
/// keeps every other cell waiting or relaxed.
proof fn lemma_lower_one(
    cost: CostMap,
    net: NetTag,
    cfg: EdgeCostConfig,
    sink: Pos3,
    fr0: Map<FrontierKey, (Pos3, Option<Direction>)>,
    g0: Map<(i32, i32, i32), u32>,
    pk: (i32, i32, i32),
    done: int,
    nk: (i32, i32, i32),
    t: u32,
    newq: FrontierKey,
    entry: (Pos3, Option<Direction>),
)
    requires
        open_except(cost, net, cfg, sink, fr0, g0, pk),
        forall|j: int| 0 <= j < done ==> relaxed_dir(cost, net, cfg, g0, pk, #[trigger] all_directions()[j]),
        g0.contains_key(pk),
        nk != pk,
        !g0.contains_key(nk) || t < g0[nk],
        !fr0.contains_key(newq),
        entry.0 == key_pos(nk),
        newq.0 == sat32(t + heuristic_spec(key_pos(nk), sink)),
    ensures
        open_except(cost, net, cfg, sink, fr0.insert(newq, entry), g0.insert(nk, t), pk),
        forall|j: int|
            0 <= j < done ==> relaxed_dir(cost, net, cfg, g0.insert(nk, t), pk, #[trigger] all_directions()[j]),
{
    let fr = fr0.insert(newq, entry);
    let g = g0.insert(nk, t);
    assert forall|k: (i32, i32, i32), d: Direction|
        g0.contains_key(k) && k != nk && #[trigger] relaxed_dir(cost, net, cfg, g0, k, d) implies relaxed_dir(
        cost,
        net,
        cfg,
        g,
        k,
        d,
    ) by {}
    assert forall|k: (i32, i32, i32)| #[trigger] g.contains_key(k) && k != pk implies pending(fr, g, sink, k)
        || relaxed(cost, net, cfg, g, k) by {
        if k == nk {
            assert(pos_key(key_pos(nk)) == nk);
            assert(fr.contains_key(newq) && pos_key(fr[newq].0) == k);
        } else if pending(fr0, g0, sink, k) {
            let q = choose|q: FrontierKey|
                #[trigger] fr0.contains_key(q) && pos_key(fr0[q].0) == k && q.0 == sat32(
                    g0[k] + heuristic_spec(key_pos(k), sink),
                );
            assert(fr.contains_key(q) && fr[q] == fr0[q]);
        } else {
            assert(relaxed(cost, net, cfg, g0, k));
            assert forall|d: Direction| #[trigger] relaxed_dir(cost, net, cfg, g, k, d) by {
                assert(relaxed_dir(cost, net, cfg, g0, k, d));
            }
        }
    }
    assert forall|j: int| 0 <= j < done implies relaxed_dir(cost, net, cfg, g, pk, #[trigger] all_directions()[j]) by {
        assert(relaxed_dir(cost, net, cfg, g0, pk, all_directions()[j]));
    }
}

/// Recording `p -> key_pos(nk)` at g-score `t`, no more than `p`'s score
/// plus the step's unit cost, keeps every predecessor link within its
/// g-score.
proof fn lemma_chain_update(
    cost: CostMap,
    cfg: EdgeCostConfig,
    g0: Map<(i32, i32, i32), u32>,
    c0: Map<(i32, i32, i32), (Pos3, Direction)>,
    nk: (i32, i32, i32),
    t: u32,
    p: Pos3,
    d: Direction,
)
    requires
        chain_cost_ok(cost, cfg, g0, c0),
        forall|k: (i32, i32, i32)| #[trigger] c0.contains_key(k) ==> g0.contains_key(pos_key(c0[k].0)),
        g0.contains_key(pos_key(p)),
        pos_key(p) != nk,
        !g0.contains_key(nk) || t < g0[nk],
        t >= sat32(g0[pos_key(p)] + unit_cost(cost, cfg, p, key_pos(nk))),
    ensures
        chain_cost_ok(cost, cfg, g0.insert(nk, t), c0.insert(nk, (p, d))),
{
    let g = g0.insert(nk, t);
    let c = c0.insert(nk, (p, d));
    assert forall|k: (i32, i32, i32)| #[trigger] c.contains_key(k) implies g[k] >= sat32(
        g[pos_key(c[k].0)] + unit_cost(cost, cfg, c[k].0, key_pos(k)),
    ) by {
        if k != nk {
            assert(c0.contains_key(k));
            assert(g0.contains_key(pos_key(c0[k].0)));
            assert(g0[k] >= sat32(g0[pos_key(c0[k].0)] + unit_cost(cost, cfg, c0[k].0, key_pos(k))));
            assert(g[pos_key(c[k].0)] <= g0[pos_key(c0[k].0)]);
        }
    }
}

fn contains_pos(v: &[Pos3], p: Pos3) -> (r: bool)
    ensures
        r == v@.contains(p),
{
    for i in 0..v.len()
        invariant
            forall|j: int| 0 <= j < i ==> v@[j] != p,
    {
        if v[i] == p {
            return true;
        }
    }
    false
}

/// Follows predecessor links back from `sink` to a seed and returns the
/// path seed-first.
#[verifier::rlimit(60)]
#[verifier::spinoff_prover]
fn reconstruct_multi(
    seeds: &BTreeMap<(i32, i32, i32), ()>,
    sink: Pos3,
    came_from: &BTreeMap<(i32, i32, i32), (Pos3, Direction)>,
    Ghost(cost): Ghost<CostMap>,
    Ghost(net): Ghost<NetTag>,
    Ghost(sources): Ghost<Seq<Pos3>>,
    Ghost(g): Ghost<Map<(i32, i32, i32), u32>>,
    Ghost(stamp): Ghost<Map<(i32, i32, i32), nat>>,
    Ghost(cfg): Ghost<EdgeCostConfig>,
) -> (path: Vec<Pos3>)
    requires
        search_ok(cost, net, sources, seeds@, g, came_from@, stamp),
        g.contains_key(pos_key(sink)),
    ensures
        cost_path_ok(cost, net, sources, sink, path@),
        chain_cost_ok(cost, cfg, g, came_from@) && g[pos_key(sink)] < u32::MAX ==> path_cost(cost, cfg, path@)
            <= g[pos_key(sink)],
        forall|i: int| 1 <= i < path@.len() ==> !seeds@.contains_key(pos_key(#[trigger] path@[i])),
{
    let mut rev: Vec<Pos3> = Vec::new();
    rev.push(sink);
    let mut cur = sink;
    while !seeds.contains_key(&cur.key())
        invariant
            search_ok(cost, net, sources, seeds@, g, came_from@, stamp),
            rev@.len() >= 1,
            rev@[0] == sink,
            rev@.last() == cur,
            g.contains_key(pos_key(cur)),
            stamp.contains_key(pos_key(cur)),
            forall|i: int| 0 <= i < rev@.len() ==> g.contains_key(pos_key(#[trigger] rev@[i])) && stamp.contains_key(pos_key(rev@[i])),
            forall|i: int, j: int|
                0 <= i < j < rev@.len() ==> lex_lt(
                    measure(g, stamp, pos_key(#[trigger] rev@[j])),
                    measure(g, stamp, pos_key(#[trigger] rev@[i])),
                ),
            forall|i: int| 0 <= i < rev@.len() - 1 ==> allowed_step(cost, net, rev@[i + 1], #[trigger] rev@[i]),
            forall|i: int| 0 <= i < rev@.len() - 1 ==> !seeds@.contains_key(pos_key(#[trigger] rev@[i])),
            chain_cost_ok(cost, cfg, g, came_from@) && g[pos_key(sink)] < u32::MAX ==> path_cost(
                cost,
                cfg,
                rev@.reverse(),
            ) + g[pos_key(cur)] <= g[pos_key(sink)],
        decreases g[pos_key(cur)] as int, stamp[pos_key(cur)] as int,
    {
        let ck = cur.key();
        proof {
            assert(came_from@.contains_key(ck));
            assert(came_ok(cost, net, g, came_from@, stamp, ck));
            assert(key_pos(ck) == cur);
        }
        let (prev, dir) = match came_from.get(&ck) {
            Some(e) => *e,
            None => {
                proof {
                    assert(false);
                }
                (cur, Direction::North)
            },
        };
        proof {
            assert(allowed_step(cost, net, prev, cur)) by {
                assert(prev.spec_step(dir) == cur);
            }
        }
        let ghost rev0 = rev@;
        let ghost cur0 = cur;
        cur = prev;
        rev.push(cur);
        proof {
            assert(rev@.reverse() =~= seq![prev] + rev0.reverse());
            assert(rev0.reverse()[0] == cur0);
            lemma_path_cost_prepend(cost, cfg, prev, rev0.reverse());
            if chain_cost_ok(cost, cfg, g, came_from@) && g[pos_key(sink)] < u32::MAX {
                assert(came_from@.contains_key(ck));
                assert(came_from@[ck] == (prev, dir));
                assert(key_pos(ck) == cur0);
            }
        }
    }
    let mut path: Vec<Pos3> = Vec::new();
    let n = rev.len();
    for i in 0..n
        invariant
            n == rev@.len(),
            path@ == rev@.reverse().take(i as int),
    {
        path.push(rev[n - 1 - i]);
        proof {
            assert(path@ =~= rev@.reverse().take(i as int + 1));
        }
    }
    proof {
        assert(path@ =~= rev@.reverse());
        let l = n as int;
        assert(seeds@.contains_key(pos_key(rev@[l - 1])));
        assert(key_pos(pos_key(rev@[l - 1])) == rev@[l - 1]);
        assert(path@[0] == rev@[l - 1]);
        assert(path@.no_duplicates()) by {
            assert forall|i: int, j: int| 0 <= i < l && 0 <= j < l && i != j implies path@[i] != path@[j] by {
                assert(path@[i] == rev@[l - 1 - i]);
                assert(path@[j] == rev@[l - 1 - j]);
                if i < j {
                    assert(lex_lt(measure(g, stamp, pos_key(rev@[l - 1 - i])), measure(g, stamp, pos_key(rev@[l - 1 - j]))));
                } else {
                    assert(lex_lt(measure(g, stamp, pos_key(rev@[l - 1 - j])), measure(g, stamp, pos_key(rev@[l - 1 - i]))));
                }
            }
        }
        assert forall|i: int| 1 <= i < path@.len() implies !seeds@.contains_key(pos_key(#[trigger] path@[i])) by {
            assert(path@[i] == rev@[l - 1 - i]);
        }
        assert forall|i: int| 0 <= i < path@.len() - 1 implies allowed_step(cost, net, #[trigger] path@[i], path@[i + 1]) by {
            assert(path@[i] == rev@[l - 1 - i]);
            assert(path@[i + 1] == rev@[l - 2 - i]);
            assert(allowed_step(cost, net, rev@[(l - 2 - i) + 1], rev@[l - 2 - i]));
        }
    }
    path
}

/// A* from `source` to `sink` on the cost map for `net`; `None` when no
/// path is found within `max_explored_cells` expansions. With free turns
/// and steps of cost at least one, the path found is a cheapest one.
pub fn astar_route(
    cost: &CostMap,
    net: NetTag,
    source: Pos3,
    sink: Pos3,
    cfg: &EdgeCostConfig,
    max_explored_cells: usize,
) -> (r: Option<Vec<Pos3>>)
    requires
        cfg.fits(),
    ensures
        source == sink ==> (r matches Some(p) && p@ == seq![sink]),
        r matches Some(p) ==> cost_path_ok(*cost, net, seq![source], sink, p@),
        r matches Some(p) ==> (cost_admissible(*cfg) ==> cheapest(*cost, net, *cfg, seq![source], sink, p@)),
{
    let sources = [source];
    let r = astar_route_multisrc(cost, net, &sources, sink, cfg, max_explored_cells);
    proof {
        assert(sources@ =~= seq![source]);
        if source == sink {
            assert(sources@[0] == sink);
        }
    }
    r
}

/// Multi-source A*: every cell of `sources` starts with cost zero, so the
/// search finds a path from the nearest source to `sink` (used to attach
/// later sinks of a net to its existing trunk). The path runs from the
/// seed cell it started at to `sink` and passes through no other source. Cells are expanded in increasing
/// `(f, y, z, x)` order, equal keys first-come first-served; a neighbour
/// outside the `i32` range is skipped. The g-score is kept per cell, so
/// the path found is a cheapest one when turns are free and every step
/// costs at least one (a turn penalty makes the cost of a step depend on
/// the step before it, which a per-cell score does not track).
pub fn astar_route_multisrc(
    cost: &CostMap,
    net: NetTag,
    sources: &[Pos3],
    sink: Pos3,
    cfg: &EdgeCostConfig,
    max_explored_cells: usize,
) -> (r: Option<Vec<Pos3>>)
    requires
        cfg.fits(),
    ensures
        sources@.len() == 0 ==> r is None,
        sources@.contains(sink) ==> (r matches Some(p) && p@ == seq![sink]),
        r matches Some(p) ==> cost_path_ok(*cost, net, sources@, sink, p@),
        r matches Some(p) ==> (cost_admissible(*cfg) ==> cheapest(*cost, net, *cfg, sources@, sink, p@)),
        r matches Some(p) ==> forall|i: int| 1 <= i < p@.len() ==> !sources@.contains(#[trigger] p@[i]),
{
    if sources.len() == 0 {
        return None;
    }
    if contains_pos(sources, sink) {
        let mut v: Vec<Pos3> = Vec::new();
        v.push(sink);
        proof {
            if cost_admissible(*cfg) {
                assert forall|q: Seq<Pos3>|
                    #[trigger] cost_path_ok(*cost, net, sources@, sink, q) && path_cost(*cost, *cfg, q)
                        < u32::MAX implies path_cost(*cost, *cfg, v@) <= path_cost(*cost, *cfg, q) by {
                    lemma_h_rest(*cost, net, *cfg, sources@, sink, q, 0);
                }
            }
        }
        return Some(v);
    }
    let mut frontier: BTreeMap<FrontierKey, (Pos3, Option<Direction>)> = BTreeMap::new();
    let mut g_score: BTreeMap<(i32, i32, i32), u32> = BTreeMap::new();
    let mut came_from: BTreeMap<(i32, i32, i32), (Pos3, Direction)> = BTreeMap::new();
    let mut seeds: BTreeMap<(i32, i32, i32), ()> = BTreeMap::new();
    let ghost mut stamp: Map<(i32, i32, i32), nat> = Map::empty();
    let mut seq: u128 = 0;
    let n_src: usize = sources.len();
    for si in 0..sources.len()
        invariant
            search_ok(*cost, net, sources@, seeds@, g_score@, came_from@, stamp),
            came_from@.len() == 0,
            seq == si,
            forall|k: (i32, i32, i32)| #[trigger] stamp.contains_key(k) ==> stamp[k] == 0,
            forall|q: FrontierKey|
                #[trigger] frontier@.contains_key(q) ==> g_score@.contains_key(pos_key(frontier@[q].0)) && q.4 < seq
                    && q.0 >= g_score@[pos_key(frontier@[q].0)],
            forall|j: int| 0 <= j < si ==> seeds@.contains_key(pos_key(#[trigger] sources@[j])),
            forall|kk: (i32, i32, i32)| #[trigger] g_score@.contains_key(kk) ==> pending(frontier@, g_score@, sink, kk),
    {
        let src = sources[si];
        let k = src.key();
        proof {
            assert(key_pos(k) == src);
            assert(sources@[si as int] == src);
        }
        let ghost fr0 = frontier@;
        let ghost g0 = g_score@;
        seeds.insert(k, ());
        g_score.insert(k, 0);
        proof {
            stamp = stamp.insert(k, 0nat);
        }
        let h = heuristic(src, sink);
        let q = (h, src.y, src.z, src.x, seq);
        frontier.insert(q, (src, None));
        seq = seq + 1;
        proof {
            assert(!fr0.contains_key(q));
            assert forall|kk: (i32, i32, i32)| #[trigger] g_score@.contains_key(kk) implies pending(
                frontier@,
                g_score@,
                sink,
                kk,
            ) by {
                if kk == k {
                    assert(frontier@.contains_key(q) && pos_key(frontier@[q].0) == kk);
                } else {
                    assert(g0.contains_key(kk));
                    assert(pending(fr0, g0, sink, kk));
                    let w = choose|w: FrontierKey|
                        #[trigger] fr0.contains_key(w) && pos_key(fr0[w].0) == kk && w.0 == sat32(
                            g0[kk] + heuristic_spec(key_pos(kk), sink),
                        );
                    assert(frontier@.contains_key(w) && frontier@[w] == fr0[w]);
                }
            }
        }
    }
    proof {
        assert forall|kk: (i32, i32, i32)| #[trigger] g_score@.contains_key(kk) implies pending(
            frontier@,
            g_score@,
            sink,
            kk,
        ) || relaxed(*cost, net, *cfg, g_score@, kk) by {}
        assert forall|s: Pos3| sources@.contains(s) implies seeds@.contains_key(pos_key(s)) by {
            let j = choose|j: int| 0 <= j < sources@.len() && sources@[j] == s;
            assert(seeds@.contains_key(pos_key(sources@[j])));
        }
    }
    let ghost mut next_stamp: nat = 1;
    let mut explored: usize = 0;
    loop
        invariant
            cfg.fits(),
            !sources@.contains(sink),
            search_ok(*cost, net, sources@, seeds@, g_score@, came_from@, stamp),
            forall|k: (i32, i32, i32)| #[trigger] stamp.contains_key(k) ==> stamp[k] < next_stamp,
            forall|q: FrontierKey|
                #[trigger] frontier@.contains_key(q) ==> g_score@.contains_key(pos_key(frontier@[q].0)) && q.4 < seq
                    && q.0 >= g_score@[pos_key(frontier@[q].0)],
            forall|s: Pos3| #[trigger] sources@.contains(s) ==> seeds@.contains_key(pos_key(s)),
            cfg.turn_penalty == 0 ==> open_or_relaxed(*cost, net, *cfg, sink, frontier@, g_score@),
            cfg.turn_penalty == 0 ==> chain_cost_ok(*cost, *cfg, g_score@, came_from@),
            seq <= n_src + 6 * explored,
            n_src == sources@.len(),
            explored <= max_explored_cells,
        decreases max_explored_cells - explored,
    {
        let first = first_key(&frontier);
        let fk = match first {
            None => {
                return None;
            },
            Some(k) => k,
        };
        let ghost fr0 = frontier@;
        let (pos, prev_dir) = match frontier.remove(&fk) {
            Some(e) => e,
            None => {
                return None;
            },
        };
        proof {
            assert(fr0.contains_key(fk) && fr0[fk] == (pos, prev_dir));
            assert(frontier@ == fr0.remove(fk));
        }
        if pos == sink {
            let path = reconstruct_multi(
                &seeds,
                sink,
                &came_from,
                Ghost(*cost),
                Ghost(net),
                Ghost(sources@),
                Ghost(g_score@),
                Ghost(stamp),
                Ghost(*cfg),
            );
            proof {
                if cost_admissible(*cfg) {
                    let g = g_score@;
                    assert forall|q: Seq<Pos3>|
                        #[trigger] cost_path_ok(*cost, net, sources@, sink, q) && path_cost(*cost, *cfg, q)
                            < u32::MAX implies path_cost(*cost, *cfg, path@) <= path_cost(*cost, *cfg, q) by {
                        assert(sources@.contains(q[0]));
                        assert(seeds@.contains_key(pos_key(q[0])));
                        assert(q.take(1).len() == 1);
                        lemma_cheap_path_seen(*cost, net, *cfg, sources@, sink, fr0, g, q, 0);
                        if !(g.contains_key(pos_key(sink)) && g[pos_key(sink)] <= path_cost(*cost, *cfg, q)) {
                            let w = choose|w: FrontierKey|
                                #[trigger] fr0.contains_key(w) && w.0 <= path_cost(*cost, *cfg, q);
                            assert(!frontier_key_lt(w, fk));
                        }
                    }
                }
            }
            return Some(path);
        }
        if explored >= max_explored_cells {
            return None;
        }
        explored = explored + 1;
        let pk = pos.key();
        let g_pos: u32 = match g_score.get(&pk) {
            Some(v) => *v,
            None => 0,
        };
        proof {
            assert(key_pos(pk) == pos);
            if cfg.turn_penalty == 0 {
                assert forall|k: (i32, i32, i32)| #[trigger] g_score@.contains_key(k) && k != pk implies pending(
                    frontier@,
                    g_score@,
                    sink,
                    k,
                ) || relaxed(*cost, net, *cfg, g_score@, k) by {
                    if pending(fr0, g_score@, sink, k) {
                        let w = choose|w: FrontierKey|
                            #[trigger] fr0.contains_key(w) && pos_key(fr0[w].0) == k && w.0 == sat32(
                                g_score@[k] + heuristic_spec(key_pos(k), sink),
                            );
                        assert(w != fk);
                        assert(frontier@.contains_key(w) && frontier@[w] == fr0[w]);
                    }
                }
            }
        }
        for di in 0..6usize
            invariant
                cfg.fits(),
                search_ok(*cost, net, sources@, seeds@, g_score@, came_from@, stamp),
                forall|k: (i32, i32, i32)| #[trigger] stamp.contains_key(k) ==> stamp[k] < next_stamp,
                forall|q: FrontierKey|
                    #[trigger] frontier@.contains_key(q) ==> g_score@.contains_key(pos_key(frontier@[q].0)) && q.4
                        < seq && q.0 >= g_score@[pos_key(frontier@[q].0)],
                forall|s: Pos3| #[trigger] sources@.contains(s) ==> seeds@.contains_key(pos_key(s)),
                cfg.turn_penalty == 0 ==> open_except(*cost, net, *cfg, sink, frontier@, g_score@, pk),
                cfg.turn_penalty == 0 ==> forall|j: int|
                    0 <= j < di ==> relaxed_dir(*cost, net, *cfg, g_score@, pk, #[trigger] all_directions()[j]),
                cfg.turn_penalty == 0 ==> chain_cost_ok(*cost, *cfg, g_score@, came_from@),
                !sources@.contains(sink),
                g_score@.contains_key(pk),
                pk == pos_key(pos),
                key_pos(pk) == pos,
                g_pos == g_score@[pk],
                explored >= 1,
                seq <= n_src + 6 * (explored - 1) + di,
                n_src == sources@.len(),
                explored <= max_explored_cells,
        {
            let dir = Direction::nth(di);
            if let Some(next) = pos.checked_step(dir) {
                let edge = cost.cost_for_edge(pos, prev_dir, dir, next, net, cfg);
                if edge != u32::MAX {
                    let tentative_g = sat_add(g_pos, edge);
                    let nk = next.key();
                    let better = match g_score.get(&nk) {
                        None => true,
                        Some(existing) => tentative_g < *existing,
                    };
                    if better {
                        let ghost g0 = g_score@;
                        let ghost c0 = came_from@;
                        let ghost s0 = stamp;
                        let ghost f0 = frontier@;
                        proof {
                            assert(key_pos(nk) == next);
                            assert(nk != pk) by {
                                assert(key_pos(pk) == pos);
                            }
                            assert(!cost.edge_forbidden(pos, dir, next, net));
                            if g0.contains_key(nk) {
                                assert(tentative_g < g0[nk]);
                                assert(!seeds@.contains_key(nk));
                            }
                        }
                        g_score.insert(nk, tentative_g);
                        came_from.insert(nk, (pos, dir));
                        proof {
                            assert(!seeds@.contains_key(nk)) by {
                                if seeds@.contains_key(nk) {
                                    assert(g0[nk] == 0);
                                }
                            }
                            stamp = stamp.insert(nk, next_stamp);
                            next_stamp = next_stamp + 1;
                            assert forall|k: (i32, i32, i32)| #[trigger] came_from@.contains_key(k)
                                implies came_ok(*cost, net, g_score@, came_from@, stamp, k) by {
                                if k != nk {
                                    assert(came_ok(*cost, net, g0, c0, s0, k));
                                    let p = c0[k].0;
                                    if pos_key(p) == nk {
                                        assert(g0.contains_key(nk));
                                    }
                                }
                            }
                        }
                        let h = heuristic(next, sink);
                        let f = sat_add(tentative_g, h);
                        let q = (f, next.y, next.z, next.x, seq);
                        frontier.insert(q, (next, Some(dir)));
                        proof {
                            assert(n_src <= 0xffff_ffff_ffff_ffff);
                            assert(explored <= 0xffff_ffff_ffff_ffff);
                            assert(seq < 0x1_0000_0000_0000_0000_0000);
                        }
                        seq = seq + 1;
                        proof {
                            assert(!f0.contains_key(q));
                            if cfg.turn_penalty == 0 {
                                lemma_step_unit(*cost, *cfg, pos, dir, prev_dir);
                                lemma_lower_one(*cost, net, *cfg, sink, f0, g0, pk, di as int, nk, tentative_g, q, (next, Some(dir)));
                                assert forall|k: (i32, i32, i32)| #[trigger] c0.contains_key(k) implies g0.contains_key(
                                    pos_key(c0[k].0),
                                ) by {
                                    assert(came_ok(*cost, net, g0, c0, s0, k));
                                }
                                lemma_chain_update(*cost, *cfg, g0, c0, nk, tentative_g, pos, dir);
                                assert(relaxed_dir(*cost, net, *cfg, g_score@, pk, all_directions()[di as int]));
                            }
                        }
                    } else {
                        proof {
                            if cfg.turn_penalty == 0 {
                                assert(relaxed_dir(*cost, net, *cfg, g_score@, pk, all_directions()[di as int]));
                            }
                        }
                    }
                } else {
                    proof {
                        if cfg.turn_penalty == 0 {
                            assert(relaxed_dir(*cost, net, *cfg, g_score@, pk, all_directions()[di as int]));
                        }
                    }
                }
            } else {
                proof {
                    if cfg.turn_penalty == 0 {
                        assert(relaxed_dir(*cost, net, *cfg, g_score@, pk, all_directions()[di as int]));
                    }
                }
            }
        }
        proof {
            if cfg.turn_penalty == 0 {
                assert forall|d: Direction| #[trigger] relaxed_dir(*cost, net, *cfg, g_score@, pk, d) by {
                    match d {
                        Direction::North => assert(all_directions()[0] == d),
                        Direction::South => assert(all_directions()[1] == d),
                        Direction::East => assert(all_directions()[2] == d),
                        Direction::West => assert(all_directions()[3] == d),
                        Direction::Up => assert(all_directions()[4] == d),
                        Direction::Down => assert(all_directions()[5] == d),
                    }
                }
                assert(relaxed(*cost, net, *cfg, g_score@, pk));
            }
        }
    }
}

} // verus!
