//! Static timing analysis: a forward pass over the combinational
//! projection of the netlist in topological order, accumulating the tick
//! delays of the cells, and detecting data races where data paths of
//! different lengths converge on a combinational gate.
use vstd::prelude::*;

use std::collections::BTreeMap;

use crate::cell_library::{cell_tick_delay, macrocell_for};
use crate::cycle::{build_projection, projection_edges};
use crate::geom::{GateKind, Tick};
use crate::graph::{
    is_topological_order, netlist_graph_node, netlist_node_order, netlist_nodes, proj_edges,
    proj_nodes, proj_toposort, toposort_result,
};
use crate::netlist::{Netlist, NetlistGraph, NetlistNode, NodeView};

verus! {

/// Per-node arrival ticks, keyed by netlist node index.
#[derive(Debug)]
pub struct TimingMap {
    /// Earliest tick at which each node's output is stable.
    pub arrival: BTreeMap<u32, Tick>,
}

/// Timing configuration.
#[derive(Debug, Clone, Copy)]
pub struct TimingConfig {
    /// Largest arrival-tick mismatch tolerated on converging data inputs.
    pub data_race_tolerance: u32,
}

impl Default for TimingConfig {
    /// Zero tolerance: any mismatch is a race.
    fn default() -> (r: TimingConfig)
        ensures
            r.data_race_tolerance == 0,
    {
        TimingConfig { data_race_tolerance: 0 }
    }
}

/// Diagnostics of static timing.
#[derive(Debug)]
pub enum TimingError {
    /// Paths of different lengths converge on a data gate.
    DataRace {
        /// Netlist index of the sink instance.
        sink_index: u32,
        /// Arrival ticks of its inputs, ascending.
        arrivals: Vec<u32>,
        /// Active tolerance.
        tolerance: u32,
    },
}

/// Output delay of a node: its cell's tick delay for a gate, none for a
/// port.
pub open spec fn node_delay(n: NodeView) -> u32 {
    match n {
        NodeView::Gate(_, kind, _, _, _, _) => cell_tick_delay(kind) as u32,
        _ => 0,
    }
}

/// Gates whose converging inputs must arrive together: the combinational
/// logic gates.
pub open spec fn data_sink(n: NodeView) -> bool {
    match n {
        NodeView::Gate(_, kind, _, _, _, _) => kind == GateKind::And || kind == GateKind::Or || kind
            == GateKind::Xor || kind == GateKind::Not || kind == GateKind::Comparator,
        _ => false,
    }
}

/// Projection sources of the first `k` edges that end at `p`.
pub open spec fn preds_upto(edges: Seq<(u32, u32, u32)>, p: u32, k: int) -> Seq<u32>
    decreases k,
{
    if k <= 0 {
        Seq::empty()
    } else if edges[k - 1].1 == p {
        preds_upto(edges, p, k - 1).push(edges[k - 1].0)
    } else {
        preds_upto(edges, p, k - 1)
    }
}

/// `a + b` saturated at `u32::MAX`.
pub open spec fn sat_u32_add(a: u32, b: u32) -> u32 {
    if a + b > u32::MAX { u32::MAX } else { (a + b) as u32 }
}

/// Arrival of netlist node `n` so far (zero when unknown).
pub open spec fn arrival_or_zero(arr: Map<u32, u32>, n: u32) -> u32 {
    if arr.contains_key(n) { arr[n] } else { 0 }
}

/// Arrival ticks at the inputs of a node fed by the projection nodes
/// `preds`: the tick each predecessor's output is stable.
pub open spec fn input_arrivals(g: NetlistGraph, back: Seq<u32>, arr: Map<u32, u32>, preds: Seq<u32>) -> Seq<u32> {
    preds.map_values(|q: u32| arrival_or_zero(arr, back[q as int]))
}

/// Largest element (zero for an empty sequence).
pub open spec fn seq_max(s: Seq<u32>) -> u32
    decreases s.len(),
{
    if s.len() == 0 {
        0
    } else {
        let m = seq_max(s.drop_last());
        if s.last() > m { s.last() } else { m }
    }
}

/// Smallest element (`u32::MAX` for an empty sequence).
pub open spec fn seq_min(s: Seq<u32>) -> u32
    decreases s.len(),
{
    if s.len() == 0 {
        u32::MAX
    } else {
        let m = seq_min(s.drop_last());
        if s.last() < m { s.last() } else { m }
    }
}

/// State of the forward pass: arrivals so far, and the race found, if
/// any, as `(sink, input arrivals)`.
pub type TimingState = (Map<u32, u32>, Option<(u32, Seq<u32>)>);

/// One step of the forward pass, at projection node `p`.
pub open spec fn timing_step(g: NetlistGraph, tol: u32, st: TimingState, p: u32) -> TimingState {
    if st.1 is Some {
        st
    } else {
        let back = netlist_node_order(g);
        let edges = projection_edges(g);
        let n = back[p as int];
        let preds = preds_upto(edges, p, edges.len() as int);
        let own = node_delay(netlist_nodes(g)[n]@);
        if preds.len() == 0 {
            (st.0.insert(n, own), None)
        } else {
            let arrs = input_arrivals(g, back, st.0, preds);
            if arrs.len() > 1 && data_sink(netlist_nodes(g)[n]@) && seq_max(arrs) - seq_min(arrs) > tol {
                (st.0, Some((n, arrs)))
            } else {
                (st.0.insert(n, sat_u32_add(seq_max(arrs), own)), None)
            }
        }
    }
}

/// The forward pass over the first `k` nodes of `order`.
pub open spec fn timing_run(g: NetlistGraph, tol: u32, order: Seq<u32>, k: int) -> TimingState
    decreases k,
{
    if k <= 0 {
        (Map::empty(), None)
    } else {
        timing_step(g, tol, timing_run(g, tol, order, k - 1), order[k - 1])
    }
}

/// The order the forward pass visits: petgraph's topological order of the
/// projection, or nothing when it has a cycle.
pub open spec fn timing_order(g: NetlistGraph) -> Seq<u32> {
    match toposort_result(netlist_node_order(g).len(), projection_edges(g)) {
        Some(o) => o,
        None => Seq::empty(),
    }
}

/// The result of the whole forward pass.
pub open spec fn timing_result(g: NetlistGraph, tol: u32) -> TimingState {
    let o = timing_order(g);
    timing_run(g, tol, o, o.len() as int)
}

/// Sorts `v` ascending (insertion sort): the same values, in order.
fn sort_u32(v: &mut Vec<u32>)
    ensures
        final(v)@.to_multiset() == old(v)@.to_multiset(),
        forall|i: int, j: int| 0 <= i < j < final(v)@.len() ==> final(v)@[i] <= final(v)@[j],
{
    let mut out: Vec<u32> = Vec::new();
    let n = v.len();
    proof {
        assert(v@.take(0) =~= out@);
    }
    for i in 0..n
        invariant
            n == v@.len(),
            v@ == old(v)@,
            out@.to_multiset() == v@.take(i as int).to_multiset(),
            forall|a: int, b: int| 0 <= a < b < out@.len() ==> out@[a] <= out@[b],
    {
        let x = v[i];
        let mut k: usize = 0;
        while k < out.len() && out[k] <= x
            invariant
                k <= out@.len(),
                forall|a: int| 0 <= a < k ==> out@[a] <= x,
            decreases out@.len() - k,
        {
            k += 1;
        }
        let ghost before = out@;
        out.insert(k, x);
        proof {
            vstd::seq_lib::to_multiset_insert(before, k as int, x);
            assert(v@.take(i as int + 1) =~= v@.take(i as int).push(x));
            vstd::seq_lib::to_multiset_build(v@.take(i as int), x);
            assert forall|a: int, b: int| 0 <= a < b < out@.len() implies out@[a] <= out@[b] by {
                if b == k as int {
                    assert(out@[a] == before[a]);
                } else if a == k as int {
                    assert(out@[b] == before[b - 1]);
                    assert(k < before.len());
                    assert(before[k as int] > x);
                    assert(before[k as int] <= before[b - 1] || k as int == b - 1);
                } else {
                    let a0 = if a < k { a } else { a - 1 };
                    let b0 = if b < k { b } else { b - 1 };
                    assert(out@[a] == before[a0] && out@[b] == before[b0]);
                }
            }
        }
    }
    proof {
        assert(v@.take(n as int) =~= v@);
    }
    *v = out;
}

fn node_tick_delay(node: &NetlistNode) -> (t: u32)
    ensures
        t == node_delay(node@),
{
    match node {
        NetlistNode::Gate { kind, .. } => match macrocell_for(*kind) {
            Ok(mc) => mc.tick_delay as u32,
            Err(_) => 0,
        },
        _ => 0,
    }
}

fn is_data_sink(node: &NetlistNode) -> (r: bool)
    ensures
        r == data_sink(node@),
{
    match node {
        NetlistNode::Gate { kind, .. } => match kind {
            GateKind::And | GateKind::Or | GateKind::Xor | GateKind::Not | GateKind::Comparator => true,
            _ => false,
        },
        _ => false,
    }
}

fn max_min(v: &Vec<u32>) -> (r: (u32, u32))
    ensures
        r.0 == seq_max(v@),
        r.1 == seq_min(v@),
{
    let mut mx: u32 = 0;
    let mut mn: u32 = u32::MAX;
    for i in 0..v.len()
        invariant
            mx == seq_max(v@.take(i as int)),
            mn == seq_min(v@.take(i as int)),
    {
        proof {
            assert(v@.take(i as int + 1).drop_last() =~= v@.take(i as int));
        }
        if v[i] > mx {
            mx = v[i];
        }
        if v[i] < mn {
            mn = v[i];
        }
    }
    proof {
        assert(v@.take(v@.len() as int) =~= v@);
    }
    (mx, mn)
}

/// Largest element is at least every element and at most the bound of
/// all of them; smallest likewise.
proof fn lemma_max_min_bounds(s: Seq<u32>)
    requires
        s.len() > 0,
    ensures
        seq_min(s) <= seq_max(s),
    decreases s.len(),
{
    if s.len() > 1 {
        lemma_max_min_bounds(s.drop_last());
    }
}

/// Forward timing over the combinational projection of `netlist`, in the
/// topological order petgraph gives (no node at all when the projection
/// has a cycle). A node's arrival is the tick its output is stable: the
/// latest arrival of its predecessors (zero when it has none) plus its own
/// cell delay, saturating. The first data gate whose inputs' arrivals
/// differ by more than the tolerance is reported as a
/// [`TimingError::DataRace`] with its input arrivals in ascending order.
pub fn analyse_timing(netlist: &Netlist, cfg: &TimingConfig) -> (r: Result<TimingMap, TimingError>)
    ensures
        timing_result(netlist.graph, cfg.data_race_tolerance).1 is None ==> (r matches Ok(m)
            && m.arrival@.dom() == timing_result(netlist.graph, cfg.data_race_tolerance).0.dom()
            && forall|n: u32| #[trigger] m.arrival@.contains_key(n) ==> m.arrival@[n].0 == timing_result(
            netlist.graph,
            cfg.data_race_tolerance,
        ).0[n]),
        timing_result(netlist.graph, cfg.data_race_tolerance).1 matches Some(race) ==> (r matches Err(
            TimingError::DataRace { sink_index, arrivals, tolerance },
        ) && sink_index == race.0 && tolerance == cfg.data_race_tolerance
            && arrivals@.to_multiset() == race.1.to_multiset() && forall|i: int, j: int|
            0 <= i < j < arrivals@.len() ==> arrivals@[i] <= arrivals@[j]),
{
    let (proj, back, list) = build_projection(netlist);
    let ghost g = netlist.graph;
    let ghost tol = cfg.data_race_tolerance;
    let order: Vec<u32> = match proj_toposort(&proj) {
        Some(o) => o,
        None => Vec::new(),
    };
    proof {
        assert(order@ == timing_order(g));
    }
    let mut arrival: BTreeMap<u32, Tick> = BTreeMap::new();
    let ghost mut arr: Map<u32, u32> = Map::empty();
    for oi in 0..order.len()
        invariant
            g == netlist.graph,
            tol == cfg.data_race_tolerance,
            order@ == timing_order(g),
            back@ == netlist_node_order(g),
            list@ == projection_edges(g),
            forall|i: int| 0 <= i < order@.len() ==> #[trigger] order@[i] < back@.len(),
            timing_run(g, tol, order@, oi as int) == (arr, None::<(u32, Seq<u32>)>),
            arrival@.dom() == arr.dom(),
            forall|n: u32| #[trigger] arrival@.contains_key(n) ==> arrival@[n].0 == arr[n],
            forall|n: u32| #[trigger] netlist_nodes(g).contains_key(n) <==> back@.to_set().contains(n),
            forall|j: int| 0 <= j < list@.len() ==> (#[trigger] list@[j]).0 < back@.len() && list@[j].1 < back@.len(),
    {
        let p = order[oi];
        let n = back[p as usize];
        proof {
            assert(back@.to_set().contains(n)) by {
                assert(back@[p as int] == n);
            }
        }
        let mut preds: Vec<u32> = Vec::new();
        for k in 0..list.len()
            invariant
                preds@ == preds_upto(list@, p, k as int),
                forall|j: int| 0 <= j < list@.len() ==> (#[trigger] list@[j]).0 < back@.len() && list@[j].1 < back@.len(),
                forall|i: int| 0 <= i < preds@.len() ==> #[trigger] preds@[i] < back@.len(),
        {
            if list[k].1 == p {
                preds.push(list[k].0);
            }
        }
        let ghost st0 = timing_run(g, tol, order@, oi as int);
        let own = node_tick_delay(netlist_graph_node(&netlist.graph, n));
        if preds.len() == 0 {
            arrival.insert(n, Tick(own));
            proof {
                arr = arr.insert(n, own);
            }
        } else {
            let mut arrivals: Vec<u32> = Vec::new();
            for k in 0..preds.len()
                invariant
                    arrivals@ == input_arrivals(g, back@, arr, preds@).take(k as int),
                    arrival@.dom() == arr.dom(),
                    forall|m: u32| #[trigger] arrival@.contains_key(m) ==> arrival@[m].0 == arr[m],
                    forall|i: int| 0 <= i < preds@.len() ==> #[trigger] preds@[i] < back@.len(),
                    forall|m: u32| #[trigger] netlist_nodes(g).contains_key(m) <==> back@.to_set().contains(m),
                    g == netlist.graph,
                    back@ == netlist_node_order(g),
            {
                let q = preds[k];
                let pred = back[q as usize];
                proof {
                    assert(back@[q as int] == pred);
                    assert(back@.to_set().contains(pred));
                }
                let pa: u32 = match arrival.get(&pred) {
                    Some(t) => t.0,
                    None => 0,
                };
                arrivals.push(pa);
                proof {
                    assert(arrivals@ =~= input_arrivals(g, back@, arr, preds@).take(k as int + 1));
                }
            }
            proof {
                assert(arrivals@ =~= input_arrivals(g, back@, arr, preds@));
            }
            let (mx, mn) = max_min(&arrivals);
            let sink_node = netlist_graph_node(&netlist.graph, n);
            if arrivals.len() > 1 && is_data_sink(sink_node) {
                proof {
                    lemma_max_min_bounds(arrivals@);
                }
                if mx - mn > cfg.data_race_tolerance {
                    let mut sorted = arrivals;
                    sort_u32(&mut sorted);
                    proof {
                        assert(timing_run(g, tol, order@, oi as int + 1).1 == Some((n, input_arrivals(g, back@, arr, preds@))));
                        lemma_race_persists(g, tol, order@, oi as int + 1);
                    }
                    return Err(
                        TimingError::DataRace {
                            sink_index: n,
                            arrivals: sorted,
                            tolerance: cfg.data_race_tolerance,
                        },
                    );
                }
            }
            let at = mx.saturating_add(own);
            arrival.insert(n, Tick(at));
            proof {
                arr = arr.insert(n, at);
            }
        }
        proof {
            assert(preds@ =~= preds_upto(list@, p, list@.len() as int));
        }
    }
    Ok(TimingMap { arrival })
}

/// Where no race shows under tolerance `t`, a larger tolerance runs the
/// same pass.
proof fn lemma_tolerance_run(g: NetlistGraph, t: u32, t2: u32, order: Seq<u32>, k: int)
    requires
        t <= t2,
        0 <= k <= order.len(),
        timing_run(g, t, order, k).1 is None,
    ensures
        timing_run(g, t2, order, k) == timing_run(g, t, order, k),
    decreases k,
{
    if k > 0 {
        let prev = timing_run(g, t, order, k - 1);
        if prev.1 is Some {
            lemma_race_persists(g, t, order, k - 1);
            lemma_race_stays(g, t, order, k - 1, k);
        }
        lemma_tolerance_run(g, t, t2, order, k - 1);
    }
}

/// A race found among the first `k` nodes is still there after `j >= k`.
proof fn lemma_race_stays(g: NetlistGraph, tol: u32, order: Seq<u32>, k: int, j: int)
    requires
        0 <= k <= j <= order.len(),
        timing_run(g, tol, order, k).1 is Some,
    ensures
        timing_run(g, tol, order, j).1 is Some,
    decreases j - k,
{
    if k < j {
        assert(timing_run(g, tol, order, k + 1) == timing_run(g, tol, order, k));
        lemma_race_stays(g, tol, order, k + 1, j);
    }
}

/// Raising the race tolerance never turns a race-free pass into a race,
/// and leaves its arrivals unchanged.
pub proof fn law_tolerance_monotone(g: NetlistGraph, t: u32, t2: u32)
    requires
        t <= t2,
        timing_result(g, t).1 is None,
    ensures
        timing_result(g, t2) == timing_result(g, t),
{
    let o = timing_order(g);
    lemma_tolerance_run(g, t, t2, o, o.len() as int);
}

/// Once a race is found the pass keeps it.
proof fn lemma_race_persists(g: NetlistGraph, tol: u32, order: Seq<u32>, k: int)
    requires
        0 <= k <= order.len(),
        timing_run(g, tol, order, k).1 is Some,
    ensures
        timing_run(g, tol, order, order.len() as int) == timing_run(g, tol, order, k),
    decreases order.len() - k,
{
    if k < order.len() {
        assert(timing_run(g, tol, order, k + 1) == timing_run(g, tol, order, k));
        lemma_race_persists(g, tol, order, k + 1);
    }
}

/// `n` is a combinational logic gate: AND, OR, XOR, NOT or a comparator.
pub open spec fn is_logic_gate(n: NodeView) -> bool {
    match n {
        NodeView::Gate(_, GateKind::And, _, _, _, _) => true,
        NodeView::Gate(_, GateKind::Or, _, _, _, _) => true,
        NodeView::Gate(_, GateKind::Xor, _, _, _, _) => true,
        NodeView::Gate(_, GateKind::Not, _, _, _, _) => true,
        NodeView::Gate(_, GateKind::Comparator, _, _, _, _) => true,
        _ => false,
    }
}

/// The arrivals at the inputs of projection node `p`, given the arrivals
/// found so far.
pub open spec fn arrivals_at(g: NetlistGraph, arr: Map<u32, u32>, p: u32) -> Seq<u32> {
    let edges = projection_edges(g);
    input_arrivals(g, netlist_node_order(g), arr, preds_upto(edges, p, edges.len() as int))
}

/// The forward pass reports a race at a node exactly when the node is a
/// combinational logic gate (AND, OR, XOR, NOT, comparator) with two or
/// more inputs whose arrivals differ by more than the tolerance; the race
/// names that node and those arrivals. Ports, flip-flops, memory cells,
/// observers, repeaters and target blocks never race.
pub proof fn law_race_exactly_at_skewed_logic_gates(g: NetlistGraph, tol: u32, st: TimingState, p: u32)
    requires
        st.1 is None,
    ensures
        ({
            let n = netlist_node_order(g)[p as int];
            let arrs = arrivals_at(g, st.0, p);
            &&& (timing_step(g, tol, st, p).1 is Some <==> (is_logic_gate(netlist_nodes(g)[n]@) && arrs.len() > 1
                && seq_max(arrs) - seq_min(arrs) > tol))
            &&& (timing_step(g, tol, st, p).1 is Some ==> timing_step(g, tol, st, p).1 == Some((n, arrs)))
        }),
{
    let edges = projection_edges(g);
    let preds = preds_upto(edges, p, edges.len() as int);
    let arrs = arrivals_at(g, st.0, p);
    assert(arrs.len() == preds.len());
}

/// A pass that finds no race leaves every combinational logic gate it
/// visits with input arrivals within the tolerance of each other.
pub proof fn law_clean_pass_aligns_logic_gates(g: NetlistGraph, tol: u32, k: int)
    requires
        timing_result(g, tol).1 is None,
        0 <= k < timing_order(g).len(),
    ensures
        ({
            let o = timing_order(g);
            let arr = timing_run(g, tol, o, k).0;
            let n = netlist_node_order(g)[o[k] as int];
            let arrs = arrivals_at(g, arr, o[k]);
            is_logic_gate(netlist_nodes(g)[n]@) && arrs.len() > 1 ==> seq_max(arrs) - seq_min(arrs) <= tol
        }),
{
    let o = timing_order(g);
    if timing_run(g, tol, o, k).1 is Some {
        lemma_race_persists(g, tol, o, k);
    }
    if timing_run(g, tol, o, k + 1).1 is Some {
        lemma_race_persists(g, tol, o, k + 1);
    }
    assert(timing_run(g, tol, o, k + 1) == timing_step(g, tol, timing_run(g, tol, o, k), o[k]));
    law_race_exactly_at_skewed_logic_gates(g, tol, timing_run(g, tol, o, k), o[k]);
}

/// The largest element bounds every element and is one of them.
proof fn lemma_seq_max_is_max(s: Seq<u32>)
    requires
        s.len() > 0,
    ensures
        forall|j: int| 0 <= j < s.len() ==> s[j] <= seq_max(s),
        exists|j: int| 0 <= j < s.len() && s[j] == seq_max(s),
    decreases s.len(),
{
    if s.len() == 1 {
        assert(s.drop_last().len() == 0);
        assert(seq_max(s.drop_last()) == 0);
        assert(s[0] == seq_max(s));
    } else {
        let pre = s.drop_last();
        lemma_seq_max_is_max(pre);
        assert forall|j: int| 0 <= j < s.len() implies s[j] <= seq_max(s) by {
            if j < s.len() - 1 {
                assert(pre[j] == s[j]);
            }
        }
        if s.last() > seq_max(pre) {
            assert(s[s.len() - 1] == seq_max(s));
        } else {
            let j = choose|j: int| 0 <= j < pre.len() && pre[j] == seq_max(pre);
            assert(s[j] == seq_max(s));
        }
    }
}

/// Where the pass records an arrival at a node, it is the tick the node's
/// output is stable: no earlier than its own delay after the arrival at
/// each of its inputs, equal to its own delay after the latest one (its
/// own delay alone when it has no input), saturating at `u32::MAX`, and no
/// other node's arrival changes.
pub proof fn law_arrival_is_latest_input_plus_own_delay(g: NetlistGraph, tol: u32, st: TimingState, p: u32)
    requires
        st.1 is None,
        timing_step(g, tol, st, p).1 is None,
    ensures
        ({
            let n = netlist_node_order(g)[p as int];
            let own = node_delay(netlist_nodes(g)[n]@);
            let arrs = arrivals_at(g, st.0, p);
            let after = timing_step(g, tol, st, p).0;
            &&& after.contains_key(n)
            &&& forall|m: u32| m != n ==> (#[trigger] after.contains_key(m) == st.0.contains_key(m) && (
                st.0.contains_key(m) ==> after[m] == st.0[m]))
            &&& after[n] >= own
            &&& forall|j: int| 0 <= j < arrs.len() ==> after[n] as int >= if arrs[j] + own > u32::MAX {
                u32::MAX as int
            } else {
                arrs[j] + own
            }
            &&& (arrs.len() == 0 ==> after[n] == own)
            &&& (arrs.len() > 0 ==> exists|j: int|
                0 <= j < arrs.len() && after[n] as int == if arrs[j] + own > u32::MAX {
                    u32::MAX as int
                } else {
                    arrs[j] + own
                })
        }),
{
    let edges = projection_edges(g);
    let preds = preds_upto(edges, p, edges.len() as int);
    let arrs = arrivals_at(g, st.0, p);
    assert(arrs.len() == preds.len());
    if arrs.len() > 0 {
        lemma_seq_max_is_max(arrs);
    }
}

} // verus!
