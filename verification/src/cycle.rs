//! Combinational-cycle detection on the combinational projection of the
//! netlist: edges into the data inputs of stateful primitives (and into a
//! repeater's lock) are removed, so sequential feedback is legal while any
//! remaining strongly connected component is a combinational loop.
use vstd::prelude::*;

use std::collections::BTreeMap;

use crate::error::CycleError;
use crate::geom::GateKind;
use crate::graph::{
    ascending, netlist_edge_order, netlist_edges, netlist_graph_edge, netlist_graph_edge_endpoints,
    netlist_graph_edge_indices, netlist_graph_node, netlist_graph_node_indices, netlist_node_order,
    netlist_nodes, proj_add_edge, proj_add_node, proj_edges, proj_new, proj_nodes, proj_tarjan_scc,
    tarjan_scc_result, in_some_scc, is_edge, is_walk, reaches, sccs_ok, ProjGraph,
};
use crate::netlist::{EndpointRole, NetInfo, Netlist, NetlistGraph, NetlistNode, NodeView};
use crate::text::{dedup_sorted, lemma_same_multiset_same_set, sort_strings, strictly_sorted, string_views};

verus! {

/// Edges into `to` on node `dst` are cut from the combinational
/// projection: the data, write and watch inputs of stateful primitives
/// and the lock input of any gate.
pub open spec fn cycle_cutting(dst: NodeView, to: EndpointRole) -> bool {
    match dst {
        NodeView::Gate(_, kind, _, _, _, _) => if !kind.spec_is_stateful() {
            to == EndpointRole::RepeaterLock
        } else {
            to == EndpointRole::DataInStateful || to == EndpointRole::WriteEnable || to
                == EndpointRole::ObserverWatch || to == EndpointRole::RepeaterLock
        },
        _ => false,
    }
}

/// True iff `dst`'s input `to` is cut from the combinational projection.
pub fn is_cycle_cutting(dst: &NetlistNode, to: EndpointRole) -> (r: bool)
    ensures
        r == cycle_cutting(dst@, to),
{
    match dst {
        NetlistNode::Gate { kind, .. } => {
            if !kind.is_stateful() {
                return matches!(to, EndpointRole::RepeaterLock);
            }
            matches!(
                to,
                EndpointRole::DataInStateful
                    | EndpointRole::WriteEnable
                    | EndpointRole::ObserverWatch
                    | EndpointRole::RepeaterLock
            )
        },
        _ => false,
    }
}

/// Position of `n` in `order`, if present.
pub open spec fn proj_index(order: Seq<u32>, n: u32) -> Option<u32> {
    if order.contains(n) {
        Some((choose|i: int| 0 <= i < order.len() && order[i] == n) as u32)
    } else {
        None
    }
}

/// Projection edges contributed by the first `k` netlist edges (in
/// ascending edge-index order): `(source, target, net)` in projection
/// indices, skipping cut edges.
pub open spec fn projection_edges_upto(g: NetlistGraph, k: int) -> Seq<(u32, u32, u32)>
    decreases k,
{
    if k <= 0 {
        Seq::empty()
    } else {
        let prev = projection_edges_upto(g, k - 1);
        let e = netlist_edge_order(g)[k - 1];
        let t = netlist_edges(g)[e];
        let no = netlist_node_order(g);
        if cycle_cutting(netlist_nodes(g)[t.1]@, t.2.to) {
            prev
        } else {
            match (proj_index(no, t.0), proj_index(no, t.1)) {
                (Some(pa), Some(pb)) => prev.push((pa, pb, t.2.net.0)),
                _ => prev,
            }
        }
    }
}

/// All projection edges of the netlist graph.
pub open spec fn projection_edges(g: NetlistGraph) -> Seq<(u32, u32, u32)> {
    projection_edges_upto(g, netlist_edge_order(g).len() as int)
}

/// Build the combinational projection of `netlist`: one node per netlist
/// node (in ascending index order, weighted by the netlist index) and one
/// edge per netlist edge that is not cut. Also returns the projection's
/// node weights and edge list.
pub fn build_projection(netlist: &Netlist) -> (r: (ProjGraph, Vec<u32>, Vec<(u32, u32, u32)>))
    ensures
        proj_nodes(r.0) == netlist_node_order(netlist.graph),
        r.1@ == netlist_node_order(netlist.graph),
        proj_edges(r.0) == projection_edges(netlist.graph),
        r.2@ == projection_edges(netlist.graph),
        r.1@.to_set() == netlist_nodes(netlist.graph).dom(),
        r.1@.len() <= u32::MAX,
        forall|k: int| 0 <= k < r.2@.len() ==> (#[trigger] r.2@[k]).0 < r.1@.len() && r.2@[k].1 < r.1@.len(),
{
    let mut proj = proj_new();
    let mut back: Vec<u32> = Vec::new();
    let mut fwd: BTreeMap<u32, u32> = BTreeMap::new();
    let nodes = netlist_graph_node_indices(&netlist.graph);
    proof {
        crate::graph::lemma_ascending_seq_of(nodes@);
    }
    let ghost order = nodes@;
    proof {
        lemma_ascending_len(order);
    }
    for i in 0..nodes.len()
        invariant
            order == nodes@,
            ascending(order),
            order.len() <= u32::MAX,
            proj_nodes(proj) == order.take(i as int),
            back@ == order.take(i as int),
            proj_edges(proj).len() == 0,
            forall|k: u32| #[trigger] fwd@.contains_key(k) <==> order.take(i as int).contains(k),
            forall|j: int| 0 <= j < i ==> fwd@[#[trigger] order[j]] == j as u32,
    {
        let n = nodes[i];
        let p = proj_add_node(&mut proj, n);
        back.push(n);
        fwd.insert(n, p);
        proof {
            assert(order.take(i as int + 1) =~= order.take(i as int).push(n));
            assert forall|k: u32| #[trigger] fwd@.contains_key(k) <==> order.take(
                i as int + 1,
            ).contains(k) by {
                if k == n {
                    assert(order.take(i as int + 1)[i as int] == n);
                }
                if order.take(i as int + 1).contains(k) && k != n {
                    let j = choose|j: int| 0 <= j < i + 1 && #[trigger] order.take(i as int + 1)[j] == k;
                    assert(order.take(i as int)[j] == k);
                }
            }
            assert forall|j: int| 0 <= j < i + 1 implies fwd@[#[trigger] order[j]] == j as u32 by {
                if j < i {
                    assert(order[j] < order[i as int]);
                }
            }
        }
    }
    proof {
        assert(order.take(nodes@.len() as int) =~= order);
    }
    let edges = netlist_graph_edge_indices(&netlist.graph);
    proof {
        crate::graph::lemma_ascending_seq_of(edges@);
    }
    let mut list: Vec<(u32, u32, u32)> = Vec::new();
    let ghost g = netlist.graph;
    proof {
        lemma_ascending_len(edges@);
    }
    for k in 0..edges.len()
        invariant
            order == nodes@,
            ascending(order),
            order == netlist_node_order(g),
            g == netlist.graph,
            edges@ == netlist_edge_order(g),
            edges@.to_set() == netlist_edges(g).dom(),
            edges@.len() <= u32::MAX,
            proj_nodes(proj) == order,
            back@ == order,
            list@ == projection_edges_upto(g, k as int),
            proj_edges(proj) == list@,
            list@.len() <= k,
            order.to_set() == netlist_nodes(g).dom(),
            forall|j: int| 0 <= j < list@.len() ==> (#[trigger] list@[j]).0 < order.len() && list@[j].1 < order.len(),
            forall|n: u32| #[trigger] fwd@.contains_key(n) <==> order.contains(n),
            forall|j: int| 0 <= j < order.len() ==> fwd@[#[trigger] order[j]] == j as u32,
    {
        let e = edges[k];
        proof {
            assert(edges@[k as int] == e);
            assert(edges@.to_set().contains(e));
        }
        let (src, dst) = match netlist_graph_edge_endpoints(&netlist.graph, e) {
            Some(t) => t,
            None => {
                proof {
                    assert(false);
                }
                (0, 0)
            },
        };
        let w = netlist_graph_edge(&netlist.graph, e);
        let dnode = netlist_graph_node(&netlist.graph, dst);
        if !is_cycle_cutting(dnode, w.to) {
            let ps = fwd.get(&src);
            let pd = fwd.get(&dst);
            proof {
                lemma_proj_index(order, src, fwd@);
                lemma_proj_index(order, dst, fwd@);
            }
            match (ps, pd) {
                (Some(ps), Some(pd)) => {
                    let a = *ps;
                    let b = *pd;
                    proj_add_edge(&mut proj, a, b, w.net.0);
                    list.push((a, b, w.net.0));
                },
                _ => {},
            }
        }
    }
    (proj, back, list)
}

/// The strongly connected components of the combinational projection,
/// as petgraph's `tarjan_scc` lists them.
pub open spec fn projection_sccs(g: NetlistGraph) -> Seq<Seq<u32>> {
    tarjan_scc_result(netlist_node_order(g).len(), projection_edges(g))
}

/// A component is a combinational loop when it has more than one node,
/// or one node with an edge to itself.
pub open spec fn is_real_cycle(scc: Seq<u32>, edges: Seq<(u32, u32, u32)>) -> bool {
    ||| scc.len() > 1
    ||| (scc.len() == 1 && exists|k: int|
        0 <= k < edges.len() && (#[trigger] edges[k]).0 == scc[0] && edges[k].1 == scc[0])
}

/// Index of the first component, from `i` on, that is a combinational loop.
pub open spec fn first_real_cycle(sccs: Seq<Seq<u32>>, edges: Seq<(u32, u32, u32)>, i: int) -> Option<
    int,
>
    decreases sccs.len() - i,
{
    if i < 0 || i >= sccs.len() {
        None
    } else if is_real_cycle(sccs[i], edges) {
        Some(i)
    } else {
        first_real_cycle(sccs, edges, i + 1)
    }
}

/// Some closed walk of at least one step runs along `edges`.
pub open spec fn has_cycle(edges: Seq<(u32, u32, u32)>) -> bool {
    exists|p: Seq<u32>| #[trigger] is_walk(edges, p) && p.len() >= 2 && p[0] == p.last()
}

/// A walk followed by a walk from its end is a walk.
proof fn lemma_walk_concat(edges: Seq<(u32, u32, u32)>, p: Seq<u32>, q: Seq<u32>)
    requires
        is_walk(edges, p),
        is_walk(edges, q),
        p.last() == q[0],
    ensures
        is_walk(edges, p + q.drop_first()),
        (p + q.drop_first()).len() == p.len() + q.len() - 1,
        (p + q.drop_first())[0] == p[0],
        (p + q.drop_first()).last() == q.last(),
{
    let r = p + q.drop_first();
    assert forall|i: int| 0 <= i < r.len() - 1 implies is_edge(edges, #[trigger] r[i], r[i + 1]) by {
        if i < p.len() - 1 {
            assert(r[i] == p[i] && r[i + 1] == p[i + 1]);
        } else {
            let j = i - p.len() + 1;
            assert(r[i] == q[j]);
            assert(r[i + 1] == q[j + 1]);
            assert(is_edge(edges, q[j], q[j + 1]));
        }
    }
}

/// Some component from index `k` on is a loop when component `i >= k` is.
proof fn lemma_first_real_found(sccs: Seq<Seq<u32>>, edges: Seq<(u32, u32, u32)>, k: int, i: int)
    requires
        0 <= k <= i < sccs.len(),
        is_real_cycle(sccs[i], edges),
    ensures
        first_real_cycle(sccs, edges, k) is Some,
    decreases i - k,
{
    if k < i && !is_real_cycle(sccs[k], edges) {
        lemma_first_real_found(sccs, edges, k + 1, i);
    }
}

/// On the strongly connected components of a graph, some component is a
/// combinational loop exactly when the graph has a cycle.
pub proof fn law_loop_component_iff_cycle(n: nat, edges: Seq<(u32, u32, u32)>, sccs: Seq<Seq<u32>>)
    requires
        sccs_ok(n, edges, sccs),
        forall|k: int| 0 <= k < edges.len() ==> (#[trigger] edges[k]).0 < n && edges[k].1 < n,
    ensures
        first_real_cycle(sccs, edges, 0) is Some <==> has_cycle(edges),
{
    if let Some(i) = first_real_cycle(sccs, edges, 0) {
        lemma_first_real_is_real(sccs, edges, 0);
        let c = sccs[i];
        if c.len() > 1 {
            let a = c[0];
            let b = c[1];
            assert(c.contains(a) && c.contains(b));
            assert(reaches(edges, a, b));
            assert(reaches(edges, b, a));
            let p = choose|p: Seq<u32>| #[trigger] is_walk(edges, p) && p[0] == a && p.last() == b;
            let q = choose|q: Seq<u32>| #[trigger] is_walk(edges, q) && q[0] == b && q.last() == a;
            lemma_walk_concat(edges, p, q);
            assert(a != b);
            assert(p.len() >= 2);
            assert(is_walk(edges, p + q.drop_first()));
        } else {
            let a = c[0];
            let k = choose|k: int| 0 <= k < edges.len() && (#[trigger] edges[k]).0 == a && edges[k].1 == a;
            let p = seq![a, a];
            assert(is_edge(edges, p[0], p[1]));
            assert(is_walk(edges, p));
        }
    }
    if has_cycle(edges) {
        let p = choose|p: Seq<u32>| #[trigger] is_walk(edges, p) && p.len() >= 2 && p[0] == p.last();
        let a = p[0];
        let b = p[1];
        assert(is_edge(edges, p[0], p[1]));
        let k = choose|k: int| 0 <= k < edges.len() && (#[trigger] edges[k]).0 == a && edges[k].1 == b;
        assert(a < n);
        assert(in_some_scc(sccs, a));
        let i = choose|i: int| 0 <= i < sccs.len() && (#[trigger] sccs[i]).contains(a);
        if a == b {
            if sccs[i].len() == 1 {
                assert(sccs[i][0] == a);
            }
            assert(is_real_cycle(sccs[i], edges));
            lemma_first_real_found(sccs, edges, 0, i);
        } else {
            assert(b < n);
            assert(in_some_scc(sccs, b));
            let j = choose|j: int| 0 <= j < sccs.len() && (#[trigger] sccs[j]).contains(b);
            let ab = seq![a, b];
            assert(is_walk(edges, ab)) by {
                assert(is_edge(edges, ab[0], ab[1]));
            }
            assert(reaches(edges, a, b));
            let q = p.subrange(1, p.len() as int);
            assert(is_walk(edges, q)) by {
                assert forall|t: int| 0 <= t < q.len() - 1 implies is_edge(edges, #[trigger] q[t], q[t + 1]) by {
                    assert(q[t] == p[t + 1] && q[t + 1] == p[t + 2]);
                }
            }
            assert(q[0] == b && q.last() == a);
            assert(reaches(edges, b, a));
            assert(i == j);
            let ia = choose|x: int| 0 <= x < sccs[i].len() && sccs[i][x] == a;
            let ib = choose|x: int| 0 <= x < sccs[i].len() && sccs[i][x] == b;
            assert(ia != ib);
            assert(sccs[i].len() > 1);
            lemma_first_real_found(sccs, edges, 0, i);
        }
    }
}

/// The first loop component found is a loop component.
proof fn lemma_first_real_is_real(sccs: Seq<Seq<u32>>, edges: Seq<(u32, u32, u32)>, k: int)
    requires
        first_real_cycle(sccs, edges, k) is Some,
    ensures
        0 <= first_real_cycle(sccs, edges, k).unwrap() < sccs.len(),
        is_real_cycle(sccs[first_real_cycle(sccs, edges, k).unwrap()], edges),
    decreases sccs.len() - k,
{
    if k >= 0 && k < sccs.len() && !is_real_cycle(sccs[k], edges) {
        lemma_first_real_is_real(sccs, edges, k + 1);
    }
}

/// Names of the nets carried by the first `k` edges that run inside `scc`.
pub open spec fn scc_wire_names_upto(
    scc: Seq<u32>,
    edges: Seq<(u32, u32, u32)>,
    nets: Map<u32, NetInfo>,
    k: int,
) -> Set<Seq<char>> {
    Set::new(
        |w: Seq<char>|
            exists|e: int|
                0 <= e < k && scc.contains((#[trigger] edges[e]).0) && scc.contains(edges[e].1)
                    && nets.contains_key(edges[e].2) && nets[edges[e].2].name@ == w,
    )
}

/// The wire names a combinational loop is reported with: the names of the
/// nets on its internal edges, or `<unknown>` when none is named.
pub open spec fn reported_wires(
    scc: Seq<u32>,
    edges: Seq<(u32, u32, u32)>,
    nets: Map<u32, NetInfo>,
) -> Set<Seq<char>> {
    let names = scc_wire_names_upto(scc, edges, nets, edges.len() as int);
    if names.is_empty() {
        set!["<unknown>"@]
    } else {
        names
    }
}

fn contains_u32(v: &Vec<u32>, x: u32) -> (r: bool)
    ensures
        r == v@.contains(x),
{
    for i in 0..v.len()
        invariant
            forall|j: int| 0 <= j < i ==> v@[j] != x,
    {
        if v[i] == x {
            return true;
        }
    }
    false
}

fn has_self_loop(edges: &Vec<(u32, u32, u32)>, n: u32) -> (r: bool)
    ensures
        r == exists|k: int| 0 <= k < edges@.len() && (#[trigger] edges@[k]).0 == n && edges@[k].1 == n,
{
    for i in 0..edges.len()
        invariant
            forall|j: int| 0 <= j < i ==> !((#[trigger] edges@[j]).0 == n && edges@[j].1 == n),
    {
        if edges[i].0 == n && edges[i].1 == n {
            return true;
        }
    }
    false
}

/// Run cycle detection on `netlist`: `Ok` exactly when the combinational
/// projection has no cycle, else the first looping component (in the order
/// `tarjan_scc` lists them) reported with the sorted, de-duplicated names
/// of the wires inside it.
pub fn detect_cycles(netlist: &Netlist) -> (r: Result<(), CycleError>)
    ensures
        r is Ok <==> !has_cycle(projection_edges(netlist.graph)),
        first_real_cycle(projection_sccs(netlist.graph), projection_edges(netlist.graph), 0) is None
            ==> r is Ok,
        first_real_cycle(projection_sccs(netlist.graph), projection_edges(netlist.graph), 0) matches Some(i)
            ==> (r matches Err(CycleError::Combinational { wires }) && string_views(wires@).to_set()
            == reported_wires(
            projection_sccs(netlist.graph)[i],
            projection_edges(netlist.graph),
            netlist.nets@,
        ) && strictly_sorted(string_views(wires@))),
{
    let (proj, _back, list) = build_projection(netlist);
    let sccs = proj_tarjan_scc(&proj);
    let ghost all = projection_sccs(netlist.graph);
    let ghost edges = projection_edges(netlist.graph);
    proof {
        law_loop_component_iff_cycle(proj_nodes(proj).len(), edges, all);
    }
    proof {
        assert(sccs@.map_values(|c: Vec<u32>| c@).len() == sccs@.len());
    }
    for si in 0..sccs.len()
        invariant
            all == projection_sccs(netlist.graph),
            edges == projection_edges(netlist.graph),
            list@ == edges,
            sccs@.map_values(|c: Vec<u32>| c@) == all,
            first_real_cycle(all, edges, 0) == first_real_cycle(all, edges, si as int),
            first_real_cycle(all, edges, 0) is Some <==> has_cycle(edges),
    {
        let scc = &sccs[si];
        proof {
            assert(sccs@.map_values(|c: Vec<u32>| c@)[si as int] == scc@);
        }
        let looping = if scc.len() > 1 {
            true
        } else if scc.len() == 1 {
            has_self_loop(&list, scc[0])
        } else {
            false
        };
        if looping {
            let mut wires: Vec<String> = Vec::new();
            for k in 0..list.len()
                invariant
                    list@ == edges,
                    string_views(wires@).to_set() == scc_wire_names_upto(
                        scc@,
                        edges,
                        netlist.nets@,
                        k as int,
                    ),
            {
                let (a, b, net) = list[k];
                let ghost before = string_views(wires@);
                if contains_u32(scc, a) && contains_u32(scc, b) {
                    match netlist.nets.get(&net) {
                        Some(info) => {
                            wires.push(info.name.clone());
                        },
                        None => {},
                    }
                }
                proof {
                    let cur = scc_wire_names_upto(scc@, edges, netlist.nets@, k as int + 1);
                    assert(string_views(wires@).to_set() =~= cur) by {
                        assert forall|w: Seq<char>| #[trigger] cur.contains(w) implies string_views(
                            wires@,
                        ).to_set().contains(w) by {
                            let e = choose|e: int|
                                0 <= e < k + 1 && scc@.contains((#[trigger] edges[e]).0)
                                    && scc@.contains(edges[e].1) && netlist.nets@.contains_key(
                                    edges[e].2,
                                ) && netlist.nets@[edges[e].2].name@ == w;
                            if e < k {
                                assert(scc_wire_names_upto(scc@, edges, netlist.nets@, k as int).contains(w));
                                assert(before.to_set().contains(w));
                                let m = choose|m: int| 0 <= m < before.len() && #[trigger] before[m] == w;
                                assert(string_views(wires@)[m] == w);
                            } else {
                                assert(string_views(wires@)[wires@.len() - 1] == w);
                            }
                        }
                        assert forall|w: Seq<char>| #[trigger] string_views(wires@).to_set().contains(w)
                            implies cur.contains(w) by {
                            let m = choose|m: int|
                                0 <= m < string_views(wires@).len() && #[trigger] string_views(wires@)[m] == w;
                            if m < before.len() {
                                assert(before[m] == w);
                                assert(before.to_set().contains(w));
                            } else {
                                assert(edges[k as int].0 == a);
                            }
                        }
                    }
                }
            }
            let ghost collected = string_views(wires@);
            let ghost names = scc_wire_names_upto(scc@, edges, netlist.nets@, edges.len() as int);
            assert(collected.to_set() == names);
            sort_strings(&mut wires);
            proof {
                lemma_same_multiset_same_set(string_views(wires@), collected);
            }
            let mut wires = dedup_sorted(wires);
            proof {
                if wires@.len() > 0 {
                    assert(string_views(wires@).to_set().contains(string_views(wires@)[0]));
                }
            }
            if wires.len() == 0 {
                proof {
                    assert(string_views(wires@).to_set() =~= Set::<Seq<char>>::empty());
                }
                wires.push(String::from_str("<unknown>"));
                proof {
                    let u = "<unknown>"@;
                    assert(string_views(wires@) =~= seq![u]);
                    assert forall|w: Seq<char>| string_views(wires@).to_set().contains(w) <==> w == u by {
                        if w == u {
                            assert(string_views(wires@)[0] == u);
                        }
                    }
                    assert(string_views(wires@).to_set() =~= set![u]);
                }
            }
            proof {
                assert(is_real_cycle(all[si as int], edges));
                assert(first_real_cycle(all, edges, si as int) == Some(si as int));
                if names.is_empty() {
                    assert(string_views(wires@).to_set() == set!["<unknown>"@]);
                } else {
                    assert(string_views(wires@).to_set() == names);
                }
                assert(string_views(wires@).to_set() == reported_wires(all[si as int], edges, netlist.nets@));
            }
            return Err(CycleError::Combinational { wires });
        }
    }
    Ok(())
}

proof fn lemma_ascending_len(s: Seq<u32>)
    requires
        ascending(s),
        forall|i: int| 0 <= i < s.len() ==> s[i] < u32::MAX,
    ensures
        s.len() <= u32::MAX,
{
    if s.len() > u32::MAX {
        lemma_ascending_ge_index(s, u32::MAX as int);
    }
}

proof fn lemma_ascending_ge_index(s: Seq<u32>, k: int)
    requires
        ascending(s),
        0 <= k < s.len(),
    ensures
        s[k] >= k,
    decreases k,
{
    if k > 0 {
        lemma_ascending_ge_index(s, k - 1);
    }
}

proof fn lemma_proj_index(order: Seq<u32>, n: u32, fwd: Map<u32, u32>)
    requires
        ascending(order),
        forall|k: u32| #[trigger] fwd.contains_key(k) <==> order.contains(k),
        forall|j: int| 0 <= j < order.len() ==> fwd[#[trigger] order[j]] == j as u32,
    ensures
        fwd.contains_key(n) ==> proj_index(order, n) == Some(fwd[n]),
        !fwd.contains_key(n) ==> proj_index(order, n) is None,
{
    if fwd.contains_key(n) {
        let j = choose|j: int| 0 <= j < order.len() && order[j] == n;
        let i = choose|i: int| 0 <= i < order.len() && order[i] == n;
        if i != j {
            if i < j {
                assert(order[i] < order[j]);
            } else {
                assert(order[j] < order[i]);
            }
        }
    }
}

} // verus!
