//! The graph collections and graph algorithms taken from `petgraph`, each
//! behind a trusted item whose contract states what petgraph's source
//! and documentation promise.
use vstd::prelude::*;

use petgraph::graph::{EdgeIndex, Graph, NodeIndex};
use petgraph::stable_graph::StableGraph;
use petgraph::Directed;

use crate::netlist::{NetlistEdge, NetlistGraph, NetlistNode};

verus! {

/// `petgraph::Directed`, the marker for directed graphs.
#[verifier::external_type_specification]
#[verifier::external_body]
pub struct ExDirected(Directed);

/// `petgraph::graph::Graph`, a dense graph with contiguous indices.
#[verifier::external_type_specification]
#[verifier::external_body]
#[verifier::reject_recursive_types(N)]
#[verifier::reject_recursive_types(E)]
#[verifier::reject_recursive_types(Ty)]
#[verifier::reject_recursive_types(Ix)]
pub struct ExGraph<N, E, Ty, Ix>(Graph<N, E, Ty, Ix>);

/// `petgraph::stable_graph::StableGraph`, a graph whose indices survive
/// removals.
#[verifier::external_type_specification]
#[verifier::external_body]
#[verifier::reject_recursive_types(N)]
#[verifier::reject_recursive_types(E)]
#[verifier::reject_recursive_types(Ty)]
#[verifier::reject_recursive_types(Ix)]
pub struct ExStableGraph<N, E, Ty, Ix>(StableGraph<N, E, Ty, Ix>);

/// The dense projection graph type.
pub type ProjGraph = Graph<u32, u32, Directed, u32>;

/// The dense projection graph: node weights (netlist node indices), in
/// index order.
pub uninterp spec fn proj_nodes(g: ProjGraph) -> Seq<u32>;

/// The dense projection graph: edges `(source, target, weight)` in index
/// order.
pub uninterp spec fn proj_edges(g: ProjGraph) -> Seq<(u32, u32, u32)>;

/// The netlist graph's nodes, by index.
pub uninterp spec fn netlist_nodes(
    g: NetlistGraph,
) -> Map<u32, NetlistNode>;

/// The netlist graph's edges `(source, target, weight)`, by index.
pub uninterp spec fn netlist_edges(
    g: NetlistGraph,
) -> Map<u32, (u32, u32, NetlistEdge)>;

/// Number of node slots the netlist graph has handed out (live nodes plus
/// vacancies left by removals).
pub uninterp spec fn netlist_node_slots(g: NetlistGraph) -> nat;

/// Number of edge slots the netlist graph has handed out (live edges plus
/// vacancies left by removals).
pub uninterp spec fn netlist_edge_slots(g: NetlistGraph) -> nat;

/// What `petgraph::algo::toposort` returns on a dense graph with `n`
/// nodes and the given edge list (`None` for its `Err`).
pub uninterp spec fn toposort_result(n: nat, edges: Seq<(u32, u32, u32)>) -> Option<Seq<u32>>;

/// What `petgraph::algo::tarjan_scc` returns on a dense graph with `n`
/// nodes and the given edge list.
pub uninterp spec fn tarjan_scc_result(n: nat, edges: Seq<(u32, u32, u32)>) -> Seq<Seq<u32>>;

/// Some edge of `edges` runs from `a` to `b`.
pub open spec fn is_edge(edges: Seq<(u32, u32, u32)>, a: u32, b: u32) -> bool {
    exists|k: int| 0 <= k < edges.len() && (#[trigger] edges[k]).0 == a && edges[k].1 == b
}

/// `p` is a non-empty walk along `edges`.
pub open spec fn is_walk(edges: Seq<(u32, u32, u32)>, p: Seq<u32>) -> bool {
    &&& p.len() >= 1
    &&& forall|i: int| 0 <= i < p.len() - 1 ==> is_edge(edges, #[trigger] p[i], p[i + 1])
}

/// Some walk along `edges` leads from `a` to `b`.
pub open spec fn reaches(edges: Seq<(u32, u32, u32)>, a: u32, b: u32) -> bool {
    exists|p: Seq<u32>| #[trigger] is_walk(edges, p) && p[0] == a && p.last() == b
}

/// Node `v` lies in one of `sccs`.
pub open spec fn in_some_scc(sccs: Seq<Seq<u32>>, v: u32) -> bool {
    exists|i: int| 0 <= i < sccs.len() && (#[trigger] sccs[i]).contains(v)
}

/// `sccs` are the strongly connected components of the graph with nodes
/// `0..n` and the given edges: every node lies in one of them, each lists
/// its nodes once, nodes of one component reach each other, and nodes
/// that reach each other share a component.
pub open spec fn sccs_ok(n: nat, edges: Seq<(u32, u32, u32)>, sccs: Seq<Seq<u32>>) -> bool {
    &&& forall|v: u32| v < n ==> #[trigger] in_some_scc(sccs, v)
    &&& forall|i: int| 0 <= i < sccs.len() ==> (#[trigger] sccs[i]).no_duplicates()
    &&& forall|i: int, a: u32, b: u32|
        0 <= i < sccs.len() && #[trigger] sccs[i].contains(a) && #[trigger] sccs[i].contains(b) ==> reaches(
            edges,
            a,
            b,
        )
    &&& forall|i: int, j: int, a: u32, b: u32|
        0 <= i < sccs.len() && 0 <= j < sccs.len() && #[trigger] sccs[i].contains(a) && #[trigger] sccs[j].contains(
            b,
        ) && reaches(edges, a, b) && reaches(edges, b, a) ==> i == j
}

/// `s` is strictly increasing.
pub open spec fn ascending(s: Seq<u32>) -> bool {
    forall|i: int, j: int| 0 <= i < j < s.len() ==> s[i] < s[j]
}

/// The strictly increasing enumeration of a finite set of indices.
pub open spec fn ascending_seq_of(s: Set<u32>) -> Seq<u32> {
    choose|q: Seq<u32>| ascending(q) && q.to_set() == s
}

/// Node indices of the netlist graph in ascending order.
pub open spec fn netlist_node_order(g: NetlistGraph) -> Seq<u32> {
    ascending_seq_of(netlist_nodes(g).dom())
}

/// Edge indices of the netlist graph in ascending order.
pub open spec fn netlist_edge_order(g: NetlistGraph) -> Seq<u32> {
    ascending_seq_of(netlist_edges(g).dom())
}

/// `order` lists each of the nodes `0..n` exactly once, and every edge
/// goes from an earlier to a later node.
pub open spec fn is_topological_order(n: nat, edges: Seq<(u32, u32, u32)>, order: Seq<u32>) -> bool {
    &&& order.len() == n
    &&& order.no_duplicates()
    &&& forall|i: int| 0 <= i < order.len() ==> #[trigger] order[i] < n
    &&& forall|k: int|
        0 <= k < edges.len() ==> exists|i: int, j: int|
            0 <= i < j < order.len() && order[i] == (#[trigger] edges[k]).0 && order[j] == edges[k].1
}

/// `Graph::new()`: an empty directed graph.
#[verifier::external_body]
pub(crate) fn proj_new() -> (fresh: ProjGraph)
    ensures
        proj_nodes(fresh).len() == 0,
        proj_edges(fresh).len() == 0,
{
    Graph::new()
}

/// `Graph::add_node`: appends a node; its index is the previous node
/// count. Panics only when the index would reach `u32::MAX`.
#[verifier::external_body]
pub(crate) fn proj_add_node(g: &mut ProjGraph, w: u32) -> (idx: u32)
    requires
        proj_nodes(*old(g)).len() < u32::MAX,
    ensures
        idx == proj_nodes(*old(g)).len(),
        proj_nodes(*final(g)) == proj_nodes(*old(g)).push(w),
        proj_edges(*final(g)) == proj_edges(*old(g)),
{
    g.add_node(w).index() as u32
}

/// `Graph::add_edge`: appends an edge between two existing nodes. Panics
/// when an endpoint is missing or the edge index would reach `u32::MAX`.
#[verifier::external_body]
pub(crate) fn proj_add_edge(g: &mut ProjGraph, a: u32, b: u32, w: u32)
    requires
        a < proj_nodes(*old(g)).len(),
        b < proj_nodes(*old(g)).len(),
        proj_edges(*old(g)).len() < u32::MAX,
    ensures
        proj_nodes(*final(g)) == proj_nodes(*old(g)),
        proj_edges(*final(g)) == proj_edges(*old(g)).push((a, b, w)),
{
    g.add_edge(NodeIndex::new(a as usize), NodeIndex::new(b as usize), w);
}

/// `petgraph::algo::toposort(&g, None)`: `Some` order listing every node
/// before its successors, or `None` (petgraph's `Err`) when the graph has
/// a cycle, in which case no topological order exists.
#[verifier::external_body]
pub(crate) fn proj_toposort(g: &ProjGraph) -> (r: Option<Vec<u32>>)
    ensures
        r matches Some(v) ==> Some(v@) == toposort_result(
            proj_nodes(*g).len(),
            proj_edges(*g),
        ),
        r is None ==> toposort_result(proj_nodes(*g).len(), proj_edges(*g)) is None,
        r matches Some(v) ==> is_topological_order(proj_nodes(*g).len(), proj_edges(*g), v@),
        r is None ==> forall|o: Seq<u32>|
            !is_topological_order(proj_nodes(*g).len(), proj_edges(*g), o),
{
    match petgraph::algo::toposort(g, None) {
        Ok(v) => Some(v.into_iter().map(|n| n.index() as u32).collect()),
        Err(_) => None,
    }
}

/// `petgraph::algo::tarjan_scc(&g)`: the strongly connected components,
/// each a list of node indices; as its documentation says, they partition
/// the nodes into strongly connected components (their order and the
/// order inside each is named, not stated).
#[verifier::external_body]
pub(crate) fn proj_tarjan_scc(g: &ProjGraph) -> (r: Vec<Vec<u32>>)
    ensures
        r@.map_values(|c: Vec<u32>| c@) == tarjan_scc_result(proj_nodes(*g).len(), proj_edges(*g)),
        sccs_ok(proj_nodes(*g).len(), proj_edges(*g), r@.map_values(|c: Vec<u32>| c@)),
{
    petgraph::algo::tarjan_scc(g).into_iter().map(
        |c| c.into_iter().map(|n| n.index() as u32).collect(),
    ).collect()
}

/// `StableGraph::new()`: an empty directed graph.
#[verifier::external_body]
pub(crate) fn netlist_graph_new() -> (fresh: NetlistGraph)
    ensures
        netlist_nodes(fresh).dom() == Set::<u32>::empty(),
        netlist_edges(fresh).dom() == Set::<u32>::empty(),
        netlist_node_slots(fresh) == 0,
        netlist_edge_slots(fresh) == 0,
{
    StableGraph::new()
}

/// `StableGraph::add_node`: stores the node under a fresh index (never
/// `u32::MAX`). With no vacant slot the index is the slot count, which
/// grows by one. Panics only when the index space is exhausted.
#[verifier::external_body]
pub(crate) fn netlist_graph_add_node(
    g: &mut NetlistGraph,
    w: NetlistNode,
) -> (idx: u32)
    requires
        netlist_nodes(*old(g)).dom().len() < u32::MAX,
    ensures
        idx < u32::MAX,
        !netlist_nodes(*old(g)).contains_key(idx),
        netlist_nodes(*final(g)) == netlist_nodes(*old(g)).insert(idx, w),
        netlist_edges(*final(g)) == netlist_edges(*old(g)),
        netlist_edge_slots(*final(g)) == netlist_edge_slots(*old(g)),
        netlist_nodes(*old(g)).dom().len() == netlist_node_slots(*old(g)) ==> idx
            == netlist_node_slots(*old(g)) && netlist_node_slots(*final(g)) == netlist_node_slots(
            *old(g),
        ) + 1,
{
    g.add_node(w).index() as u32
}

/// `StableGraph::add_edge`: stores the edge under a fresh index. With no
/// vacant slot the index is the slot count, which grows by one. Panics
/// when an endpoint is missing or the index space is exhausted.
#[verifier::external_body]
pub(crate) fn netlist_graph_add_edge(
    g: &mut NetlistGraph,
    a: u32,
    b: u32,
    w: NetlistEdge,
) -> (idx: u32)
    requires
        netlist_nodes(*old(g)).contains_key(a),
        netlist_nodes(*old(g)).contains_key(b),
        netlist_edges(*old(g)).dom().len() < u32::MAX,
    ensures
        !netlist_edges(*old(g)).contains_key(idx),
        netlist_edges(*final(g)) == netlist_edges(*old(g)).insert(idx, (a, b, w)),
        netlist_nodes(*final(g)) == netlist_nodes(*old(g)),
        netlist_node_slots(*final(g)) == netlist_node_slots(*old(g)),
        netlist_edges(*old(g)).dom().len() == netlist_edge_slots(*old(g)) ==> idx
            == netlist_edge_slots(*old(g)) && netlist_edge_slots(*final(g)) == netlist_edge_slots(
            *old(g),
        ) + 1,
{
    g.add_edge(NodeIndex::new(a as usize), NodeIndex::new(b as usize), w).index() as u32
}

/// `StableGraph::node_indices()`: every node index once, ascending.
#[verifier::external_body]
pub(crate) fn netlist_graph_node_indices(
    g: &NetlistGraph,
) -> (v: Vec<u32>)
    ensures
        v@.to_set() == netlist_nodes(*g).dom(),
        ascending(v@),
        forall|i: int| 0 <= i < v@.len() ==> v@[i] < u32::MAX,
{
    g.node_indices().map(|n| n.index() as u32).collect()
}

/// `StableGraph::edge_indices()`: every edge index once, ascending.
#[verifier::external_body]
pub(crate) fn netlist_graph_edge_indices(
    g: &NetlistGraph,
) -> (v: Vec<u32>)
    ensures
        v@.to_set() == netlist_edges(*g).dom(),
        ascending(v@),
        forall|i: int| 0 <= i < v@.len() ==> v@[i] < u32::MAX,
{
    g.edge_indices().map(|e| e.index() as u32).collect()
}

/// `&g[n]`: the weight of an existing node (indexing panics on a missing
/// node).
#[verifier::external_body]
pub(crate) fn netlist_graph_node(
    g: &NetlistGraph,
    n: u32,
) -> (r: &NetlistNode)
    requires
        netlist_nodes(*g).contains_key(n),
    ensures
        *r == netlist_nodes(*g)[n],
{
    &g[NodeIndex::new(n as usize)]
}

/// `g.edge_endpoints(e)`: the endpoints of an edge, or `None` when `e` is
/// not an edge. The endpoints of a live edge are live nodes (removing a
/// node removes its edges).
#[verifier::external_body]
pub(crate) fn netlist_graph_edge_endpoints(
    g: &NetlistGraph,
    e: u32,
) -> (r: Option<(u32, u32)>)
    ensures
        r is Some <==> netlist_edges(*g).contains_key(e),
        r matches Some(t) ==> netlist_edges(*g)[e].0 == t.0 && netlist_edges(*g)[e].1 == t.1,
        r matches Some(t) ==> netlist_nodes(*g).contains_key(t.0) && netlist_nodes(*g).contains_key(
            t.1,
        ),
{
    match g.edge_endpoints(EdgeIndex::new(e as usize)) {
        Some((a, b)) => Some((a.index() as u32, b.index() as u32)),
        None => None,
    }
}

/// `&g[e]`: the weight of an existing edge (indexing panics on a missing
/// edge).
#[verifier::external_body]
pub(crate) fn netlist_graph_edge(
    g: &NetlistGraph,
    e: u32,
) -> (r: &NetlistEdge)
    requires
        netlist_edges(*g).contains_key(e),
    ensures
        *r == netlist_edges(*g)[e].2,
{
    &g[EdgeIndex::new(e as usize)]
}

/// Two increasing sequences with the same elements are equal.
pub proof fn lemma_ascending_unique(a: Seq<u32>, b: Seq<u32>)
    requires
        ascending(a),
        ascending(b),
        a.to_set() == b.to_set(),
    ensures
        a == b,
    decreases a.len(),
{
    if a.len() == 0 {
        if b.len() > 0 {
            assert(b.to_set().contains(b[0]));
        }
    } else {
        assert(a.to_set().contains(a[0]));
        assert(b.len() > 0);
        assert(b.to_set().contains(b[0]));
        let ia = choose|i: int| 0 <= i < b.len() && b[i] == a[0];
        let ib = choose|i: int| 0 <= i < a.len() && a[i] == b[0];
        assert(a[0] == b[0]) by {
            if a[0] != b[0] {
                if ia > 0 {
                    assert(b[0] < b[ia]);
                }
                if ib > 0 {
                    assert(a[0] < a[ib]);
                }
            }
        }
        let ta = a.drop_first();
        let tb = b.drop_first();
        assert(ta.to_set() =~= tb.to_set()) by {
            assert forall|x: u32| ta.to_set().contains(x) implies tb.to_set().contains(x) by {
                let i = choose|i: int| 0 <= i < ta.len() && ta[i] == x;
                assert(a[i + 1] == x);
                assert(a.to_set().contains(x));
                let j = choose|j: int| 0 <= j < b.len() && b[j] == x;
                assert(x != a[0]) by {
                    assert(a[0] < a[i + 1]);
                }
                assert(j > 0);
                assert(tb[j - 1] == x);
            }
            assert forall|x: u32| tb.to_set().contains(x) implies ta.to_set().contains(x) by {
                let i = choose|i: int| 0 <= i < tb.len() && tb[i] == x;
                assert(b[i + 1] == x);
                assert(b.to_set().contains(x));
                let j = choose|j: int| 0 <= j < a.len() && a[j] == x;
                assert(x != b[0]) by {
                    assert(b[0] < b[i + 1]);
                }
                assert(j > 0);
                assert(ta[j - 1] == x);
            }
        }
        lemma_ascending_unique(ta, tb);
        assert(a =~= seq![a[0]] + ta);
        assert(b =~= seq![b[0]] + tb);
    }
}

/// The increasing enumeration of a set, given one such enumeration.
pub proof fn lemma_ascending_seq_of(q: Seq<u32>)
    requires
        ascending(q),
    ensures
        ascending_seq_of(q.to_set()) == q,
{
    let c = ascending_seq_of(q.to_set());
    assert(ascending(c) && c.to_set() == q.to_set());
    lemma_ascending_unique(c, q);
}

} // verus!
