//! The exact, integer parts of the annealing placer: moving cells, the
//! wire-length score, and the bounding box of a placement. The annealing
//! schedule itself works in floating point and lives with the program.
use vstd::prelude::*;

use std::collections::BTreeMap;

use crate::geom::{abs_int, fits_i32, Bbox3, Pos3};
use crate::graph::{
    netlist_edge_order, netlist_edges, netlist_graph_edge_endpoints, netlist_graph_edge_indices,
};
use crate::netlist::{Netlist, NetlistGraph};
use crate::place::greedy::{footprint_at, union_of, PlacedCell};

verus! {

/// Which placer to run.
#[derive(Debug, Clone, Copy, PartialEq, Eq, Structural)]
pub enum PlacerKind {
    /// Simulated annealing.
    Sa,
    /// Row-based greedy.
    Greedy,
}

/// `cell` can be moved to `o`: its new footprint fits in `i32`.
pub open spec fn can_move(cell: PlacedCell, o: Pos3) -> bool {
    fits_i32(
        o.x + cell.macro_cell.bbox.max.x,
        o.y + cell.macro_cell.bbox.max.y,
        o.z + cell.macro_cell.bbox.max.z,
    )
}

/// `cell` moved to `o`: new origin and footprint, everything else kept.
pub open spec fn moved(old: PlacedCell, new: PlacedCell, o: Pos3) -> bool {
    &&& new.origin == o
    &&& new.footprint == footprint_at(o, old.macro_cell.bbox.max)
    &&& new.node == old.node
    &&& new.tick_delay == old.tick_delay
    &&& new.macro_cell == old.macro_cell
}

/// Moves `cell` to `o`, recomputing its footprint.
pub fn set_origin(cell: &mut PlacedCell, o: Pos3)
    requires
        can_move(*old(cell), o),
    ensures
        moved(*old(cell), *final(cell), o),
{
    cell.origin = o;
    let b = cell.macro_cell.bbox.max;
    cell.footprint = Bbox3 { min: o, max: Pos3::new(o.x + b.x, o.y + b.y, o.z + b.z) };
}

/// Exchanges the origins of cells `i` and `j`.
pub fn swap_origins(cells: &mut Vec<PlacedCell>, i: usize, j: usize)
    requires
        i < old(cells)@.len(),
        j < old(cells)@.len(),
        i != j,
        can_move(old(cells)@[i as int], old(cells)@[j as int].origin),
        can_move(old(cells)@[j as int], old(cells)@[i as int].origin),
    ensures
        final(cells)@.len() == old(cells)@.len(),
        moved(old(cells)@[i as int], final(cells)@[i as int], old(cells)@[j as int].origin),
        moved(old(cells)@[j as int], final(cells)@[j as int], old(cells)@[i as int].origin),
        forall|k: int| 0 <= k < final(cells)@.len() && k != i && k != j ==> final(cells)@[k] == old(cells)@[k],
{
    let oi = cells[i].origin;
    let oj = cells[j].origin;
    restore_origins(cells, i, j, oj, oi);
}

/// Puts cells `i` and `j` back at origins `oi` and `oj`.
pub fn restore_origins(cells: &mut Vec<PlacedCell>, i: usize, j: usize, oi: Pos3, oj: Pos3)
    requires
        i < old(cells)@.len(),
        j < old(cells)@.len(),
        i != j,
        can_move(old(cells)@[i as int], oi),
        can_move(old(cells)@[j as int], oj),
    ensures
        final(cells)@.len() == old(cells)@.len(),
        moved(old(cells)@[i as int], final(cells)@[i as int], oi),
        moved(old(cells)@[j as int], final(cells)@[j as int], oj),
        forall|k: int| 0 <= k < final(cells)@.len() && k != i && k != j ==> final(cells)@[k] == old(cells)@[k],
{
    let mut ci = cells.remove(i);
    set_origin(&mut ci, oi);
    cells.insert(i, ci);
    let mut cj = cells.remove(j);
    set_origin(&mut cj, oj);
    cells.insert(j, cj);
    proof {
        assert(cells@.len() == old(cells)@.len());
    }
}

/// The footprint of `c` is its cell box at its origin.
pub open spec fn footprint_consistent(c: PlacedCell) -> bool {
    c.footprint == footprint_at(c.origin, c.macro_cell.bbox.max)
}

/// A rejected annealing move is undone: swapping the origins of cells
/// `i` and `j` (giving `m`) and then restoring their saved origins (giving
/// `n`) yields the cells as they were, when their footprints matched
/// their origins.
pub proof fn law_restore_undoes_swap(c: Seq<PlacedCell>, m: Seq<PlacedCell>, n: Seq<PlacedCell>, i: int, j: int)
    requires
        0 <= i < c.len(),
        0 <= j < c.len(),
        i != j,
        footprint_consistent(c[i]),
        footprint_consistent(c[j]),
        m.len() == c.len(),
        moved(c[i], m[i], c[j].origin),
        moved(c[j], m[j], c[i].origin),
        forall|k: int| 0 <= k < m.len() && k != i && k != j ==> m[k] == c[k],
        n.len() == m.len(),
        moved(m[i], n[i], c[i].origin),
        moved(m[j], n[j], c[j].origin),
        forall|k: int| 0 <= k < n.len() && k != i && k != j ==> n[k] == m[k],
    ensures
        n == c,
{
    assert(n[i] == c[i]);
    assert(n[j] == c[j]);
    assert(n =~= c);
}

/// Origin of the last cell placed for each netlist node.
pub open spec fn origins_upto(cells: Seq<PlacedCell>, k: int) -> Map<u32, Pos3>
    decreases k,
{
    if k <= 0 {
        Map::empty()
    } else {
        origins_upto(cells, k - 1).insert(cells[k - 1].node, cells[k - 1].origin)
    }
}

/// Contribution of the first `k` netlist edges (ascending index) to the
/// wire-length score: for each edge whose two ends are placed, the X plus
/// Z distance of their origins.
pub open spec fn hpwl_upto(g: NetlistGraph, origins: Map<u32, Pos3>, k: int) -> int
    decreases k,
{
    if k <= 0 {
        0
    } else {
        let e = netlist_edges(g)[netlist_edge_order(g)[k - 1]];
        let prev = hpwl_upto(g, origins, k - 1);
        if origins.contains_key(e.0) && origins.contains_key(e.1) {
            let a = origins[e.0];
            let b = origins[e.1];
            prev + abs_int(a.x - b.x) + abs_int(a.z - b.z)
        } else {
            prev
        }
    }
}

/// Half-perimeter wire-length score of a placement: summed over netlist
/// edges (each a cheap stand-in for its net), the X plus Z distance
/// between the origins of the edge's placed ends.
pub open spec fn hpwl_spec(g: NetlistGraph, cells: Seq<PlacedCell>) -> int {
    hpwl_upto(g, origins_upto(cells, cells.len() as int), netlist_edge_order(g).len() as int)
}

/// The wire-length score [`hpwl_spec`] of `cells` on `netlist`.
pub fn hpwl_cost(cells: &Vec<PlacedCell>, netlist: &Netlist) -> (r: u128)
    ensures
        r == hpwl_spec(netlist.graph, cells@),
{
    let mut origin_of: BTreeMap<u32, Pos3> = BTreeMap::new();
    for i in 0..cells.len()
        invariant
            origin_of@ == origins_upto(cells@, i as int),
    {
        origin_of.insert(cells[i].node, cells[i].origin);
    }
    let ghost g = netlist.graph;
    let edges = netlist_graph_edge_indices(&netlist.graph);
    proof {
        crate::graph::lemma_ascending_seq_of(edges@);
    }
    let mut total: u128 = 0;
    for k in 0..edges.len()
        invariant
            g == netlist.graph,
            edges@ == netlist_edge_order(g),
            edges@.to_set() == netlist_edges(g).dom(),
            origin_of@ == origins_upto(cells@, cells@.len() as int),
            total == hpwl_upto(g, origin_of@, k as int),
            0 <= total <= k * 0x2_0000_0000,
    {
        let e = edges[k];
        proof {
            assert(edges@[k as int] == e);
            assert(edges@.to_set().contains(e));
        }
        match netlist_graph_edge_endpoints(&netlist.graph, e) {
            Some((src, dst)) => {
                match (origin_of.get(&src), origin_of.get(&dst)) {
                    (Some(a), Some(b)) => {
                        let dx: i64 = a.x as i64 - b.x as i64;
                        let dz: i64 = a.z as i64 - b.z as i64;
                        let adx: u128 = if dx < 0 { (-dx) as u128 } else { dx as u128 };
                        let adz: u128 = if dz < 0 { (-dz) as u128 } else { dz as u128 };
                        total = total + adx + adz;
                    },
                    _ => {},
                }
            },
            None => {
                proof {
                    assert(false);
                }
            },
        }
    }
    total
}

/// Bounding box of a placement: the union of the cells' footprints, or the
/// single point at the origin when there are none.
pub fn placement_bounds(cells: &Vec<PlacedCell>) -> (b: Bbox3)
    ensures
        b == union_of(cells@),
{
    if cells.len() == 0 {
        return Bbox3 { min: Pos3::origin(), max: Pos3::origin() };
    }
    let mut b = cells[0].footprint;
    for i in 1..cells.len()
        invariant
            1 <= i <= cells@.len(),
            b == union_of(cells@.take(i as int)),
    {
        proof {
            assert(cells@.take(i as int + 1).drop_last() =~= cells@.take(i as int));
        }
        b = b.union(&cells[i].footprint);
    }
    proof {
        assert(cells@.take(cells@.len() as int) =~= cells@);
    }
    b
}

} // verus!
