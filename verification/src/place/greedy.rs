//! Row-based deterministic placement: gates are grouped by their depth in
//! the combinational projection, each depth laid out as a row along +X,
//! rows stacked along +Z with a gap for the wires.
use vstd::prelude::*;

use std::collections::BTreeMap;

use crate::cell_library::{cell_bbox_max, cell_tick_delay, macrocell_for, Macrocell};
use crate::cycle::{build_projection, projection_edges};
use crate::error::PlaceError;
use crate::geom::{extent, Bbox3, GateKind, Pos3};
use crate::graph::{netlist_graph_node, netlist_node_order, netlist_nodes, proj_toposort, toposort_result};
use crate::netlist::{Netlist, NetlistGraph, NetlistNode, NodeView};
use crate::text::{decimal, u64_to_string};
use crate::timing::{preds_upto, seq_max};
use vstd::std_specs::iter::IteratorSpec;
use vstd::std_specs::cmp::OrdSpec;

verus! {

/// Placement configuration.
#[derive(Debug, Clone, Copy)]
pub struct PlaceConfig {
    /// Largest permitted footprint `(W, H, D)` in blocks.
    pub max_footprint: (u32, u32, u32),
    /// Gap, in blocks, between two rows along +Z.
    pub row_gap_z: i32,
}

impl Default for PlaceConfig {
    /// 256 x 384 x 256 blocks with a 4-block row gap.
    fn default() -> (r: PlaceConfig)
        ensures
            r.max_footprint == (256u32, 384u32, 256u32),
            r.row_gap_z == 4,
    {
        PlaceConfig { max_footprint: (256, 384, 256), row_gap_z: 4 }
    }
}

impl PlaceConfig {
    /// An effectively unbounded footprint with a 4-block row gap.
    pub fn max_permissive() -> (r: PlaceConfig)
        ensures
            r.max_footprint == (0x7fff_ffffu32, 0x7fff_ffffu32, 0x7fff_ffffu32),
            r.row_gap_z == 4,
    {
        PlaceConfig { max_footprint: (0x7fff_ffff, 0x7fff_ffff, 0x7fff_ffff), row_gap_z: 4 }
    }
}

/// One placed gate instance, in world coordinates.
#[derive(Debug)]
pub struct PlacedCell {
    /// Netlist node index of the placed instance.
    pub node: u32,
    /// World position of the cell's local origin.
    pub origin: Pos3,
    /// World bounding box.
    pub footprint: Bbox3,
    /// Settle delay of the cell.
    pub tick_delay: u8,
    /// The cell's macro-cell.
    pub macro_cell: Macrocell,
}

/// Result of placement.
#[derive(Debug)]
pub struct Placement {
    /// Union of all cell footprints.
    pub bounds: Bbox3,
    /// Cells in placement order.
    pub cells: Vec<PlacedCell>,
}

/// Depth of projection nodes so far (zero when unknown), by netlist
/// index.
pub open spec fn depth_or_zero(m: Map<u32, u32>, n: u32) -> u32 {
    if m.contains_key(n) { m[n] } else { 0 }
}

/// One step of the depth pass at projection node `p`: one more than the
/// deepest predecessor, zero without predecessors.
pub open spec fn depth_step(g: NetlistGraph, m: Map<u32, u32>, p: u32) -> Map<u32, u32> {
    let back = netlist_node_order(g);
    let edges = projection_edges(g);
    let preds = preds_upto(edges, p, edges.len() as int);
    let cands = preds.map_values(|q: u32| (depth_or_zero(m, back[q as int]) + 1) as u32);
    m.insert(back[p as int], seq_max(cands))
}

/// The depth pass over the first `k` nodes of `order`.
pub open spec fn depth_run(g: NetlistGraph, order: Seq<u32>, k: int) -> Map<u32, u32>
    decreases k,
{
    if k <= 0 {
        Map::empty()
    } else {
        depth_step(g, depth_run(g, order, k - 1), order[k - 1])
    }
}

/// Depth of every netlist node reached by the topological walk of the
/// projection (empty when the projection has a cycle).
pub open spec fn depths_of(g: NetlistGraph) -> Map<u32, u32> {
    match toposort_result(netlist_node_order(g).len(), projection_edges(g)) {
        Some(o) => depth_run(g, o, o.len() as int),
        None => Map::empty(),
    }
}

/// Order in which gates are considered: the topological order of the
/// projection, or all projection nodes in index order when it has a
/// cycle; as netlist indices.
pub open spec fn place_order(g: NetlistGraph) -> Seq<u32> {
    let back = netlist_node_order(g);
    match toposort_result(back.len(), projection_edges(g)) {
        Some(o) => o.map_values(|p: u32| back[p as int]),
        None => back,
    }
}

/// The node is a gate instance.
pub open spec fn is_gate_view(n: NodeView) -> bool {
    n is Gate
}

/// Strict order of `(depth, position)` keys.
pub open spec fn pair_lt(a: (u32, u32), b: (u32, u32)) -> bool {
    a.0 < b.0 || (a.0 == b.0 && a.1 < b.1)
}

/// `items` lists, as `(depth, position in the order, node)`, every gate of
/// the placement order exactly once, sorted by depth and then by position.
pub open spec fn items_ok(g: NetlistGraph, items: Seq<(u32, u32, u32)>) -> bool {
    let order = place_order(g);
    let depths = depths_of(g);
    &&& forall|i: int, j: int| 0 <= i < j < items.len() ==> pair_lt((items[i].0, items[i].1), (items[j].0, items[j].1))
    &&& forall|i: int| 0 <= i < items.len() ==> {
        &&& (#[trigger] items[i]).1 < order.len()
        &&& items[i].2 == order[items[i].1 as int]
        &&& netlist_nodes(g).contains_key(items[i].2)
        &&& is_gate_view(netlist_nodes(g)[items[i].2]@)
        &&& items[i].0 == depth_or_zero(depths, items[i].2)
    }
    &&& forall|k: int| 0 <= k < order.len() && is_gate_view(#[trigger] netlist_nodes(g)[order[k]]@) ==> exists|i: int| 0 <= i < items.len() && #[trigger] items[i].1 == k
}

/// Bounding-box corner of the cell for netlist node `n`.
pub open spec fn gate_bbox_max(g: NetlistGraph, n: u32) -> Pos3 {
    match netlist_nodes(g)[n]@ {
        NodeView::Gate(_, kind, _, _, _, _) => cell_bbox_max(kind),
        _ => Pos3 { x: 0, y: 0, z: 0 },
    }
}

/// Row layout cursor after the first `k` items: `(x, z, deepest z extent
/// of the row, origins so far)`. A change of depth starts a new row
/// `row_gap + 1` blocks past the deepest cell of the previous one; cells
/// of a row are 2 blocks apart along +X.
pub open spec fn layout(g: NetlistGraph, gap: i32, items: Seq<(u32, u32, u32)>, k: int) -> (int, int, int, Seq<Pos3>)
    decreases k,
{
    if k <= 0 {
        (0, 0, 0, Seq::empty())
    } else {
        let prev = layout(g, gap, items, k - 1);
        let new_row = k - 1 > 0 && items[k - 1].0 != items[k - 2].0;
        let x = if new_row { 0 } else { prev.0 };
        let z = if new_row { prev.1 + prev.2 + 1 + gap } else { prev.1 };
        let rm = if new_row { 0 } else { prev.2 };
        let b = gate_bbox_max(g, items[k - 1].2);
        let origin = Pos3 { x: x as i32, y: 0, z: z as i32 };
        (x + b.x + 2, z, if b.z > rm { b.z as int } else { rm }, prev.3.push(origin))
    }
}

/// Footprint of a cell with corner `b` placed at `o`.
pub open spec fn footprint_at(o: Pos3, b: Pos3) -> Bbox3 {
    Bbox3 { min: o, max: Pos3 { x: (o.x + b.x) as i32, y: (o.y + b.y) as i32, z: (o.z + b.z) as i32 } }
}

/// Union of the footprints of `cells`; the single point at the origin
/// when there are none.
pub open spec fn union_of(cells: Seq<PlacedCell>) -> Bbox3
    decreases cells.len(),
{
    if cells.len() == 0 {
        Bbox3 { min: Pos3 { x: 0, y: 0, z: 0 }, max: Pos3 { x: 0, y: 0, z: 0 } }
    } else if cells.len() == 1 {
        cells[0].footprint
    } else {
        union_of(cells.drop_last()).spec_union(cells.last().footprint)
    }
}

/// Placed cell `c` is the cell of node `n`, placed at `o`.
pub open spec fn cell_ok(g: NetlistGraph, c: PlacedCell, n: u32, o: Pos3) -> bool {
    match netlist_nodes(g)[n]@ {
        NodeView::Gate(_, kind, _, rd, cm, _) => {
            &&& c.node == n
            &&& c.origin == o
            &&& c.footprint == footprint_at(o, cell_bbox_max(kind))
            &&& c.tick_delay == cell_tick_delay(kind)
            &&& c.macro_cell.kind == kind
            &&& c.macro_cell.bbox.max == cell_bbox_max(kind)
            &&& c.macro_cell.tick_delay == cell_tick_delay(kind)
            &&& c.macro_cell.repeater_delay == (if rd is Some {
                rd
            } else if kind == GateKind::Repeater {
                Some(1u8)
            } else {
                None
            })
            &&& c.macro_cell.comparator_mode == cm
        },
        _ => false,
    }
}

/// `cells` lays out `items` row by row with gap `gap`.
pub open spec fn cells_follow(g: NetlistGraph, gap: i32, items: Seq<(u32, u32, u32)>, cells: Seq<PlacedCell>) -> bool {
    let l = layout(g, gap, items, items.len() as int);
    &&& cells.len() == items.len()
    &&& forall|i: int| 0 <= i < cells.len() ==> cell_ok(g, #[trigger] cells[i], items[i].2, l.3[i])
}

/// Text of a footprint `W×H×D`.
pub open spec fn dims_text(w: nat, h: nat, d: nat) -> Seq<char> {
    decimal(w) + "×"@ + decimal(h) + "×"@ + decimal(d)
}

/// The netlist is small enough for every row coordinate to fit in `i32`.
pub open spec fn place_fits(g: NetlistGraph, gap: i32) -> bool {
    (netlist_node_order(g).len() + 1) * (16 + crate::geom::abs_int(gap as int)) <= i32::MAX
}

/// Two boxes share no block.
pub open spec fn boxes_disjoint(a: Bbox3, b: Bbox3) -> bool {
    ||| a.max.x < b.min.x || b.max.x < a.min.x
    ||| a.max.y < b.min.y || b.max.y < a.min.y
    ||| a.max.z < b.min.z || b.max.z < a.min.z
}

/// No two cells' footprints share a block.
pub open spec fn footprints_disjoint(cells: Seq<PlacedCell>) -> bool {
    forall|i: int, j: int|
        0 <= i < j < cells.len() ==> boxes_disjoint(#[trigger] cells[i].footprint, #[trigger] cells[j].footprint)
}

/// Row cursor facts: cells of the current row (at `z`) end at least two
/// blocks before `x` and at most `rm` deep; cells of earlier rows end
/// before `z`.
spec fn rows_ok(cells: Seq<PlacedCell>, x: int, z: int, rm: int) -> bool {
    forall|j: int|
        0 <= j < cells.len() ==> {
            let f = (#[trigger] cells[j]).footprint;
            &&& f.min.z <= z
            &&& f.min.z == z ==> f.max.x + 2 <= x && f.max.z <= z + rm
            &&& f.min.z < z ==> f.max.z < z
        }
}

proof fn lemma_rows_new_row(cells: Seq<PlacedCell>, x: int, z: int, rm: int, z1: int)
    requires
        rows_ok(cells, x, z, rm),
        z1 > z + rm,
        rm >= 0,
    ensures
        rows_ok(cells, 0, z1, 0),
{
    assert forall|j: int| 0 <= j < cells.len() implies {
        let f = (#[trigger] cells[j]).footprint;
        &&& f.min.z <= z1
        &&& f.min.z == z1 ==> f.max.x + 2 <= 0 && f.max.z <= z1 + 0
        &&& f.min.z < z1 ==> f.max.z < z1
    } by {
        let f = cells[j].footprint;
        assert(f.min.z <= z);
    }
}

proof fn lemma_rows_add(cells: Seq<PlacedCell>, x: int, z: int, rm: int, c: PlacedCell)
    requires
        rows_ok(cells, x, z, rm),
        footprints_disjoint(cells),
        c.footprint.min.x == x,
        c.footprint.min.z == z,
        c.footprint.max.x >= x,
        c.footprint.max.z >= z,
    ensures
        rows_ok(cells.push(c), c.footprint.max.x + 2, z, if c.footprint.max.z - z > rm { c.footprint.max.z - z } else { rm }),
        footprints_disjoint(cells.push(c)),
{
    let cs = cells.push(c);
    assert forall|i: int, j: int| 0 <= i < j < cs.len() implies boxes_disjoint(
        #[trigger] cs[i].footprint,
        #[trigger] cs[j].footprint,
    ) by {
        if j < cells.len() {
            assert(cs[i] == cells[i] && cs[j] == cells[j]);
        } else {
            assert(cs[i] == cells[i]);
            assert(cs[j] == c);
            let f = cells[i].footprint;
            if f.min.z == z {
                assert(f.max.x < c.footprint.min.x);
            } else {
                assert(f.max.z < c.footprint.min.z);
            }
        }
    }
}

/// True iff the netlist is small enough for [`place`] with row gap `gap`.
pub fn placement_fits(netlist: &Netlist, gap: i32) -> (r: bool)
    ensures
        r == place_fits(netlist.graph, gap),
{
    let nodes = crate::graph::netlist_graph_node_indices(&netlist.graph);
    proof {
        crate::graph::lemma_ascending_seq_of(nodes@);
    }
    let n: u128 = nodes.len() as u128;
    let g: u128 = if gap < 0 {
        (-(gap as i64)) as u128
    } else {
        gap as u128
    };
    proof {
        assert(g as int == crate::geom::abs_int(gap as int));
    }
    assert((n + 1) * (16 + g) <= 0xffff_ffff_ffff_ffff_ffffu128 * 0x1_0000_0000u128) by (nonlinear_arith)
        requires
            n <= 0xffff_ffff_ffff_ffff,
            g <= 0x8000_0000,
    ;
    (n + 1) * (16 + g) <= 0x7fff_ffff
}

/// `a` orders strictly before `b` under `Ord`.
spec fn ordered_before<K: Ord>(a: K, b: K) -> bool {
    a.cmp_spec(&b) is Less
}

proof fn lemma_increasing_pairs(s: Seq<&(u32, u32)>)
    requires
        vstd::std_specs::btree::increasing_seq(s),
    ensures
        forall|i: int, j: int| 0 <= i < j < s.len() ==> pair_lt(*s[i], *s[j]),
{
    assert(vstd::laws_cmp::obeys_cmp::<u32>());
    assert(vstd::laws_cmp::obeys_cmp::<(u32, u32)>());
    assert(vstd::laws_cmp::obeys_cmp::<&(u32, u32)>());
    vstd::std_specs::btree::axiom_increasing_seq_meaning(s);
    assert forall|i: int, j: int| 0 <= i < j < s.len() implies pair_lt(*s[i], *s[j]) by {
        assert(ordered_before::<&(u32, u32)>(s[i], s[j]));
    }
}

/// Keys of `m` in increasing order.
fn sorted_pairs(m: &BTreeMap<(u32, u32), u32>) -> (v: Vec<(u32, u32)>)
    ensures
        v@.len() == m@.dom().len(),
        forall|i: int| 0 <= i < v@.len() ==> m@.contains_key(#[trigger] v@[i]),
        forall|k: (u32, u32)| #[trigger] m@.contains_key(k) ==> exists|i: int| 0 <= i < v@.len() && v@[i] == k,
        forall|i: int, j: int| 0 <= i < j < v@.len() ==> pair_lt(v@[i], v@[j]),
{
    let mut out: Vec<(u32, u32)> = Vec::new();
    let keys = m.keys();
    let ghost full = keys.remaining().unref();
    for k in it: keys
        invariant
            out@ == it.seq().unref().take(it.index() as int),
            it.seq().unref() == full,
            full.to_set() == m@.dom(),
    {
        out.push(*k);
    }
    proof {
        assert(out@.len() == full.len());
        assert(out@ =~= full);
        lemma_increasing_pairs(keys.remaining());
        assert forall|k: (u32, u32)| #[trigger] m@.contains_key(k) implies exists|i: int| 0 <= i < out@.len() && out@[i] == k by {
            assert(out@.to_set().contains(k));
        }
        assert forall|i: int| 0 <= i < out@.len() implies m@.contains_key(#[trigger] out@[i]) by {
            assert(out@.to_set().contains(out@[i]));
        }
    }
    out
}

/// Depth of every gate reached by the topological walk of the projection.
fn compute_depths(netlist: &Netlist) -> (r: BTreeMap<u32, u32>)
    ensures
        r@ == depths_of(netlist.graph),
{
    let mut depths: BTreeMap<u32, u32> = BTreeMap::new();
    let (proj, back, list) = build_projection(netlist);
    let ghost g = netlist.graph;
    let order: Vec<u32> = match proj_toposort(&proj) {
        Some(o) => o,
        None => {
            return depths;
        },
    };
    for oi in 0..order.len()
        invariant
            g == netlist.graph,
            Some(order@) == toposort_result(netlist_node_order(g).len(), projection_edges(g)),
            back@ == netlist_node_order(g),
            list@ == projection_edges(g),
            order@.len() == back@.len(),
            back@.len() <= u32::MAX,
            forall|i: int| 0 <= i < order@.len() ==> #[trigger] order@[i] < back@.len(),
            forall|j: int| 0 <= j < list@.len() ==> (#[trigger] list@[j]).0 < back@.len() && list@[j].1 < back@.len(),
            depths@ == depth_run(g, order@, oi as int),
            forall|n: u32| #[trigger] depths@.contains_key(n) ==> depths@[n] <= oi,
    {
        let p = order[oi];
        let n = back[p as usize];
        let mut preds: Vec<u32> = Vec::new();
        for k in 0..list.len()
            invariant
                preds@ == preds_upto(list@, p, k as int),
                forall|j: int| 0 <= j < list@.len() ==> (#[trigger] list@[j]).0 < back@.len() && list@[j].1 < back@.len(),
                forall|i: int| 0 <= i < preds@.len() ==> #[trigger] preds@[i] < back@.len(),
        {
            if list[k].1 == p {
                preds.push(list[k].0);
            }
        }
        proof {
            assert(preds@ =~= preds_upto(list@, p, list@.len() as int));
        }
        let ghost cands = preds@.map_values(|q: u32| (depth_or_zero(depths@, back@[q as int]) + 1) as u32);
        let mut d: u32 = 0;
        for k in 0..preds.len()
            invariant
                d == seq_max(cands.take(k as int)),
                d <= oi + 1,
                cands == preds@.map_values(|q: u32| (depth_or_zero(depths@, back@[q as int]) + 1) as u32),
                forall|i: int| 0 <= i < preds@.len() ==> #[trigger] preds@[i] < back@.len(),
                forall|n: u32| #[trigger] depths@.contains_key(n) ==> depths@[n] <= oi,
                oi < order@.len(),
                order@.len() == back@.len(),
                back@.len() <= u32::MAX,
        {
            let q = preds[k];
            let pred = back[q as usize];
            let pd: u32 = match depths.get(&pred) {
                Some(v) => *v,
                None => 0,
            };
            let c = pd + 1;
            proof {
                assert(cands.take(k as int + 1).drop_last() =~= cands.take(k as int));
                assert(cands[k as int] == c);
            }
            if c > d {
                d = c;
            }
        }
        proof {
            assert(cands.take(preds@.len() as int) =~= cands);
        }
        depths.insert(n, d);
    }
    depths
}

/// Every cell's bounding box is small.
proof fn lemma_bbox_small(k: GateKind)
    ensures
        0 <= cell_bbox_max(k).x <= 7,
        0 <= cell_bbox_max(k).y <= 2,
        0 <= cell_bbox_max(k).z <= 2,
{
}

/// Each layout step appends one origin; earlier origins stay.
proof fn lemma_layout_prefix(g: NetlistGraph, gap: i32, items: Seq<(u32, u32, u32)>, i: int, k: int)
    requires
        0 <= i <= k,
    ensures
        layout(g, gap, items, k).3.len() == k,
        forall|j: int| 0 <= j < i ==> layout(g, gap, items, k).3[j] == layout(g, gap, items, i).3[j],
    decreases k,
{
    if k > 0 {
        if i < k {
            lemma_layout_prefix(g, gap, items, i, k - 1);
        } else {
            lemma_layout_prefix(g, gap, items, k - 1, k - 1);
        }
    }
}

fn dims_string(w: u32, h: u32, d: u32) -> (s: String)
    ensures
        s@ == dims_text(w as nat, h as nat, d as nat),
{
    let mut s = u64_to_string(w as u64);
    s.append("×");
    let hs = u64_to_string(h as u64);
    s.append(hs.as_str());
    s.append("×");
    let ds = u64_to_string(d as u64);
    s.append(ds.as_str());
    s
}

/// Place every gate of the netlist: gates are taken in the topological
/// order of the combinational projection (index order when it has a
/// cycle), grouped by depth (rows in ascending depth, each in that
/// order), and laid out row by row; the result is refused with
/// [`PlaceError::TooLarge`] when its bounding box exceeds the configured
/// footprint in any dimension.
#[verifier::rlimit(40)]
pub fn place(netlist: &Netlist, cfg: &PlaceConfig) -> (r: Result<Placement, PlaceError>)
    requires
        place_fits(netlist.graph, cfg.row_gap_z),
    ensures
        r matches Ok(pl) ==> (exists|items: Seq<(u32, u32, u32)>|
            #[trigger] items_ok(netlist.graph, items) && cells_follow(
                netlist.graph,
                cfg.row_gap_z,
                items,
                pl.cells@,
            )) && pl.bounds == union_of(pl.cells@) && extent(pl.bounds.min.x, pl.bounds.max.x)
            <= cfg.max_footprint.0 && extent(pl.bounds.min.y, pl.bounds.max.y) <= cfg.max_footprint.1
            && extent(pl.bounds.min.z, pl.bounds.max.z) <= cfg.max_footprint.2 && (cfg.row_gap_z >= 0
            ==> footprints_disjoint(pl.cells@)),
        r matches Err(e) ==> (e matches PlaceError::TooLarge { actual, bound } && exists|
            cells: Seq<PlacedCell>,
        |
            (exists|items: Seq<(u32, u32, u32)>|
                #[trigger] items_ok(netlist.graph, items) && cells_follow(
                    netlist.graph,
                    cfg.row_gap_z,
                    items,
                    cells,
                )) && {
                let b = #[trigger] union_of(cells);
                let (w, h, d) = (
                    extent(b.min.x, b.max.x),
                    extent(b.min.y, b.max.y),
                    extent(b.min.z, b.max.z),
                );
                &&& (w > cfg.max_footprint.0 || h > cfg.max_footprint.1 || d > cfg.max_footprint.2)
                &&& actual@ == dims_text(w, h, d)
                &&& bound@ == dims_text(
                    cfg.max_footprint.0 as nat,
                    cfg.max_footprint.1 as nat,
                    cfg.max_footprint.2 as nat,
                )
            }),
{
    let ghost g = netlist.graph;
    let (proj, back, list) = build_projection(netlist);
    let order: Vec<u32> = match proj_toposort(&proj) {
        Some(o) => {
            let mut v: Vec<u32> = Vec::new();
            for i in 0..o.len()
                invariant
                    v@.len() == i,
                    forall|j: int| 0 <= j < o@.len() ==> #[trigger] o@[j] < back@.len(),
                    forall|j: int| 0 <= j < i ==> #[trigger] v@[j] == back@[o@[j] as int],
            {
                v.push(back[o[i] as usize]);
            }
            proof {
                assert(v@ =~= o@.map_values(|p: u32| back@[p as int]));
            }
            v
        },
        None => back.clone(),
    };
    proof {
        assert(order@ == place_order(g));
        assert forall|j: int| 0 <= j < order@.len() implies netlist_nodes(g).contains_key(#[trigger] order@[j]) by {
            let toposorted = toposort_result(back@.len(), projection_edges(g));
            if toposorted is Some {
                let o = toposorted.unwrap();
                assert(order@[j] == back@[o[j] as int]);
                assert(back@.to_set().contains(back@[o[j] as int]));
            } else {
                assert(back@.to_set().contains(back@[j]));
            }
        }
    }
    let depths = compute_depths(netlist);
    let mut keyed: BTreeMap<(u32, u32), u32> = BTreeMap::new();
    for idx in 0..order.len()
        invariant
            g == netlist.graph,
            order@ == place_order(g),
            depths@ == depths_of(g),
            order@.len() <= netlist_node_order(g).len(),
            netlist_node_order(g).len() <= u32::MAX,
            forall|j: int| 0 <= j < order@.len() ==> netlist_nodes(g).contains_key(#[trigger] order@[j]),
            keyed@.dom().len() <= idx,
            forall|k: (u32, u32)| #[trigger] keyed@.contains_key(k) ==> k.1 < idx && keyed@[k] == order@[k.1 as int]
                && is_gate_view(netlist_nodes(g)[keyed@[k]]@) && k.0 == depth_or_zero(depths@, keyed@[k]),
            forall|k: int| 0 <= k < idx && is_gate_view(#[trigger] netlist_nodes(g)[order@[k]]@) ==> keyed@.contains_key((depth_or_zero(depths@, order@[k]), k as u32)),
    {
        let n = order[idx];
        let node = netlist_graph_node(&netlist.graph, n);
        let gate = match node {
            NetlistNode::Gate { .. } => true,
            _ => false,
        };
        if gate {
            let d: u32 = match depths.get(&n) {
                Some(v) => *v,
                None => 0,
            };
            proof {
                assert(!keyed@.contains_key((d, idx as u32)));
            }
            keyed.insert((d, idx as u32), n);
        }
    }
    let keys = sorted_pairs(&keyed);
    let mut items: Vec<(u32, u32, u32)> = Vec::new();
    for i in 0..keys.len()
        invariant
            items@.len() == i,
            forall|j: int| 0 <= j < keys@.len() ==> keyed@.contains_key(#[trigger] keys@[j]),
            forall|j: int| 0 <= j < i ==> #[trigger] items@[j] == (keys@[j].0, keys@[j].1, keyed@[keys@[j]]),
    {
        let k = keys[i];
        let n = match keyed.get(&k) {
            Some(v) => *v,
            None => 0,
        };
        items.push((k.0, k.1, n));
    }
    proof {
        assert(items_ok(g, items@)) by {
            assert forall|k: int| 0 <= k < order@.len() && is_gate_view(#[trigger] netlist_nodes(g)[order@[k]]@) implies exists|i: int| 0 <= i < items@.len() && #[trigger] items@[i].1 == k by {
                let key = (depth_or_zero(depths@, order@[k]), k as u32);
                assert(keyed@.contains_key(key));
                let i = choose|i: int| 0 <= i < keys@.len() && keys@[i] == key;
                assert(items@[i].1 == k);
            }
        }
        assert(items@.len() <= netlist_node_order(g).len());
    }
    place_items(netlist, cfg, &items, Ghost(g))
}

#[verifier::rlimit(60)]
fn place_items(netlist: &Netlist, cfg: &PlaceConfig, items: &Vec<(u32, u32, u32)>, Ghost(g): Ghost<NetlistGraph>) -> (r: Result<Placement, PlaceError>)
    requires
        g == netlist.graph,
        place_fits(g, cfg.row_gap_z),
        items_ok(g, items@),
        items@.len() <= netlist_node_order(g).len(),
    ensures
        r matches Ok(pl) ==> cells_follow(g, cfg.row_gap_z, items@, pl.cells@) && pl.bounds == union_of(pl.cells@)
            && extent(pl.bounds.min.x, pl.bounds.max.x) <= cfg.max_footprint.0 && extent(pl.bounds.min.y, pl.bounds.max.y) <= cfg.max_footprint.1
            && extent(pl.bounds.min.z, pl.bounds.max.z) <= cfg.max_footprint.2 && (cfg.row_gap_z >= 0
            ==> footprints_disjoint(pl.cells@)),
        r matches Err(e) ==> (e matches PlaceError::TooLarge { actual, bound } && exists|cells: Seq<PlacedCell>|
            cells_follow(g, cfg.row_gap_z, items@, cells) && {
                let b = #[trigger] union_of(cells);
                let (w, h, d) = (extent(b.min.x, b.max.x), extent(b.min.y, b.max.y), extent(b.min.z, b.max.z));
                &&& (w > cfg.max_footprint.0 || h > cfg.max_footprint.1 || d > cfg.max_footprint.2)
                &&& actual@ == dims_text(w, h, d)
                &&& bound@ == dims_text(cfg.max_footprint.0 as nat, cfg.max_footprint.1 as nat, cfg.max_footprint.2 as nat)
            }),
{
    let gap = cfg.row_gap_z;
    let ghost c: int = 16 + crate::geom::abs_int(gap as int);
    let ghost nn: int = netlist_node_order(g).len() as int;
    let mut cells: Vec<PlacedCell> = Vec::new();
    let mut cursor_x: i32 = 0;
    let mut cursor_z: i32 = 0;
    let mut row_max: i32 = 0;
    let mut overall: Option<Bbox3> = None;
    for i in 0..items.len()
        invariant
            g == netlist.graph,
            gap == cfg.row_gap_z,
            c == 16 + crate::geom::abs_int(gap as int),
            nn == netlist_node_order(g).len(),
            (nn + 1) * c <= i32::MAX,
            items@.len() <= nn,
            items_ok(g, items@),
            layout(g, gap, items@, i as int).0 == cursor_x,
            layout(g, gap, items@, i as int).1 == cursor_z,
            layout(g, gap, items@, i as int).2 == row_max,
            0 <= cursor_x <= 10 * i,
            0 <= row_max <= 2,
            -(i * c) <= cursor_z <= i * c,
            cells@.len() == i,
            forall|j: int| 0 <= j < i ==> cell_ok(g, #[trigger] cells@[j], items@[j].2, layout(g, gap, items@, i as int).3[j]),
            overall == (if i == 0 { None::<Bbox3> } else { Some(union_of(cells@)) }),
            gap >= 0 ==> rows_ok(cells@, cursor_x as int, cursor_z as int, row_max as int),
            gap >= 0 ==> footprints_disjoint(cells@),
    {
        let (d, _idx, n) = items[i];
        proof {
            assert(items_ok(g, items@));
            assert(is_gate_view(netlist_nodes(g)[items@[i as int].2]@));
            assert(i * c <= nn * c) by (nonlinear_arith)
                requires 0 <= i < nn, c >= 0;
            assert((i + 1) * c == i * c + c) by (nonlinear_arith);
            assert(nn * c + c == (nn + 1) * c) by (nonlinear_arith);
            assert(10 * i + 16 <= (nn + 1) * c) by (nonlinear_arith)
                requires 0 <= i < nn, c >= 16;
        }
        if i > 0 && d != items[i - 1].0 {
            let ghost (x0, z0, rm0) = (cursor_x as int, cursor_z as int, row_max as int);
            cursor_z = cursor_z + row_max + 1 + gap;
            cursor_x = 0;
            row_max = 0;
            proof {
                if gap >= 0 {
                    lemma_rows_new_row(cells@, x0, z0, rm0, cursor_z as int);
                }
            }
        }
        let node = netlist_graph_node(&netlist.graph, n);
        let (kind, repeater_delay, compare_mode) = match node {
            NetlistNode::Gate { kind, repeater_delay, compare_mode, .. } => (*kind, *repeater_delay, *compare_mode),
            _ => {
                proof {
                    assert(false);
                }
                (GateKind::Not, None, None)
            },
        };
        let mut macro_cell = match macrocell_for(kind) {
            Ok(m) => m,
            Err(_) => {
                proof {
                    assert(false);
                }
                return Err(PlaceError::TooLarge { actual: String::new(), bound: String::new() });
            },
        };
        if repeater_delay.is_some() {
            macro_cell.repeater_delay = repeater_delay;
        }
        if compare_mode.is_some() {
            macro_cell.comparator_mode = compare_mode;
        }
        let bx = macro_cell.bbox.max;
        proof {
            lemma_bbox_small(kind);
        }
        let origin = Pos3::new(cursor_x, 0, cursor_z);
        let footprint = Bbox3 {
            min: origin,
            max: Pos3::new(origin.x + bx.x, origin.y + bx.y, origin.z + bx.z),
        };
        let ghost (x0, z0, rm0) = (cursor_x as int, cursor_z as int, row_max as int);
        cursor_x = footprint.max.x + 2;
        if bx.z > row_max {
            row_max = bx.z;
        }
        let ghost before = cells@;
        overall = Some(match overall {
            Some(b) => b.union(&footprint),
            None => footprint,
        });
        cells.push(PlacedCell { node: n, origin, footprint, tick_delay: macro_cell.tick_delay, macro_cell });
        proof {
            if gap >= 0 {
                lemma_rows_add(before, x0, z0, rm0, cells@.last());
                assert(before.push(cells@.last()) =~= cells@);
            }
            lemma_layout_prefix(g, gap, items@, i as int, i as int + 1);
            assert(cells@.drop_last() =~= before);
            assert forall|j: int| 0 <= j < i + 1 implies cell_ok(g, #[trigger] cells@[j], items@[j].2, layout(g, gap, items@, i as int + 1).3[j]) by {
                if j < i {
                    assert(cells@[j] == before[j]);
                }
            }
        }
    }
    let bounds = match overall {
        Some(b) => b,
        None => Bbox3 { min: Pos3::origin(), max: Pos3::origin() },
    };
    let w = bounds.width();
    let h = bounds.height();
    let dd = bounds.depth();
    let (bw, bh, bd) = cfg.max_footprint;
    if w > bw || h > bh || dd > bd {
        let actual = dims_string(w, h, dd);
        let bound = dims_string(bw, bh, bd);
        proof {
            lemma_layout_prefix(g, gap, items@, items@.len() as int, items@.len() as int);
            assert(cells_follow(g, gap, items@, cells@));
            assert(bounds == union_of(cells@));
            let b = union_of(cells@);
            assert(w == extent(b.min.x, b.max.x));
        }
        return Err(PlaceError::TooLarge { actual, bound });
    }
    proof {
        lemma_layout_prefix(g, gap, items@, items@.len() as int, items@.len() as int);
    }
    Ok(Placement { bounds, cells })
}

} // verus!
