//! The compiler's stages between parsing and writing the schematic:
//! configuration from the options, exit categories of the errors, the
//! discovery of the routes of each net, the two routing pipelines, and
//! the assembly of the final block grid.
use vstd::prelude::*;

use crate::budget::MemoryError;
use crate::cli::{Cli, Footprint};
use crate::error::{CycleError, PlaceError, RouteError, SynthError};
use crate::place::greedy::PlaceConfig;
use crate::route::cost::EdgeCostConfig;
use crate::route::lee::RouteConfig;
use crate::route::pathfinder::PathFinderConfig;
use crate::timing::TimingError;
use crate::cell_library::Anchor;
use crate::geom::{Bbox3, Pos3};
use crate::graph::{
    ascending, ascending_seq_of, lemma_ascending_seq_of, netlist_edge_order, netlist_edges,
    netlist_graph_edge, netlist_graph_edge_endpoints, netlist_graph_edge_indices, netlist_graph_node,
    netlist_nodes,
};
use crate::grid3d::{key_lt, lemma_increasing_u32, pos_lt, sorted_keys_of, CellState, Grid3D, NetTag};
use crate::route::lee::{
    commit_wires, failed_labels, in_world, labels_of_routes, route_each, routed_in_turn, segment_path, wires_of, RouteSegment,
    RoutedWire,
};
use crate::text::{net_label, net_label_text, pos_debug, pos_debug_text, string_views};
use crate::route::cost::CostMap;
use crate::route::pathfinder::{convergence_names_ok, no_shared_cells, path_in, route_pathfinder, wire_ok};
use crate::route::astar::astar_route_multisrc;
use crate::netlist::{EndpointRole, NetInfo, Netlist, NetlistGraph, NetlistNode, NodeView};
use crate::place::greedy::{PlacedCell, Placement};
use vstd::std_specs::iter::IteratorSpec;

verus! {

/// Errors of the whole pipeline.
#[derive(Debug)]
pub enum PipelineError {
    /// Reading the input or writing a dump failed.
    Io {
        /// Path involved.
        path: String,
        /// What went wrong.
        message: String,
    },
    /// No output path and no `--dump-only`.
    NoOutput,
    /// The source did not parse.
    Parse {
        /// Diagnostic text.
        message: String,
    },
    /// The module failed semantic validation.
    Semantic {
        /// Diagnostic text.
        message: String,
    },
    /// Netlist construction failed.
    Synth(SynthError),
    /// A combinational cycle.
    Cycle(CycleError),
    /// The placement is too large.
    Place(PlaceError),
    /// Routing failed.
    Route(RouteError),
    /// Writing the schematic failed.
    Nbt {
        /// Diagnostic text.
        message: String,
    },
    /// The memory cap was exceeded.
    Memory(MemoryError),
    /// A timing race in strict mode.
    Timing(TimingError),
}

/// Exit categories of the command.
#[derive(Debug, Clone, Copy, PartialEq, Eq, Structural)]
pub enum ExitCategory {
    /// Success.
    Success,
    /// Command-line or I/O error.
    Cli,
    /// Parse or semantic error.
    Parse,
    /// Synthesis error or combinational cycle.
    Synth,
    /// Placement too large.
    Place,
    /// Routing exhausted.
    Route,
    /// Schematic output failure.
    Nbt,
    /// Negotiated-congestion routing did not converge.
    PathFinderExhausted,
    /// Memory cap exceeded.
    MemoryCap,
    /// Timing race in strict mode.
    TimingRace,
}

/// Process exit code of a category.
pub open spec fn exit_code(c: ExitCategory) -> i32 {
    match c {
        ExitCategory::Success => 0,
        ExitCategory::Cli => 1,
        ExitCategory::Parse => 2,
        ExitCategory::Synth => 3,
        ExitCategory::Place => 4,
        ExitCategory::Route => 5,
        ExitCategory::Nbt => 6,
        ExitCategory::PathFinderExhausted => 7,
        ExitCategory::MemoryCap => 8,
        ExitCategory::TimingRace => 9,
    }
}

/// Category of a pipeline error.
pub open spec fn category_of(e: PipelineError) -> ExitCategory {
    match e {
        PipelineError::Io { .. } | PipelineError::NoOutput => ExitCategory::Cli,
        PipelineError::Parse { .. } | PipelineError::Semantic { .. } => ExitCategory::Parse,
        PipelineError::Synth(_) | PipelineError::Cycle(_) => ExitCategory::Synth,
        PipelineError::Place(_) => ExitCategory::Place,
        PipelineError::Route(r) => match r {
            RouteError::ConvergenceExhausted { .. } => ExitCategory::PathFinderExhausted,
            _ => ExitCategory::Route,
        },
        PipelineError::Nbt { .. } => ExitCategory::Nbt,
        PipelineError::Memory(_) => ExitCategory::MemoryCap,
        PipelineError::Timing(_) => ExitCategory::TimingRace,
    }
}

impl ExitCategory {
    /// The process exit code of this category.
    pub fn code(self) -> (r: i32)
        ensures
            r == exit_code(self),
    {
        match self {
            ExitCategory::Success => 0,
            ExitCategory::Cli => 1,
            ExitCategory::Parse => 2,
            ExitCategory::Synth => 3,
            ExitCategory::Place => 4,
            ExitCategory::Route => 5,
            ExitCategory::Nbt => 6,
            ExitCategory::PathFinderExhausted => 7,
            ExitCategory::MemoryCap => 8,
            ExitCategory::TimingRace => 9,
        }
    }

    /// The category of a pipeline error.
    pub fn for_error(err: &PipelineError) -> (r: ExitCategory)
        ensures
            r == category_of(*err),
    {
        match err {
            PipelineError::Io { .. } | PipelineError::NoOutput => ExitCategory::Cli,
            PipelineError::Parse { .. } | PipelineError::Semantic { .. } => ExitCategory::Parse,
            PipelineError::Synth(_) | PipelineError::Cycle(_) => ExitCategory::Synth,
            PipelineError::Place(_) => ExitCategory::Place,
            PipelineError::Route(r) => match r {
                RouteError::ConvergenceExhausted { .. } => ExitCategory::PathFinderExhausted,
                _ => ExitCategory::Route,
            },
            PipelineError::Nbt { .. } => ExitCategory::Nbt,
            PipelineError::Memory(_) => ExitCategory::MemoryCap,
            PipelineError::Timing(_) => ExitCategory::TimingRace,
        }
    }
}

/// Outcome of a successful compile.
#[derive(Debug)]
pub struct RunSummary {
    /// Path the schematic was written to, if any.
    pub output: Option<String>,
    /// Number of placed gates.
    pub gate_count: usize,
    /// Number of non-air blocks in the schematic.
    pub block_count: usize,
    /// Schematic footprint `(W, H, D)`.
    pub footprint: (u32, u32, u32),
    /// Wall-clock time of the compile, in microseconds.
    pub elapsed_micros: u64,
    /// Resident set size sampled at the end, in bytes.
    pub peak_ram_bytes: u64,
}

/// Placement configuration from the options: the given footprint (with
/// the default row gap), or the default configuration.
pub fn cfg_from_cli(cli: &Cli) -> (r: PlaceConfig)
    ensures
        r.row_gap_z == 4,
        r.max_footprint == (match cli.max_footprint {
            Some(f) => (f.width, f.height, f.depth),
            None => (256u32, 384u32, 256u32),
        }),
{
    match cli.max_footprint {
        Some(f) => PlaceConfig { max_footprint: (f.width, f.height, f.depth), row_gap_z: 4 },
        None => PlaceConfig::default(),
    }
}

/// Maze-router configuration from the options: the default with the
/// given seed (if any) and the given distance cap as the initial cap.
pub fn route_cfg_from_cli(cli: &Cli) -> (r: RouteConfig)
    ensures
        r.initial_max_distance == cli.max_route_distance,
        r.bbox_grow_step == 64,
        r.max_bbox_retries == 4,
        r.seed == (match cli.seed {
            Some(s) => s,
            None => crate::DEFAULT_SEED,
        }),
{
    let mut cfg = RouteConfig::default();
    match cli.seed {
        Some(s) => {
            cfg.seed = s;
        },
        None => {},
    }
    cfg.initial_max_distance = cli.max_route_distance;
    cfg
}

/// Negotiated-congestion configuration of the pipeline: the defaults
/// with the given iteration cap, 256 000 explored cells per net and
/// adjacency isolation off.
pub fn pathfinder_cfg_from_cli(cli: &Cli) -> (r: PathFinderConfig)
    ensures
        r.max_iterations == cli.max_routing_iterations,
        r.max_explored_cells == 256_000,
        !r.adjacency_isolation,
        r.history_growth == 8,
        r.present_growth == 2,
        r.stall_limit == 6,
        r.edge.straight_base == 1,
        r.edge.level_change_base == 3,
        r.edge.turn_penalty == 4,
        r.edge.down_penalty == 6,
        r.edge.up_penalty == 10,
{
    let mut cfg = PathFinderConfig::default();
    cfg.max_iterations = cli.max_routing_iterations;
    cfg.max_explored_cells = 256_000;
    cfg.adjacency_isolation = false;
    cfg
}

/// Timing races fail the compile when strict timing is asked for or
/// races are not allowed.
pub fn timing_is_strict(cli: &Cli) -> (r: bool)
    ensures
        r == (cli.strict_timing || !cli.allow_timing_races),
{
    cli.strict_timing || !cli.allow_timing_races
}

/// World position of cell-local position `l` of a cell at `o`.
pub open spec fn world(o: Pos3, l: Pos3) -> Pos3 {
    Pos3 { x: (o.x + l.x) as i32, y: (o.y + l.y) as i32, z: (o.z + l.z) as i32 }
}

/// The world position of local position `l` of a cell at `o` lies strictly
/// inside the `i32` range, so that it and its neighbours are representable.
pub open spec fn world_in(o: Pos3, l: Pos3) -> bool {
    &&& i32::MIN < o.x + l.x < i32::MAX
    &&& i32::MIN < o.y + l.y < i32::MAX
    &&& i32::MIN < o.z + l.z < i32::MAX
}

/// Every block and anchor of the cell has such a world position.
pub open spec fn cell_routable(c: PlacedCell) -> bool {
    &&& forall|i: int| 0 <= i < c.macro_cell.blocks@.len() ==> world_in(c.origin, (#[trigger] c.macro_cell.blocks@[i]).pos)
    &&& forall|i: int| 0 <= i < c.macro_cell.inputs@.len() ==> world_in(c.origin, (#[trigger] c.macro_cell.inputs@[i]).pos)
    &&& forall|i: int| 0 <= i < c.macro_cell.outputs@.len() ==> world_in(c.origin, (#[trigger] c.macro_cell.outputs@[i]).pos)
}

/// The placement can be routed within `i32`: its bounds grown by the four
/// blocks of routing margin are representable, and so is every world
/// position of every cell.
pub open spec fn placement_routable(pl: Placement) -> bool {
    &&& crate::geom::fits_i32(pl.bounds.min.x - 4, pl.bounds.min.y - 4, pl.bounds.min.z - 4)
    &&& crate::geom::fits_i32(pl.bounds.max.x + 4, pl.bounds.max.y + 4, pl.bounds.max.z + 4)
    &&& forall|i: int| 0 <= i < pl.cells@.len() ==> cell_routable(#[trigger] pl.cells@[i])
}

/// World position of an anchor at `local` of a cell at `origin`.
pub fn anchor_world_pos(origin: Pos3, local: Pos3) -> (r: Pos3)
    requires
        world_in(origin, local),
    ensures
        r == world(origin, local),
        in_world(r),
{
    Pos3::new(origin.x + local.x, origin.y + local.y, origin.z + local.z)
}

/// Index of the first cell, from `i` on, placed for `node`.
pub open spec fn first_cell_from(cells: Seq<PlacedCell>, node: u32, i: int) -> Option<int>
    decreases cells.len() - i,
{
    if i < 0 || i >= cells.len() {
        None
    } else if cells[i].node == node {
        Some(i)
    } else {
        first_cell_from(cells, node, i + 1)
    }
}

/// Index of the first cell placed for `node`.
pub fn find_cell_for_node(placement: &Placement, node: u32) -> (r: Option<usize>)
    ensures
        match r {
            Some(i) => first_cell_from(placement.cells@, node, 0) == Some(i as int),
            None => first_cell_from(placement.cells@, node, 0) is None,
        },
{
    for i in 0..placement.cells.len()
        invariant
            first_cell_from(placement.cells@, node, 0) == first_cell_from(placement.cells@, node, i as int),
    {
        if placement.cells[i].node == node {
            return Some(i);
        }
    }
    None
}

/// Index of the first output anchor, from `i` on, of role `DataOut` or
/// `Q`.
pub open spec fn first_out_anchor_from(outs: Seq<Anchor>, i: int) -> Option<int>
    decreases outs.len() - i,
{
    if i < 0 || i >= outs.len() {
        None
    } else if outs[i].role == EndpointRole::DataOut || outs[i].role == EndpointRole::Q {
        Some(i)
    } else {
        first_out_anchor_from(outs, i + 1)
    }
}

/// Index of the first input anchor, from `i` on, of role `role`.
pub open spec fn first_in_anchor_from(ins: Seq<Anchor>, role: EndpointRole, i: int) -> Option<int>
    decreases ins.len() - i,
{
    if i < 0 || i >= ins.len() {
        None
    } else if ins[i].role == role {
        Some(i)
    } else {
        first_in_anchor_from(ins, role, i + 1)
    }
}

/// World position an edge's source drives from: the first data or `Q`
/// output anchor of the cell placed for the edge's source gate.
pub open spec fn edge_source_pos(pl: Placement, g: NetlistGraph, e: u32) -> Option<Pos3> {
    let src = netlist_edges(g)[e].0;
    if netlist_nodes(g)[src]@ is Gate {
        match first_cell_from(pl.cells@, src, 0) {
            Some(ci) => match first_out_anchor_from(pl.cells@[ci].macro_cell.outputs@, 0) {
                Some(ai) => Some(world(pl.cells@[ci].origin, pl.cells@[ci].macro_cell.outputs@[ai].pos)),
                None => None,
            },
            None => None,
        }
    } else {
        None
    }
}

/// World position an edge ends at: the first input anchor, of the edge's
/// sink role, of the cell placed for the edge's sink gate.
pub open spec fn edge_sink_pos(pl: Placement, g: NetlistGraph, e: u32) -> Option<Pos3> {
    let t = netlist_edges(g)[e];
    if netlist_nodes(g)[t.1]@ is Gate {
        match first_cell_from(pl.cells@, t.1, 0) {
            Some(ci) => match first_in_anchor_from(pl.cells@[ci].macro_cell.inputs@, t.2.to, 0) {
                Some(ai) => Some(world(pl.cells@[ci].origin, pl.cells@[ci].macro_cell.inputs@[ai].pos)),
                None => None,
            },
            None => None,
        }
    } else {
        None
    }
}

/// The source position of net `net`: from the first edge of the net (in
/// edge order, from position `k` on) that has one.
pub open spec fn source_from(pl: Placement, g: NetlistGraph, net: u32, k: int) -> Option<Pos3>
    decreases netlist_edge_order(g).len() - k,
{
    let order = netlist_edge_order(g);
    if k < 0 || k >= order.len() {
        None
    } else {
        let e = order[k];
        if netlist_edges(g)[e].2.net.0 == net && edge_source_pos(pl, g, e) is Some {
            edge_source_pos(pl, g, e)
        } else {
            source_from(pl, g, net, k + 1)
        }
    }
}

/// Sink positions of net `net` from the first `k` edges, in edge order.
pub open spec fn sinks_upto(pl: Placement, g: NetlistGraph, net: u32, k: int) -> Seq<Pos3>
    decreases k,
{
    if k <= 0 {
        Seq::empty()
    } else {
        let e = netlist_edge_order(g)[k - 1];
        let prev = sinks_upto(pl, g, net, k - 1);
        if netlist_edges(g)[e].2.net.0 == net && edge_sink_pos(pl, g, e) is Some {
            prev.push(edge_sink_pos(pl, g, e).unwrap())
        } else {
            prev
        }
    }
}

/// All sink positions of net `net`.
pub open spec fn net_sinks(pl: Placement, g: NetlistGraph, net: u32) -> Seq<Pos3> {
    sinks_upto(pl, g, net, netlist_edge_order(g).len() as int)
}

fn source_of_edge(placement: &Placement, netlist: &Netlist, src: u32) -> (r: Option<Pos3>)
    requires
        placement_routable(*placement),
        netlist_nodes(netlist.graph).contains_key(src),
    ensures
        r == (if netlist_nodes(netlist.graph)[src]@ is Gate {
            match first_cell_from(placement.cells@, src, 0) {
                Some(ci) => match first_out_anchor_from(placement.cells@[ci].macro_cell.outputs@, 0) {
                    Some(ai) => Some(world(placement.cells@[ci].origin, placement.cells@[ci].macro_cell.outputs@[ai].pos)),
                    None => None,
                },
                None => None,
            }
        } else {
            None
        }),
        r matches Some(p) ==> in_world(p),
{
    let node = netlist_graph_node(&netlist.graph, src);
    match node {
        NetlistNode::Gate { .. } => {},
        _ => {
            return None;
        },
    }
    let ci = match find_cell_for_node(placement, src) {
        Some(ci) => ci,
        None => {
            return None;
        },
    };
    proof {
        lemma_first_cell_bound(placement.cells@, src, 0);
    }
    let cell = &placement.cells[ci];
    let outs = &cell.macro_cell.outputs;
    for ai in 0..outs.len()
        invariant
            first_out_anchor_from(outs@, 0) == first_out_anchor_from(outs@, ai as int),
            placement_routable(*placement),
            ci < placement.cells@.len(),
            placement.cells@[ci as int] == *cell,
            outs@ == cell.macro_cell.outputs@,
            first_cell_from(placement.cells@, src, 0) == Some(ci as int),
            netlist_nodes(netlist.graph)[src]@ is Gate,
    {
        if outs[ai].role == EndpointRole::DataOut || outs[ai].role == EndpointRole::Q {
            proof {
                assert(cell_routable(placement.cells@[ci as int]));
                assert(world_in(cell.origin, outs@[ai as int].pos));
            }
            return Some(anchor_world_pos(cell.origin, outs[ai].pos));
        }
    }
    None
}

proof fn lemma_first_cell_bound(cells: Seq<PlacedCell>, node: u32, i: int)
    ensures
        first_cell_from(cells, node, i) matches Some(j) ==> 0 <= j < cells.len() && cells[j].node == node,
    decreases cells.len() - i,
{
    if 0 <= i < cells.len() && cells[i].node != node {
        lemma_first_cell_bound(cells, node, i + 1);
    }
}

proof fn lemma_first_anchor_bound(outs: Seq<Anchor>, role: EndpointRole, i: int)
    ensures
        first_in_anchor_from(outs, role, i) matches Some(j) ==> 0 <= j < outs.len(),
    decreases outs.len() - i,
{
    if 0 <= i < outs.len() && outs[i].role != role {
        lemma_first_anchor_bound(outs, role, i + 1);
    }
}

fn sink_of_edge(placement: &Placement, netlist: &Netlist, dst: u32, role: EndpointRole) -> (r: Option<Pos3>)
    requires
        placement_routable(*placement),
        netlist_nodes(netlist.graph).contains_key(dst),
    ensures
        r == (if netlist_nodes(netlist.graph)[dst]@ is Gate {
            match first_cell_from(placement.cells@, dst, 0) {
                Some(ci) => match first_in_anchor_from(placement.cells@[ci].macro_cell.inputs@, role, 0) {
                    Some(ai) => Some(world(placement.cells@[ci].origin, placement.cells@[ci].macro_cell.inputs@[ai].pos)),
                    None => None,
                },
                None => None,
            }
        } else {
            None
        }),
        r matches Some(p) ==> in_world(p),
{
    let node = netlist_graph_node(&netlist.graph, dst);
    match node {
        NetlistNode::Gate { .. } => {},
        _ => {
            return None;
        },
    }
    let ci = match find_cell_for_node(placement, dst) {
        Some(ci) => ci,
        None => {
            return None;
        },
    };
    proof {
        lemma_first_cell_bound(placement.cells@, dst, 0);
    }
    let cell = &placement.cells[ci];
    let ins = &cell.macro_cell.inputs;
    for ai in 0..ins.len()
        invariant
            first_in_anchor_from(ins@, role, 0) == first_in_anchor_from(ins@, role, ai as int),
            placement_routable(*placement),
            ci < placement.cells@.len(),
            placement.cells@[ci as int] == *cell,
            ins@ == cell.macro_cell.inputs@,
            first_cell_from(placement.cells@, dst, 0) == Some(ci as int),
            netlist_nodes(netlist.graph)[dst]@ is Gate,
    {
        if ins[ai].role == role {
            proof {
                assert(cell_routable(placement.cells@[ci as int]));
                assert(world_in(cell.origin, ins@[ai as int].pos));
            }
            return Some(anchor_world_pos(cell.origin, ins[ai].pos));
        }
    }
    None
}

/// The position net `net` is driven from: the first data or `Q` output
/// anchor of the placed cell of the first gate (in edge order) that
/// drives the net and has one; `None` for a net without such a driver.
pub fn net_source_world_pos(placement: &Placement, netlist: &Netlist, net: u32) -> (r: Option<Pos3>)
    requires
        placement_routable(*placement),
    ensures
        r == source_from(*placement, netlist.graph, net, 0),
        r matches Some(p) ==> in_world(p),
{
    let edges = netlist_graph_edge_indices(&netlist.graph);
    proof {
        crate::graph::lemma_ascending_seq_of(edges@);
    }
    let ghost g = netlist.graph;
    for k in 0..edges.len()
        invariant
            g == netlist.graph,
            placement_routable(*placement),
            edges@ == netlist_edge_order(g),
            edges@.to_set() == netlist_edges(g).dom(),
            source_from(*placement, g, net, 0) == source_from(*placement, g, net, k as int),
    {
        let e = edges[k];
        proof {
            assert(edges@[k as int] == e);
            assert(edges@.to_set().contains(e));
        }
        let w = netlist_graph_edge(&netlist.graph, e);
        if w.net.0 == net {
            match netlist_graph_edge_endpoints(&netlist.graph, e) {
                Some((src, _)) => {
                    let p = source_of_edge(placement, netlist, src);
                    if p.is_some() {
                        return p;
                    }
                },
                None => {
                    proof {
                        assert(false);
                    }
                },
            }
        }
    }
    None
}

/// The positions net `net` must reach: for every edge of the net (in edge
/// order) into a placed gate, that gate's first input anchor of the
/// edge's role.
pub fn net_sink_world_positions(placement: &Placement, netlist: &Netlist, net: u32) -> (r: Vec<Pos3>)
    requires
        placement_routable(*placement),
    ensures
        r@ == net_sinks(*placement, netlist.graph, net),
        forall|i: int| 0 <= i < r@.len() ==> in_world(#[trigger] r@[i]),
{
    let edges = netlist_graph_edge_indices(&netlist.graph);
    proof {
        crate::graph::lemma_ascending_seq_of(edges@);
    }
    let ghost g = netlist.graph;
    let mut out: Vec<Pos3> = Vec::new();
    for k in 0..edges.len()
        invariant
            g == netlist.graph,
            placement_routable(*placement),
            edges@ == netlist_edge_order(g),
            edges@.to_set() == netlist_edges(g).dom(),
            out@ == sinks_upto(*placement, g, net, k as int),
            forall|i: int| 0 <= i < out@.len() ==> in_world(#[trigger] out@[i]),
    {
        let e = edges[k];
        proof {
            assert(edges@[k as int] == e);
            assert(edges@.to_set().contains(e));
        }
        let w = netlist_graph_edge(&netlist.graph, e);
        if w.net.0 == net {
            match netlist_graph_edge_endpoints(&netlist.graph, e) {
                Some((_, dst)) => {
                    match sink_of_edge(placement, netlist, dst, w.to) {
                        Some(p) => {
                            out.push(p);
                        },
                        None => {},
                    }
                },
                None => {
                    proof {
                        assert(false);
                    }
                },
            }
        }
    }
    out
}

/// Nets in ascending id order.
pub open spec fn net_order(nets: Map<u32, NetInfo>) -> Seq<u32> {
    ascending_seq_of(nets.dom())
}

/// The routes of net `net`: from its source to each of its sinks, none
/// when it has no source.
pub open spec fn routes_of_net(pl: Placement, g: NetlistGraph, net: u32) -> Seq<(NetTag, Pos3, Pos3)> {
    match source_from(pl, g, net, 0) {
        None => Seq::empty(),
        Some(src) => net_sinks(pl, g, net).map_values(|s: Pos3| (NetTag(net), src, s)),
    }
}

/// The routes of the first `k` nets of `order`.
pub open spec fn routes_upto(pl: Placement, g: NetlistGraph, order: Seq<u32>, k: int) -> Seq<(NetTag, Pos3, Pos3)>
    decreases k,
{
    if k <= 0 {
        Seq::empty()
    } else {
        routes_upto(pl, g, order, k - 1) + routes_of_net(pl, g, order[k - 1])
    }
}

/// Every route of the netlist, net by net in ascending id order.
pub open spec fn pipeline_routes(pl: Placement, netlist: Netlist) -> Seq<(NetTag, Pos3, Pos3)> {
    let order = net_order(netlist.nets@);
    routes_upto(pl, netlist.graph, order, order.len() as int)
}

/// The net ids of `netlist`, ascending.
fn net_ids(netlist: &Netlist) -> (v: Vec<u32>)
    ensures
        v@ == net_order(netlist.nets@),
        ascending(v@),
{
    let mut out: Vec<u32> = Vec::new();
    let keys = netlist.nets.keys();
    let ghost full = keys.remaining();
    for k in it: keys
        invariant
            out@ == it.seq().take(it.index() as int).map_values(|r: &u32| *r),
            it.seq() == full,
            full.unref().to_set() == netlist.nets@.dom(),
    {
        let ghost i = it.index() as int;
        out.push(*k);
        proof {
            assert(out@ =~= it.seq().take(i + 1).map_values(|r: &u32| *r));
        }
    }
    proof {
        lemma_increasing_u32(full);
        assert(out@.len() == full.len());
        assert(out@ =~= full.map_values(|r: &u32| *r));
        let vals = full.map_values(|r: &u32| *r);
        assert(vals.to_set() =~= netlist.nets@.dom()) by {
            assert forall|x: u32| vals.to_set().contains(x) <==> full.unref().to_set().contains(x) by {
                if full.unref().to_set().contains(x) {
                    let i = choose|i: int| 0 <= i < full.unref().len() && #[trigger] full.unref()[i] == x;
                    assert(vals[i] == x);
                }
                if vals.to_set().contains(x) {
                    let i = choose|i: int| 0 <= i < vals.len() && #[trigger] vals[i] == x;
                    assert(full.unref()[i] == x);
                }
            }
        }
        lemma_ascending_seq_of(out@);
    }
    out
}

/// Every route of the netlist: for each net in ascending id order with a
/// source, one route from the source to each of its sinks.
pub fn collect_routes(placement: &Placement, netlist: &Netlist) -> (r: Vec<(NetTag, Pos3, Pos3)>)
    requires
        placement_routable(*placement),
    ensures
        r@ == pipeline_routes(*placement, *netlist),
        forall|i: int| 0 <= i < r@.len() ==> in_world((#[trigger] r@[i]).1) && in_world(r@[i].2),
{
    let ids = net_ids(netlist);
    let ghost order = ids@;
    let mut routes: Vec<(NetTag, Pos3, Pos3)> = Vec::new();
    for i in 0..ids.len()
        invariant
            order == ids@,
            order == net_order(netlist.nets@),
            placement_routable(*placement),
            routes@ == routes_upto(*placement, netlist.graph, order, i as int),
            forall|j: int| 0 <= j < routes@.len() ==> in_world((#[trigger] routes@[j]).1) && in_world(routes@[j].2),
    {
        let net = ids[i];
        let ghost before = routes@;
        match net_source_world_pos(placement, netlist, net) {
            None => {
                proof {
                    assert(routes@ =~= routes_upto(*placement, netlist.graph, order, i as int + 1));
                }
            },
            Some(src) => {
                let sinks = net_sink_world_positions(placement, netlist, net);
                for k in 0..sinks.len()
                    invariant
                        routes@ == before + sinks@.take(k as int).map_values(|s: Pos3| (NetTag(net), src, s)),
                        in_world(src),
                        forall|j: int| 0 <= j < sinks@.len() ==> in_world(#[trigger] sinks@[j]),
                        forall|j: int| 0 <= j < before.len() ==> in_world((#[trigger] before[j]).1) && in_world(before[j].2),
                        forall|j: int| 0 <= j < routes@.len() ==> in_world((#[trigger] routes@[j]).1) && in_world(routes@[j].2),
                {
                    routes.push((NetTag(net), src, sinks[k]));
                    proof {
                        assert(routes@ =~= before + sinks@.take(k as int + 1).map_values(|s: Pos3| (NetTag(net), src, s)));
                    }
                }
                proof {
                    assert(sinks@.take(sinks@.len() as int) =~= sinks@);
                    assert(routes@ =~= routes_upto(*placement, netlist.graph, order, i as int + 1));
                }
            },
        }
    }
    routes
}

/// `p` is the world position of a block of a placed cell.
pub open spec fn is_block_pos(pl: Placement, p: Pos3) -> bool {
    exists|ci: int, bi: int|
        0 <= ci < pl.cells@.len() && 0 <= bi < pl.cells@[ci].macro_cell.blocks@.len() && p == #[trigger] world(
            pl.cells@[ci].origin,
            pl.cells@[ci].macro_cell.blocks@[bi].pos,
        )
}

/// Grid `g` with every block position of the placement made solid.
pub open spec fn seeded(g: Map<Pos3, CellState>, pl: Placement) -> Map<Pos3, CellState> {
    Map::new(
        |p: Pos3| g.contains_key(p) || is_block_pos(pl, p),
        |p: Pos3| if is_block_pos(pl, p) { CellState::Solid } else { g[p] },
    )
}

/// Marks every block of every placed cell as solid.
pub fn seed_grid_with_cells(grid: &mut Grid3D, placement: &Placement)
    requires
        placement_routable(*placement),
    ensures
        final(grid)@ == seeded(old(grid)@, *placement),
{
    let ghost g0 = old(grid)@;
    for ci in 0..placement.cells.len()
        invariant
            placement_routable(*placement),
            grid@ == Map::new(
                |p: Pos3| g0.contains_key(p) || exists|c: int, b: int|
                    0 <= c < ci && 0 <= b < placement.cells@[c].macro_cell.blocks@.len() && p == #[trigger] world(
                        placement.cells@[c].origin,
                        placement.cells@[c].macro_cell.blocks@[b].pos,
                    ),
                |p: Pos3| if (exists|c: int, b: int|
                    0 <= c < ci && 0 <= b < placement.cells@[c].macro_cell.blocks@.len() && p == #[trigger] world(
                        placement.cells@[c].origin,
                        placement.cells@[c].macro_cell.blocks@[b].pos,
                    )) { CellState::Solid } else { g0[p] },
            ),
    {
        let cell = &placement.cells[ci];
        proof {
            assert(cell_routable(placement.cells@[ci as int]));
        }
        let ghost before = grid@;
        for bi in 0..cell.macro_cell.blocks.len()
            invariant
                placement_routable(*placement),
                ci < placement.cells@.len(),
                placement.cells@[ci as int] == *cell,
                cell_routable(*cell),
                grid@ == Map::new(
                    |p: Pos3| before.contains_key(p) || exists|b: int|
                        0 <= b < bi && p == #[trigger] world(cell.origin, cell.macro_cell.blocks@[b].pos),
                    |p: Pos3| if (exists|b: int|
                        0 <= b < bi && p == #[trigger] world(cell.origin, cell.macro_cell.blocks@[b].pos)) {
                        CellState::Solid
                    } else {
                        before[p]
                    },
                ),
        {
            let b = cell.macro_cell.blocks[bi].pos;
            proof {
                assert(world_in(cell.origin, cell.macro_cell.blocks@[bi as int].pos));
            }
            let p = anchor_world_pos(cell.origin, b);
            let ghost g1 = grid@;
            grid.set(p, CellState::Solid);
            proof {
                assert(p == world(cell.origin, cell.macro_cell.blocks@[bi as int].pos));
                assert(grid@ =~= Map::new(
                    |q: Pos3| before.contains_key(q) || exists|bb: int|
                        0 <= bb < bi + 1 && q == #[trigger] world(cell.origin, cell.macro_cell.blocks@[bb].pos),
                    |q: Pos3| if (exists|bb: int|
                        0 <= bb < bi + 1 && q == #[trigger] world(cell.origin, cell.macro_cell.blocks@[bb].pos)) {
                        CellState::Solid
                    } else {
                        before[q]
                    },
                ));
            }
        }
        proof {
            assert(grid@ =~= Map::new(
                |p: Pos3| g0.contains_key(p) || exists|c: int, b: int|
                    0 <= c < ci + 1 && 0 <= b < placement.cells@[c].macro_cell.blocks@.len() && p == #[trigger] world(
                        placement.cells@[c].origin,
                        placement.cells@[c].macro_cell.blocks@[b].pos,
                    ),
                |p: Pos3| if (exists|c: int, b: int|
                    0 <= c < ci + 1 && 0 <= b < placement.cells@[c].macro_cell.blocks@.len() && p == #[trigger] world(
                        placement.cells@[c].origin,
                        placement.cells@[c].macro_cell.blocks@[b].pos,
                    )) { CellState::Solid } else { g0[p] },
            ));
        }
    }
    proof {
        assert(grid@ =~= seeded(g0, *placement));
    }
}

/// Net owning a dust or repeater cell.
pub open spec fn cell_net(s: CellState) -> Option<NetTag> {
    match s {
        CellState::Dust(n) => Some(n),
        CellState::Repeater(n) => Some(n),
        _ => None,
    }
}

/// The segment a dust or repeater cell at `p` is read back as (repeaters
/// face East).
pub open spec fn harvested_segment(p: Pos3, s: CellState) -> RouteSegment {
    match s {
        CellState::Repeater(_) => RouteSegment::Repeater { pos: p, facing: crate::geom::Direction::East },
        _ => RouteSegment::Dust { pos: p },
    }
}

/// Segments of net `n` among the first `k` listed cells.
pub open spec fn harvest_for(cells: Seq<(Pos3, CellState)>, n: u32, k: int) -> Seq<RouteSegment>
    decreases k,
{
    if k <= 0 {
        Seq::empty()
    } else {
        let prev = harvest_for(cells, n, k - 1);
        let c = cells[k - 1];
        if cell_net(c.1) == Some(NetTag(n)) {
            prev.push(harvested_segment(c.0, c.1))
        } else {
            prev
        }
    }
}

/// `ws` is the grid's dust and repeaters read back as wires: one wire per
/// net that has any, in ascending net order, each listing the net's
/// cells in `(y, z, x)` order.
#[verifier::opaque]
pub open spec fn harvested(g: Map<Pos3, CellState>, ws: Seq<RoutedWire>) -> bool {
    &&& forall|i: int, j: int| 0 <= i < j < ws.len() ==> ws[i].net.0 < ws[j].net.0
    &&& forall|i: int| 0 <= i < ws.len() ==> (#[trigger] ws[i]).segments@.len() > 0
    &&& forall|i: int, a: int|
        0 <= i < ws.len() && 0 <= a < ws[i].segments@.len() ==> {
            let seg = #[trigger] ws[i].segments@[a];
            &&& g.contains_key(seg.spec_pos())
            &&& cell_net(g[seg.spec_pos()]) == Some(ws[i].net)
            &&& seg == harvested_segment(seg.spec_pos(), g[seg.spec_pos()])
        }
    &&& forall|i: int, a: int, b: int|
        0 <= i < ws.len() && 0 <= a < b < ws[i].segments@.len() ==> pos_lt(
            (#[trigger] ws[i].segments@[a]).spec_pos(),
            (#[trigger] ws[i].segments@[b]).spec_pos(),
        )
    &&& forall|p: Pos3|
        #![trigger g.contains_key(p)]
        g.contains_key(p) && cell_net(g[p]) is Some ==> exists|i: int, a: int|
            0 <= i < ws.len() && 0 <= a < ws[i].segments@.len() && ws[i].net == cell_net(g[p]).unwrap()
                && (#[trigger] ws[i].segments@[a]).spec_pos() == p
}

/// Keys of `m`, ascending.
fn sorted_u32_keys<V>(m: &std::collections::BTreeMap<u32, V>) -> (v: Vec<u32>)
    ensures
        ascending(v@),
        v@.to_set() == m@.dom(),
{
    let mut out: Vec<u32> = Vec::new();
    let keys = m.keys();
    let ghost full = keys.remaining();
    for k in it: keys
        invariant
            out@ == it.seq().take(it.index() as int).map_values(|r: &u32| *r),
            it.seq() == full,
            full.unref().to_set() == m@.dom(),
    {
        let ghost i = it.index() as int;
        out.push(*k);
        proof {
            assert(out@ =~= it.seq().take(i + 1).map_values(|r: &u32| *r));
        }
    }
    proof {
        lemma_increasing_u32(full);
        assert(out@.len() == full.len());
        assert(out@ =~= full.map_values(|r: &u32| *r));
        let vals = full.map_values(|r: &u32| *r);
        assert(vals.to_set() =~= m@.dom()) by {
            assert forall|x: u32| vals.to_set().contains(x) <==> full.unref().to_set().contains(x) by {
                if full.unref().to_set().contains(x) {
                    let i = choose|i: int| 0 <= i < full.unref().len() && #[trigger] full.unref()[i] == x;
                    assert(vals[i] == x);
                }
                if vals.to_set().contains(x) {
                    let i = choose|i: int| 0 <= i < vals.len() && #[trigger] vals[i] == x;
                    assert(full.unref()[i] == x);
                }
            }
        }
    }
    out
}

/// Reads the grid's dust and repeaters back as wires, one per net.
pub fn harvest_wires(grid: &Grid3D) -> (ws: Vec<RoutedWire>)
    ensures
        harvested(grid@, ws@),
{
    let cells = grid.iter_sorted();
    let mut by_net: std::collections::BTreeMap<u32, Vec<RouteSegment>> = std::collections::BTreeMap::new();
    let mut i: usize = 0;
    while i < cells.len()
        invariant
            i <= cells@.len(),
            forall|n: u32| #[trigger] by_net@.contains_key(n) ==> by_net@[n]@ == harvest_for(cells@, n, i as int) && by_net@[n]@.len() > 0,
            forall|n: u32| #![trigger harvest_for(cells@, n, i as int)] !by_net@.contains_key(n) ==> harvest_for(cells@, n, i as int).len() == 0,
        decreases cells@.len() - i,
    {
        let (pos, state) = cells[i];
        let seg_net: Option<(u32, RouteSegment)> = match state {
            CellState::Dust(n) => Some((n.0, RouteSegment::Dust { pos })),
            CellState::Repeater(n) => Some((n.0, RouteSegment::Repeater { pos, facing: crate::geom::Direction::East })),
            _ => None,
        };
        let ghost m0 = by_net@;
        proof {
            assert(cells@[i as int] == (pos, state));
        }
        match seg_net {
            Some((n, seg)) => {
                proof {
                    if !m0.contains_key(n) {
                        assert(harvest_for(cells@, n, i as int).len() == 0);
                        assert(harvest_for(cells@, n, i as int) =~= Seq::<RouteSegment>::empty());
                    }
                }
                let mut v = match by_net.remove(&n) {
                    Some(v) => v,
                    None => Vec::new(),
                };
                proof {
                    assert(v@ == harvest_for(cells@, n, i as int));
                    assert(cell_net(state) == Some(NetTag(n)));
                    assert(seg == harvested_segment(pos, state));
                }
                v.push(seg);
                by_net.insert(n, v);
                proof {
                    assert forall|m: u32| #[trigger] by_net@.contains_key(m) implies by_net@[m]@ == harvest_for(cells@, m, i as int + 1) && by_net@[m]@.len() > 0 by {
                        if m != n {
                            assert(cell_net(state) != Some(NetTag(m)));
                            assert(m0.contains_key(m));
                        }
                    }
                    assert forall|m: u32| #![trigger harvest_for(cells@, m, i as int + 1)] !by_net@.contains_key(m) implies harvest_for(cells@, m, i as int + 1).len() == 0 by {
                        assert(m != n);
                        assert(cell_net(state) != Some(NetTag(m)));
                        assert(harvest_for(cells@, m, i as int + 1) == harvest_for(cells@, m, i as int));
                        assert(!m0.contains_key(m));
                        assert(harvest_for(cells@, m, i as int).len() == 0);
                    }
                }
            },
            None => {
                proof {
                    assert(cell_net(state) is None);
                    assert forall|m: u32| #[trigger] by_net@.contains_key(m) implies by_net@[m]@ == harvest_for(cells@, m, i as int + 1) && by_net@[m]@.len() > 0 by {
                    }
                    assert forall|m: u32| #![trigger harvest_for(cells@, m, i as int + 1)] !by_net@.contains_key(m) implies harvest_for(cells@, m, i as int + 1).len() == 0 by {
                        assert(harvest_for(cells@, m, i as int + 1) == harvest_for(cells@, m, i as int));
                        assert(harvest_for(cells@, m, i as int).len() == 0);
                    }
                }
            },
        }
        i = i + 1;
    }
    let keys = sorted_u32_keys(&by_net);
    let mut ws: Vec<RoutedWire> = Vec::new();
    let ghost full = by_net@;
    for ki in 0..keys.len()
        invariant
            ascending(keys@),
            keys@.to_set() == full.dom(),
            ws@.len() == ki,
            forall|j: int| 0 <= j < ki ==> (#[trigger] ws@[j]).net.0 == keys@[j] && ws@[j].segments@ == full[keys@[j]]@,
            forall|j: int| ki <= j < keys@.len() ==> by_net@.contains_key(#[trigger] keys@[j]) && by_net@[keys@[j]] == full[keys@[j]],
    {
        let n = keys[ki];
        proof {
            assert(keys@.to_set().contains(n));
        }
        let segs = match by_net.remove(&n) {
            Some(v) => v,
            None => Vec::new(),
        };
        ws.push(RoutedWire { net: NetTag(n), segments: segs });
        proof {
            assert forall|j: int| ki + 1 <= j < keys@.len() implies by_net@.contains_key(#[trigger] keys@[j]) && by_net@[keys@[j]] == full[keys@[j]] by {
                assert(keys@[j] != n);
            }
        }
    }
    proof {
        lemma_harvested(grid@, cells@, full, keys@, ws@);
    }
    ws
}

proof fn lemma_harvest_for(cells: Seq<(Pos3, CellState)>, n: u32, k: int)
    requires
        0 <= k <= cells.len(),
        forall|i: int, j: int| 0 <= i < j < cells.len() ==> pos_lt(cells[i].0, cells[j].0),
    ensures
        forall|a: int| 0 <= a < harvest_for(cells, n, k).len() ==> exists|idx: int|
            0 <= idx < k && cell_net(cells[idx].1) == Some(NetTag(n)) && #[trigger] harvest_for(cells, n, k)[a]
                == harvested_segment(cells[idx].0, cells[idx].1),
        forall|a: int, b: int| 0 <= a < b < harvest_for(cells, n, k).len() ==> pos_lt(
            (#[trigger] harvest_for(cells, n, k)[a]).spec_pos(),
            (#[trigger] harvest_for(cells, n, k)[b]).spec_pos(),
        ),
        forall|idx: int| 0 <= idx < k && cell_net(cells[idx].1) == Some(NetTag(n)) ==> exists|a: int|
            0 <= a < harvest_for(cells, n, k).len() && (#[trigger] harvest_for(cells, n, k)[a]).spec_pos()
                == cells[idx].0,
        forall|a: int| 0 <= a < harvest_for(cells, n, k).len() ==> exists|idx: int|
            0 <= idx < k && (#[trigger] harvest_for(cells, n, k)[a]).spec_pos() == cells[idx].0,
    decreases k,
{
    if k > 0 {
        lemma_harvest_for(cells, n, k - 1);
        let prev = harvest_for(cells, n, k - 1);
        let h = harvest_for(cells, n, k);
        let c = cells[k - 1];
        if cell_net(c.1) == Some(NetTag(n)) {
            assert(h == prev.push(harvested_segment(c.0, c.1)));
            assert forall|a: int, b: int| 0 <= a < b < h.len() implies pos_lt(
                (#[trigger] h[a]).spec_pos(),
                (#[trigger] h[b]).spec_pos(),
            ) by {
                if b == h.len() - 1 {
                    let idx = choose|idx: int| 0 <= idx < k - 1 && (#[trigger] prev[a]).spec_pos() == cells[idx].0;
                    assert(h[a] == prev[a]);
                    assert(pos_lt(cells[idx].0, cells[k - 1].0));
                } else {
                    assert(h[a] == prev[a] && h[b] == prev[b]);
                }
            }
            assert forall|a: int| 0 <= a < h.len() implies exists|idx: int|
                0 <= idx < k && cell_net(cells[idx].1) == Some(NetTag(n)) && #[trigger] h[a]
                    == harvested_segment(cells[idx].0, cells[idx].1) by {
                if a < h.len() - 1 {
                    assert(h[a] == prev[a]);
                }
            }
            assert forall|a: int| 0 <= a < h.len() implies exists|idx: int|
                0 <= idx < k && (#[trigger] h[a]).spec_pos() == cells[idx].0 by {
                if a < h.len() - 1 {
                    assert(h[a] == prev[a]);
                } else {
                    assert(h[a].spec_pos() == cells[k - 1].0);
                }
            }
            assert forall|idx: int| 0 <= idx < k && cell_net(cells[idx].1) == Some(NetTag(n)) implies exists|a: int|
                0 <= a < h.len() && (#[trigger] h[a]).spec_pos() == cells[idx].0 by {
                if idx < k - 1 {
                    let a = choose|a: int| 0 <= a < prev.len() && (#[trigger] prev[a]).spec_pos() == cells[idx].0;
                    assert(h[a] == prev[a]);
                } else {
                    assert(h[h.len() - 1].spec_pos() == cells[k - 1].0);
                }
            }
        } else {
            assert(h == prev);
        }
    }
}

#[verifier::rlimit(40)]
proof fn lemma_harvested(
    g: Map<Pos3, CellState>,
    cells: Seq<(Pos3, CellState)>,
    full: Map<u32, Vec<RouteSegment>>,
    keys: Seq<u32>,
    ws: Seq<RoutedWire>,
)
    requires
        forall|i: int| #![trigger cells[i]] 0 <= i < cells.len() ==> g.contains_key(cells[i].0) && g[cells[i].0] == cells[i].1,
        forall|p: Pos3| #[trigger] g.contains_key(p) ==> exists|i: int| 0 <= i < cells.len() && cells[i].0 == p,
        forall|i: int, j: int| 0 <= i < j < cells.len() ==> pos_lt(cells[i].0, cells[j].0),
        forall|n: u32| #[trigger] full.contains_key(n) ==> full[n]@ == harvest_for(cells, n, cells.len() as int) && full[n]@.len() > 0,
        forall|n: u32| #![trigger harvest_for(cells, n, cells.len() as int)] !full.contains_key(n) ==> harvest_for(cells, n, cells.len() as int).len() == 0,
        ascending(keys),
        keys.to_set() == full.dom(),
        ws.len() == keys.len(),
        forall|j: int| 0 <= j < ws.len() ==> (#[trigger] ws[j]).net.0 == keys[j] && ws[j].segments@ == full[keys[j]]@,
    ensures
        harvested(g, ws),
{
    reveal(harvested);
    let len = cells.len() as int;
    assert forall|i: int| 0 <= i < ws.len() implies (#[trigger] ws[i]).segments@.len() > 0 by {
        assert(keys.to_set().contains(keys[i]));
    }
    assert forall|i: int, a: int| 0 <= i < ws.len() && 0 <= a < ws[i].segments@.len() implies {
        let seg = #[trigger] ws[i].segments@[a];
        &&& g.contains_key(seg.spec_pos())
        &&& cell_net(g[seg.spec_pos()]) == Some(ws[i].net)
        &&& seg == harvested_segment(seg.spec_pos(), g[seg.spec_pos()])
    } by {
        let n = keys[i];
        assert(keys.to_set().contains(n));
        lemma_harvest_for(cells, n, len);
        let h = harvest_for(cells, n, len);
        assert(ws[i].segments@ == h);
        let idx = choose|idx: int|
            0 <= idx < len && cell_net(cells[idx].1) == Some(NetTag(n)) && #[trigger] h[a]
                == harvested_segment(cells[idx].0, cells[idx].1);
        assert(g.contains_key(cells[idx].0) && g[cells[idx].0] == cells[idx].1);
        assert(ws[i].net == NetTag(n));
    }
    assert forall|i: int, a: int, b: int|
        0 <= i < ws.len() && 0 <= a < b < ws[i].segments@.len() implies pos_lt(
            (#[trigger] ws[i].segments@[a]).spec_pos(),
            (#[trigger] ws[i].segments@[b]).spec_pos(),
        ) by {
        let n = keys[i];
        assert(keys.to_set().contains(n));
        lemma_harvest_for(cells, n, len);
        assert(ws[i].segments@ == harvest_for(cells, n, len));
    }
    assert forall|p: Pos3| #![trigger g.contains_key(p)] g.contains_key(p) && cell_net(g[p]) is Some implies exists|i: int, a: int|
        0 <= i < ws.len() && 0 <= a < ws[i].segments@.len() && ws[i].net == cell_net(g[p]).unwrap()
            && (#[trigger] ws[i].segments@[a]).spec_pos() == p by {
        let idx = choose|i: int| 0 <= i < cells.len() && cells[i].0 == p;
        let nt = cell_net(g[p]).unwrap();
        let n = nt.0;
        assert(g[cells[idx].0] == cells[idx].1);
        lemma_harvest_for(cells, n, len);
        let h = harvest_for(cells, n, len);
        assert(cell_net(cells[idx].1) == Some(NetTag(n)));
        let a = choose|a: int| 0 <= a < h.len() && (#[trigger] h[a]).spec_pos() == cells[idx].0;
        assert(full.contains_key(n));
        assert(keys.to_set().contains(n));
        let j = choose|j: int| 0 <= j < keys.len() && keys[j] == n;
        assert(ws[j].segments@ == h);
        assert(ws[j].net == nt);
        assert(ws[j].segments@[a].spec_pos() == p);
    }
}

/// The maze-router pipeline: every placed block is an obstacle, every
/// route of the netlist is tried once, in order, under the configured
/// distance cap (each along a shortest route on the grid left by the ones
/// before it), and the wires are read back from the grid. Returns the
/// wires and the labels of the routes that did not route, in order.
pub fn route_pipeline_lee(placement: &Placement, netlist: &Netlist, cfg: &RouteConfig) -> (r: (
    Vec<RoutedWire>,
    Vec<String>,
))
    requires
        placement_routable(*placement),
    ensures
        exists|outs: Seq<Option<RoutedWire>>|
            #[trigger] routed_in_turn(
                seeded(Map::empty(), *placement),
                pipeline_routes(*placement, *netlist),
                cfg.initial_max_distance as int,
                outs,
            ) && harvested(commit_wires(seeded(Map::empty(), *placement), wires_of(outs)), r.0@) && string_views(r.1@)
                == failed_labels(pipeline_routes(*placement, *netlist), outs),
        labels_of_routes(r.1@, pipeline_routes(*placement, *netlist)),
{
    let mut grid = Grid3D::new();
    seed_grid_with_cells(&mut grid, placement);
    let routes = collect_routes(placement, netlist);
    let ghost g0 = grid@;
    let (_, unrouted) = route_each(&mut grid, routes.as_slice(), cfg.initial_max_distance);
    let wires = harvest_wires(&grid);
    proof {
        assert(g0 == seeded(Map::empty(), *placement));
    }
    (wires, unrouted)
}

/// The box `b` grown by `n` blocks on every side.
pub open spec fn padded(b: Bbox3, n: int) -> Bbox3 {
    Bbox3 {
        min: Pos3 { x: (b.min.x - n) as i32, y: (b.min.y - n) as i32, z: (b.min.z - n) as i32 },
        max: Pos3 { x: (b.max.x + n) as i32, y: (b.max.y + n) as i32, z: (b.max.z + n) as i32 },
    }
}

/// `b` grown by `n` blocks on every side.
pub fn pad_bbox(b: Bbox3, n: i32) -> (r: Bbox3)
    requires
        crate::geom::fits_i32(b.min.x - n, b.min.y - n, b.min.z - n),
        crate::geom::fits_i32(b.max.x + n, b.max.y + n, b.max.z + n),
    ensures
        r.min == (Pos3 { x: (b.min.x - n) as i32, y: (b.min.y - n) as i32, z: (b.min.z - n) as i32 }),
        r.max == (Pos3 { x: (b.max.x + n) as i32, y: (b.max.y + n) as i32, z: (b.max.z + n) as i32 }),
{
    Bbox3 {
        min: Pos3::new(b.min.x - n, b.min.y - n, b.min.z - n),
        max: Pos3::new(b.max.x + n, b.max.y + n, b.max.z + n),
    }
}

/// A cost map over the placement's bounds grown by 4 blocks, with every
/// placed block marked as an obstacle.
fn blocked_cost_map(placement: &Placement) -> (cost: CostMap)
    requires
        placement_routable(*placement),
    ensures
        cost.pins@.len() == 0,
        cost.bounds == padded(placement.bounds, 4),
{
    let bounds = pad_bbox(placement.bounds, 4);
    let mut cost = CostMap::new(bounds);
    for ci in 0..placement.cells.len()
        invariant
            placement_routable(*placement),
            cost.pins@.len() == 0,
            cost.bounds == padded(placement.bounds, 4),
    {
        let cell = &placement.cells[ci];
        proof {
            assert(cell_routable(placement.cells@[ci as int]));
        }
        for bi in 0..cell.macro_cell.blocks.len()
            invariant
                cell_routable(*cell),
                cost.pins@.len() == 0,
                cost.bounds == padded(placement.bounds, 4),
        {
            proof {
                assert(world_in(cell.origin, cell.macro_cell.blocks@[bi as int].pos));
            }
            let p = anchor_world_pos(cell.origin, cell.macro_cell.blocks[bi].pos);
            cost.mark_blocked(p);
        }
    }
    cost
}

/// The negotiated-congestion pipeline: every placed block is an obstacle
/// of a cost map over the placement's bounds grown by 4 blocks, every
/// route endpoint is a pin, and all routes are negotiated together.
pub fn route_pipeline_pathfinder(placement: &Placement, netlist: &Netlist, cfg: &PathFinderConfig) -> (r: Result<
    Vec<RoutedWire>,
    RouteError,
>)
    requires
        placement_routable(*placement),
        cfg.edge.fits(),
    ensures
        r matches Ok(ws) ==> ws@.len() == pipeline_routes(*placement, *netlist).len() && (forall|i: int|
            0 <= i < ws@.len() ==> wire_ok(pipeline_routes(*placement, *netlist)[i], #[trigger] ws@[i]))
            && no_shared_cells(ws@) && (forall|k: int|
            0 <= k < ws@.len() ==> path_in(
                padded(placement.bounds, 4),
                segment_path((#[trigger] ws@[k]).segments@),
            )),
        r matches Err(e) ==> (e matches RouteError::ConvergenceExhausted { unrouted, iterations, peak_congestion }
            && iterations <= cfg.max_iterations && (iterations == cfg.max_iterations || (cfg.stall_limit != 0
            && iterations + 1 >= cfg.stall_limit))
            && unrouted@.len() > 0 && convergence_names_ok(unrouted@, pipeline_routes(*placement, *netlist))),
{
    let mut cost = blocked_cost_map(placement);
    let routes = collect_routes(placement, netlist);
    for i in 0..routes.len()
        invariant
            cost.bounds == padded(placement.bounds, 4),
    {
        cost.mark_pin(routes[i].1);
        cost.mark_pin(routes[i].2);
    }
    route_pathfinder(&mut cost, routes.as_slice(), cfg)
}

/// Text of the label of a sink the single-pass router could not reach.
pub open spec fn sink_label_text(net: u32, sink: Pos3) -> Seq<char> {
    net_label_text(net) + "→"@ + pos_debug_text(sink)
}

/// The nets to route one by one: in ascending id order, each net with a
/// source and at least one sink, with its source and sinks.
pub open spec fn groups_upto(pl: Placement, g: NetlistGraph, order: Seq<u32>, k: int) -> Seq<(u32, Pos3, Seq<Pos3>)>
    decreases k,
{
    if k <= 0 {
        Seq::empty()
    } else {
        let prev = groups_upto(pl, g, order, k - 1);
        let net = order[k - 1];
        match source_from(pl, g, net, 0) {
            Some(src) => if net_sinks(pl, g, net).len() > 0 {
                prev.push((net, src, net_sinks(pl, g, net)))
            } else {
                prev
            },
            None => prev,
        }
    }
}

/// All nets to route one by one.
pub open spec fn pipeline_groups(pl: Placement, netlist: Netlist) -> Seq<(u32, Pos3, Seq<Pos3>)> {
    let order = net_order(netlist.nets@);
    groups_upto(pl, netlist.graph, order, order.len() as int)
}

/// `p` is a cell of a wire of net `net` in `ws`.
pub open spec fn on_wire_of(ws: Seq<RoutedWire>, net: u32, p: Pos3) -> bool {
    exists|i: int, a: int|
        0 <= i < ws.len() && ws[i].net.0 == net && 0 <= a < ws[i].segments@.len() && (#[trigger] ws[i].segments@[a]).spec_pos() == p
}

/// `names` holds the label of sink `s` of net `net`.
pub open spec fn sink_reported(names: Seq<String>, net: u32, s: Pos3) -> bool {
    exists|u: int| 0 <= u < names.len() && (#[trigger] names[u])@ == sink_label_text(net, s)
}

/// Every sink of every group is the group's source, a cell of the net's
/// wire, or reported as unreached.
pub open spec fn sinks_covered(groups: Seq<(u32, Pos3, Seq<Pos3>)>, ws: Seq<RoutedWire>, names: Seq<String>) -> bool {
    forall|gi: int, k: int|
        0 <= gi < groups.len() && 0 <= k < groups[gi].2.len() ==> {
            let s = #[trigger] groups[gi].2[k];
            ||| s == groups[gi].1
            ||| on_wire_of(ws, groups[gi].0, s)
            ||| sink_reported(names, groups[gi].0, s)
        }
}

/// The wires are dust only, one per net in ascending net order, and no
/// wire lists a cell twice.
pub open spec fn dust_wires_ok(ws: Seq<RoutedWire>) -> bool {
    &&& forall|i: int, j: int| 0 <= i < j < ws.len() ==> ws[i].net.0 < ws[j].net.0
    &&& forall|i: int, a: int| 0 <= i < ws.len() && 0 <= a < ws[i].segments@.len() ==> (#[trigger] ws[i].segments@[a]) is Dust
    &&& forall|i: int, a: int, b: int|
        0 <= i < ws.len() && 0 <= a < b < ws[i].segments@.len() ==> (#[trigger] ws[i].segments@[a]).spec_pos()
            != (#[trigger] ws[i].segments@[b]).spec_pos()
}

/// The nets to route one by one, with their sources and sinks.
fn collect_groups(placement: &Placement, netlist: &Netlist) -> (r: Vec<(u32, Pos3, Vec<Pos3>)>)
    requires
        placement_routable(*placement),
    ensures
        r@.len() == pipeline_groups(*placement, *netlist).len(),
        forall|i: int|
            0 <= i < r@.len() ==> ((#[trigger] r@[i]).0, r@[i].1, r@[i].2@) == pipeline_groups(*placement, *netlist)[i],
        forall|i: int, j: int| 0 <= i < j < r@.len() ==> r@[i].0 < r@[j].0,
{
    let ids = net_ids(netlist);
    let ghost order = ids@;
    let mut groups: Vec<(u32, Pos3, Vec<Pos3>)> = Vec::new();
    for i in 0..ids.len()
        invariant
            order == ids@,
            order == net_order(netlist.nets@),
            ascending(order),
            placement_routable(*placement),
            groups@.len() == groups_upto(*placement, netlist.graph, order, i as int).len(),
            forall|k: int|
                0 <= k < groups@.len() ==> ((#[trigger] groups@[k]).0, groups@[k].1, groups@[k].2@)
                    == groups_upto(*placement, netlist.graph, order, i as int)[k],
            forall|k: int| 0 <= k < groups@.len() ==> exists|j: int| 0 <= j < i && order[j] == (#[trigger] groups@[k]).0,
            forall|k: int, l: int| 0 <= k < l < groups@.len() ==> groups@[k].0 < groups@[l].0,
    {
        let net = ids[i];
        let ghost before = groups@;
        match net_source_world_pos(placement, netlist, net) {
            Some(src) => {
                let sinks = net_sink_world_positions(placement, netlist, net);
                if sinks.len() > 0 {
                    groups.push((net, src, sinks));
                    proof {
                        assert forall|k: int, l: int| 0 <= k < l < groups@.len() implies groups@[k].0 < groups@[l].0 by {
                            if l == groups@.len() - 1 {
                                assert(groups@[k] == before[k]);
                                let j = choose|j: int| 0 <= j < i && order[j] == (#[trigger] before[k]).0;
                                assert(order[j] < order[i as int]);
                            } else {
                                assert(groups@[k] == before[k] && groups@[l] == before[l]);
                            }
                        }
                        assert forall|k: int| 0 <= k < groups@.len() implies exists|j: int| 0 <= j < i + 1 && order[j] == (#[trigger] groups@[k]).0 by {
                            if k < before.len() {
                                assert(groups@[k] == before[k]);
                                let j = choose|j: int| 0 <= j < i && order[j] == (#[trigger] before[k]).0;
                            } else {
                                assert(order[i as int] == net);
                            }
                        }
                        assert forall|k: int| 0 <= k < groups@.len() implies ((#[trigger] groups@[k]).0, groups@[k].1, groups@[k].2@)
                            == groups_upto(*placement, netlist.graph, order, i as int + 1)[k] by {
                            if k < before.len() {
                                assert(groups@[k] == before[k]);
                            }
                        }
                    }
                }
            },
            None => {},
        }
    }
    proof {
        assert(order.len() == ids@.len());
    }
    groups
}

/// Routes one net sink by sink: the first from its source, each later one
/// by multi-source A* from every cell already laid for the net. Returns
/// the dust laid (each new cell once) and the labels of the sinks not
/// reached.
#[verifier::rlimit(40)]
#[verifier::spinoff_prover]
fn route_group(cost: &mut CostMap, net: u32, src: Pos3, sinks: &Vec<Pos3>, cfg: &PathFinderConfig) -> (r: (
    Vec<RouteSegment>,
    Vec<String>,
))
    requires
        cfg.edge.fits(),
    ensures
        forall|a: int| 0 <= a < r.0@.len() ==> (#[trigger] r.0@[a]) is Dust && r.0@[a].spec_pos() != src,
        forall|a: int, b: int| 0 <= a < b < r.0@.len() ==> (#[trigger] r.0@[a]).spec_pos() != (#[trigger] r.0@[b]).spec_pos(),
        forall|k: int|
            0 <= k < sinks@.len() ==> #[trigger] sinks@[k] == src || (exists|a: int|
                0 <= a < r.0@.len() && (#[trigger] r.0@[a]).spec_pos() == sinks@[k]) || sink_reported(r.1@, net, sinks@[k]),
{
    let mut trunk: std::collections::BTreeMap<(i32, i32, i32), ()> = std::collections::BTreeMap::new();
    trunk.insert((src.x, src.y, src.z), ());
    let mut segs: Vec<RouteSegment> = Vec::new();
    let mut unrouted: Vec<String> = Vec::new();
    for k in 0..sinks.len()
        invariant
            cfg.edge.fits(),
            forall|q: (i32, i32, i32)| #[trigger] trunk@.contains_key(q) <==> (q == (src.x, src.y, src.z) || exists|a: int|
                0 <= a < segs@.len() && (#[trigger] segs@[a]).spec_pos() == (Pos3 { x: q.0, y: q.1, z: q.2 })),
            forall|a: int| 0 <= a < segs@.len() ==> (#[trigger] segs@[a]) is Dust && segs@[a].spec_pos() != src,
            forall|a: int, b: int| 0 <= a < b < segs@.len() ==> (#[trigger] segs@[a]).spec_pos() != (#[trigger] segs@[b]).spec_pos(),
            forall|j: int|
                0 <= j < k ==> #[trigger] sinks@[j] == src || (exists|a: int|
                    0 <= a < segs@.len() && (#[trigger] segs@[a]).spec_pos() == sinks@[j]) || sink_reported(unrouted@, net, sinks@[j]),
    {
        let sink = sinks[k];
        let keys = sorted_keys_of(&trunk);
        let mut seeds: Vec<Pos3> = Vec::new();
        for si in 0..keys.len() {
            seeds.push(Pos3 { x: keys[si].0, y: keys[si].1, z: keys[si].2 });
        }
        let path = astar_route_multisrc(cost, NetTag(net), seeds.as_slice(), sink, &cfg.edge, cfg.max_explored_cells);
        let ghost segs0 = segs@;
        let ghost un0 = unrouted@;
        let reached = match path {
            Some(p) => {
                if p.len() > 0 {
                    for ci in 0..p.len()
                        invariant
                            forall|q: (i32, i32, i32)| #[trigger] trunk@.contains_key(q) <==> (q == (src.x, src.y, src.z) || exists|a: int|
                                0 <= a < segs@.len() && (#[trigger] segs@[a]).spec_pos() == (Pos3 { x: q.0, y: q.1, z: q.2 })),
                            forall|a: int| 0 <= a < segs@.len() ==> (#[trigger] segs@[a]) is Dust && segs@[a].spec_pos() != src,
                            forall|a: int, b: int| 0 <= a < b < segs@.len() ==> (#[trigger] segs@[a]).spec_pos() != (#[trigger] segs@[b]).spec_pos(),
                            segs0.len() <= segs@.len(),
                            forall|a: int| 0 <= a < segs0.len() ==> segs@[a] == #[trigger] segs0[a],
                            forall|c: int| 0 <= c < ci ==> trunk@.contains_key(((#[trigger] p@[c]).x, p@[c].y, p@[c].z)),
                    {
                        let cell = p[ci];
                        cost.assign(cell, NetTag(net));
                        let q = (cell.x, cell.y, cell.z);
                        if !trunk.contains_key(&q) {
                            let ghost s0 = segs@;
                            trunk.insert(q, ());
                            segs.push(RouteSegment::Dust { pos: cell });
                            proof {
                                assert(cell == (Pos3 { x: q.0, y: q.1, z: q.2 }));
                                assert forall|qq: (i32, i32, i32)| #[trigger] trunk@.contains_key(qq) <==> (qq == (src.x, src.y, src.z) || exists|a: int|
                                    0 <= a < segs@.len() && (#[trigger] segs@[a]).spec_pos() == (Pos3 { x: qq.0, y: qq.1, z: qq.2 })) by {
                                    if qq == q {
                                        assert(segs@[segs@.len() - 1].spec_pos() == cell);
                                    } else if exists|a: int| 0 <= a < segs@.len() && (#[trigger] segs@[a]).spec_pos() == (Pos3 { x: qq.0, y: qq.1, z: qq.2 }) {
                                        let a = choose|a: int| 0 <= a < segs@.len() && (#[trigger] segs@[a]).spec_pos() == (Pos3 { x: qq.0, y: qq.1, z: qq.2 });
                                        assert(a < s0.len());
                                        assert(s0[a] == segs@[a]);
                                    } else {
                                        if exists|a: int| 0 <= a < s0.len() && (#[trigger] s0[a]).spec_pos() == (Pos3 { x: qq.0, y: qq.1, z: qq.2 }) {
                                            let a = choose|a: int| 0 <= a < s0.len() && (#[trigger] s0[a]).spec_pos() == (Pos3 { x: qq.0, y: qq.1, z: qq.2 });
                                            assert(segs@[a] == s0[a]);
                                        }
                                    }
                                }
                                assert(cell != src) by {
                                    if cell == src {
                                        assert(q == (src.x, src.y, src.z));
                                    }
                                }
                                assert forall|a: int, b: int| 0 <= a < b < segs@.len() implies (#[trigger] segs@[a]).spec_pos() != (#[trigger] segs@[b]).spec_pos() by {
                                    if b == segs@.len() - 1 {
                                        assert(segs@[a] == s0[a]);
                                        if s0[a].spec_pos() == cell {
                                            assert(trunk@.contains_key(q)) by {
                                                assert(s0[a].spec_pos() == (Pos3 { x: q.0, y: q.1, z: q.2 }));
                                            }
                                        }
                                    } else {
                                        assert(segs@[a] == s0[a] && segs@[b] == s0[b]);
                                    }
                                }
                            }
                        }
                    }
                    true
                } else {
                    false
                }
            },
            None => false,
        };
        if !reached {
            let mut m = net_label(net);
            m.append("→");
            let d = pos_debug(sink);
            m.append(d.as_str());
            unrouted.push(m);
        }
        proof {
            if reached {
                let pp = path.unwrap();
                assert(pp@.last() == sink);
                let q = (sink.x, sink.y, sink.z);
                assert(trunk@.contains_key((pp@[pp@.len() - 1].x, pp@[pp@.len() - 1].y, pp@[pp@.len() - 1].z)));
                assert(trunk@.contains_key(q));
                if sink != src {
                    assert(q != (src.x, src.y, src.z));
                    let a = choose|a: int| 0 <= a < segs@.len() && (#[trigger] segs@[a]).spec_pos() == (Pos3 { x: q.0, y: q.1, z: q.2 });
                    assert(segs@[a].spec_pos() == sinks@[k as int]);
                }
                assert(unrouted@ == un0);
            } else {
                assert(unrouted@[unrouted@.len() - 1]@ == sink_label_text(net, sink));
                assert(segs@ == segs0);
            }
            assert forall|j: int| 0 <= j < k + 1 implies #[trigger] sinks@[j] == src || (exists|a: int|
                0 <= a < segs@.len() && (#[trigger] segs@[a]).spec_pos() == sinks@[j]) || sink_reported(unrouted@, net, sinks@[j]) by {
                if j < k {
                    if sinks@[j] != src {
                        if exists|a: int| 0 <= a < segs0.len() && (#[trigger] segs0[a]).spec_pos() == sinks@[j] {
                            let a = choose|a: int| 0 <= a < segs0.len() && (#[trigger] segs0[a]).spec_pos() == sinks@[j];
                            assert(segs@[a] == segs0[a]);
                        } else {
                            assert(sink_reported(un0, net, sinks@[j]));
                            let u = choose|u: int| 0 <= u < un0.len() && (#[trigger] un0[u])@ == sink_label_text(net, sinks@[j]);
                            assert(unrouted@[u] == un0[u]);
                        }
                    }
                } else if !reached {
                    assert(unrouted@[unrouted@.len() - 1]@ == sink_label_text(net, sinks@[j]));
                }
            }
        }
    }
    (segs, unrouted)
}

/// Single-pass fallback of the negotiated router: every placed block is
/// an obstacle and every endpoint a pin; each net (in ascending id order)
/// is routed sink by sink, each later sink by multi-source A* from all
/// cells already laid for the net, so that its fan-out grows as a tree.
/// Returns one dust wire per net that laid any cell, and the labels of
/// the sinks not reached.
pub fn route_pipeline_pathfinder_singlepass(placement: &Placement, netlist: &Netlist, cfg: &PathFinderConfig) -> (r: (
    Vec<RoutedWire>,
    Vec<String>,
))
    requires
        placement_routable(*placement),
        cfg.edge.fits(),
    ensures
        dust_wires_ok(r.0@),
        sinks_covered(pipeline_groups(*placement, *netlist), r.0@, r.1@),
{
    let mut cost = blocked_cost_map(placement);
    let groups = collect_groups(placement, netlist);
    let ghost gs = pipeline_groups(*placement, *netlist);
    for gi in 0..groups.len() {
        cost.mark_pin(groups[gi].1);
        let sinks = &groups[gi].2;
        for k in 0..sinks.len() {
            cost.mark_pin(sinks[k]);
        }
    }
    let mut wires: Vec<RoutedWire> = Vec::new();
    let mut unrouted: Vec<String> = Vec::new();
    let mut gi: usize = 0;
    while gi < groups.len()
        invariant
            0 <= gi <= groups@.len(),
            cfg.edge.fits(),
            gs == pipeline_groups(*placement, *netlist),
            groups@.len() == gs.len(),
            forall|i: int| 0 <= i < groups@.len() ==> ((#[trigger] groups@[i]).0, groups@[i].1, groups@[i].2@) == gs[i],
            forall|i: int, j: int| 0 <= i < j < groups@.len() ==> groups@[i].0 < groups@[j].0,
            dust_wires_ok(wires@),
            forall|i: int| 0 <= i < wires@.len() ==> exists|j: int| 0 <= j < gi && (#[trigger] wires@[i]).net.0 == groups@[j].0,
            sinks_covered(gs.take(gi as int), wires@, unrouted@),
        decreases groups@.len() - gi,
    {
        let net = groups[gi].0;
        let src = groups[gi].1;
        let (segs, un) = route_group(&mut cost, net, src, &groups[gi].2, cfg);
        let ghost w0 = wires@;
        let ghost u0 = unrouted@;
        let mut un = un;
        let ghost unv = un@;
        unrouted.append(&mut un);
        if segs.len() > 0 {
            wires.push(RoutedWire { net: NetTag(net), segments: segs });
        }
        proof {
            assert(groups@[gi as int].0 == net && groups@[gi as int].1 == src);
            assert(unrouted@ == u0 + unv);
            // wires stay ordered and dust-only
            assert(dust_wires_ok(wires@)) by {
                if segs@.len() > 0 {
                    assert forall|i: int, j: int| 0 <= i < j < wires@.len() implies wires@[i].net.0 < wires@[j].net.0 by {
                        if j == wires@.len() - 1 {
                            assert(wires@[i] == w0[i]);
                            let jj = choose|jj: int| 0 <= jj < gi && (#[trigger] w0[i]).net.0 == groups@[jj].0;
                            assert(groups@[jj].0 < groups@[gi as int].0);
                        } else {
                            assert(wires@[i] == w0[i] && wires@[j] == w0[j]);
                        }
                    }
                    assert forall|i: int, a: int| 0 <= i < wires@.len() && 0 <= a < wires@[i].segments@.len() implies (#[trigger] wires@[i].segments@[a]) is Dust by {
                        if i < w0.len() {
                            assert(wires@[i] == w0[i]);
                        }
                    }
                    assert forall|i: int, a: int, b: int| 0 <= i < wires@.len() && 0 <= a < b < wires@[i].segments@.len() implies (#[trigger] wires@[i].segments@[a]).spec_pos()
                        != (#[trigger] wires@[i].segments@[b]).spec_pos() by {
                        if i < w0.len() {
                            assert(wires@[i] == w0[i]);
                        }
                    }
                }
            }
            assert forall|i: int| 0 <= i < wires@.len() implies exists|j: int| 0 <= j < gi + 1 && (#[trigger] wires@[i]).net.0 == groups@[j].0 by {
                if i < w0.len() {
                    assert(wires@[i] == w0[i]);
                    let jj = choose|jj: int| 0 <= jj < gi && (#[trigger] w0[i]).net.0 == groups@[jj].0;
                } else {
                    assert(wires@[i].net.0 == groups@[gi as int].0);
                }
            }
            let gsn = gs.take(gi as int + 1);
            assert forall|g: int, k: int| 0 <= g < gsn.len() && 0 <= k < gsn[g].2.len() implies {
                let s = #[trigger] gsn[g].2[k];
                ||| s == gsn[g].1
                ||| on_wire_of(wires@, gsn[g].0, s)
                ||| sink_reported(unrouted@, gsn[g].0, s)
            } by {
                let s = gsn[g].2[k];
                if g < gi {
                    assert(gsn[g] == gs.take(gi as int)[g]);
                    if s != gsn[g].1 {
                        if on_wire_of(w0, gsn[g].0, s) {
                            let (i, a) = choose|i: int, a: int|
                                0 <= i < w0.len() && w0[i].net.0 == gsn[g].0 && 0 <= a < w0[i].segments@.len() && (#[trigger] w0[i].segments@[a]).spec_pos() == s;
                            assert(wires@[i] == w0[i]);
                            assert(on_wire_of(wires@, gsn[g].0, s));
                        } else {
                            assert(sink_reported(u0, gsn[g].0, s));
                            let u = choose|u: int| 0 <= u < u0.len() && (#[trigger] u0[u])@ == sink_label_text(gsn[g].0, s);
                            assert(unrouted@[u] == u0[u]);
                            assert(sink_reported(unrouted@, gsn[g].0, s));
                        }
                    }
                } else {
                    assert(gsn[g] == gs[gi as int]);
                    assert(gs[gi as int].2 == groups@[gi as int].2@);
                    assert(s == groups@[gi as int].2@[k]);
                    if s != src {
                        if exists|a: int| 0 <= a < segs@.len() && (#[trigger] segs@[a]).spec_pos() == s {
                            let a = choose|a: int| 0 <= a < segs@.len() && (#[trigger] segs@[a]).spec_pos() == s;
                            let last = wires@.len() - 1;
                            assert(wires@[last].segments@ == segs@);
                            assert(wires@[last].segments@[a].spec_pos() == s);
                            assert(on_wire_of(wires@, gsn[g].0, s));
                        } else {
                            assert(sink_reported(unv, net, s));
                            let u = choose|u: int| 0 <= u < unv.len() && (#[trigger] unv[u])@ == sink_label_text(net, s);
                            assert(unrouted@[u0.len() + u] == unv[u]);
                            assert(sink_reported(unrouted@, gsn[g].0, s));
                        }
                    }
                }
            }
        }
        gi += 1;
    }
    proof {
        assert(gs.take(gs.len() as int) =~= gs);
    }
    (wires, unrouted)
}

} // verus!
