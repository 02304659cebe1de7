//! Netlist graph built from a parsed module: gate instances and module
//! ports as nodes, wires as edges, each net numbered in declaration order.
use vstd::prelude::*;

use std::collections::BTreeMap;

use petgraph::stable_graph::StableGraph;
use petgraph::Directed;

use crate::ast::{CompareMode, Connection, GateInst, Ident, Module, PortDir};
use crate::error::SynthError;
use crate::geom::{keyword_text, GateKind, SourceSpan};
use crate::graph::{
    netlist_edge_slots, netlist_edges, netlist_graph_add_edge, netlist_graph_add_node,
    netlist_graph_new, netlist_node_slots, netlist_nodes,
};
use crate::text::{ascii_ci_eq, eq_ignore_ascii_case};

verus! {

/// A net identifier, assigned in declaration order.
#[derive(Debug, Clone, Copy, PartialEq, Eq, Structural, Hash, PartialOrd, Ord)]
pub struct NetId(pub u32);

/// Role an endpoint plays on its node.
#[derive(Debug, Clone, Copy, PartialEq, Eq, Structural, Hash)]
pub enum EndpointRole {
    /// External module input; drives downstream nodes.
    ModuleInput,
    /// External module output; driven by one source.
    ModuleOutput,
    /// Numbered data input of a combinational gate.
    DataIn(u8),
    /// Output of a combinational gate.
    DataOut,
    /// Clock input of a stateful gate.
    ClockIn,
    /// `D` / `DATA` input of a stateful gate.
    DataInStateful,
    /// `WRITE` enable of a memory cell.
    WriteEnable,
    /// `Q` output of a stateful gate.
    Q,
    /// Numbered analog input of a comparator.
    AnalogIn(u8),
    /// Analog output of a comparator.
    AnalogOut,
    /// Watched input of an observer.
    ObserverWatch,
    /// Pulse output of an observer.
    ObserverPulse,
    /// Input of a repeater.
    RepeaterIn,
    /// Output of a repeater.
    RepeaterOut,
    /// Side lock input of a repeater.
    RepeaterLock,
}

impl EndpointRole {
    /// Output-side roles.
    pub open spec fn spec_is_output(self) -> bool {
        self == EndpointRole::DataOut || self == EndpointRole::Q || self == EndpointRole::ModuleInput
    }

    /// True iff this role is on the output side of its node.
    pub fn is_output(self) -> (r: bool)
        ensures
            r == self.spec_is_output(),
    {
        match self {
            EndpointRole::DataOut | EndpointRole::Q | EndpointRole::ModuleInput => true,
            _ => false,
        }
    }
}

/// One node of the netlist graph.
#[derive(Debug)]
pub enum NetlistNode {
    /// Module input port.
    Input {
        /// Port name.
        port: Ident,
        /// Declaration span.
        span: SourceSpan,
    },
    /// Module output port.
    Output {
        /// Port name.
        port: Ident,
        /// Declaration span.
        span: SourceSpan,
    },
    /// A gate instance.
    Gate {
        /// Instance name.
        inst: Ident,
        /// Primitive kind.
        kind: GateKind,
        /// Instance span.
        span: SourceSpan,
        /// `.DELAY(..)` of a repeater instance.
        repeater_delay: Option<u8>,
        /// `.MODE(..)` of a comparator instance.
        compare_mode: Option<CompareMode>,
    },
}

/// The value of a netlist node, with names as character sequences.
pub enum NodeView {
    /// Module input port `(name, declaration span, name span)`.
    Input(Seq<char>, SourceSpan, SourceSpan),
    /// Module output port `(name, declaration span, name span)`.
    Output(Seq<char>, SourceSpan, SourceSpan),
    /// Gate `(instance name, kind, span, delay, mode, name span)`.
    Gate(Seq<char>, GateKind, SourceSpan, Option<u8>, Option<CompareMode>, SourceSpan),
}

impl View for NetlistNode {
    type V = NodeView;

    open spec fn view(&self) -> NodeView {
        match self {
            NetlistNode::Input { port, span } => NodeView::Input(port.text@, *span, port.span),
            NetlistNode::Output { port, span } => NodeView::Output(port.text@, *span, port.span),
            NetlistNode::Gate { inst, kind, span, repeater_delay, compare_mode } => NodeView::Gate(
                inst.text@,
                *kind,
                *span,
                *repeater_delay,
                *compare_mode,
                inst.span,
            ),
        }
    }
}

/// Text of a node's diagnostic label.
pub open spec fn label_text(n: NodeView) -> Seq<char> {
    match n {
        NodeView::Input(p, _, _) => "in:"@ + p,
        NodeView::Output(p, _, _) => "out:"@ + p,
        NodeView::Gate(i, k, _, _, _, _) => keyword_text(k) + ":"@ + i,
    }
}

impl NetlistNode {
    /// Short label for diagnostics: `in:<port>`, `out:<port>` or
    /// `<keyword>:<instance>`.
    pub fn label(&self) -> (s: String)
        ensures
            s@ == label_text(self@),
    {
        match self {
            NetlistNode::Input { port, .. } => {
                let mut s = String::from_str("in:");
                s.append(port.as_str());
                s
            },
            NetlistNode::Output { port, .. } => {
                let mut s = String::from_str("out:");
                s.append(port.as_str());
                s
            },
            NetlistNode::Gate { inst, kind, .. } => {
                let kw = kind.keyword();
                let mut s = String::from_str(kw);
                s.append(":");
                s.append(inst.as_str());
                s
            },
        }
    }

    /// A copy of this node.
    pub fn duplicate(&self) -> (r: NetlistNode)
        ensures
            r@ == self@,
    {
        match self {
            NetlistNode::Input { port, span } => NetlistNode::Input {
                port: port.duplicate(),
                span: *span,
            },
            NetlistNode::Output { port, span } => NetlistNode::Output {
                port: port.duplicate(),
                span: *span,
            },
            NetlistNode::Gate { inst, kind, span, repeater_delay, compare_mode } => {
                NetlistNode::Gate {
                    inst: inst.duplicate(),
                    kind: *kind,
                    span: *span,
                    repeater_delay: *repeater_delay,
                    compare_mode: *compare_mode,
                }
            },
        }
    }

}

/// One edge of the netlist graph.
#[derive(Debug, Clone, Copy, PartialEq, Eq, Structural)]
pub struct NetlistEdge {
    /// Net this edge belongs to.
    pub net: NetId,
    /// Role on the source node.
    pub from: EndpointRole,
    /// Role on the sink node.
    pub to: EndpointRole,
}

/// The netlist graph type.
pub type NetlistGraph = StableGraph<NetlistNode, NetlistEdge, Directed, u32>;

/// Metadata of one net.
#[derive(Debug)]
pub struct NetInfo {
    /// Wire or port name.
    pub name: String,
    /// Declaration span.
    pub span: SourceSpan,
}

/// The netlist: graph plus per-net metadata keyed by net id.
#[derive(Debug)]
pub struct Netlist {
    /// Directed graph of ports and gates.
    pub graph: NetlistGraph,
    /// Per-net metadata, keyed by the `u32` of the net's [`NetId`].
    pub nets: BTreeMap<u32, NetInfo>,
}

// ---------------------------------------------------------------------
// Specification of the elaborated netlist.
// ---------------------------------------------------------------------

/// The role a connection to `port` plays on a gate of kind `kind`.
pub open spec fn port_role_spec(kind: GateKind, port: Seq<char>) -> EndpointRole {
    match kind {
        GateKind::Not => if ascii_ci_eq(port, "Y"@) {
            EndpointRole::DataOut
        } else {
            EndpointRole::DataIn(0)
        },
        GateKind::And | GateKind::Or | GateKind::Xor => if ascii_ci_eq(port, "Y"@) {
            EndpointRole::DataOut
        } else if ascii_ci_eq(port, "A"@) {
            EndpointRole::DataIn(0)
        } else if ascii_ci_eq(port, "B"@) {
            EndpointRole::DataIn(1)
        } else {
            EndpointRole::DataIn(0)
        },
        GateKind::DTrigger => if ascii_ci_eq(port, "Q"@) {
            EndpointRole::Q
        } else if ascii_ci_eq(port, "CLK"@) {
            EndpointRole::ClockIn
        } else {
            EndpointRole::DataInStateful
        },
        GateKind::MemoryCell => if ascii_ci_eq(port, "Q"@) {
            EndpointRole::Q
        } else if ascii_ci_eq(port, "WRITE"@) {
            EndpointRole::WriteEnable
        } else {
            EndpointRole::DataInStateful
        },
        _ => EndpointRole::DataIn(0),
    }
}

/// `(name, span)` of the ports in `ports` with direction `dir`, in order.
pub open spec fn port_names(ports: Seq<crate::ast::PortDecl>, dir: PortDir) -> Seq<
    (Seq<char>, SourceSpan),
>
    decreases ports.len(),
{
    if ports.len() == 0 {
        Seq::empty()
    } else {
        let r = port_names(ports.drop_last(), dir);
        if ports.last().dir == dir {
            r.push((ports.last().name.text@, ports.last().span))
        } else {
            r
        }
    }
}

/// Spans of the names of the ports in `ports` with direction `dir`, in
/// order.
pub open spec fn port_idents(ports: Seq<crate::ast::PortDecl>, dir: PortDir) -> Seq<SourceSpan>
    decreases ports.len(),
{
    if ports.len() == 0 {
        Seq::empty()
    } else {
        let r = port_idents(ports.drop_last(), dir);
        if ports.last().dir == dir {
            r.push(ports.last().name.span)
        } else {
            r
        }
    }
}

/// `(name, span)` of the wires, in order.
pub open spec fn wire_decl_names(wires: Seq<crate::ast::WireDecl>) -> Seq<(Seq<char>, SourceSpan)>
    decreases wires.len(),
{
    if wires.len() == 0 {
        Seq::empty()
    } else {
        wire_decl_names(wires.drop_last()).push((wires.last().name.text@, wires.last().span))
    }
}

/// Names of the input ports, in order.
pub open spec fn input_names(m: Module) -> Seq<(Seq<char>, SourceSpan)> {
    port_names(m.ports@, PortDir::Input)
}

/// Names of the output ports, in order.
pub open spec fn output_names(m: Module) -> Seq<(Seq<char>, SourceSpan)> {
    port_names(m.ports@, PortDir::Output)
}

/// Names of the wires, in order.
pub open spec fn wire_names(m: Module) -> Seq<(Seq<char>, SourceSpan)> {
    wire_decl_names(m.wires@)
}

/// True iff `name` is among the names of `s`.
pub open spec fn has_name(s: Seq<(Seq<char>, SourceSpan)>, name: Seq<char>) -> bool {
    exists|i: int| 0 <= i < s.len() && (#[trigger] s[i]).0 == name
}

/// Keep the first declaration of each name, in order.
pub open spec fn first_decls(s: Seq<(Seq<char>, SourceSpan)>) -> Seq<(Seq<char>, SourceSpan)>
    decreases s.len(),
{
    if s.len() == 0 {
        s
    } else {
        let r = first_decls(s.drop_last());
        if has_name(r, s.last().0) {
            r
        } else {
            r.push(s.last())
        }
    }
}

/// The nets of a module, in id order: the distinct names among input
/// ports, then output ports, then wires, each with its first declaration.
pub open spec fn net_decls(m: Module) -> Seq<(Seq<char>, SourceSpan)> {
    first_decls(input_names(m) + output_names(m) + wire_names(m))
}

/// The id of the net named `name`, if declared.
pub open spec fn net_id_of(m: Module, name: Seq<char>) -> Option<u32> {
    let d = net_decls(m);
    if has_name(d, name) {
        Some((choose|i: int| 0 <= i < d.len() && d[i].0 == name) as u32)
    } else {
        None
    }
}

/// Index of the last element of `s` named `name`.
pub open spec fn last_named(s: Seq<(Seq<char>, SourceSpan)>, name: Seq<char>) -> Option<int>
    decreases s.len(),
{
    if s.len() == 0 {
        None
    } else if s.last().0 == name {
        Some(s.len() - 1)
    } else {
        last_named(s.drop_last(), name)
    }
}

/// Node index of the input port named `name` (the last such port).
pub open spec fn input_node(m: Module, name: Seq<char>) -> Option<u32> {
    match last_named(input_names(m), name) {
        Some(i) => Some(i as u32),
        None => None,
    }
}

/// Node index of the output port named `name` (the last such port).
pub open spec fn output_node(m: Module, name: Seq<char>) -> Option<u32> {
    match last_named(output_names(m), name) {
        Some(i) => Some((input_names(m).len() + i) as u32),
        None => None,
    }
}

/// Node index of gate instance `gi`.
pub open spec fn gate_node(m: Module, gi: int) -> u32 {
    (input_names(m).len() + output_names(m).len() + gi) as u32
}

/// Role of connection `ci` of instance `gi`.
pub open spec fn conn_role(m: Module, gi: int, ci: int) -> EndpointRole {
    port_role_spec(m.instances@[gi].kind, m.instances@[gi].connections@[ci].port.text@)
}

/// Net name of connection `ci` of instance `gi`.
pub open spec fn conn_net(m: Module, gi: int, ci: int) -> Seq<char> {
    m.instances@[gi].connections@[ci].net.text@
}

/// Number of connections of instance `gi`.
pub open spec fn n_conns(m: Module, gi: int) -> int {
    m.instances@[gi].connections@.len() as int
}

/// An edge as `(source node, sink node, weight)`.
pub type EdgeTriple = (u32, u32, NetlistEdge);

/// Edges from driver instance `drv` (output role `from`) on net `name` (id `id`) to the sink
/// connections of instances `< si` and, of instance `si`, connections
/// `< sci`.
pub open spec fn sink_edges_upto(
    m: Module,
    drv: int,
    from: EndpointRole,
    name: Seq<char>,
    id: u32,
    si: int,
    sci: int,
) -> Seq<EdgeTriple>
    decreases si, sci,
{
    if si <= 0 && sci <= 0 {
        Seq::empty()
    } else if sci <= 0 {
        sink_edges_upto(m, drv, from, name, id, si - 1, n_conns(m, si - 1))
    } else {
        let prev = sink_edges_upto(m, drv, from, name, id, si, sci - 1);
        let r = conn_role(m, si, sci - 1);
        if conn_net(m, si, sci - 1) == name && !r.spec_is_output() {
            prev.push(
                (
                    gate_node(m, drv),
                    gate_node(m, si),
                    NetlistEdge { net: NetId(id), from, to: r },
                ),
            )
        } else {
            prev
        }
    }
}

/// The edges contributed by connection `ci` of instance `gi`.
pub open spec fn conn_edges(m: Module, gi: int, ci: int) -> Seq<EdgeTriple> {
    let name = conn_net(m, gi, ci);
    let role = conn_role(m, gi, ci);
    match net_id_of(m, name) {
        None => Seq::empty(),
        Some(id) => if role.spec_is_output() {
            let sinks = sink_edges_upto(m, gi, role, name, id, m.instances@.len() as int, 0);
            match output_node(m, name) {
                Some(o) => sinks.push(
                    (
                        gate_node(m, gi),
                        o,
                        NetlistEdge {
                            net: NetId(id),
                            from: role,
                            to: EndpointRole::ModuleOutput,
                        },
                    ),
                ),
                None => sinks,
            }
        } else {
            match input_node(m, name) {
                Some(n) => seq![
                    (
                        n,
                        gate_node(m, gi),
                        NetlistEdge { net: NetId(id), from: EndpointRole::ModuleInput, to: role },
                    ),
                ],
                None => Seq::empty(),
            }
        },
    }
}

/// Edges of instances `< gi` and, of instance `gi`, connections `< ci`.
pub open spec fn edges_upto(m: Module, gi: int, ci: int) -> Seq<EdgeTriple>
    decreases gi, ci,
{
    if gi <= 0 && ci <= 0 {
        Seq::empty()
    } else if ci <= 0 {
        edges_upto(m, gi - 1, n_conns(m, gi - 1))
    } else {
        edges_upto(m, gi, ci - 1) + conn_edges(m, gi, ci - 1)
    }
}

/// All edges of the module's netlist, in insertion order.
pub open spec fn netlist_edge_seq(m: Module) -> Seq<EdgeTriple> {
    edges_upto(m, m.instances@.len() as int, 0)
}

/// The node at index `i` of the module's netlist.
pub open spec fn netlist_node_at(m: Module, i: int) -> NodeView {
    let ni = input_names(m).len();
    let no = output_names(m).len();
    if i < ni {
        NodeView::Input(input_names(m)[i].0, input_names(m)[i].1, port_idents(m.ports@, PortDir::Input)[i])
    } else if i < ni + no {
        NodeView::Output(
            output_names(m)[i - ni].0,
            output_names(m)[i - ni].1,
            port_idents(m.ports@, PortDir::Output)[i - ni],
        )
    } else {
        let g = m.instances@[i - ni - no];
        NodeView::Gate(g.inst_name.text@, g.kind, g.span, g.repeater_delay, g.compare_mode, g.inst_name.span)
    }
}

/// Number of nodes of the module's netlist.
pub open spec fn netlist_node_count(m: Module) -> nat {
    input_names(m).len() + output_names(m).len() + m.instances@.len()
}

/// Fewer than `u32::MAX` declarations (ports, wires and instances), so
/// that every node and net index fits `u32`.
pub open spec fn module_decls_fit(m: Module) -> bool {
    m.ports@.len() + m.wires@.len() + m.instances@.len() < u32::MAX
}

/// Sizes that keep every node, net and edge index inside `u32`: fewer
/// than `u32::MAX` declarations and fewer than `u32::MAX` edges.
pub open spec fn module_fits(m: Module) -> bool {
    &&& module_decls_fit(m)
    &&& netlist_edge_seq(m).len() < u32::MAX
}

/// The sink edges found so far never outnumber all of them.
proof fn lemma_sinks_prefix(m: Module, drv: int, from: EndpointRole, name: Seq<char>, id: u32, si: int, sci: int)
    requires
        0 <= si < m.instances@.len(),
        0 <= sci <= n_conns(m, si),
    ensures
        sink_edges_upto(m, drv, from, name, id, si, sci).len() <= sink_edges_upto(
            m,
            drv,
            from,
            name,
            id,
            m.instances@.len() as int,
            0,
        ).len(),
    decreases m.instances@.len() - si, n_conns(m, si) - sci,
{
    if sci < n_conns(m, si) {
        lemma_sinks_prefix(m, drv, from, name, id, si, sci + 1);
    } else if si + 1 < m.instances@.len() {
        lemma_sinks_prefix(m, drv, from, name, id, si + 1, 0);
    }
}

/// The edges of a prefix of the connections never outnumber all edges.
proof fn lemma_edges_prefix(m: Module, gi: int, ci: int)
    requires
        0 <= gi < m.instances@.len(),
        0 <= ci <= n_conns(m, gi),
    ensures
        edges_upto(m, gi, ci).len() <= netlist_edge_seq(m).len(),
    decreases m.instances@.len() - gi, n_conns(m, gi) - ci,
{
    if ci < n_conns(m, gi) {
        lemma_edges_prefix(m, gi, ci + 1);
    } else if gi + 1 < m.instances@.len() {
        lemma_edges_prefix(m, gi + 1, 0);
    }
}

/// The netlist `g` is the netlist of module `m`: nodes at indices
/// `0..n` in declaration order (inputs, outputs, gates), and the edge
/// sequence of [`netlist_edge_seq`] at indices `0..e`.
pub open spec fn graph_of_module(g: NetlistGraph, m: Module) -> bool {
    &&& netlist_nodes(g).dom() =~= Set::new(|i: u32| i < netlist_node_count(m))
    &&& forall|i: u32|
        i < netlist_node_count(m) ==> (#[trigger] netlist_nodes(g)[i])@ == netlist_node_at(m, i as int)
    &&& netlist_edges(g).dom() =~= Set::new(|i: u32| i < netlist_edge_seq(m).len())
    &&& forall|i: u32|
        i < netlist_edge_seq(m).len() ==> #[trigger] netlist_edges(g)[i] == netlist_edge_seq(m)[i as int]
}

/// The per-net metadata matches the module's nets in id order.
pub open spec fn nets_of_module(nets: Map<u32, NetInfo>, m: Module) -> bool {
    &&& nets.dom() =~= Set::new(|i: u32| i < net_decls(m).len())
    &&& forall|i: u32|
        i < net_decls(m).len() ==> (#[trigger] nets[i]).name@ == net_decls(m)[i as int].0
            && nets[i].span == net_decls(m)[i as int].1
}

} // verus!

verus! {

// ---------------------------------------------------------------------
// Lemmas about the specification.
// ---------------------------------------------------------------------

/// Names kept by [`first_decls`] are pairwise distinct.
proof fn lemma_first_decls_distinct(s: Seq<(Seq<char>, SourceSpan)>)
    ensures
        forall|i: int, j: int|
            0 <= i < j < first_decls(s).len() ==> first_decls(s)[i].0 != first_decls(s)[j].0,
    decreases s.len(),
{
    if s.len() > 0 {
        lemma_first_decls_distinct(s.drop_last());
        let r = first_decls(s.drop_last());
        if !has_name(r, s.last().0) {
            assert forall|i: int| 0 <= i < r.len() implies r[i].0 != s.last().0 by {
                if r[i].0 == s.last().0 {
                    assert(has_name(r, s.last().0));
                }
            }
        }
    }
}

proof fn lemma_first_decls_push(s: Seq<(Seq<char>, SourceSpan)>, x: (Seq<char>, SourceSpan))
    ensures
        first_decls(s.push(x)) == (if has_name(first_decls(s), x.0) {
            first_decls(s)
        } else {
            first_decls(s).push(x)
        }),
{
    assert(s.push(x).drop_last() =~= s);
}

proof fn lemma_port_names_step(ports: Seq<crate::ast::PortDecl>, dir: PortDir, i: int)
    requires
        0 <= i < ports.len(),
    ensures
        port_names(ports.take(i + 1), dir) == (if ports[i].dir == dir {
            port_names(ports.take(i), dir).push((ports[i].name.text@, ports[i].span))
        } else {
            port_names(ports.take(i), dir)
        }),
{
    assert(ports.take(i + 1).drop_last() =~= ports.take(i));
}

proof fn lemma_port_idents_step(ports: Seq<crate::ast::PortDecl>, dir: PortDir, i: int)
    requires
        0 <= i < ports.len(),
    ensures
        port_idents(ports.take(i + 1), dir) == (if ports[i].dir == dir {
            port_idents(ports.take(i), dir).push(ports[i].name.span)
        } else {
            port_idents(ports.take(i), dir)
        }),
{
    assert(ports.take(i + 1).drop_last() =~= ports.take(i));
}

/// Ports and their name spans line up.
proof fn lemma_port_idents_len(ports: Seq<crate::ast::PortDecl>, dir: PortDir)
    ensures
        port_idents(ports, dir).len() == port_names(ports, dir).len(),
    decreases ports.len(),
{
    if ports.len() > 0 {
        lemma_port_idents_len(ports.drop_last(), dir);
    }
}

proof fn lemma_port_idents_prefix(ports: Seq<crate::ast::PortDecl>, dir: PortDir, i: int)
    requires
        0 <= i <= ports.len(),
    ensures
        is_prefix(port_idents(ports.take(i), dir), port_idents(ports, dir)),
    decreases ports.len() - i,
{
    if i == ports.len() {
        assert(ports.take(i) =~= ports);
    } else {
        lemma_port_idents_step(ports, dir, i);
        lemma_port_idents_prefix(ports, dir, i + 1);
    }
}

proof fn lemma_wire_names_step(wires: Seq<crate::ast::WireDecl>, i: int)
    requires
        0 <= i < wires.len(),
    ensures
        wire_decl_names(wires.take(i + 1)) == wire_decl_names(wires.take(i)).push(
            (wires[i].name.text@, wires[i].span),
        ),
{
    assert(wires.take(i + 1).drop_last() =~= wires.take(i));
}

proof fn lemma_port_names_len(ports: Seq<crate::ast::PortDecl>, dir: PortDir)
    ensures
        port_names(ports, dir).len() <= ports.len(),
    decreases ports.len(),
{
    if ports.len() > 0 {
        lemma_port_names_len(ports.drop_last(), dir);
    }
}

/// Every port is an input or an output.
proof fn lemma_port_dirs_len(ports: Seq<crate::ast::PortDecl>)
    ensures
        port_names(ports, PortDir::Input).len() + port_names(ports, PortDir::Output).len() == ports.len(),
    decreases ports.len(),
{
    if ports.len() > 0 {
        lemma_port_dirs_len(ports.drop_last());
    }
}

proof fn lemma_wire_names_len(wires: Seq<crate::ast::WireDecl>)
    ensures
        wire_decl_names(wires).len() == wires.len(),
    decreases wires.len(),
{
    if wires.len() > 0 {
        lemma_wire_names_len(wires.drop_last());
    }
}

proof fn lemma_first_decls_len(s: Seq<(Seq<char>, SourceSpan)>)
    ensures
        first_decls(s).len() <= s.len(),
    decreases s.len(),
{
    if s.len() > 0 {
        lemma_first_decls_len(s.drop_last());
    }
}

proof fn lemma_last_named_bounds(s: Seq<(Seq<char>, SourceSpan)>, name: Seq<char>)
    ensures
        last_named(s, name) matches Some(i) ==> 0 <= i < s.len() && s[i].0 == name && forall|
            j: int,
        | i < j < s.len() ==> s[j].0 != name,
        last_named(s, name) is None ==> forall|j: int| 0 <= j < s.len() ==> s[j].0 != name,
    decreases s.len(),
{
    if s.len() > 0 {
        lemma_last_named_bounds(s.drop_last(), name);
        if s.last().0 != name {
            assert forall|j: int| 0 <= j < s.len() - 1 implies s.drop_last()[j] == s[j] by {}
        }
    }
}

// ---------------------------------------------------------------------
// Executable helpers.
// ---------------------------------------------------------------------

/// Views of a vector of strings.
pub open spec fn str_views(v: Seq<String>) -> Seq<Seq<char>> {
    v.map_values(|s: String| s@)
}

/// Names of a sequence of declarations.
pub open spec fn decl_names(s: Seq<(Seq<char>, SourceSpan)>) -> Seq<Seq<char>> {
    s.map_values(|d: (Seq<char>, SourceSpan)| d.0)
}

/// Index of the first string equal to `name`.
fn find_first(names: &Vec<String>, name: &String) -> (r: Option<usize>)
    ensures
        r matches Some(i) ==> i < names@.len() && names@[i as int]@ == name@,
        r matches Some(i) ==> forall|j: int| 0 <= j < i ==> names@[j]@ != name@,
        r is None ==> forall|j: int| 0 <= j < names@.len() ==> names@[j]@ != name@,
{
    let mut i: usize = 0;
    while i < names.len()
        invariant
            i <= names@.len(),
            forall|j: int| 0 <= j < i ==> names@[j]@ != name@,
        decreases names@.len() - i,
    {
        if names[i] == *name {
            return Some(i);
        }
        i += 1;
    }
    None
}

/// Index of the last string equal to `name`.
fn find_last(names: &Vec<String>, name: &String) -> (r: Option<usize>)
    ensures
        r matches Some(i) ==> i < names@.len() && names@[i as int]@ == name@,
        r matches Some(i) ==> forall|j: int| i < j < names@.len() ==> names@[j]@ != name@,
        r is None ==> forall|j: int| 0 <= j < names@.len() ==> names@[j]@ != name@,
{
    let mut i: usize = names.len();
    while i > 0
        invariant
            i <= names@.len(),
            forall|j: int| i <= j < names@.len() ==> names@[j]@ != name@,
        decreases i,
    {
        if names[i - 1] == *name {
            return Some(i - 1);
        }
        i -= 1;
    }
    None
}

/// `port` names a port of a gate of kind `kind` (ASCII case ignored): `A`
/// and `Y` for NOT; `A`, `B` and `Y` for AND, OR and XOR; `D`, `CLK` and
/// `Q` for the D flip-flop; `DATA`, `WRITE` and `Q` for the memory cell.
/// The ports of the other primitives are not checked here.
pub open spec fn port_known(kind: GateKind, port: Seq<char>) -> bool {
    match kind {
        GateKind::Not => ascii_ci_eq(port, "A"@) || ascii_ci_eq(port, "Y"@),
        GateKind::And | GateKind::Or | GateKind::Xor => ascii_ci_eq(port, "A"@) || ascii_ci_eq(port, "B"@)
            || ascii_ci_eq(port, "Y"@),
        GateKind::DTrigger => ascii_ci_eq(port, "D"@) || ascii_ci_eq(port, "CLK"@) || ascii_ci_eq(port, "Q"@),
        GateKind::MemoryCell => ascii_ci_eq(port, "DATA"@) || ascii_ci_eq(port, "WRITE"@) || ascii_ci_eq(
            port,
            "Q"@,
        ),
        _ => true,
    }
}

/// Connection `ci` of instance `gi` names a port of the instance's kind.
pub open spec fn conn_known(m: Module, gi: int, ci: int) -> bool {
    port_known(m.instances@[gi].kind, m.instances@[gi].connections@[ci].port.text@)
}

/// Every connection of every instance names a port of its kind.
pub open spec fn all_ports_known(m: Module) -> bool {
    forall|gi: int, ci: int| 0 <= gi < m.instances@.len() && 0 <= ci < n_conns(m, gi) ==> #[trigger] conn_known(m, gi, ci)
}

/// Connection `ci` of instance `gi` is the first, in instance and then
/// connection order, that names no port of its kind.
pub open spec fn first_unknown_port(m: Module, gi: int, ci: int) -> bool {
    &&& 0 <= gi < m.instances@.len()
    &&& 0 <= ci < n_conns(m, gi)
    &&& !conn_known(m, gi, ci)
    &&& forall|g: int, c: int| 0 <= g < gi && 0 <= c < n_conns(m, g) ==> #[trigger] conn_known(m, g, c)
    &&& forall|c: int| 0 <= c < ci ==> #[trigger] conn_known(m, gi, c)
}

fn port_is_known(kind: GateKind, port: &str) -> (r: bool)
    ensures
        r == port_known(kind, port@),
{
    match kind {
        GateKind::Not => eq_ignore_ascii_case(port, "A") || eq_ignore_ascii_case(port, "Y"),
        GateKind::And | GateKind::Or | GateKind::Xor => eq_ignore_ascii_case(port, "A") || eq_ignore_ascii_case(
            port,
            "B",
        ) || eq_ignore_ascii_case(port, "Y"),
        GateKind::DTrigger => eq_ignore_ascii_case(port, "D") || eq_ignore_ascii_case(port, "CLK")
            || eq_ignore_ascii_case(port, "Q"),
        GateKind::MemoryCell => eq_ignore_ascii_case(port, "DATA") || eq_ignore_ascii_case(port, "WRITE")
            || eq_ignore_ascii_case(port, "Q"),
        _ => true,
    }
}

/// The first connection, in instance and then connection order, that
/// names no port of its instance's kind.
fn find_unknown_port(module: &Module) -> (r: Option<(usize, usize)>)
    ensures
        match r {
            None => all_ports_known(*module),
            Some((gi, ci)) => first_unknown_port(*module, gi as int, ci as int),
        },
{
    let ghost m = *module;
    let n = module.instances.len();
    for gi in 0..n
        invariant
            n == m.instances@.len(),
            m == *module,
            forall|g: int, c: int| 0 <= g < gi && 0 <= c < n_conns(m, g) ==> #[trigger] conn_known(m, g, c),
    {
        let inst = &module.instances[gi];
        let nc = inst.connections.len();
        for ci in 0..nc
            invariant
                n == m.instances@.len(),
                m == *module,
                gi < n,
                inst == &m.instances@[gi as int],
                nc == n_conns(m, gi as int),
                forall|g: int, c: int| 0 <= g < gi && 0 <= c < n_conns(m, g) ==> #[trigger] conn_known(m, g, c),
                forall|c: int| 0 <= c < ci ==> #[trigger] conn_known(m, gi as int, c),
        {
            if !port_is_known(inst.kind, inst.connections[ci].port.text.as_str()) {
                return Some((gi, ci));
            }
        }
    }
    None
}

/// The role of connection `conn` on a gate of kind `kind`.
fn port_role(kind: GateKind, conn: &Connection) -> (r: EndpointRole)
    ensures
        r == port_role_spec(kind, conn.port.text@),
{
    let p = conn.port.as_str();
    proof {
        reveal_strlit("Y");
        reveal_strlit("A");
        reveal_strlit("B");
        reveal_strlit("Q");
        reveal_strlit("CLK");
        reveal_strlit("WRITE");
    }
    match kind {
        GateKind::Not => {
            if eq_ignore_ascii_case(p, "Y") {
                EndpointRole::DataOut
            } else {
                EndpointRole::DataIn(0)
            }
        },
        GateKind::And | GateKind::Or | GateKind::Xor => {
            if eq_ignore_ascii_case(p, "Y") {
                EndpointRole::DataOut
            } else if eq_ignore_ascii_case(p, "A") {
                EndpointRole::DataIn(0)
            } else if eq_ignore_ascii_case(p, "B") {
                EndpointRole::DataIn(1)
            } else {
                EndpointRole::DataIn(0)
            }
        },
        GateKind::DTrigger => {
            if eq_ignore_ascii_case(p, "Q") {
                EndpointRole::Q
            } else if eq_ignore_ascii_case(p, "CLK") {
                EndpointRole::ClockIn
            } else {
                EndpointRole::DataInStateful
            }
        },
        GateKind::MemoryCell => {
            if eq_ignore_ascii_case(p, "Q") {
                EndpointRole::Q
            } else if eq_ignore_ascii_case(p, "WRITE") {
                EndpointRole::WriteEnable
            } else {
                EndpointRole::DataInStateful
            }
        },
        _ => EndpointRole::DataIn(0),
    }
}

/// The net table: names in id order, and the metadata map.
pub open spec fn net_table_ok(
    names: Seq<String>,
    nets: Map<u32, NetInfo>,
    decls: Seq<(Seq<char>, SourceSpan)>,
) -> bool {
    &&& str_views(names) == decl_names(first_decls(decls))
    &&& nets.dom() =~= Set::new(|i: u32| i < first_decls(decls).len())
    &&& forall|i: u32|
        i < first_decls(decls).len() ==> (#[trigger] nets[i]).name@ == first_decls(decls)[i as int].0
            && nets[i].span == first_decls(decls)[i as int].1
}

/// Record the declaration of `name`; a name seen before keeps its id.
fn assign_net(
    names: &mut Vec<String>,
    nets: &mut BTreeMap<u32, NetInfo>,
    name: &String,
    span: SourceSpan,
    Ghost(decls): Ghost<Seq<(Seq<char>, SourceSpan)>>,
)
    requires
        net_table_ok(old(names)@, old(nets)@, decls),
        decls.len() < u32::MAX,
    ensures
        net_table_ok(final(names)@, final(nets)@, decls.push((name@, span))),
{
    proof {
        lemma_first_decls_push(decls, (name@, span));
        lemma_first_decls_len(decls);
    }
    proof {
        assert(str_views(names@).len() == names@.len());
        assert(decl_names(first_decls(decls)).len() == first_decls(decls).len());
    }
    let found = find_first(names, name);
    match found {
        Some(i) => {
            proof {
                let fd = first_decls(decls);
                assert(str_views(names@)[i as int] == names@[i as int]@);
                assert(decl_names(fd)[i as int] == fd[i as int].0);
                assert(fd[i as int].0 == name@);
                assert(has_name(fd, name@));
            }
        },
        None => {
            let ghost fd = first_decls(decls);
            proof {
                assert forall|i: int| 0 <= i < fd.len() implies #[trigger] fd[i].0 != name@ by {
                    assert(str_views(names@)[i] == names@[i]@);
                    assert(decl_names(fd)[i] == fd[i].0);
                }
                if has_name(fd, name@) {
                    let k = choose|k: int| 0 <= k < fd.len() && (#[trigger] fd[k]).0 == name@;
                    assert(fd[k].0 != name@);
                }
                assert(str_views(names@).len() == fd.len());
            }
            let id = names.len() as u32;
            let ghost old_names = names@;
            names.push(name.clone());
            nets.insert(id, NetInfo { name: name.clone(), span });
            proof {
                let d2 = decls.push((name@, span));
                assert(first_decls(d2) == fd.push((name@, span)));
                assert(str_views(names@) =~= decl_names(first_decls(d2))) by {
                    assert forall|j: int| 0 <= j < names@.len() implies str_views(names@)[j]
                        == decl_names(first_decls(d2))[j] by {
                        if j < old_names.len() {
                            assert(names@[j] == old_names[j]);
                            assert(str_views(old_names)[j] == old_names[j]@);
                        }
                    }
                }
                assert(nets@.dom() =~= Set::new(|i: u32| i < first_decls(d2).len()));
            }
        },
    }
}

} // verus!

verus! {

/// The first `count` nodes of `g` are those of module `m`.
pub open spec fn nodes_ok(g: NetlistGraph, m: Module, count: nat) -> bool {
    &&& netlist_node_slots(g) == count
    &&& netlist_nodes(g).dom() =~= Set::new(|i: u32| i < count)
    &&& forall|i: u32| i < count ==> (#[trigger] netlist_nodes(g)[i])@ == netlist_node_at(m, i as int)
}

/// The edges of `g` are exactly the sequence `s`, at indices `0..len`.
pub open spec fn edges_ok(g: NetlistGraph, s: Seq<EdgeTriple>) -> bool {
    &&& netlist_edge_slots(g) == s.len()
    &&& netlist_edges(g).dom() =~= Set::new(|i: u32| i < s.len())
    &&& forall|i: u32| i < s.len() ==> #[trigger] netlist_edges(g)[i] == s[i as int]
}

/// The `u32` values below `n` form a finite set of size `n`.
pub proof fn lemma_u32_range_len(n: nat)
    requires
        n <= u32::MAX,
    ensures
        Set::new(|i: u32| i < n).finite(),
        Set::new(|i: u32| i < n).len() == n,
    decreases n,
{
    if n == 0 {
        assert(Set::new(|i: u32| i < n) =~= Set::<u32>::empty());
    } else {
        lemma_u32_range_len((n - 1) as nat);
        assert(Set::new(|i: u32| i < n) =~= Set::new(|i: u32| i < (n - 1) as nat).insert(
            (n - 1) as u32,
        ));
    }
}

/// `a` is a prefix of `b`.
pub open spec fn is_prefix<A>(a: Seq<A>, b: Seq<A>) -> bool {
    a.len() <= b.len() && forall|k: int| 0 <= k < a.len() ==> a[k] == b[k]
}

proof fn lemma_port_names_prefix(ports: Seq<crate::ast::PortDecl>, dir: PortDir, i: int)
    requires
        0 <= i <= ports.len(),
    ensures
        is_prefix(port_names(ports.take(i), dir), port_names(ports, dir)),
    decreases ports.len() - i,
{
    if i == ports.len() {
        assert(ports.take(i) =~= ports);
    } else {
        lemma_port_names_step(ports, dir, i);
        lemma_port_names_prefix(ports, dir, i + 1);
    }
}

proof fn lemma_wire_names_prefix(wires: Seq<crate::ast::WireDecl>, i: int)
    requires
        0 <= i <= wires.len(),
    ensures
        is_prefix(wire_decl_names(wires.take(i)), wire_decl_names(wires)),
    decreases wires.len() - i,
{
    if i == wires.len() {
        assert(wires.take(i) =~= wires);
    } else {
        lemma_wire_names_step(wires, i);
        lemma_wire_names_prefix(wires, i + 1);
    }
}

/// A node with the port name and span of `p`.
fn port_node(p: &crate::ast::PortDecl, input: bool) -> (n: NetlistNode)
    ensures
        input ==> n@ == NodeView::Input(p.name.text@, p.span, p.name.span),
        !input ==> n@ == NodeView::Output(p.name.text@, p.span, p.name.span),
{
    if input {
        NetlistNode::Input { port: p.name.duplicate(), span: p.span }
    } else {
        NetlistNode::Output { port: p.name.duplicate(), span: p.span }
    }
}

/// Add one node per port of direction `dir` and record its net; returns
/// the port names in node order.
fn add_port_nodes(
    module: &Module,
    dir: PortDir,
    graph: &mut NetlistGraph,
    names: &mut Vec<String>,
    nets: &mut BTreeMap<u32, NetInfo>,
    Ghost(prior): Ghost<Seq<(Seq<char>, SourceSpan)>>,
) -> (ports: Vec<String>)
    requires
        module_decls_fit(*module),
        dir == PortDir::Input ==> prior.len() == 0,
        dir == PortDir::Output ==> prior == input_names(*module),
        nodes_ok(*old(graph), *module, prior.len()),
        netlist_edges(*old(graph)).dom() == Set::<u32>::empty(),
        netlist_edge_slots(*old(graph)) == 0,
        net_table_ok(old(names)@, old(nets)@, prior),
    ensures
        nodes_ok(*final(graph), *module, (prior + port_names(module.ports@, dir)).len()),
        netlist_edges(*final(graph)).dom() == Set::<u32>::empty(),
        netlist_edge_slots(*final(graph)) == 0,
        net_table_ok(final(names)@, final(nets)@, prior + port_names(module.ports@, dir)),
        str_views(ports@) == decl_names(port_names(module.ports@, dir)),
{
    let mut ports: Vec<String> = Vec::new();
    let n = module.ports.len();
    proof {
        lemma_port_names_len(module.ports@, PortDir::Input);
        lemma_port_names_len(module.ports@, PortDir::Output);
        lemma_port_dirs_len(module.ports@);
        assert(module.ports@.take(0) =~= Seq::<crate::ast::PortDecl>::empty());
        assert(prior + port_names(module.ports@.take(0), dir) =~= prior);
    }
    for i in 0..n
        invariant
            n == module.ports@.len(),
            module_decls_fit(*module),
            dir == PortDir::Input ==> prior.len() == 0,
            dir == PortDir::Output ==> prior == input_names(*module),
            input_names(*module).len() <= module.ports@.len(),
            output_names(*module).len() <= module.ports@.len(),
            input_names(*module).len() + output_names(*module).len() == module.ports@.len(),
            nodes_ok(*graph, *module, (prior + port_names(module.ports@.take(i as int), dir)).len()),
            netlist_edges(*graph).dom() == Set::<u32>::empty(),
            netlist_edge_slots(*graph) == 0,
            net_table_ok(names@, nets@, prior + port_names(module.ports@.take(i as int), dir)),
            str_views(ports@) == decl_names(port_names(module.ports@.take(i as int), dir)),
    {
        let ghost pre = port_names(module.ports@.take(i as int), dir);
        proof {
            lemma_port_names_step(module.ports@, dir, i as int);
            lemma_port_names_prefix(module.ports@, dir, i as int + 1);
            lemma_port_idents_step(module.ports@, dir, i as int);
            lemma_port_idents_prefix(module.ports@, dir, i as int + 1);
            lemma_port_idents_len(module.ports@.take(i as int), dir);
            lemma_port_idents_len(module.ports@.take(i as int + 1), dir);
            lemma_port_names_len(module.ports@.take(i as int), dir);
            lemma_first_decls_len(prior + pre);
        }
        let p = &module.ports[i];
        if p.dir == dir {
            let ghost count = (prior + pre).len();
            proof {
                lemma_u32_range_len(count);
            }
            assign_net(names, nets, &p.name.text, p.span, Ghost(prior + pre));
            proof {
                assert((prior + pre).push((p.name.text@, p.span)) =~= prior + pre.push(
                    (p.name.text@, p.span),
                ));
            }
            let node = port_node(p, dir == PortDir::Input);
            let idx = netlist_graph_add_node(graph, node);
            let ghost old_views = ports@;
            ports.push(p.name.text.clone());
            proof {
                let full = port_names(module.ports@, dir);
                let pn = pre.push((p.name.text@, p.span));
                assert(pn[pre.len() as int] == full[pre.len() as int]);
                assert(port_idents(module.ports@.take(i as int + 1), dir)[pre.len() as int] == p.name.span);
                assert(port_idents(module.ports@, dir)[pre.len() as int] == p.name.span);
                assert(netlist_node_at(*module, count as int) == (if dir == PortDir::Input {
                    NodeView::Input(p.name.text@, p.span, p.name.span)
                } else {
                    NodeView::Output(p.name.text@, p.span, p.name.span)
                }));
                assert(netlist_nodes(*graph).dom() =~= Set::new(|k: u32| k < count + 1));
                assert(str_views(old_views).len() == old_views.len());
                assert(str_views(ports@) =~= decl_names(pn)) by {
                    assert forall|j: int| 0 <= j < ports@.len() implies str_views(ports@)[j]
                        == decl_names(pn)[j] by {
                        if j < old_views.len() {
                            assert(str_views(old_views)[j] == old_views[j]@);
                        }
                    }
                }
            }
        }
    }
    proof {
        assert(module.ports@.take(n as int) =~= module.ports@);
    }
    ports
}

} // verus!

verus! {

/// Record the nets of the module's wires.
fn add_wire_nets(
    module: &Module,
    names: &mut Vec<String>,
    nets: &mut BTreeMap<u32, NetInfo>,
)
    requires
        module_decls_fit(*module),
        net_table_ok(old(names)@, old(nets)@, input_names(*module) + output_names(*module)),
    ensures
        net_table_ok(final(names)@, final(nets)@, input_names(*module) + output_names(*module) + wire_names(*module)),
{
    let ghost io = input_names(*module) + output_names(*module);
    let n = module.wires.len();
    proof {
        lemma_port_names_len(module.ports@, PortDir::Input);
        lemma_port_names_len(module.ports@, PortDir::Output);
        lemma_port_dirs_len(module.ports@);
        assert(module.wires@.take(0) =~= Seq::<crate::ast::WireDecl>::empty());
        assert(io + wire_decl_names(module.wires@.take(0)) =~= io);
    }
    for i in 0..n
        invariant
            n == module.wires@.len(),
            module_decls_fit(*module),
            io == input_names(*module) + output_names(*module),
            io.len() == module.ports@.len(),
            net_table_ok(names@, nets@, io + wire_decl_names(module.wires@.take(i as int))),
    {
        let w = &module.wires[i];
        proof {
            lemma_wire_names_step(module.wires@, i as int);
            lemma_wire_names_len(module.wires@.take(i as int));
            assert((io + wire_decl_names(module.wires@.take(i as int))).push((w.name.text@, w.span))
                =~= io + wire_decl_names(module.wires@.take(i as int + 1)));
        }
        assign_net(names, nets, &w.name.text, w.span, Ghost(io + wire_decl_names(module.wires@.take(i as int))));
    }
    proof {
        assert(module.wires@.take(n as int) =~= module.wires@);
    }
}

/// A gate node for instance `inst`.
fn gate_node_of(inst: &GateInst) -> (n: NetlistNode)
    ensures
        n@ == NodeView::Gate(
            inst.inst_name.text@,
            inst.kind,
            inst.span,
            inst.repeater_delay,
            inst.compare_mode,
            inst.inst_name.span,
        ),
{
    NetlistNode::Gate {
        inst: inst.inst_name.duplicate(),
        kind: inst.kind,
        span: inst.span,
        repeater_delay: inst.repeater_delay,
        compare_mode: inst.compare_mode,
    }
}

/// Add one node per gate instance, after the port nodes.
fn add_gate_nodes(module: &Module, graph: &mut NetlistGraph)
    requires
        module_fits(*module),
        nodes_ok(*old(graph), *module, input_names(*module).len() + output_names(*module).len()),
        netlist_edges(*old(graph)).dom() == Set::<u32>::empty(),
        netlist_edge_slots(*old(graph)) == 0,
    ensures
        nodes_ok(*final(graph), *module, netlist_node_count(*module)),
        netlist_edges(*final(graph)).dom() == Set::<u32>::empty(),
        netlist_edge_slots(*final(graph)) == 0,
{
    let ghost base = input_names(*module).len() + output_names(*module).len();
    proof {
        lemma_port_names_len(module.ports@, PortDir::Input);
        lemma_port_names_len(module.ports@, PortDir::Output);
        lemma_port_dirs_len(module.ports@);
    }
    let n = module.instances.len();
    for i in 0..n
        invariant
            n == module.instances@.len(),
            module_fits(*module),
            base == input_names(*module).len() + output_names(*module).len(),
            base == module.ports@.len(),
            nodes_ok(*graph, *module, (base + i) as nat),
            netlist_edges(*graph).dom() == Set::<u32>::empty(),
            netlist_edge_slots(*graph) == 0,
    {
        proof {
            lemma_u32_range_len((base + i) as nat);
        }
        let node = gate_node_of(&module.instances[i]);
        let _idx = netlist_graph_add_node(graph, node);
        proof {
            assert(netlist_nodes(*graph).dom() =~= Set::new(|k: u32| k < base + i + 1));
        }
    }
}

} // verus!

verus! {

/// The net id of `name`: the index of its first declaration.
proof fn lemma_net_id_found(m: Module, names: Seq<String>, name: Seq<char>, i: int)
    requires
        str_views(names) == decl_names(net_decls(m)),
        0 <= i < names.len(),
        names[i]@ == name,
        net_decls(m).len() <= u32::MAX,
    ensures
        net_id_of(m, name) == Some(i as u32),
{
    let d = net_decls(m);
    assert(str_views(names).len() == names.len());
    assert(decl_names(d).len() == d.len());
    assert(str_views(names)[i] == names[i]@);
    assert(decl_names(d)[i] == d[i].0);
    assert(d[i].0 == name);
    assert(has_name(d, name));
    lemma_first_decls_distinct(input_names(m) + output_names(m) + wire_names(m));
    let j = choose|j: int| 0 <= j < d.len() && d[j].0 == name;
    assert(j == i);
}

proof fn lemma_net_id_missing(m: Module, names: Seq<String>, name: Seq<char>)
    requires
        str_views(names) == decl_names(net_decls(m)),
        forall|j: int| 0 <= j < names.len() ==> names[j]@ != name,
    ensures
        net_id_of(m, name) is None,
{
    let d = net_decls(m);
    assert(str_views(names).len() == names.len());
    assert(decl_names(d).len() == d.len());
    if has_name(d, name) {
        let j = choose|j: int| 0 <= j < d.len() && (#[trigger] d[j]).0 == name;
        assert(str_views(names)[j] == names[j]@);
        assert(decl_names(d)[j] == d[j].0);
    }
}

/// `find_last` over the views of `s` agrees with [`last_named`].
proof fn lemma_last_found(
    names: Seq<String>,
    s: Seq<(Seq<char>, SourceSpan)>,
    name: Seq<char>,
    r: Option<usize>,
)
    requires
        str_views(names) == decl_names(s),
        r matches Some(i) ==> i < names.len() && names[i as int]@ == name,
        r matches Some(i) ==> forall|j: int| i < j < names.len() ==> names[j]@ != name,
        r is None ==> forall|j: int| 0 <= j < names.len() ==> names[j]@ != name,
    ensures
        r matches Some(i) ==> last_named(s, name) == Some(i as int),
        r is None ==> last_named(s, name) is None,
{
    lemma_last_named_bounds(s, name);
    assert(str_views(names).len() == names.len());
    assert forall|j: int| 0 <= j < names.len() implies names[j]@ == #[trigger] s[j].0 by {
        assert(str_views(names)[j] == names[j]@);
        assert(decl_names(s)[j] == s[j].0);
    }
    match r {
        Some(i) => {
            assert(names[i as int]@ == s[i as int].0);
            match last_named(s, name) {
                Some(k) => {
                    assert(names[k]@ == s[k].0);
                },
                None => {},
            }
        },
        None => {
            match last_named(s, name) {
                Some(k) => {
                    assert(names[k]@ == s[k].0);
                },
                None => {},
            }
        },
    }
}

/// Add the edges from driver instance `drv` on net `name` (id `id`) to
/// every sink connection of that net.
fn add_sink_edges(
    module: &Module,
    graph: &mut NetlistGraph,
    drv: usize,
    from: EndpointRole,
    name: &String,
    id: u32,
    Ghost(base): Ghost<Seq<EdgeTriple>>,
)
    requires
        module_fits(*module),
        drv < module.instances@.len(),
        nodes_ok(*old(graph), *module, netlist_node_count(*module)),
        edges_ok(*old(graph), base),
        base.len() + sink_edges_upto(*module, drv as int, from, name@, id, module.instances@.len() as int, 0).len()
            < u32::MAX,
    ensures
        nodes_ok(*final(graph), *module, netlist_node_count(*module)),
        edges_ok(
            *final(graph),
            base + sink_edges_upto(*module, drv as int, from, name@, id, module.instances@.len() as int, 0),
        ),
{
    let n = module.instances.len();
    let ghost m = *module;
    let ghost ni = input_names(m).len();
    let ghost no = output_names(m).len();
    proof {
        lemma_port_names_len(m.ports@, PortDir::Input);
        lemma_port_names_len(m.ports@, PortDir::Output);
        lemma_port_dirs_len(m.ports@);
        assert(m.instances@.take(0) =~= Seq::<GateInst>::empty());
        assert(base + sink_edges_upto(m, drv as int, from, name@, id, 0, 0) =~= base);
    }
    let drv_node: u32 = (module.ports.len() as u64 + drv as u64) as u32;
    for si in 0..n
        invariant
            n == m.instances@.len(),
            m == *module,
            module_fits(m),
            drv < n,
            ni == input_names(m).len(),
            no == output_names(m).len(),
            ni <= m.ports@.len(),
            no <= m.ports@.len(),
            ni + no == m.ports@.len(),
            nodes_ok(*graph, m, netlist_node_count(m)),
            edges_ok(*graph, base + sink_edges_upto(m, drv as int, from, name@, id, si as int, 0)),
            base.len() + sink_edges_upto(m, drv as int, from, name@, id, n as int, 0).len() < u32::MAX,
    {
        let inst = &module.instances[si];
        let nc = inst.connections.len();
        for sci in 0..nc
            invariant
                n == m.instances@.len(),
                m == *module,
                module_fits(m),
                drv < n,
                si < n,
                nc == n_conns(m, si as int),
                *inst == m.instances@[si as int],
                ni == input_names(m).len(),
                no == output_names(m).len(),
                ni <= m.ports@.len(),
                no <= m.ports@.len(),
                ni + no == m.ports@.len(),
                nodes_ok(*graph, m, netlist_node_count(m)),
                edges_ok(*graph, base + sink_edges_upto(m, drv as int, from, name@, id, si as int, sci as int)),
                base.len() + sink_edges_upto(m, drv as int, from, name@, id, n as int, 0).len() < u32::MAX,
        {
            let c = &inst.connections[sci];
            let ghost prev = sink_edges_upto(m, drv as int, from, name@, id, si as int, sci as int);
            if c.net.text == *name {
                let r = port_role(inst.kind, c);
                if !r.is_output() {
                    let a: u32 = gate_node_exec(module, drv);
                    let b: u32 = gate_node_exec(module, si);
                    let ghost len = (base + prev).len();
                    proof {
                        lemma_u32_range_len(netlist_node_count(m));
                        lemma_sinks_prefix(m, drv as int, from, name@, id, si as int, sci as int + 1);
                        assert(sink_edges_upto(m, drv as int, from, name@, id, si as int, sci as int + 1).len() == prev.len() + 1);
                        lemma_u32_range_len(len);
                    }
                    let _e = netlist_graph_add_edge(
                        graph,
                        a,
                        b,
                        NetlistEdge { net: NetId(id), from, to: r },
                    );
                    proof {
                        assert((base + prev).push(
                            (a, b, NetlistEdge { net: NetId(id), from, to: r }),
                        ) =~= base + sink_edges_upto(m, drv as int, from, name@, id, si as int, sci as int + 1));
                        assert(netlist_edges(*graph).dom() =~= Set::new(|k: u32| k < len + 1));
                    }
                }
            }
        }
    }
    proof {
        assert(m.instances@.take(n as int) =~= m.instances@);
    }
}

/// Node index of gate instance `gi`.
fn gate_node_exec(module: &Module, gi: usize) -> (r: u32)
    requires
        module_fits(*module),
        gi < module.instances@.len(),
    ensures
        r == gate_node(*module, gi as int),
        r < netlist_node_count(*module),
{
    proof {
        lemma_port_names_len(module.ports@, PortDir::Input);
        lemma_port_names_len(module.ports@, PortDir::Output);
        lemma_port_dirs_len(module.ports@);
    }
    let mut ni: u32 = 0;
    let mut no: u32 = 0;
    let mut i: usize = 0;
    while i < module.ports.len()
        invariant
            i <= module.ports@.len(),
            module.ports@.len() < u32::MAX,
            ni == port_names(module.ports@.take(i as int), PortDir::Input).len(),
            no == port_names(module.ports@.take(i as int), PortDir::Output).len(),
            ni + no <= i,
        decreases module.ports@.len() - i,
    {
        proof {
            lemma_port_names_step(module.ports@, PortDir::Input, i as int);
            lemma_port_names_step(module.ports@, PortDir::Output, i as int);
        }
        if module.ports[i].dir == PortDir::Input {
            ni += 1;
        } else {
            no += 1;
        }
        i += 1;
    }
    proof {
        assert(module.ports@.take(i as int) =~= module.ports@);
    }
    ni + no + gi as u32
}

} // verus!

verus! {

/// The lookup tables of a module's netlist: net names by id, and the
/// input and output port names by node order.
pub open spec fn tables_ok(
    m: Module,
    names: Seq<String>,
    inputs: Seq<String>,
    outputs: Seq<String>,
) -> bool {
    &&& str_views(names) == decl_names(net_decls(m))
    &&& str_views(inputs) == decl_names(input_names(m))
    &&& str_views(outputs) == decl_names(output_names(m))
}

/// Add the edges contributed by connection `ci` of instance `gi`.
fn add_conn_edges(
    module: &Module,
    graph: &mut NetlistGraph,
    gi: usize,
    ci: usize,
    names: &Vec<String>,
    inputs: &Vec<String>,
    outputs: &Vec<String>,
)
    requires
        module_fits(*module),
        gi < module.instances@.len(),
        ci < n_conns(*module, gi as int),
        nodes_ok(*old(graph), *module, netlist_node_count(*module)),
        edges_ok(*old(graph), edges_upto(*module, gi as int, ci as int)),
        tables_ok(*module, names@, inputs@, outputs@),
    ensures
        nodes_ok(*final(graph), *module, netlist_node_count(*module)),
        edges_ok(*final(graph), edges_upto(*module, gi as int, ci as int + 1)),
{
    let ghost m = *module;
    let ghost base = edges_upto(m, gi as int, ci as int);
    proof {
        lemma_edges_prefix(m, gi as int, ci as int + 1);
        lemma_port_names_len(m.ports@, PortDir::Input);
        lemma_port_names_len(m.ports@, PortDir::Output);
        lemma_port_dirs_len(m.ports@);
        lemma_wire_names_len(m.wires@);
        lemma_first_decls_len(input_names(m) + output_names(m) + wire_names(m));
        assert(edges_upto(m, gi as int, ci as int + 1) == base + conn_edges(m, gi as int, ci as int));
        assert(str_views(inputs@).len() == inputs@.len());
        assert(str_views(outputs@).len() == outputs@.len());
        assert(decl_names(input_names(m)).len() == input_names(m).len());
        assert(decl_names(output_names(m)).len() == output_names(m).len());
        lemma_u32_range_len(netlist_node_count(m));
    }
    let inst = &module.instances[gi];
    let c = &inst.connections[ci];
    let role = port_role(inst.kind, c);
    let found = find_first(names, &c.net.text);
    match found {
        None => {
            proof {
                lemma_net_id_missing(m, names@, c.net.text@);
                assert(conn_edges(m, gi as int, ci as int) =~= Seq::<EdgeTriple>::empty());
                assert(base + conn_edges(m, gi as int, ci as int) =~= base);
            }
        },
        Some(i) => {
            let id = i as u32;
            proof {
                lemma_net_id_found(m, names@, c.net.text@, i as int);
            }
            let me = gate_node_exec(module, gi);
            if role.is_output() {
                add_sink_edges(module, graph, gi, role, &c.net.text, id, Ghost(base));
                let ghost sinks = sink_edges_upto(
                    m,
                    gi as int,
                    role,
                    c.net.text@,
                    id,
                    m.instances@.len() as int,
                    0,
                );
                let o = find_last(outputs, &c.net.text);
                proof {
                    lemma_last_found(outputs@, output_names(m), c.net.text@, o);
                }
                match o {
                    Some(j) => {
                        let out_node = (inputs.len() + j) as u32;
                        let ghost len = (base + sinks).len();
                        proof {
                            lemma_u32_range_len(len);
                        }
                        let _e = netlist_graph_add_edge(
                            graph,
                            me,
                            out_node,
                            NetlistEdge {
                                net: NetId(id),
                                from: role,
                                to: EndpointRole::ModuleOutput,
                            },
                        );
                        proof {
                            assert(netlist_edges(*graph).dom() =~= Set::new(|k: u32| k < len + 1));
                            assert((base + sinks).push(
                                (
                                    me,
                                    out_node,
                                    NetlistEdge {
                                        net: NetId(id),
                                        from: role,
                                        to: EndpointRole::ModuleOutput,
                                    },
                                ),
                            ) =~= base + conn_edges(m, gi as int, ci as int));
                        }
                    },
                    None => {
                        proof {
                            assert(base + sinks =~= base + conn_edges(m, gi as int, ci as int));
                        }
                    },
                }
            } else {
                let inp = find_last(inputs, &c.net.text);
                proof {
                    lemma_last_found(inputs@, input_names(m), c.net.text@, inp);
                }
                match inp {
                    Some(j) => {
                        let in_node = j as u32;
                        let ghost len = base.len();
                        proof {
                            lemma_u32_range_len(len);
                        }
                        let _e = netlist_graph_add_edge(
                            graph,
                            in_node,
                            me,
                            NetlistEdge { net: NetId(id), from: EndpointRole::ModuleInput, to: role },
                        );
                        proof {
                            assert(netlist_edges(*graph).dom() =~= Set::new(|k: u32| k < len + 1));
                            assert(base.push(
                                (
                                    in_node,
                                    me,
                                    NetlistEdge {
                                        net: NetId(id),
                                        from: EndpointRole::ModuleInput,
                                        to: role,
                                    },
                                ),
                            ) =~= base + conn_edges(m, gi as int, ci as int));
                        }
                    },
                    None => {
                        proof {
                            assert(base =~= base + conn_edges(m, gi as int, ci as int));
                        }
                    },
                }
            }
        },
    }
}

/// Counts, on top of `acc` edges, the sink edges of driver `drv` on net
/// `name`; `None` once the total reaches `u32::MAX`.
fn count_sink_edges(
    module: &Module,
    drv: usize,
    from: EndpointRole,
    name: &String,
    id: u32,
    acc: u64,
    Ghost(base): Ghost<Seq<EdgeTriple>>,
) -> (r: Option<u64>)
    requires
        drv < module.instances@.len(),
        acc == base.len(),
        acc < u32::MAX,
    ensures
        match r {
            Some(a) => a == base.len() + sink_edges_upto(
                *module,
                drv as int,
                from,
                name@,
                id,
                module.instances@.len() as int,
                0,
            ).len() && a < u32::MAX,
            None => base.len() + sink_edges_upto(*module, drv as int, from, name@, id, module.instances@.len() as int, 0).len()
                >= u32::MAX,
        },
{
    let ghost m = *module;
    let n = module.instances.len();
    let mut a: u64 = acc;
    for si in 0..n
        invariant
            n == m.instances@.len(),
            m == *module,
            drv < n,
            a == base.len() + sink_edges_upto(m, drv as int, from, name@, id, si as int, 0).len(),
            a < u32::MAX,
    {
        let inst = &module.instances[si];
        let nc = inst.connections.len();
        for sci in 0..nc
            invariant
                n == m.instances@.len(),
                m == *module,
                drv < n,
                si < n,
                nc == n_conns(m, si as int),
                *inst == m.instances@[si as int],
                a == base.len() + sink_edges_upto(m, drv as int, from, name@, id, si as int, sci as int).len(),
                a < u32::MAX,
        {
            let c = &inst.connections[sci];
            if c.net.text == *name {
                let r = port_role(inst.kind, c);
                if !r.is_output() {
                    a = a + 1;
                    if a >= 0xffff_ffff {
                        proof {
                            lemma_sinks_prefix(m, drv as int, from, name@, id, si as int, sci as int + 1);
                        }
                        return None;
                    }
                }
            }
        }
    }
    Some(a)
}

/// Counts, on top of the `acc` edges of the connections before it, the
/// edges of connection `ci` of instance `gi`; `None` once the total
/// reaches `u32::MAX`.
fn count_conn_edges(
    module: &Module,
    gi: usize,
    ci: usize,
    names: &Vec<String>,
    inputs: &Vec<String>,
    outputs: &Vec<String>,
    acc: u64,
) -> (r: Option<u64>)
    requires
        module_decls_fit(*module),
        gi < module.instances@.len(),
        ci < n_conns(*module, gi as int),
        acc == edges_upto(*module, gi as int, ci as int).len(),
        acc < u32::MAX,
        tables_ok(*module, names@, inputs@, outputs@),
    ensures
        match r {
            Some(a) => a == edges_upto(*module, gi as int, ci as int + 1).len() && a < u32::MAX,
            None => edges_upto(*module, gi as int, ci as int + 1).len() >= u32::MAX,
        },
{
    let ghost m = *module;
    let ghost base = edges_upto(m, gi as int, ci as int);
    proof {
        lemma_port_names_len(m.ports@, PortDir::Input);
        lemma_port_names_len(m.ports@, PortDir::Output);
        lemma_port_dirs_len(m.ports@);
        lemma_wire_names_len(m.wires@);
        lemma_first_decls_len(input_names(m) + output_names(m) + wire_names(m));
        assert(edges_upto(m, gi as int, ci as int + 1) == base + conn_edges(m, gi as int, ci as int));
        assert(str_views(inputs@).len() == inputs@.len());
        assert(str_views(outputs@).len() == outputs@.len());
        assert(decl_names(input_names(m)).len() == input_names(m).len());
        assert(decl_names(output_names(m)).len() == output_names(m).len());
    }
    let inst = &module.instances[gi];
    let c = &inst.connections[ci];
    let role = port_role(inst.kind, c);
    match find_first(names, &c.net.text) {
        None => {
            proof {
                lemma_net_id_missing(m, names@, c.net.text@);
                assert(conn_edges(m, gi as int, ci as int) =~= Seq::<EdgeTriple>::empty());
            }
            Some(acc)
        },
        Some(i) => {
            let id = i as u32;
            proof {
                lemma_net_id_found(m, names@, c.net.text@, i as int);
            }
            if role.is_output() {
                let ghost sinks = sink_edges_upto(m, gi as int, role, c.net.text@, id, m.instances@.len() as int, 0);
                match count_sink_edges(module, gi, role, &c.net.text, id, acc, Ghost(base)) {
                    None => None,
                    Some(a) => {
                        let o = find_last(outputs, &c.net.text);
                        proof {
                            lemma_last_found(outputs@, output_names(m), c.net.text@, o);
                        }
                        match o {
                            Some(_) => {
                                if a + 1 >= 0xffff_ffff {
                                    None
                                } else {
                                    Some(a + 1)
                                }
                            },
                            None => Some(a),
                        }
                    },
                }
            } else {
                let inp = find_last(inputs, &c.net.text);
                proof {
                    lemma_last_found(inputs@, input_names(m), c.net.text@, inp);
                }
                match inp {
                    Some(_) => {
                        if acc + 1 >= 0xffff_ffff {
                            None
                        } else {
                            Some(acc + 1)
                        }
                    },
                    None => Some(acc),
                }
            }
        },
    }
}

/// True iff the module is small enough for [`build_netlist`]: fewer than
/// `u32::MAX` declarations and fewer than `u32::MAX` edges.
pub fn module_is_small(module: &Module) -> (r: bool)
    ensures
        r == module_fits(*module),
{
    let ghost m = *module;
    let decls: u128 = module.ports.len() as u128 + module.wires.len() as u128 + module.instances.len() as u128;
    if decls >= 0xffff_ffff {
        return false;
    }
    let mut graph = netlist_graph_new();
    let mut nets: BTreeMap<u32, NetInfo> = BTreeMap::new();
    let mut names: Vec<String> = Vec::new();
    proof {
        assert(str_views(names@) =~= decl_names(first_decls(Seq::empty())));
        assert(nets@.dom() =~= Set::new(|i: u32| i < first_decls(Seq::<(Seq<char>, SourceSpan)>::empty()).len()));
        assert(netlist_nodes(graph).dom() =~= Set::new(|i: u32| i < 0));
    }
    let inputs = add_port_nodes(module, PortDir::Input, &mut graph, &mut names, &mut nets, Ghost(Seq::empty()));
    proof {
        assert(Seq::<(Seq<char>, SourceSpan)>::empty() + input_names(m) =~= input_names(m));
    }
    let outputs = add_port_nodes(module, PortDir::Output, &mut graph, &mut names, &mut nets, Ghost(input_names(m)));
    add_wire_nets(module, &mut names, &mut nets);
    proof {
        assert(edges_upto(m, 0, 0) =~= Seq::<EdgeTriple>::empty());
    }
    let n = module.instances.len();
    let mut acc: u64 = 0;
    for gi in 0..n
        invariant
            n == m.instances@.len(),
            m == *module,
            module_decls_fit(m),
            acc == edges_upto(m, gi as int, 0).len(),
            acc < u32::MAX,
            tables_ok(m, names@, inputs@, outputs@),
    {
        let nc = module.instances[gi].connections.len();
        for ci in 0..nc
            invariant
                n == m.instances@.len(),
                m == *module,
                gi < n,
                nc == n_conns(m, gi as int),
                module_decls_fit(m),
                acc == edges_upto(m, gi as int, ci as int).len(),
                acc < u32::MAX,
                tables_ok(m, names@, inputs@, outputs@),
        {
            match count_conn_edges(module, gi, ci, &names, &inputs, &outputs, acc) {
                None => {
                    proof {
                        lemma_edges_prefix(m, gi as int, ci as int + 1);
                    }
                    return false;
                },
                Some(a) => {
                    acc = a;
                },
            }
        }
        proof {
            assert(edges_upto(m, gi as int + 1, 0) == edges_upto(m, gi as int, nc as int));
        }
    }
    true
}

/// Build the netlist of a parsed module.
///
/// Net ids follow declaration order (input ports, output ports, wires;
/// a repeated name keeps its first id). Nodes are the input ports, the
/// output ports and the instances, in that order. Each gate output
/// connection yields an edge to every non-output connection on the same
/// net and to the output port of that name (the edge's source role is
/// the driver's output role, `Q` for a flip-flop or memory cell); each
/// gate input connection to an input port's net yields an edge from that
/// port. When some connection names no port of its gate's kind, the
/// result is [`SynthError::UnknownPort`] with the first such instance and
/// port name.
pub fn build_netlist(module: &Module) -> (r: Result<Netlist, SynthError>)
    requires
        module_fits(*module),
    ensures
        all_ports_known(*module) ==> (r matches Ok(n) && graph_of_module(n.graph, *module) && nets_of_module(
            n.nets@,
            *module,
        )),
        !all_ports_known(*module) ==> (r matches Err(SynthError::UnknownPort { inst, port }) && exists|
            gi: int,
            ci: int,
        |
            #[trigger] first_unknown_port(*module, gi, ci) && inst@ == module.instances@[gi].inst_name.text@
                && port@ == module.instances@[gi].connections@[ci].port.text@),
{
    let ghost m = *module;
    if let Some((gi, ci)) = find_unknown_port(module) {
        let inst = module.instances[gi].inst_name.text.clone();
        let port = module.instances[gi].connections[ci].port.text.clone();
        proof {
            assert(!conn_known(m, gi as int, ci as int));
        }
        return Err(SynthError::UnknownPort { inst, port });
    }
    let mut graph = netlist_graph_new();
    let mut nets: BTreeMap<u32, NetInfo> = BTreeMap::new();
    let mut names: Vec<String> = Vec::new();
    proof {
        assert(str_views(names@) =~= decl_names(first_decls(Seq::empty())));
        assert(nets@.dom() =~= Set::new(|i: u32| i < first_decls(Seq::<(Seq<char>, SourceSpan)>::empty()).len()));
        assert(netlist_nodes(graph).dom() =~= Set::new(|i: u32| i < 0));
    }
    let inputs = add_port_nodes(module, PortDir::Input, &mut graph, &mut names, &mut nets, Ghost(Seq::empty()));
    proof {
        assert(Seq::<(Seq<char>, SourceSpan)>::empty() + input_names(m) =~= input_names(m));
    }
    let outputs = add_port_nodes(module, PortDir::Output, &mut graph, &mut names, &mut nets, Ghost(input_names(m)));
    add_wire_nets(module, &mut names, &mut nets);
    add_gate_nodes(module, &mut graph);
    proof {
        lemma_u32_range_len(0);
        assert(netlist_edges(graph).dom() =~= Set::new(|i: u32| i < 0));
        assert(edges_upto(m, 0, 0) =~= Seq::<EdgeTriple>::empty());
        assert(m.instances@.take(0) =~= Seq::<GateInst>::empty());
    }
    let n = module.instances.len();
    for gi in 0..n
        invariant
            n == m.instances@.len(),
            m == *module,
            module_fits(m),
            nodes_ok(graph, m, netlist_node_count(m)),
            edges_ok(graph, edges_upto(m, gi as int, 0)),
            tables_ok(m, names@, inputs@, outputs@),
            net_table_ok(names@, nets@, net_decls_src(m)),
    {
        let nc = module.instances[gi].connections.len();
        for ci in 0..nc
            invariant
                n == m.instances@.len(),
                m == *module,
                gi < n,
                nc == n_conns(m, gi as int),
                module_fits(m),
                nodes_ok(graph, m, netlist_node_count(m)),
                edges_ok(graph, edges_upto(m, gi as int, ci as int)),
                tables_ok(m, names@, inputs@, outputs@),
        {
            add_conn_edges(module, &mut graph, gi, ci, &names, &inputs, &outputs);
        }
        proof {
            assert(edges_upto(m, gi as int + 1, 0) == edges_upto(m, gi as int, nc as int));
        }
    }
    proof {
        assert(m.instances@.take(n as int) =~= m.instances@);
    }
    Ok(Netlist { graph, nets })
}

/// All declarations of a module, in net-id assignment order.
pub open spec fn net_decls_src(m: Module) -> Seq<(Seq<char>, SourceSpan)> {
    input_names(m) + output_names(m) + wire_names(m)
}

} // verus!
