//! Lowering passes that rewrite the module before netlist construction:
//! a gate primitive without a working macro-cell is decomposed into
//! primitives that have one. XOR becomes `(A AND NOT B) OR (NOT A AND B)`:
//! five instances and four internal wires per XOR.
use vstd::prelude::*;

use crate::ast::{
    gate_views, wire_views, ConnView, Connection, GateInst, GateView, Ident, IdentView, Module,
    SignalKind, WireDecl, WireView,
};
use crate::geom::{GateKind, SourceSpan};
use crate::text::{ascii_ci_eq, ascii_lower, eq_ignore_ascii_case};

verus! {

/// Net of the first connection whose port matches `port` (ASCII case
/// ignored), if any.
pub open spec fn port_net_spec(conns: Seq<ConnView>, port: Seq<char>) -> Option<IdentView>
    decreases conns.len(),
{
    if conns.len() == 0 {
        None
    } else if ascii_ci_eq(conns[0].port.0, port) {
        Some(conns[0].net)
    } else {
        port_net_spec(conns.drop_first(), port)
    }
}

/// Name of a synthesized identifier for XOR instance `inst`.
pub open spec fn synth_text(inst: Seq<char>, suffix: Seq<char>) -> Seq<char> {
    "__xor_"@ + inst + "_"@ + suffix + "__"@
}

/// Name standing in for a port that an XOR instance does not connect.
pub open spec fn missing_text(port: Seq<char>, inst: Seq<char>) -> Seq<char> {
    "__missing_"@ + port + "_in_"@ + inst + "__"@
}

/// The net an XOR instance connects to `port`, or the stand-in name.
pub open spec fn net_or_missing(g: GateView, port: Seq<char>) -> IdentView {
    match port_net_spec(g.connections, port) {
        Some(n) => n,
        None => (missing_text(port, g.inst_name.0), g.span),
    }
}

/// A synthesized connection `.port(net)` at `span`.
pub open spec fn conn_v(port: Seq<char>, net: IdentView, span: SourceSpan) -> ConnView {
    ConnView { port: (port, span), net, span }
}

/// A synthesized identifier of XOR instance `g`.
pub open spec fn synth_ident_v(g: GateView, suffix: Seq<char>) -> IdentView {
    (synth_text(g.inst_name.0, suffix), g.span)
}

/// A synthesized instance of XOR instance `g`.
pub open spec fn synth_inst_v(g: GateView, suffix: Seq<char>, kind: GateKind, conns: Seq<ConnView>) -> GateView {
    GateView {
        inst_name: synth_ident_v(g, suffix),
        kind,
        connections: conns,
        clock: None,
        compare_mode: None,
        repeater_delay: None,
        span: g.span,
    }
}

/// The five instances an XOR instance becomes.
pub open spec fn xor_insts(g: GateView) -> Seq<GateView> {
    let a = net_or_missing(g, "A"@);
    let b = net_or_missing(g, "B"@);
    let y = net_or_missing(g, "Y"@);
    let na = synth_ident_v(g, "na"@);
    let nb = synth_ident_v(g, "nb"@);
    let ab = synth_ident_v(g, "ab"@);
    let nba = synth_ident_v(g, "nba"@);
    let s = g.span;
    seq![
        synth_inst_v(g, "not_a"@, GateKind::Not, seq![conn_v("A"@, a, s), conn_v("Y"@, na, s)]),
        synth_inst_v(g, "not_b"@, GateKind::Not, seq![conn_v("A"@, b, s), conn_v("Y"@, nb, s)]),
        synth_inst_v(g, "and_ab"@, GateKind::And, seq![conn_v("A"@, a, s), conn_v("B"@, nb, s), conn_v("Y"@, ab, s)]),
        synth_inst_v(g, "and_ba"@, GateKind::And, seq![conn_v("A"@, na, s), conn_v("B"@, b, s), conn_v("Y"@, nba, s)]),
        synth_inst_v(g, "or"@, GateKind::Or, seq![conn_v("A"@, ab, s), conn_v("B"@, nba, s), conn_v("Y"@, y, s)]),
    ]
}

/// The four internal wires an XOR instance adds.
pub open spec fn xor_wires(g: GateView) -> Seq<WireView> {
    let w = |sfx: Seq<char>| WireView { name: synth_ident_v(g, sfx), kind: SignalKind::Boolean, span: g.span };
    seq![w("na"@), w("nb"@), w("ab"@), w("nba"@)]
}

/// Instances after lowering: every XOR replaced by its five instances,
/// everything else kept in place.
pub open spec fn lowered_insts(s: Seq<GateView>) -> Seq<GateView>
    decreases s.len(),
{
    if s.len() == 0 {
        Seq::empty()
    } else if s.last().kind == GateKind::Xor {
        lowered_insts(s.drop_last()) + xor_insts(s.last())
    } else {
        lowered_insts(s.drop_last()).push(s.last())
    }
}

/// Wires added by lowering, in instance order.
pub open spec fn added_wires(s: Seq<GateView>) -> Seq<WireView>
    decreases s.len(),
{
    if s.len() == 0 {
        Seq::empty()
    } else if s.last().kind == GateKind::Xor {
        added_wires(s.drop_last()) + xor_wires(s.last())
    } else {
        added_wires(s.drop_last())
    }
}

/// The net connected to `port` on `inst` (first match, ASCII case
/// ignored).
fn port_net(inst: &GateInst, port: &str) -> (r: Option<Ident>)
    ensures
        match r {
            Some(i) => port_net_spec(inst@.connections, port@) == Some(i@),
            None => port_net_spec(inst@.connections, port@) is None,
        },
{
    let ghost cs = inst@.connections;
    proof {
        assert(cs.skip(0) =~= cs);
    }
    for i in 0..inst.connections.len()
        invariant
            cs == inst@.connections,
            port_net_spec(cs, port@) == port_net_spec(cs.skip(i as int), port@),
    {
        let c = &inst.connections[i];
        proof {
            assert(cs.skip(i as int)[0] == c@);
            assert(cs.skip(i as int).drop_first() =~= cs.skip(i as int + 1));
        }
        if eq_ignore_ascii_case(c.port.as_str(), port) {
            return Some(c.net.duplicate());
        }
    }
    proof {
        assert(cs.skip(cs.len() as int).len() == 0);
    }
    None
}

fn missing(inst_name: &str, port: &str, span: SourceSpan) -> (r: Ident)
    ensures
        r@ == (missing_text(port@, inst_name@), span),
{
    let mut s = String::from_str("__missing_");
    s.append(port);
    s.append("_in_");
    s.append(inst_name);
    s.append("__");
    Ident { text: s, span }
}

fn synth_ident(inst_name: &str, suffix: &str, span: SourceSpan) -> (r: Ident)
    ensures
        r@ == (synth_text(inst_name@, suffix@), span),
{
    let mut s = String::from_str("__xor_");
    s.append(inst_name);
    s.append("_");
    s.append(suffix);
    s.append("__");
    Ident { text: s, span }
}

fn conn(port: &str, net: Ident, span: SourceSpan) -> (r: Connection)
    ensures
        r@ == conn_v(port@, net@, span),
{
    Connection { port: Ident::new(port, span), net, span }
}

fn make_inst(name: Ident, kind: GateKind, connections: Vec<Connection>, span: SourceSpan) -> (r: GateInst)
    ensures
        r@ == (GateView {
            inst_name: name@,
            kind,
            connections: connections@.map_values(|c: Connection| c@),
            clock: None,
            compare_mode: None,
            repeater_delay: None,
            span,
        }),
{
    GateInst { inst_name: name, kind, connections, clock: None, compare_mode: None, repeater_delay: None, span }
}

fn net_of(inst: &GateInst, port: &str) -> (r: Ident)
    ensures
        r@ == net_or_missing(inst@, port@),
{
    match port_net(inst, port) {
        Some(n) => n,
        None => missing(inst.inst_name.as_str(), port, inst.span),
    }
}

/// Expands one XOR instance into its five instances (appended to `insts`)
/// and four wires (appended to `wires`).
fn expand_xor(inst: &GateInst, insts: &mut Vec<GateInst>, wires: &mut Vec<WireDecl>)
    ensures
        gate_views(final(insts)@) == gate_views(old(insts)@) + xor_insts(inst@),
        wire_views(final(wires)@) == wire_views(old(wires)@) + xor_wires(inst@),
{
    let span = inst.span;
    let name = inst.inst_name.as_str();
    let a = net_of(inst, "A");
    let b = net_of(inst, "B");
    let y = net_of(inst, "Y");
    let ghost g = inst@;
    proof {
        reveal_strlit("A");
        reveal_strlit("B");
        reveal_strlit("Y");
    }
    let ghost w0 = wires@;
    wires.push(WireDecl { name: synth_ident(name, "na", span), kind: SignalKind::Boolean, span });
    wires.push(WireDecl { name: synth_ident(name, "nb", span), kind: SignalKind::Boolean, span });
    wires.push(WireDecl { name: synth_ident(name, "ab", span), kind: SignalKind::Boolean, span });
    wires.push(WireDecl { name: synth_ident(name, "nba", span), kind: SignalKind::Boolean, span });
    proof {
        assert(wire_views(wires@) =~= wire_views(w0) + xor_wires(g));
    }
    let ghost i0 = insts@;
    let ghost x = xor_insts(g);
    let ghost s = span;
    let mut c1: Vec<Connection> = Vec::new();
    c1.push(conn("A", a.duplicate(), span));
    c1.push(conn("Y", synth_ident(name, "na", span), span));
    proof {
        assert(c1@.map_values(|c: Connection| c@) =~= x[0].connections);
    }
    insts.push(make_inst(synth_ident(name, "not_a", span), GateKind::Not, c1, span));
    let mut c2: Vec<Connection> = Vec::new();
    c2.push(conn("A", b.duplicate(), span));
    c2.push(conn("Y", synth_ident(name, "nb", span), span));
    proof {
        assert(c2@.map_values(|c: Connection| c@) =~= x[1].connections);
    }
    insts.push(make_inst(synth_ident(name, "not_b", span), GateKind::Not, c2, span));
    let mut c3: Vec<Connection> = Vec::new();
    c3.push(conn("A", a, span));
    c3.push(conn("B", synth_ident(name, "nb", span), span));
    c3.push(conn("Y", synth_ident(name, "ab", span), span));
    proof {
        assert(c3@.map_values(|c: Connection| c@) =~= x[2].connections);
    }
    insts.push(make_inst(synth_ident(name, "and_ab", span), GateKind::And, c3, span));
    let mut c4: Vec<Connection> = Vec::new();
    c4.push(conn("A", synth_ident(name, "na", span), span));
    c4.push(conn("B", b, span));
    c4.push(conn("Y", synth_ident(name, "nba", span), span));
    proof {
        assert(c4@.map_values(|c: Connection| c@) =~= x[3].connections);
    }
    insts.push(make_inst(synth_ident(name, "and_ba", span), GateKind::And, c4, span));
    let mut c5: Vec<Connection> = Vec::new();
    c5.push(conn("A", synth_ident(name, "ab", span), span));
    c5.push(conn("B", synth_ident(name, "nba", span), span));
    c5.push(conn("Y", y, span));
    proof {
        assert(c5@.map_values(|c: Connection| c@) =~= x[4].connections);
    }
    insts.push(make_inst(synth_ident(name, "or", span), GateKind::Or, c5, span));
    proof {
        assert(insts@.len() == i0.len() + 5);
        assert forall|k: int| 0 <= k < 5 implies #[trigger] insts@[i0.len() + k]@ == x[k] by {
        }
    }
    proof {
        assert(gate_views(insts@) =~= gate_views(i0) + xor_insts(g));
    }
}

/// Rewrites every XOR instance of `module` as
/// `(A AND NOT B) OR (NOT A AND B)` in its place, adding four internal
/// wires per XOR after the existing wires. Nothing else changes.
pub fn lower_xor_gates(module: &mut Module)
    ensures
        gate_views(final(module).instances@) == lowered_insts(gate_views(old(module).instances@)),
        wire_views(final(module).wires@) == wire_views(old(module).wires@) + added_wires(
            gate_views(old(module).instances@),
        ),
        final(module).ports@ == old(module).ports@,
        final(module).name@ == old(module).name@,
        final(module).span == old(module).span,
{
    let mut old_insts: Vec<GateInst> = Vec::new();
    std::mem::swap(&mut old_insts, &mut module.instances);
    let ghost src = gate_views(old_insts@);
    let mut new_instances: Vec<GateInst> = Vec::new();
    let mut new_wires: Vec<WireDecl> = Vec::new();
    for inst in it: old_insts
        invariant
            src == gate_views(it.seq()),
            gate_views(new_instances@) == lowered_insts(src.take(it.index() as int)),
            wire_views(new_wires@) == added_wires(src.take(it.index() as int)),
    {
        let ghost k = it.index() as int;
        proof {
            assert(src.take(k + 1).drop_last() =~= src.take(k));
            assert(src.take(k + 1).last() == inst@);
        }
        if inst.kind != GateKind::Xor {
            new_instances.push(inst);
            proof {
                assert(gate_views(new_instances@) =~= lowered_insts(src.take(k)).push(inst@));
            }
        } else {
            expand_xor(&inst, &mut new_instances, &mut new_wires);
        }
    }
    proof {
        assert(src.take(src.len() as int) =~= src);
    }
    module.instances = new_instances;
    let ghost w0 = module.wires@;
    module.wires.append(&mut new_wires);
    proof {
        assert(wire_views(module.wires@) =~= wire_views(w0) + added_wires(src));
    }
}

/// No instance of `s` is an XOR.
pub open spec fn xor_free(s: Seq<GateView>) -> bool {
    forall|i: int| 0 <= i < s.len() ==> (#[trigger] s[i]).kind != GateKind::Xor
}

/// Lowering leaves no XOR instance behind.
pub proof fn law_lowering_leaves_no_xor(s: Seq<GateView>)
    ensures
        xor_free(lowered_insts(s)),
    decreases s.len(),
{
    if s.len() > 0 {
        law_lowering_leaves_no_xor(s.drop_last());
        let pre = lowered_insts(s.drop_last());
        if s.last().kind == GateKind::Xor {
            let x = xor_insts(s.last());
            assert forall|i: int| 0 <= i < (pre + x).len() implies (#[trigger] (pre + x)[i]).kind != GateKind::Xor by {
                if i >= pre.len() {
                    assert((pre + x)[i] == x[i - pre.len()]);
                }
            }
        } else {
            assert forall|i: int| 0 <= i < pre.push(s.last()).len() implies (#[trigger] pre.push(s.last())[i]).kind
                != GateKind::Xor by {
                if i < pre.len() {
                    assert(pre.push(s.last())[i] == pre[i]);
                }
            }
        }
    }
}

/// Lowering a design without XOR instances changes nothing and adds no
/// wire.
pub proof fn law_lowering_xor_free_is_identity(s: Seq<GateView>)
    requires
        xor_free(s),
    ensures
        lowered_insts(s) == s,
        added_wires(s) == Seq::<WireView>::empty(),
    decreases s.len(),
{
    if s.len() > 0 {
        assert(s.last() == s[s.len() - 1]);
        assert(xor_free(s.drop_last())) by {
            assert forall|i: int| 0 <= i < s.drop_last().len() implies (#[trigger] s.drop_last()[i]).kind
                != GateKind::Xor by {
                assert(s.drop_last()[i] == s[i]);
            }
        }
        law_lowering_xor_free_is_identity(s.drop_last());
        assert(s.drop_last().push(s.last()) =~= s);
    }
}

/// Lowering is idempotent: a second pass changes nothing and adds no wire.
pub proof fn law_lowering_idempotent(s: Seq<GateView>)
    ensures
        lowered_insts(lowered_insts(s)) == lowered_insts(s),
        added_wires(lowered_insts(s)) == Seq::<WireView>::empty(),
{
    law_lowering_leaves_no_xor(s);
    law_lowering_xor_free_is_identity(lowered_insts(s));
}

/// Logic level that the valuation `v` (net name to level) gives the net
/// connected to `port` of `g`, an unconnected port reading low.
pub open spec fn port_level(v: spec_fn(Seq<char>) -> bool, g: GateView, port: Seq<char>) -> bool {
    match port_net_spec(g.connections, port) {
        Some(n) => v(n.0),
        None => false,
    }
}

/// Instance `g` is consistent with the valuation `v`: the level on its
/// output `Y` is its gate function of the levels on `A` and `B` (NOT, AND,
/// OR and XOR; other kinds constrain nothing here).
pub open spec fn gate_holds(v: spec_fn(Seq<char>) -> bool, g: GateView) -> bool {
    let a = port_level(v, g, "A"@);
    let b = port_level(v, g, "B"@);
    let y = port_level(v, g, "Y"@);
    match g.kind {
        GateKind::Not => y == !a,
        GateKind::And => y == (a && b),
        GateKind::Or => y == (a || b),
        GateKind::Xor => y == (a != b),
        _ => true,
    }
}

/// The distinct port names `A`, `B` and `Y` match only themselves.
proof fn lemma_port_names()
    ensures
        ascii_ci_eq("A"@, "A"@),
        ascii_ci_eq("B"@, "B"@),
        ascii_ci_eq("Y"@, "Y"@),
        !ascii_ci_eq("A"@, "B"@),
        !ascii_ci_eq("A"@, "Y"@),
        !ascii_ci_eq("B"@, "Y"@),
{
    reveal_strlit("A");
    reveal_strlit("B");
    reveal_strlit("Y");
    assert(ascii_lower("A"@[0]) != ascii_lower("B"@[0]));
    assert(ascii_lower("A"@[0]) != ascii_lower("Y"@[0]));
    assert(ascii_lower("B"@[0]) != ascii_lower("Y"@[0]));
}

/// Port lookup on a synthesized `.A(a) .Y(y)` connection list.
proof fn lemma_two_ports(a: IdentView, y: IdentView, s: SourceSpan)
    ensures
        port_net_spec(seq![conn_v("A"@, a, s), conn_v("Y"@, y, s)], "A"@) == Some(a),
        port_net_spec(seq![conn_v("A"@, a, s), conn_v("Y"@, y, s)], "Y"@) == Some(y),
{
    lemma_port_names();
    let c = seq![conn_v("A"@, a, s), conn_v("Y"@, y, s)];
    let t = c.drop_first();
    assert(t =~= seq![conn_v("Y"@, y, s)]);
    assert(port_net_spec(t, "Y"@) == Some(y));
    assert(!ascii_ci_eq(c[0].port.0, "Y"@)) by {
        assert(ascii_ci_eq(c[0].port.0, "Y"@) ==> ascii_ci_eq("A"@, "Y"@));
    }
}

/// Port lookup on a synthesized `.A(a) .B(b) .Y(y)` connection list.
proof fn lemma_three_ports(a: IdentView, b: IdentView, y: IdentView, s: SourceSpan)
    ensures
        port_net_spec(seq![conn_v("A"@, a, s), conn_v("B"@, b, s), conn_v("Y"@, y, s)], "A"@) == Some(a),
        port_net_spec(seq![conn_v("A"@, a, s), conn_v("B"@, b, s), conn_v("Y"@, y, s)], "B"@) == Some(b),
        port_net_spec(seq![conn_v("A"@, a, s), conn_v("B"@, b, s), conn_v("Y"@, y, s)], "Y"@) == Some(y),
{
    lemma_port_names();
    let c = seq![conn_v("A"@, a, s), conn_v("B"@, b, s), conn_v("Y"@, y, s)];
    let t = c.drop_first();
    let u = t.drop_first();
    assert(t =~= seq![conn_v("B"@, b, s), conn_v("Y"@, y, s)]);
    assert(u =~= seq![conn_v("Y"@, y, s)]);
    assert(port_net_spec(u, "Y"@) == Some(y));
    assert(port_net_spec(t, "B"@) == Some(b));
    assert(port_net_spec(t, "Y"@) == Some(y));
}

/// Lowering keeps the meaning of an XOR: whenever the levels on the nets
/// satisfy the five instances an XOR instance becomes, the level on its
/// output is the exclusive or of the levels on its inputs. Where the XOR
/// leaves a port unconnected, the lowering wires a stand-in net in its
/// place, and the first statement speaks of that net.
pub proof fn law_lowering_keeps_xor_meaning(v: spec_fn(Seq<char>) -> bool, g: GateView)
    requires
        forall|i: int| 0 <= i < 5 ==> gate_holds(v, #[trigger] xor_insts(g)[i]),
    ensures
        v(net_or_missing(g, "Y"@).0) == (v(net_or_missing(g, "A"@).0) != v(net_or_missing(g, "B"@).0)),
        port_net_spec(g.connections, "A"@) is Some && port_net_spec(g.connections, "B"@) is Some
            && port_net_spec(g.connections, "Y"@) is Some && g.kind == GateKind::Xor ==> gate_holds(v, g),
{
    reveal_strlit("A");
    reveal_strlit("B");
    reveal_strlit("Y");
    let x = xor_insts(g);
    let a = net_or_missing(g, "A"@);
    let b = net_or_missing(g, "B"@);
    let y = net_or_missing(g, "Y"@);
    let s = g.span;
    lemma_port_names();
    let na = synth_ident_v(g, "na"@).0;
    let nb = synth_ident_v(g, "nb"@).0;
    let ab = synth_ident_v(g, "ab"@).0;
    let nba = synth_ident_v(g, "nba"@).0;
    assert(gate_holds(v, x[0]));
    assert(gate_holds(v, x[1]));
    assert(gate_holds(v, x[2]));
    assert(gate_holds(v, x[3]));
    assert(gate_holds(v, x[4]));
    lemma_two_ports(a, synth_ident_v(g, "na"@), s);
    lemma_two_ports(b, synth_ident_v(g, "nb"@), s);
    lemma_three_ports(a, synth_ident_v(g, "nb"@), synth_ident_v(g, "ab"@), s);
    lemma_three_ports(synth_ident_v(g, "na"@), b, synth_ident_v(g, "nba"@), s);
    lemma_three_ports(synth_ident_v(g, "ab"@), synth_ident_v(g, "nba"@), y, s);
    assert(v(na) == !v(a.0));
    assert(v(nb) == !v(b.0));
    assert(v(ab) == (v(a.0) && v(nb)));
    assert(v(nba) == (v(na) && v(b.0)));
    assert(v(y.0) == (v(ab) || v(nba)));
}

/// `n` is one of the four internal net names that lowering gives XOR
/// instance `g`.
pub open spec fn is_xor_internal(g: GateView, n: Seq<char>) -> bool {
    ||| n == synth_ident_v(g, "na"@).0
    ||| n == synth_ident_v(g, "nb"@).0
    ||| n == synth_ident_v(g, "ab"@).0
    ||| n == synth_ident_v(g, "nba"@).0
}

/// The four internal net names of an XOR instance are pairwise distinct.
proof fn lemma_internal_names_distinct(g: GateView)
    ensures
        synth_ident_v(g, "na"@).0 != synth_ident_v(g, "nb"@).0,
        synth_ident_v(g, "na"@).0 != synth_ident_v(g, "ab"@).0,
        synth_ident_v(g, "na"@).0 != synth_ident_v(g, "nba"@).0,
        synth_ident_v(g, "nb"@).0 != synth_ident_v(g, "ab"@).0,
        synth_ident_v(g, "nb"@).0 != synth_ident_v(g, "nba"@).0,
        synth_ident_v(g, "ab"@).0 != synth_ident_v(g, "nba"@).0,
{
    reveal_strlit("__xor_");
    reveal_strlit("_");
    reveal_strlit("__");
    reveal_strlit("na");
    reveal_strlit("nb");
    reveal_strlit("ab");
    reveal_strlit("nba");
    let inst = g.inst_name.0;
    let k: int = 7 + inst.len() as int;
    let na = synth_ident_v(g, "na"@).0;
    let nb = synth_ident_v(g, "nb"@).0;
    let ab = synth_ident_v(g, "ab"@).0;
    let nba = synth_ident_v(g, "nba"@).0;
    assert(na[k] == 'n' && na[k + 1] == 'a');
    assert(nb[k] == 'n' && nb[k + 1] == 'b');
    assert(ab[k] == 'a');
    assert(nba.len() == na.len() + 1 && nba.len() == ab.len() + 1);
}

/// Lowering takes away no behaviour of an XOR: for any levels on its
/// nets under which the XOR holds, the four internal nets can be given
/// levels, all other nets keeping theirs, under which the five instances
/// it becomes all hold (provided none of its own nets bears an internal
/// name).
pub proof fn law_lowering_xor_levels_exist(v: spec_fn(Seq<char>) -> bool, g: GateView) -> (w: spec_fn(Seq<char>) -> bool)
    requires
        !is_xor_internal(g, net_or_missing(g, "A"@).0),
        !is_xor_internal(g, net_or_missing(g, "B"@).0),
        !is_xor_internal(g, net_or_missing(g, "Y"@).0),
        v(net_or_missing(g, "Y"@).0) == (v(net_or_missing(g, "A"@).0) != v(net_or_missing(g, "B"@).0)),
    ensures
        forall|n: Seq<char>| !is_xor_internal(g, n) ==> w(n) == v(n),
        forall|i: int| 0 <= i < 5 ==> gate_holds(w, #[trigger] xor_insts(g)[i]),
{
    let a = net_or_missing(g, "A"@);
    let b = net_or_missing(g, "B"@);
    let y = net_or_missing(g, "Y"@);
    let s = g.span;
    let na = synth_ident_v(g, "na"@).0;
    let nb = synth_ident_v(g, "nb"@).0;
    let ab = synth_ident_v(g, "ab"@).0;
    let nba = synth_ident_v(g, "nba"@).0;
    lemma_internal_names_distinct(g);
    lemma_port_names();
    let w = |n: Seq<char>|
        if n == na {
            !v(a.0)
        } else if n == nb {
            !v(b.0)
        } else if n == ab {
            v(a.0) && !v(b.0)
        } else if n == nba {
            !v(a.0) && v(b.0)
        } else {
            v(n)
        };
    lemma_two_ports(a, synth_ident_v(g, "na"@), s);
    lemma_two_ports(b, synth_ident_v(g, "nb"@), s);
    lemma_three_ports(a, synth_ident_v(g, "nb"@), synth_ident_v(g, "ab"@), s);
    lemma_three_ports(synth_ident_v(g, "na"@), b, synth_ident_v(g, "nba"@), s);
    lemma_three_ports(synth_ident_v(g, "ab"@), synth_ident_v(g, "nba"@), y, s);
    assert(w(a.0) == v(a.0) && w(b.0) == v(b.0) && w(y.0) == v(y.0));
    let x = xor_insts(g);
    assert(gate_holds(w, x[0]) && gate_holds(w, x[1]) && gate_holds(w, x[2]) && gate_holds(w, x[3])
        && gate_holds(w, x[4]));
    w
}

/// Number of XOR instances in `s`.
pub open spec fn xor_count(s: Seq<GateView>) -> nat
    decreases s.len(),
{
    if s.len() == 0 {
        0
    } else {
        xor_count(s.drop_last()) + if s.last().kind == GateKind::Xor { 1nat } else { 0nat }
    }
}

/// Lowering adds four instances and four wires per XOR: each XOR gives
/// way to five instances.
pub proof fn law_lowering_counts(s: Seq<GateView>)
    ensures
        lowered_insts(s).len() == s.len() + 4 * xor_count(s),
        added_wires(s).len() == 4 * xor_count(s),
    decreases s.len(),
{
    if s.len() > 0 {
        law_lowering_counts(s.drop_last());
    }
}

/// `x` is the suffix of one of the five instances an XOR becomes.
pub open spec fn is_inst_suffix(x: Seq<char>) -> bool {
    ||| x == "not_a"@
    ||| x == "not_b"@
    ||| x == "and_ab"@
    ||| x == "and_ba"@
    ||| x == "or"@
}

/// `n` begins with the prefix of the names lowering synthesizes.
pub open spec fn has_xor_prefix(n: Seq<char>) -> bool {
    n.len() >= 6 && n.subrange(0, 6) == "__xor_"@
}

/// Instance names of `s`, in order.
pub open spec fn inst_names(s: Seq<GateView>) -> Seq<Seq<char>> {
    s.map_values(|g: GateView| g.inst_name.0)
}

/// The suffixes of the five instances end in distinct pairs of
/// characters, so the last two characters tell them apart.
proof fn lemma_suffix_tails(x: Seq<char>, y: Seq<char>)
    requires
        is_inst_suffix(x),
        is_inst_suffix(y),
        x[x.len() - 2] == y[y.len() - 2],
        x[x.len() - 1] == y[y.len() - 1],
    ensures
        x == y,
{
    reveal_strlit("not_a");
    reveal_strlit("not_b");
    reveal_strlit("and_ab");
    reveal_strlit("and_ba");
    reveal_strlit("or");
}

/// Synthesized names carry the synthesized prefix.
proof fn lemma_synth_prefix(inst: Seq<char>, x: Seq<char>)
    ensures
        has_xor_prefix(synth_text(inst, x)),
{
    reveal_strlit("__xor_");
    let t = synth_text(inst, x);
    assert(t.subrange(0, 6) =~= "__xor_"@) by {
        assert forall|k: int| 0 <= k < 6 implies t.subrange(0, 6)[k] == "__xor_"@[k] by {
            assert(t[k] == ("__xor_"@ + inst)[k]);
        }
    }
}

/// The synthesized name determines the XOR instance and the suffix.
proof fn lemma_synth_injective(i1: Seq<char>, x1: Seq<char>, i2: Seq<char>, x2: Seq<char>)
    requires
        is_inst_suffix(x1),
        is_inst_suffix(x2),
        synth_text(i1, x1) == synth_text(i2, x2),
    ensures
        i1 == i2,
        x1 == x2,
{
    reveal_strlit("__xor_");
    reveal_strlit("_");
    reveal_strlit("__");
    reveal_strlit("not_a");
    reveal_strlit("not_b");
    reveal_strlit("and_ab");
    reveal_strlit("and_ba");
    reveal_strlit("or");
    let t1 = synth_text(i1, x1);
    let t2 = synth_text(i2, x2);
    let l = t1.len() as int;
    let h1 = "__xor_"@ + i1 + "_"@ + x1;
    let h2 = "__xor_"@ + i2 + "_"@ + x2;
    assert(t1 == h1 + "__"@);
    assert(t2 == h2 + "__"@);
    assert(h1.len() == l - 2 && h2.len() == l - 2);
    assert(t1[l - 3] == h1[l - 3]);
    assert(t1[l - 4] == h1[l - 4]);
    assert(t2[l - 3] == h2[l - 3]);
    assert(t2[l - 4] == h2[l - 4]);
    assert(h1[l - 3] == x1[x1.len() - 1]);
    assert(h1[l - 4] == x1[x1.len() - 2]);
    assert(h2[l - 3] == x2[x2.len() - 1]);
    assert(h2[l - 4] == x2[x2.len() - 2]);
    lemma_suffix_tails(x1, x2);
    assert(i1.len() == i2.len());
    assert(i1 =~= i2) by {
        assert forall|k: int| 0 <= k < i1.len() implies i1[k] == i2[k] by {
            assert(t1[6 + k] == i1[k]);
            assert(t2[6 + k] == i2[k]);
        }
    }
}

/// Where each instance name after lowering comes from: an instance of
/// `s` that is not an XOR, or an XOR of `s` with one of the five suffixes.
pub open spec fn name_origin(s: Seq<GateView>, n: Seq<char>) -> bool {
    ||| exists|j: int| 0 <= j < s.len() && (#[trigger] s[j]).kind != GateKind::Xor && s[j].inst_name.0 == n
    ||| exists|j: int, x: Seq<char>|
        0 <= j < s.len() && (#[trigger] s[j]).kind == GateKind::Xor && is_inst_suffix(x) && n == #[trigger] synth_text(
            s[j].inst_name.0,
            x,
        )
}

/// The names of the five instances an XOR becomes.
proof fn lemma_xor_inst_names(g: GateView)
    ensures
        xor_insts(g).len() == 5,
        xor_insts(g)[0].inst_name.0 == synth_text(g.inst_name.0, "not_a"@),
        xor_insts(g)[1].inst_name.0 == synth_text(g.inst_name.0, "not_b"@),
        xor_insts(g)[2].inst_name.0 == synth_text(g.inst_name.0, "and_ab"@),
        xor_insts(g)[3].inst_name.0 == synth_text(g.inst_name.0, "and_ba"@),
        xor_insts(g)[4].inst_name.0 == synth_text(g.inst_name.0, "or"@),
{
}

/// Every instance name after lowering has an origin in `s`.
proof fn lemma_lowered_origin(s: Seq<GateView>)
    ensures
        forall|k: int| 0 <= k < lowered_insts(s).len() ==> name_origin(s, (#[trigger] lowered_insts(s)[k]).inst_name.0),
    decreases s.len(),
{
    if s.len() > 0 {
        let pre = s.drop_last();
        let g = s.last();
        lemma_lowered_origin(pre);
        let lp = lowered_insts(pre);
        assert forall|k: int| 0 <= k < lowered_insts(s).len() implies name_origin(
            s,
            (#[trigger] lowered_insts(s)[k]).inst_name.0,
        ) by {
            let n = lowered_insts(s)[k].inst_name.0;
            if k < lp.len() {
                assert(lowered_insts(s)[k] == lp[k]);
                assert(name_origin(pre, n));
                if exists|j: int| 0 <= j < pre.len() && (#[trigger] pre[j]).kind != GateKind::Xor && pre[j].inst_name.0 == n {
                    let j = choose|j: int| 0 <= j < pre.len() && (#[trigger] pre[j]).kind != GateKind::Xor && pre[j].inst_name.0 == n;
                    assert(s[j] == pre[j]);
                } else {
                    let (j, x) = choose|j: int, x: Seq<char>|
                        0 <= j < pre.len() && (#[trigger] pre[j]).kind == GateKind::Xor && is_inst_suffix(x) && n
                            == #[trigger] synth_text(pre[j].inst_name.0, x);
                    assert(s[j] == pre[j]);
                }
            } else if g.kind == GateKind::Xor {
                let q = k - lp.len();
                assert(lowered_insts(s)[k] == xor_insts(g)[q]);
                lemma_xor_inst_names(g);
                assert(s[s.len() - 1] == g);
                if q == 0 {
                    assert(is_inst_suffix("not_a"@) && n == synth_text(s[s.len() - 1].inst_name.0, "not_a"@));
                } else if q == 1 {
                    assert(is_inst_suffix("not_b"@) && n == synth_text(s[s.len() - 1].inst_name.0, "not_b"@));
                } else if q == 2 {
                    assert(is_inst_suffix("and_ab"@) && n == synth_text(s[s.len() - 1].inst_name.0, "and_ab"@));
                } else if q == 3 {
                    assert(is_inst_suffix("and_ba"@) && n == synth_text(s[s.len() - 1].inst_name.0, "and_ba"@));
                } else {
                    assert(is_inst_suffix("or"@) && n == synth_text(s[s.len() - 1].inst_name.0, "or"@));
                }
            } else {
                assert(lowered_insts(s)[k] == g);
                assert(s[s.len() - 1] == g);
            }
        }
    }
}

/// Lowering keeps instance names distinct: if the names of `s` are
/// distinct and none carries the synthesized prefix, the names after
/// lowering are distinct too.
pub proof fn law_lowering_names_distinct(s: Seq<GateView>)
    requires
        inst_names(s).no_duplicates(),
        forall|i: int| 0 <= i < s.len() ==> !has_xor_prefix((#[trigger] s[i]).inst_name.0),
    ensures
        inst_names(lowered_insts(s)).no_duplicates(),
    decreases s.len(),
{
    if s.len() > 0 {
        let pre = s.drop_last();
        let g = s.last();
        assert(inst_names(pre).no_duplicates()) by {
            assert forall|a: int, b: int| 0 <= a < b < pre.len() implies inst_names(pre)[a] != inst_names(pre)[b] by {
                assert(inst_names(s)[a] != inst_names(s)[b]);
            }
        }
        assert forall|i: int| 0 <= i < pre.len() implies !has_xor_prefix((#[trigger] pre[i]).inst_name.0) by {
            assert(pre[i] == s[i]);
        }
        law_lowering_names_distinct(pre);
        lemma_lowered_origin(pre);
        let lp = lowered_insts(pre);
        let ls = lowered_insts(s);
        assert(s[s.len() - 1] == g);
        assert forall|a: int, b: int| 0 <= a < b < ls.len() implies inst_names(ls)[a] != inst_names(ls)[b] by {
            let na = ls[a].inst_name.0;
            let nb = ls[b].inst_name.0;
            assert(inst_names(ls)[a] == na && inst_names(ls)[b] == nb);
            if b < lp.len() {
                assert(ls[a] == lp[a] && ls[b] == lp[b]);
                assert(inst_names(lp)[a] != inst_names(lp)[b]);
            } else if g.kind == GateKind::Xor {
                lemma_xor_inst_names(g);
                let qb = b - lp.len();
                assert(ls[b] == xor_insts(g)[qb]);
                let xb = if qb == 0 { "not_a"@ } else if qb == 1 { "not_b"@ } else if qb == 2 { "and_ab"@ } else if qb == 3 { "and_ba"@ } else { "or"@ };
                assert(is_inst_suffix(xb) && nb == synth_text(g.inst_name.0, xb));
                if a >= lp.len() {
                    let qa = a - lp.len();
                    assert(ls[a] == xor_insts(g)[qa]);
                    let xa = if qa == 0 { "not_a"@ } else if qa == 1 { "not_b"@ } else if qa == 2 { "and_ab"@ } else if qa == 3 { "and_ba"@ } else { "or"@ };
                    assert(is_inst_suffix(xa) && na == synth_text(g.inst_name.0, xa));
                    reveal_strlit("not_a");
                    reveal_strlit("not_b");
                    reveal_strlit("and_ab");
                    reveal_strlit("and_ba");
                    reveal_strlit("or");
                    assert(xa[xa.len() - 1] != xb[xb.len() - 1] || xa[xa.len() - 2] != xb[xb.len() - 2]);
                    if na == nb {
                        lemma_synth_injective(g.inst_name.0, xa, g.inst_name.0, xb);
                    }
                } else {
                    assert(ls[a] == lp[a]);
                    assert(name_origin(pre, na));
                    if na == nb {
                        lemma_synth_prefix(g.inst_name.0, xb);
                        if exists|j: int| 0 <= j < pre.len() && (#[trigger] pre[j]).kind != GateKind::Xor && pre[j].inst_name.0 == na {
                            let j = choose|j: int| 0 <= j < pre.len() && (#[trigger] pre[j]).kind != GateKind::Xor && pre[j].inst_name.0 == na;
                            assert(s[j] == pre[j]);
                        } else {
                            let (j, x) = choose|j: int, x: Seq<char>|
                                0 <= j < pre.len() && (#[trigger] pre[j]).kind == GateKind::Xor && is_inst_suffix(x) && na
                                    == #[trigger] synth_text(pre[j].inst_name.0, x);
                            lemma_synth_injective(pre[j].inst_name.0, x, g.inst_name.0, xb);
                            assert(s[j] == pre[j]);
                            assert(inst_names(s)[j] == inst_names(s)[s.len() - 1]);
                        }
                    }
                }
            } else {
                assert(b == lp.len() && ls[b] == g);
                assert(ls[a] == lp[a]);
                assert(name_origin(pre, na));
                if na == nb {
                    if exists|j: int| 0 <= j < pre.len() && (#[trigger] pre[j]).kind != GateKind::Xor && pre[j].inst_name.0 == na {
                        let j = choose|j: int| 0 <= j < pre.len() && (#[trigger] pre[j]).kind != GateKind::Xor && pre[j].inst_name.0 == na;
                        assert(s[j] == pre[j]);
                        assert(inst_names(s)[j] == inst_names(s)[s.len() - 1]);
                    } else {
                        let (j, x) = choose|j: int, x: Seq<char>|
                            0 <= j < pre.len() && (#[trigger] pre[j]).kind == GateKind::Xor && is_inst_suffix(x) && na
                                == #[trigger] synth_text(pre[j].inst_name.0, x);
                        lemma_synth_prefix(pre[j].inst_name.0, x);
                    }
                }
            }
        }
    }
}

} // verus!
