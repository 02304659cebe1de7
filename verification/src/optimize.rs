//! Dead-gate elimination: a gate is live when its output net feeds,
//! directly or through other live gates, a module output port; every
//! other gate can never be observed and is removed before placement.
use vstd::prelude::*;

use crate::ast::{gate_views, wire_views, GateInst, GateView, Module, PortDecl, PortDir};
use crate::geom::GateKind;
use crate::text::{ascii_ci_eq, eq_ignore_ascii_case};

verus! {

/// Name of the output port of a gate kind.
pub open spec fn output_port_spec(k: GateKind) -> Option<Seq<char>> {
    match k {
        GateKind::And | GateKind::Or | GateKind::Not | GateKind::Xor | GateKind::Comparator => Some("Y"@),
        GateKind::DTrigger | GateKind::MemoryCell => Some("Q"@),
        GateKind::Observer | GateKind::Repeater | GateKind::TargetBlock => Some("OUT"@),
    }
}

/// `g` drives `net` on its output port (port name matched ignoring ASCII
/// case).
pub open spec fn drives(g: GateView, net: Seq<char>) -> bool {
    match output_port_spec(g.kind) {
        Some(o) => exists|c: int|
            0 <= c < g.connections.len() && ascii_ci_eq((#[trigger] g.connections[c]).port.0, o)
                && g.connections[c].net.0 == net,
        None => false,
    }
}

/// `g` reads `net` on one of its other ports.
pub open spec fn reads(g: GateView, net: Seq<char>) -> bool {
    match output_port_spec(g.kind) {
        Some(o) => exists|c: int|
            0 <= c < g.connections.len() && !ascii_ci_eq((#[trigger] g.connections[c]).port.0, o)
                && g.connections[c].net.0 == net,
        None => false,
    }
}

/// Names of the module's output ports.
pub open spec fn output_port_names(ports: Seq<PortDecl>) -> Set<Seq<char>> {
    Set::new(|n: Seq<char>| exists|i: int| 0 <= i < ports.len() && (#[trigger] ports[i]).dir == PortDir::Output && ports[i].name.text@ == n)
}

/// `net` is shown live within `k` steps: it is an output port, or a gate
/// reading it drives a net shown live within `k - 1` steps.
pub open spec fn live_within(insts: Seq<GateView>, outs: Set<Seq<char>>, net: Seq<char>, k: nat) -> bool
    decreases k,
{
    ||| outs.contains(net)
    ||| (k > 0 && exists|gi: int, d: Seq<char>|
        #![trigger drives(insts[gi], d)]
        0 <= gi < insts.len() && drives(insts[gi], d) && live_within(insts, outs, d, (k - 1) as nat) && reads(insts[gi], net))
}

/// `net` is live: it can influence a module output.
pub open spec fn is_live(insts: Seq<GateView>, outs: Set<Seq<char>>, net: Seq<char>) -> bool {
    exists|k: nat| #[trigger] live_within(insts, outs, net, k)
}

/// A gate is kept when its output port is unknown or it drives a live
/// net.
pub open spec fn kept(insts: Seq<GateView>, outs: Set<Seq<char>>, g: GateView) -> bool {
    ||| output_port_spec(g.kind) is None
    ||| exists|d: Seq<char>| #[trigger] drives(g, d) && is_live(insts, outs, d)
}

/// The instances that survive dead-gate elimination, in order.
pub open spec fn pruned(insts: Seq<GateView>, outs: Set<Seq<char>>, s: Seq<GateView>) -> Seq<GateView>
    decreases s.len(),
{
    if s.len() == 0 {
        Seq::empty()
    } else if kept(insts, outs, s.last()) {
        pruned(insts, outs, s.drop_last()).push(s.last())
    } else {
        pruned(insts, outs, s.drop_last())
    }
}

/// Canonical output-port name of a gate kind.
fn gate_output_port(kind: GateKind) -> (r: Option<&'static str>)
    ensures
        match r {
            Some(s) => output_port_spec(kind) == Some(s@),
            None => output_port_spec(kind) is None,
        },
{
    let r = match kind {
        GateKind::And | GateKind::Or | GateKind::Not | GateKind::Xor | GateKind::Comparator => "Y",
        GateKind::DTrigger | GateKind::MemoryCell => "Q",
        GateKind::Observer | GateKind::Repeater | GateKind::TargetBlock => "OUT",
    };
    Some(r)
}

/// True iff `inst` drives `net` on its output port.
pub fn gate_drives(inst: &GateInst, net: &str) -> (r: bool)
    ensures
        r == drives(inst@, net@),
{
    match gate_output_port(inst.kind) {
        None => false,
        Some(out_port) => {
            let target = net.to_owned();
            let ghost cs = inst@.connections;
            for i in 0..inst.connections.len()
                invariant
                    cs == inst@.connections,
                    target@ == net@,
                    output_port_spec(inst.kind) == Some(out_port@),
                    forall|j: int| 0 <= j < i ==> !(ascii_ci_eq((#[trigger] cs[j]).port.0, out_port@) && cs[j].net.0 == net@),
            {
                let c = &inst.connections[i];
                proof {
                    assert(cs[i as int] == c@);
                }
                if eq_ignore_ascii_case(c.port.as_str(), out_port) && c.net.text == target {
                    return true;
                }
            }
            false
        },
    }
}

fn contains_name(live: &Vec<String>, name: &String) -> (r: bool)
    ensures
        r == live@.map_values(|s: String| s@).contains(name@),
{
    let ghost v = live@.map_values(|s: String| s@);
    for i in 0..live.len()
        invariant
            v == live@.map_values(|s: String| s@),
            forall|j: int| 0 <= j < i ==> v[j] != name@,
    {
        if live[i] == *name {
            proof {
                assert(v[i as int] == name@);
            }
            return true;
        }
    }
    false
}

/// `inst` drives, on output port `op`, a net listed in `live`.
fn drives_listed(inst: &GateInst, op: &str, live: &Vec<String>) -> (r: bool)
    ensures
        r == exists|c: int|
            0 <= c < inst@.connections.len() && ascii_ci_eq((#[trigger] inst@.connections[c]).port.0, op@)
                && live@.map_values(|s: String| s@).contains(inst@.connections[c].net.0),
{
    let ghost cs = inst@.connections;
    for i in 0..inst.connections.len()
        invariant
            cs == inst@.connections,
            forall|j: int| 0 <= j < i ==> !(ascii_ci_eq((#[trigger] cs[j]).port.0, op@)
                && live@.map_values(|s: String| s@).contains(cs[j].net.0)),
    {
        let c = &inst.connections[i];
        proof {
            assert(cs[i as int] == c@);
        }
        if eq_ignore_ascii_case(c.port.as_str(), op) && contains_name(live, &c.net.text) {
            return true;
        }
    }
    false
}

/// Net names of all connections, instance by instance.
pub open spec fn all_conn_nets(insts: Seq<GateView>) -> Seq<Seq<char>>
    decreases insts.len(),
{
    if insts.len() == 0 {
        Seq::empty()
    } else {
        all_conn_nets(insts.drop_last()) + insts.last().connections.map_values(|c: crate::ast::ConnView| c.net.0)
    }
}

/// Names that can ever become live: port names and connected nets.
spec fn candidates(ports: Seq<PortDecl>, insts: Seq<GateView>) -> Seq<Seq<char>> {
    ports.map_values(|p: PortDecl| p.name.text@) + all_conn_nets(insts)
}

proof fn lemma_conn_net_listed(insts: Seq<GateView>, gi: int, c: int)
    requires
        0 <= gi < insts.len(),
        0 <= c < insts[gi].connections.len(),
    ensures
        all_conn_nets(insts).contains(insts[gi].connections[c].net.0),
    decreases insts.len(),
{
    let m = insts.last().connections.map_values(|cv: crate::ast::ConnView| cv.net.0);
    if gi == insts.len() - 1 {
        assert(m[c] == insts[gi].connections[c].net.0);
        assert((all_conn_nets(insts.drop_last()) + m)[all_conn_nets(insts.drop_last()).len() + c] == m[c]);
    } else {
        lemma_conn_net_listed(insts.drop_last(), gi, c);
        let prev = all_conn_nets(insts.drop_last());
        let k = choose|k: int| 0 <= k < prev.len() && prev[k] == insts[gi].connections[c].net.0;
        assert((prev + m)[k] == prev[k]);
    }
}

/// A list without repeats drawn from `cands` is no longer than it.
proof fn lemma_distinct_bound(lv: Seq<Seq<char>>, cands: Seq<Seq<char>>)
    requires
        lv.no_duplicates(),
        forall|x: Seq<char>| lv.contains(x) ==> cands.contains(x),
    ensures
        lv.len() <= cands.len(),
{
    lv.unique_seq_to_set();
    cands.lemma_cardinality_of_set();
    assert(lv.to_set().subset_of(cands.to_set()));
    vstd::set_lib::lemma_len_subset(lv.to_set(), cands.to_set());
}

/// A set of names that holds the outputs and is closed under the liveness
/// rule holds every live name.
proof fn lemma_closed_holds_live(insts: Seq<GateView>, outs: Set<Seq<char>>, lv: Seq<Seq<char>>, x: Seq<char>, k: nat)
    requires
        forall|y: Seq<char>| outs.contains(y) ==> lv.contains(y),
        forall|gi: int, d: Seq<char>, y: Seq<char>|
            0 <= gi < insts.len() && #[trigger] drives(insts[gi], d) && lv.contains(d) && #[trigger] reads(insts[gi], y) ==> lv.contains(y),
        live_within(insts, outs, x, k),
    ensures
        lv.contains(x),
    decreases k,
{
    if !outs.contains(x) {
        let (gi, d) = choose|gi: int, d: Seq<char>|
            #![trigger drives(insts[gi], d)]
            0 <= gi < insts.len() && drives(insts[gi], d) && live_within(insts, outs, d, (k - 1) as nat) && reads(insts[gi], x);
        lemma_closed_holds_live(insts, outs, lv, d, (k - 1) as nat);
    }
}

/// Names in `live`, as character sequences.
spec fn names(live: Seq<String>) -> Seq<Seq<char>> {
    live.map_values(|s: String| s@)
}

/// One pass of the liveness rule over all instances: every instance that
/// drives a listed net has its other nets added. Returns whether anything
/// was added.
#[verifier::rlimit(40)]
fn liveness_pass(
    instances: &Vec<GateInst>,
    live: &mut Vec<String>,
    Ghost(outs): Ghost<Set<Seq<char>>>,
    Ghost(cands): Ghost<Seq<Seq<char>>>,
) -> (changed: bool)
    requires
        names(old(live)@).no_duplicates(),
        forall|x: Seq<char>| names(old(live)@).contains(x) ==> cands.contains(x),
        forall|x: Seq<char>| names(old(live)@).contains(x) ==> is_live(gate_views(instances@), outs, x),
        forall|gi: int, c: int| 0 <= gi < instances@.len() && 0 <= c < gate_views(instances@)[gi].connections.len()
            ==> cands.contains(#[trigger] gate_views(instances@)[gi].connections[c].net.0),
    ensures
        names(final(live)@).no_duplicates(),
        forall|x: Seq<char>| names(final(live)@).contains(x) ==> cands.contains(x),
        forall|x: Seq<char>| names(final(live)@).contains(x) ==> is_live(gate_views(instances@), outs, x),
        forall|x: Seq<char>| names(old(live)@).contains(x) ==> names(final(live)@).contains(x),
        changed ==> final(live)@.len() > old(live)@.len(),
        !changed ==> final(live)@ == old(live)@,
        !changed ==> forall|gi: int, d: Seq<char>, y: Seq<char>|
            0 <= gi < instances@.len() && #[trigger] drives(gate_views(instances@)[gi], d) && names(final(live)@).contains(d)
                && #[trigger] reads(gate_views(instances@)[gi], y) ==> names(final(live)@).contains(y),
{
    let ghost insts = gate_views(instances@);
    let ghost start = live@;
    let mut changed = false;
    for i in 0..instances.len()
        invariant
            insts == gate_views(instances@),
            insts.len() == instances@.len(),
            names(live@).no_duplicates(),
            forall|x: Seq<char>| names(live@).contains(x) ==> cands.contains(x),
            forall|x: Seq<char>| names(live@).contains(x) ==> is_live(insts, outs, x),
            forall|x: Seq<char>| names(start).contains(x) ==> names(live@).contains(x),
            forall|gi: int, c: int| 0 <= gi < instances@.len() && 0 <= c < insts[gi].connections.len()
                ==> cands.contains(#[trigger] insts[gi].connections[c].net.0),
            changed ==> live@.len() > start.len(),
            !changed ==> live@ == start,
            !changed ==> forall|gi: int, d: Seq<char>, y: Seq<char>|
                0 <= gi < i && #[trigger] drives(insts[gi], d) && names(live@).contains(d)
                    && #[trigger] reads(insts[gi], y) ==> names(live@).contains(y),
    {
        let inst = &instances[i];
        proof {
            assert(insts[i as int] == inst@);
        }
        match gate_output_port(inst.kind) {
            None => {},
            Some(op) => {
                if drives_listed(inst, op, live) {
                    let ghost d0 = {
                        let c0 = choose|c: int|
                            0 <= c < inst@.connections.len() && ascii_ci_eq((#[trigger] inst@.connections[c]).port.0, op@)
                                && names(live@).contains(inst@.connections[c].net.0);
                        inst@.connections[c0].net.0
                    };
                    proof {
                        let c0 = choose|c: int|
                            0 <= c < inst@.connections.len() && ascii_ci_eq((#[trigger] inst@.connections[c]).port.0, op@)
                                && names(live@).contains(inst@.connections[c].net.0);
                        assert(drives(insts[i as int], d0));
                    }
                    let ghost before_inst = live@;
                    for ci in 0..inst.connections.len()
                        invariant
                            insts == gate_views(instances@),
                            i < instances@.len(),
                            insts.len() == instances@.len(),
                            insts[i as int] == inst@,
                            output_port_spec(inst.kind) == Some(op@),
                            drives(insts[i as int], d0),
                            names(live@).contains(d0),
                            is_live(insts, outs, d0),
                            names(live@).no_duplicates(),
                            forall|x: Seq<char>| names(live@).contains(x) ==> cands.contains(x),
                            forall|x: Seq<char>| names(live@).contains(x) ==> is_live(insts, outs, x),
                            forall|x: Seq<char>| names(start).contains(x) ==> names(live@).contains(x),
                            forall|gi: int, c: int| 0 <= gi < instances@.len() && 0 <= c < insts[gi].connections.len()
                                ==> cands.contains(#[trigger] insts[gi].connections[c].net.0),
                            changed ==> live@.len() > start.len(),
                            !changed ==> live@ == start,
                            forall|c: int| 0 <= c < ci && !ascii_ci_eq((#[trigger] inst@.connections[c]).port.0, op@)
                                ==> names(live@).contains(inst@.connections[c].net.0),
                            !changed ==> forall|gi: int, d: Seq<char>, y: Seq<char>|
                                0 <= gi < i && #[trigger] drives(insts[gi], d) && names(live@).contains(d)
                                    && #[trigger] reads(insts[gi], y) ==> names(live@).contains(y),
                    {
                        let c = &inst.connections[ci];
                        let is_out = eq_ignore_ascii_case(c.port.as_str(), op);
                        if !is_out {
                            if !contains_name(live, &c.net.text) {
                                let ghost x = c.net.text@;
                                proof {
                                    assert(inst@.connections[ci as int] == c@);
                                    assert(reads(insts[i as int], x));
                                    let k = choose|k: nat| #[trigger] live_within(insts, outs, d0, k);
                                    assert(live_within(insts, outs, x, k + 1));
                                    assert(cands.contains(insts[i as int].connections[ci as int].net.0));
                                }
                                let ghost before = live@;
                                live.push(c.net.text.clone());
                                changed = true;
                                proof {
                                    assert(names(live@) =~= names(before).push(x));
                                    assert forall|y: Seq<char>| names(live@).contains(y) implies is_live(insts, outs, y) by {
                                        if y != x {
                                            let j = choose|j: int| 0 <= j < names(live@).len() && names(live@)[j] == y;
                                            assert(names(before)[j] == y);
                                        }
                                    }
                                    assert forall|y: Seq<char>| names(live@).contains(y) implies cands.contains(y) by {
                                        if y != x {
                                            let j = choose|j: int| 0 <= j < names(live@).len() && names(live@)[j] == y;
                                            assert(names(before)[j] == y);
                                        }
                                    }
                                    assert forall|y: Seq<char>| names(start).contains(y) implies names(live@).contains(y) by {
                                        let j = choose|j: int| 0 <= j < names(before).len() && names(before)[j] == y;
                                        assert(names(live@)[j] == y);
                                    }
                                    assert forall|cc: int| 0 <= cc < ci + 1 && !ascii_ci_eq((#[trigger] inst@.connections[cc]).port.0, op@)
                                        implies names(live@).contains(inst@.connections[cc].net.0) by {
                                        if cc < ci {
                                            let y = inst@.connections[cc].net.0;
                                            let j = choose|j: int| 0 <= j < names(before).len() && names(before)[j] == y;
                                            assert(names(live@)[j] == y);
                                        } else {
                                            assert(names(live@)[names(live@).len() - 1] == x);
                                        }
                                    }
                                    let j0 = choose|j: int| 0 <= j < names(before).len() && names(before)[j] == d0;
                                    assert(names(live@)[j0] == d0);
                                }
                            } else {
                                proof {
                                    assert(inst@.connections[ci as int] == c@);
                                }
                            }
                        }
                    }
                    proof {
                        if !changed {
                            assert forall|gi: int, d: Seq<char>, y: Seq<char>|
                                0 <= gi < i + 1 && #[trigger] drives(insts[gi], d) && names(live@).contains(d)
                                    && #[trigger] reads(insts[gi], y) implies names(live@).contains(y) by {
                                if gi == i {
                                    let c = choose|c: int|
                                        0 <= c < insts[gi].connections.len() && !ascii_ci_eq((#[trigger] insts[gi].connections[c]).port.0, op@)
                                            && insts[gi].connections[c].net.0 == y;
                                    assert(inst@.connections[c] == insts[gi].connections[c]);
                                }
                            }
                        }
                    }
                } else {
                    proof {
                        if !changed {
                            assert forall|gi: int, d: Seq<char>, y: Seq<char>|
                                0 <= gi < i + 1 && #[trigger] drives(insts[gi], d) && names(live@).contains(d)
                                    && #[trigger] reads(insts[gi], y) implies names(live@).contains(y) by {
                                if gi == i {
                                    let c = choose|c: int|
                                        0 <= c < insts[gi].connections.len() && ascii_ci_eq((#[trigger] insts[gi].connections[c]).port.0, op@)
                                            && insts[gi].connections[c].net.0 == d;
                                    assert(inst@.connections[c] == insts[gi].connections[c]);
                                }
                            }
                        }
                    }
                }
            },
        }
    }
    changed
}

/// Removes every gate that cannot influence a module output: a gate is
/// kept when its output port is unknown or it drives a live net, the
/// least set of nets that holds the output ports and, for every gate
/// driving one of its nets, that instance's other nets. Returns the number of
/// gates removed. Only the instance list changes.
#[verifier::rlimit(40)]
pub fn prune_dead_gates(module: &mut Module) -> (removed: usize)
    ensures
        gate_views(final(module).instances@) == pruned(
            gate_views(old(module).instances@),
            output_port_names(old(module).ports@),
            gate_views(old(module).instances@),
        ),
        removed == old(module).instances@.len() - final(module).instances@.len(),
        final(module).ports@ == old(module).ports@,
        final(module).wires@ == old(module).wires@,
        final(module).name@ == old(module).name@,
        final(module).span == old(module).span,
{
    let ghost insts = gate_views(module.instances@);
    let ghost outs = output_port_names(module.ports@);
    let ghost cands = candidates(module.ports@, insts);
    let ghost port_names = module.ports@.map_values(|p: PortDecl| p.name.text@);
    proof {
        assert forall|gi: int, c: int| 0 <= gi < module.instances@.len() && 0 <= c < insts[gi].connections.len()
            implies cands.contains(#[trigger] insts[gi].connections[c].net.0) by {
            lemma_conn_net_listed(insts, gi, c);
            let all = all_conn_nets(insts);
            let k = choose|k: int| 0 <= k < all.len() && all[k] == insts[gi].connections[c].net.0;
            assert(cands[port_names.len() + k] == all[k]);
        }
    }
    let mut live: Vec<String> = Vec::new();
    for pi in 0..module.ports.len()
        invariant
            port_names == module.ports@.map_values(|p: PortDecl| p.name.text@),
            cands == port_names + all_conn_nets(insts),
            outs == output_port_names(module.ports@),
            names(live@).no_duplicates(),
            forall|x: Seq<char>| names(live@).contains(x) ==> cands.contains(x) && outs.contains(x),
            forall|j: int| 0 <= j < pi && (#[trigger] module.ports@[j]).dir == PortDir::Output ==> names(live@).contains(module.ports@[j].name.text@),
    {
        let p = &module.ports[pi];
        if p.dir == PortDir::Output {
            if !contains_name(&live, &p.name.text) {
                let ghost before = names(live@);
                let ghost x = p.name.text@;
                live.push(p.name.text.clone());
                proof {
                    assert(names(live@) =~= before.push(x));
                    assert(port_names[pi as int] == x);
                    assert(cands[pi as int] == x);
                    assert(outs.contains(x));
                    assert forall|y: Seq<char>| names(live@).contains(y) implies cands.contains(y) && outs.contains(y) by {
                        if y != x {
                            let j = choose|j: int| 0 <= j < names(live@).len() && names(live@)[j] == y;
                            assert(before[j] == y);
                        }
                    }
                    assert forall|j: int| 0 <= j < pi + 1 && (#[trigger] module.ports@[j]).dir == PortDir::Output implies names(live@).contains(module.ports@[j].name.text@) by {
                        if j < pi {
                            let y = module.ports@[j].name.text@;
                            let k = choose|k: int| 0 <= k < before.len() && before[k] == y;
                            assert(names(live@)[k] == y);
                        } else {
                            assert(names(live@)[names(live@).len() - 1] == x);
                        }
                    }
                }
            }
        }
    }
    proof {
        assert forall|x: Seq<char>| outs.contains(x) implies names(live@).contains(x) by {
            let j = choose|j: int| 0 <= j < module.ports@.len() && (#[trigger] module.ports@[j]).dir == PortDir::Output && module.ports@[j].name.text@ == x;
        }
        assert forall|x: Seq<char>| names(live@).contains(x) implies is_live(insts, outs, x) by {
            assert(live_within(insts, outs, x, 0));
        }
    }
    let mut changed = true;
    while changed
        invariant
            insts == gate_views(module.instances@),
            outs == output_port_names(module.ports@),
            forall|gi: int, c: int| 0 <= gi < module.instances@.len() && 0 <= c < insts[gi].connections.len()
                ==> cands.contains(#[trigger] insts[gi].connections[c].net.0),
            names(live@).no_duplicates(),
            forall|x: Seq<char>| names(live@).contains(x) ==> cands.contains(x),
            forall|x: Seq<char>| names(live@).contains(x) ==> is_live(insts, outs, x),
            forall|x: Seq<char>| outs.contains(x) ==> names(live@).contains(x),
            !changed ==> forall|gi: int, d: Seq<char>, y: Seq<char>|
                0 <= gi < insts.len() && #[trigger] drives(insts[gi], d) && names(live@).contains(d)
                    && #[trigger] reads(insts[gi], y) ==> names(live@).contains(y),
        decreases 2 * (cands.len() - live@.len()) + (if changed { 1int } else { 0int }),
    {
        proof {
            lemma_distinct_bound(names(live@), cands);
        }
        changed = liveness_pass(&module.instances, &mut live, Ghost(outs), Ghost(cands));
        proof {
            lemma_distinct_bound(names(live@), cands);
        }
    }
    let before = module.instances.len();
    let mut old_insts: Vec<GateInst> = Vec::new();
    std::mem::swap(&mut old_insts, &mut module.instances);
    let mut kept_insts: Vec<GateInst> = Vec::new();
    for inst in it: old_insts
        invariant
            insts == gate_views(it.seq()),
            gate_views(kept_insts@) == pruned(insts, outs, insts.take(it.index() as int)),
            kept_insts@.len() <= it.index(),
            forall|x: Seq<char>| names(live@).contains(x) ==> is_live(insts, outs, x),
            forall|x: Seq<char>| outs.contains(x) ==> names(live@).contains(x),
            forall|gi: int, d: Seq<char>, y: Seq<char>|
                0 <= gi < insts.len() && #[trigger] drives(insts[gi], d) && names(live@).contains(d)
                    && #[trigger] reads(insts[gi], y) ==> names(live@).contains(y),
    {
        let ghost k = it.index() as int;
        proof {
            assert(insts.take(k + 1).drop_last() =~= insts.take(k));
            assert(insts.take(k + 1).last() == inst@);
        }
        let keep = match gate_output_port(inst.kind) {
            None => true,
            Some(op) => drives_listed(&inst, op, &live),
        };
        proof {
            assert(keep == kept(insts, outs, inst@)) by {
                if output_port_spec(inst.kind) is Some {
                    let op = output_port_spec(inst.kind).unwrap();
                    if keep {
                        let c = choose|c: int|
                            0 <= c < inst@.connections.len() && ascii_ci_eq((#[trigger] inst@.connections[c]).port.0, op)
                                && names(live@).contains(inst@.connections[c].net.0);
                        assert(drives(inst@, inst@.connections[c].net.0));
                    } else {
                        assert forall|d: Seq<char>| #[trigger] drives(inst@, d) implies !is_live(insts, outs, d) by {
                            if is_live(insts, outs, d) {
                                let kk = choose|kk: nat| #[trigger] live_within(insts, outs, d, kk);
                                lemma_closed_holds_live(insts, outs, names(live@), d, kk);
                                let c = choose|c: int|
                                    0 <= c < inst@.connections.len() && ascii_ci_eq((#[trigger] inst@.connections[c]).port.0, op)
                                        && inst@.connections[c].net.0 == d;
                            }
                        }
                    }
                }
            }
        }
        if keep {
            kept_insts.push(inst);
            proof {
                assert(gate_views(kept_insts@) =~= pruned(insts, outs, insts.take(k)).push(inst@));
            }
        }
    }
    proof {
        assert(insts.take(insts.len() as int) =~= insts);
    }
    module.instances = kept_insts;
    before - module.instances.len()
}

/// Dead-gate elimination removes nothing from a design in which every
/// gate is kept (drives a live net or has no known output port).
pub proof fn law_prune_keeps_live_design(insts: Seq<GateView>, outs: Set<Seq<char>>, s: Seq<GateView>)
    requires
        forall|i: int| 0 <= i < s.len() ==> kept(insts, outs, #[trigger] s[i]),
    ensures
        pruned(insts, outs, s) == s,
    decreases s.len(),
{
    if s.len() > 0 {
        assert(kept(insts, outs, s[s.len() - 1]));
        assert forall|i: int| 0 <= i < s.drop_last().len() implies kept(insts, outs, #[trigger] s.drop_last()[i]) by {
            assert(s.drop_last()[i] == s[i]);
        }
        law_prune_keeps_live_design(insts, outs, s.drop_last());
        assert(s.drop_last().push(s.last()) =~= s);
    }
}

/// Dead-gate elimination only removes gates: what it keeps is a
/// subsequence of the input, in order, of the gates that are kept.
pub proof fn law_prune_keeps_exactly_the_kept(insts: Seq<GateView>, outs: Set<Seq<char>>, s: Seq<GateView>)
    ensures
        pruned(insts, outs, s) == s.filter(|g: GateView| kept(insts, outs, g)),
    decreases s.len(),
{
    reveal(Seq::filter);
    if s.len() > 0 {
        law_prune_keeps_exactly_the_kept(insts, outs, s.drop_last());
    }
}

/// A net shown live within `k` steps among `insts` is shown live within
/// `k` steps among the instances that dead-gate elimination keeps.
proof fn lemma_live_survives_pruning(insts: Seq<GateView>, outs: Set<Seq<char>>, net: Seq<char>, k: nat)
    requires
        live_within(insts, outs, net, k),
    ensures
        live_within(insts.filter(|g: GateView| kept(insts, outs, g)), outs, net, k),
    decreases k,
{
    let pred = |g: GateView| kept(insts, outs, g);
    let p = insts.filter(pred);
    if !outs.contains(net) {
        let (gi, d) = choose|gi: int, d: Seq<char>|
            #![trigger drives(insts[gi], d)]
            0 <= gi < insts.len() && drives(insts[gi], d) && live_within(insts, outs, d, (k - 1) as nat) && reads(
                insts[gi],
                net,
            );
        lemma_live_survives_pruning(insts, outs, d, (k - 1) as nat);
        assert(is_live(insts, outs, d));
        assert(kept(insts, outs, insts[gi]));
        insts.lemma_filter_contains(pred, gi);
        assert(p.contains(insts[gi]));
        let j = choose|j: int| 0 <= j < p.len() && p[j] == insts[gi];
        assert(drives(p[j], d) && live_within(p, outs, d, (k - 1) as nat) && reads(p[j], net));
    }
}

/// Dead-gate elimination is idempotent: running it on its own result
/// removes nothing more.
pub proof fn law_prune_idempotent(insts: Seq<GateView>, outs: Set<Seq<char>>)
    ensures
        pruned(pruned(insts, outs, insts), outs, pruned(insts, outs, insts)) == pruned(insts, outs, insts),
{
    let pred = |g: GateView| kept(insts, outs, g);
    law_prune_keeps_exactly_the_kept(insts, outs, insts);
    let p = pruned(insts, outs, insts);
    assert(p == insts.filter(pred));
    assert forall|i: int| 0 <= i < p.len() implies kept(p, outs, #[trigger] p[i]) by {
        insts.lemma_filter_pred(pred, i);
        assert(kept(insts, outs, p[i]));
        if output_port_spec(p[i].kind) is Some {
            let d = choose|d: Seq<char>| #[trigger] drives(p[i], d) && is_live(insts, outs, d);
            let k = choose|k: nat| #[trigger] live_within(insts, outs, d, k);
            lemma_live_survives_pruning(insts, outs, d, k);
            assert(is_live(p, outs, d));
        }
    }
    law_prune_keeps_live_design(p, outs, p);
}

/// `port` is the output port of a gate of kind `k`: `Y` for AND, OR, NOT,
/// XOR and the comparator, `Q` for the flip-flop and the memory cell, `OUT`
/// for the observer, the repeater and the target block (ASCII case
/// ignored).
pub open spec fn is_output_port_of(k: GateKind, port: Seq<char>) -> bool {
    match k {
        GateKind::And | GateKind::Or | GateKind::Not | GateKind::Xor | GateKind::Comparator => ascii_ci_eq(port, "Y"@),
        GateKind::DTrigger | GateKind::MemoryCell => ascii_ci_eq(port, "Q"@),
        GateKind::Observer | GateKind::Repeater | GateKind::TargetBlock => ascii_ci_eq(port, "OUT"@),
    }
}

/// Dead-gate elimination never removes a gate whose output port is
/// connected directly to a module output: such a gate is kept, and it is
/// among the instances that elimination leaves.
pub proof fn law_gate_driving_an_output_is_kept(
    insts: Seq<GateView>,
    outs: Set<Seq<char>>,
    s: Seq<GateView>,
    i: int,
    c: int,
)
    requires
        0 <= i < s.len(),
        0 <= c < s[i].connections.len(),
        is_output_port_of(s[i].kind, s[i].connections[c].port.0),
        outs.contains(s[i].connections[c].net.0),
    ensures
        kept(insts, outs, s[i]),
        pruned(insts, outs, s).contains(s[i]),
{
    let g = s[i];
    let net = g.connections[c].net.0;
    let port = g.connections[c].port.0;
    reveal_strlit("Y");
    reveal_strlit("Q");
    reveal_strlit("OUT");
    let o = output_port_spec(g.kind).unwrap();
    assert(ascii_ci_eq(port, o));
    assert(drives(g, net));
    assert(live_within(insts, outs, net, 0));
    assert(is_live(insts, outs, net));
    assert(kept(insts, outs, g));
    law_prune_keeps_exactly_the_kept(insts, outs, s);
    let pred = |x: GateView| kept(insts, outs, x);
    s.lemma_filter_contains(pred, i);
}

/// Dead-gate elimination keeps the driver of a live gate's input: when a
/// gate whose output port is connected to a module output reads net `x`
/// on another port, every gate whose output port is connected to `x` is
/// kept as well.
pub proof fn law_driver_of_a_kept_gate_input_is_kept(
    insts: Seq<GateView>,
    outs: Set<Seq<char>>,
    i: int,
    co: int,
    ci: int,
    j: int,
    cj: int,
)
    requires
        0 <= i < insts.len(),
        0 <= j < insts.len(),
        0 <= co < insts[i].connections.len(),
        0 <= ci < insts[i].connections.len(),
        0 <= cj < insts[j].connections.len(),
        is_output_port_of(insts[i].kind, insts[i].connections[co].port.0),
        outs.contains(insts[i].connections[co].net.0),
        !is_output_port_of(insts[i].kind, insts[i].connections[ci].port.0),
        is_output_port_of(insts[j].kind, insts[j].connections[cj].port.0),
        insts[j].connections[cj].net.0 == insts[i].connections[ci].net.0,
    ensures
        kept(insts, outs, insts[j]),
{
    reveal_strlit("Y");
    reveal_strlit("Q");
    reveal_strlit("OUT");
    let gi = insts[i];
    let gj = insts[j];
    let d = gi.connections[co].net.0;
    let x = gi.connections[ci].net.0;
    assert(ascii_ci_eq(gi.connections[co].port.0, output_port_spec(gi.kind).unwrap()));
    assert(!ascii_ci_eq(gi.connections[ci].port.0, output_port_spec(gi.kind).unwrap()));
    assert(ascii_ci_eq(gj.connections[cj].port.0, output_port_spec(gj.kind).unwrap()));
    assert(drives(gi, d));
    assert(reads(gi, x));
    assert(live_within(insts, outs, d, 0));
    assert(live_within(insts, outs, x, 1));
    assert(is_live(insts, outs, x));
    assert(drives(gj, x));
}

} // verus!
