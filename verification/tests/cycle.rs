use rb_synthesis::ast::{Connection, GateInst, Ident, Module, PortDecl, PortDir, SignalKind, WireDecl};
use rb_synthesis::cycle::detect_cycles;
use rb_synthesis::error::CycleError;
use rb_synthesis::geom::{GateKind, SourceSpan};
use rb_synthesis::netlist::build_netlist;

fn sp() -> SourceSpan {
    SourceSpan { start: 0, end: 0 }
}

fn id(s: &str) -> Ident {
    Ident::new(s, sp())
}

fn gate(name: &str, kind: GateKind, conns: &[(&str, &str)]) -> GateInst {
    GateInst {
        inst_name: id(name),
        kind,
        connections: conns.iter().map(|(p, n)| Connection { port: id(p), net: id(n), span: sp() }).collect(),
        clock: None,
        compare_mode: None,
        repeater_delay: None,
        span: sp(),
    }
}

fn clocked(mut g: GateInst, clk: &str) -> GateInst {
    g.clock = Some(id(clk));
    g
}

fn module(name: &str, ins: &[&str], outs: &[&str], wires: &[&str], instances: Vec<GateInst>) -> Module {
    let mut ports = Vec::new();
    for n in ins {
        ports.push(PortDecl { name: id(n), dir: PortDir::Input, kind: SignalKind::Boolean, span: sp() });
    }
    for n in outs {
        ports.push(PortDecl { name: id(n), dir: PortDir::Output, kind: SignalKind::Boolean, span: sp() });
    }
    Module {
        name: id(name),
        ports,
        wires: wires.iter().map(|w| WireDecl { name: id(w), kind: SignalKind::Boolean, span: sp() }).collect(),
        instances,
        span: sp(),
    }
}

#[test]
fn three_gate_combinational_cycle_is_rejected() {
    let m = module(
        "loop3",
        &["start"],
        &["y"],
        &["w1", "w2", "w3"],
        vec![
            gate("g1", GateKind::Not, &[("A", "w3"), ("Y", "w1")]),
            gate("g2", GateKind::Not, &[("A", "w1"), ("Y", "w2")]),
            gate("g3", GateKind::Not, &[("A", "w2"), ("Y", "w3")]),
            gate("gy", GateKind::Not, &[("A", "w1"), ("Y", "y")]),
        ],
    );
    let netlist = build_netlist(&m).expect("netlist");
    let err = detect_cycles(&netlist).expect_err("cycle must be detected");
    let CycleError::Combinational { wires } = err;
    assert!(wires.iter().any(|w| w == "w1"), "got wires: {wires:?}");
    assert!(wires.iter().any(|w| w == "w2"), "got wires: {wires:?}");
    assert!(wires.iter().any(|w| w == "w3"), "got wires: {wires:?}");
    // Sorted and de-duplicated.
    let mut sorted = wires.clone();
    sorted.sort();
    sorted.dedup();
    assert_eq!(sorted, wires);
}

#[test]
fn linear_chain_has_no_cycle() {
    let m = module(
        "chain",
        &["a"],
        &["y"],
        &["w"],
        vec![gate("g1", GateKind::Not, &[("A", "a"), ("Y", "w")]), gate("g2", GateKind::Not, &[("A", "w"), ("Y", "y")])],
    );
    let netlist = build_netlist(&m).expect("netlist");
    detect_cycles(&netlist).expect("DAG: no cycle expected");
}

#[test]
fn feedback_through_dtrigger_is_legal() {
    let m = module(
        "counter",
        &["clk"],
        &["q"],
        &["w"],
        vec![
            gate("inv", GateKind::Not, &[("A", "w"), ("Y", "q")]),
            clocked(gate("ff", GateKind::DTrigger, &[("D", "w"), ("CLK", "clk"), ("Q", "w")]), "clk"),
        ],
    );
    let netlist = build_netlist(&m).expect("netlist");
    detect_cycles(&netlist).expect("sequential feedback through DTrigger must be legal");
}

#[test]
fn feedback_through_memcell_is_legal() {
    let m = module(
        "hold",
        &["data", "we", "clk"],
        &["q"],
        &["w"],
        vec![
            gate("inv", GateKind::Not, &[("A", "w"), ("Y", "q")]),
            clocked(gate("m", GateKind::MemoryCell, &[("DATA", "w"), ("WRITE", "we"), ("Q", "w")]), "clk"),
        ],
    );
    let netlist = build_netlist(&m).expect("netlist");
    detect_cycles(&netlist).expect("self-feedback through MemoryCell must be legal");
}

#[test]
fn pure_combinational_cycle_still_rejected_when_stateful_gates_present() {
    let m = module(
        "bad",
        &["a", "clk"],
        &["q"],
        &["w1", "w2", "x"],
        vec![
            gate("g1", GateKind::Xor, &[("A", "a"), ("B", "w2"), ("Y", "w1")]),
            gate("g2", GateKind::Xor, &[("A", "w1"), ("B", "a"), ("Y", "w2")]),
            clocked(gate("ff", GateKind::DTrigger, &[("D", "w1"), ("CLK", "clk"), ("Q", "x")]), "clk"),
            gate("inv", GateKind::Not, &[("A", "x"), ("Y", "q")]),
        ],
    );
    let netlist = build_netlist(&m).expect("netlist");
    let err = detect_cycles(&netlist).expect_err("combinational w1<->w2 cycle must be rejected");
    let CycleError::Combinational { wires } = err;
    assert!(
        wires.iter().any(|w| w == "w1") && wires.iter().any(|w| w == "w2"),
        "expected w1 and w2 in cycle, got: {wires:?}"
    );
}

#[test]
fn self_loop_on_a_combinational_gate_is_rejected() {
    let m = module("selfy", &["a"], &["y"], &["w"], vec![
        gate("g", GateKind::And, &[("A", "a"), ("B", "w"), ("Y", "w")]),
        gate("o", GateKind::Not, &[("A", "w"), ("Y", "y")]),
    ]);
    let netlist = build_netlist(&m).expect("netlist");
    let err = detect_cycles(&netlist).expect_err("self loop");
    let CycleError::Combinational { wires } = err;
    assert_eq!(wires, vec!["w".to_string()]);
}

#[test]
fn connection_to_a_missing_port_is_an_unknown_port_error() {
    let m = module("bad", &["a"], &["w"], &[], vec![gate("g", GateKind::Not, &[("Z", "a"), ("Y", "w")])]);
    match build_netlist(&m) {
        Err(rb_synthesis::error::SynthError::UnknownPort { inst, port }) => {
            assert_eq!(inst, "g");
            assert_eq!(port, "Z");
        }
        other => panic!("expected UnknownPort, got {other:?}"),
    }
}

#[test]
fn a_flip_flop_output_edge_carries_the_q_role() {
    let m = module(
        "ffq",
        &["clk"],
        &["q"],
        &["w", "x"],
        vec![
            clocked(gate("ff", GateKind::DTrigger, &[("D", "w"), ("CLK", "clk"), ("Q", "x")]), "clk"),
            gate("inv", GateKind::Not, &[("A", "x"), ("Y", "q")]),
        ],
    );
    let netlist = build_netlist(&m).expect("netlist");
    let e = netlist
        .graph
        .edge_weights()
        .find(|e| e.to == rb_synthesis::netlist::EndpointRole::DataIn(0))
        .expect("ff -> inv edge");
    assert_eq!(e.from, rb_synthesis::netlist::EndpointRole::Q);
}
