use rb_synthesis::ast::{Connection, GateInst, Ident, Module, PortDecl, PortDir, SignalKind, WireDecl};
use rb_synthesis::geom::{GateKind, SourceSpan};
use rb_synthesis::netlist::build_netlist;
use rb_synthesis::timing::{analyse_timing, TimingConfig, TimingError};

fn sp() -> SourceSpan {
    SourceSpan { start: 0, end: 0 }
}

fn id(s: &str) -> Ident {
    Ident::new(s, sp())
}

fn gate(name: &str, kind: GateKind, conns: &[(&str, &str)]) -> GateInst {
    GateInst {
        inst_name: id(name),
        kind,
        connections: conns.iter().map(|(p, n)| Connection { port: id(p), net: id(n), span: sp() }).collect(),
        clock: None,
        compare_mode: None,
        repeater_delay: None,
        span: sp(),
    }
}

fn module(name: &str, ins: &[&str], outs: &[&str], wires: &[&str], instances: Vec<GateInst>) -> Module {
    let mut ports = Vec::new();
    for n in ins {
        ports.push(PortDecl { name: id(n), dir: PortDir::Input, kind: SignalKind::Boolean, span: sp() });
    }
    for n in outs {
        ports.push(PortDecl { name: id(n), dir: PortDir::Output, kind: SignalKind::Boolean, span: sp() });
    }
    Module {
        name: id(name),
        ports,
        wires: wires.iter().map(|w| WireDecl { name: id(w), kind: SignalKind::Boolean, span: sp() }).collect(),
        instances,
        span: sp(),
    }
}

#[test]
fn linear_chain_accumulates_arrival_ticks() {
    let m = module(
        "chain",
        &["a"],
        &["y"],
        &["w1", "w2"],
        vec![
            gate("g1", GateKind::Not, &[("A", "a"), ("Y", "w1")]),
            gate("g2", GateKind::Not, &[("A", "w1"), ("Y", "w2")]),
            gate("g3", GateKind::Not, &[("A", "w2"), ("Y", "y")]),
        ],
    );
    let netlist = build_netlist(&m).expect("netlist");
    let timing = analyse_timing(&netlist, &TimingConfig::default()).expect("analyse");
    let max_arrival = timing.arrival.values().map(|t| t.0).max().unwrap_or(0);
    assert!(max_arrival >= 3, "expected at least tick 3 (3 NOTs), got {max_arrival}");
    // Exact values: a node's arrival is the tick its output is stable,
    // the latest of its inputs plus its own delay (one tick per inverter).
    // Node order: a (0), y (1), g1 (2), g2 (3), g3 (4).
    assert_eq!(timing.arrival.get(&0).map(|t| t.0), Some(0));
    assert_eq!(timing.arrival.get(&2).map(|t| t.0), Some(1));
    assert_eq!(timing.arrival.get(&3).map(|t| t.0), Some(2));
    assert_eq!(timing.arrival.get(&4).map(|t| t.0), Some(3));
    assert_eq!(timing.arrival.get(&1).map(|t| t.0), Some(3));
}

#[test]
fn matched_converging_paths_have_no_data_race() {
    let m = module(
        "balanced",
        &["a"],
        &["y"],
        &["w1", "w2"],
        vec![
            gate("g1", GateKind::Not, &[("A", "a"), ("Y", "w1")]),
            gate("g2", GateKind::Not, &[("A", "w1"), ("Y", "w2")]),
            gate("out", GateKind::And, &[("A", "w1"), ("B", "w2"), ("Y", "y")]),
        ],
    );
    let netlist = build_netlist(&m).expect("netlist");
    let cfg = TimingConfig { data_race_tolerance: 5 };
    let _ = analyse_timing(&netlist, &cfg).expect("no race expected with tolerance=5");
}

#[test]
fn skewed_converging_paths_report_data_race() {
    let m = module(
        "skewed",
        &["a"],
        &["y"],
        &["w1", "w2", "mid1", "mid2"],
        vec![
            gate("g1", GateKind::Not, &[("A", "a"), ("Y", "w1")]),
            gate("g2", GateKind::Not, &[("A", "a"), ("Y", "mid1")]),
            gate("g3", GateKind::Not, &[("A", "mid1"), ("Y", "mid2")]),
            gate("g4", GateKind::Not, &[("A", "mid2"), ("Y", "w2")]),
            gate("out", GateKind::And, &[("A", "w1"), ("B", "w2"), ("Y", "y")]),
        ],
    );
    let netlist = build_netlist(&m).expect("netlist");
    let err = analyse_timing(&netlist, &TimingConfig::default()).expect_err("race expected");
    let TimingError::DataRace { arrivals, tolerance, .. } = err;
    assert_eq!(tolerance, 0);
    assert!(arrivals.len() >= 2, "expected >= 2 converging arrivals");
    let spread = arrivals.iter().max().unwrap_or(&0).saturating_sub(*arrivals.iter().min().unwrap_or(&0));
    assert!(spread > 0, "expected positive skew, got arrivals {arrivals:?}");
}

#[test]
fn skew_within_tolerance_is_accepted_and_beyond_is_reported() {
    let mk = || {
        module(
            "skewed",
            &["a"],
            &["y"],
            &["w1", "w2", "mid1", "mid2"],
            vec![
                gate("g1", GateKind::Not, &[("A", "a"), ("Y", "w1")]),
                gate("g2", GateKind::Not, &[("A", "a"), ("Y", "mid1")]),
                gate("g3", GateKind::Not, &[("A", "mid1"), ("Y", "mid2")]),
                gate("g4", GateKind::Not, &[("A", "mid2"), ("Y", "w2")]),
                gate("out", GateKind::And, &[("A", "w1"), ("B", "w2"), ("Y", "y")]),
            ],
        )
    };
    let netlist = build_netlist(&mk()).expect("netlist");
    // Arrivals at `out` are 1 and 3: skew 2.
    assert!(analyse_timing(&netlist, &TimingConfig { data_race_tolerance: 2 }).is_ok());
    let err = analyse_timing(&netlist, &TimingConfig { data_race_tolerance: 1 }).expect_err("skew 2 > 1");
    let TimingError::DataRace { arrivals, tolerance, sink_index } = err;
    assert_eq!(arrivals, vec![1, 3]);
    assert_eq!(tolerance, 1);
    // Node order: a (0), y (1), then gates g1..g4 (2..5), out (6).
    assert_eq!(sink_index, 6);
}

#[test]
fn raising_the_tolerance_keeps_a_clean_pass_and_its_arrivals() {
    let m = module(
        "skewed2",
        &["a"],
        &["y"],
        &["w1", "w2", "mid1", "mid2"],
        vec![
            gate("g1", GateKind::Not, &[("A", "a"), ("Y", "w1")]),
            gate("g2", GateKind::Not, &[("A", "a"), ("Y", "mid1")]),
            gate("g3", GateKind::Not, &[("A", "mid1"), ("Y", "mid2")]),
            gate("g4", GateKind::Not, &[("A", "mid2"), ("Y", "w2")]),
            gate("out", GateKind::And, &[("A", "w1"), ("B", "w2"), ("Y", "y")]),
        ],
    );
    let netlist = build_netlist(&m).expect("netlist");
    let at2 = analyse_timing(&netlist, &TimingConfig { data_race_tolerance: 2 }).expect("skew 2 tolerated");
    let at9 = analyse_timing(&netlist, &TimingConfig { data_race_tolerance: 9 }).expect("still tolerated");
    assert_eq!(at2.arrival, at9.arrival);
    // `out` (node 6) is stable after its slower input (3) and its own delay.
    assert_eq!(at2.arrival.get(&6).map(|t| t.0), Some(6));
}
