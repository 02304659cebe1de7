use rb_synthesis::ast::{Connection, GateInst, Ident, Module, PortDecl, PortDir, SignalKind, WireDecl};
use rb_synthesis::geom::{GateKind, SourceSpan};
use rb_synthesis::lower::lower_xor_gates;
use rb_synthesis::optimize::{gate_drives, prune_dead_gates};

fn sp() -> SourceSpan {
    SourceSpan { start: 0, end: 0 }
}

fn id(s: &str) -> Ident {
    Ident::new(s, sp())
}

fn gate(name: &str, kind: GateKind, conns: &[(&str, &str)]) -> GateInst {
    GateInst {
        inst_name: id(name),
        kind,
        connections: conns.iter().map(|(p, n)| Connection { port: id(p), net: id(n), span: sp() }).collect(),
        clock: None,
        compare_mode: None,
        repeater_delay: None,
        span: sp(),
    }
}

fn module(name: &str, ins: &[&str], outs: &[&str], wires: &[&str], instances: Vec<GateInst>) -> Module {
    let mut ports = Vec::new();
    for n in ins {
        ports.push(PortDecl { name: id(n), dir: PortDir::Input, kind: SignalKind::Boolean, span: sp() });
    }
    for n in outs {
        ports.push(PortDecl { name: id(n), dir: PortDir::Output, kind: SignalKind::Boolean, span: sp() });
    }
    Module {
        name: id(name),
        ports,
        wires: wires.iter().map(|w| WireDecl { name: id(w), kind: SignalKind::Boolean, span: sp() }).collect(),
        instances,
        span: sp(),
    }
}

fn count(m: &Module, k: GateKind) -> usize {
    m.instances.iter().filter(|i| i.kind == k).count()
}

fn conn<'a>(g: &'a GateInst, port: &str) -> &'a str {
    g.connections.iter().find(|c| c.port.as_str() == port).map(|c| c.net.as_str()).unwrap()
}

#[test]
fn lowering_replaces_xor_with_two_nots_two_ands_one_or() {
    let mut m = module("m", &["a", "b"], &["y"], &[], vec![gate("g", GateKind::Xor, &[("A", "a"), ("B", "b"), ("Y", "y")])]);
    assert_eq!(m.instances.len(), 1);
    assert_eq!(m.instances[0].kind, GateKind::Xor);
    lower_xor_gates(&mut m);
    assert_eq!(m.instances.len(), 5);
    assert_eq!(count(&m, GateKind::Xor), 0);
    assert_eq!(count(&m, GateKind::Not), 2);
    assert_eq!(count(&m, GateKind::And), 2);
    assert_eq!(count(&m, GateKind::Or), 1);
    let wire_names: Vec<String> = m.wires.iter().map(|w| w.name.as_str().to_string()).collect();
    let internal_count = wire_names.iter().filter(|n| n.contains("__xor_g_")).count();
    assert_eq!(internal_count, 4, "got wires: {wire_names:?}");
}

#[test]
fn lowering_preserves_non_xor_instances() {
    let mut m = module(
        "m",
        &["a", "b"],
        &["y"],
        &["t"],
        vec![gate("g1", GateKind::And, &[("A", "a"), ("B", "b"), ("Y", "t")]), gate("g2", GateKind::Not, &[("A", "t"), ("Y", "y")])],
    );
    let before_kinds: Vec<GateKind> = m.instances.iter().map(|i| i.kind).collect();
    lower_xor_gates(&mut m);
    let after_kinds: Vec<GateKind> = m.instances.iter().map(|i| i.kind).collect();
    assert_eq!(before_kinds, after_kinds);
}

#[test]
fn lowering_handles_multiple_xors_with_unique_synthetic_names() {
    let mut m = module(
        "m",
        &["a", "b", "c"],
        &["y1", "y2"],
        &[],
        vec![
            gate("g1", GateKind::Xor, &[("A", "a"), ("B", "b"), ("Y", "y1")]),
            gate("g2", GateKind::Xor, &[("A", "b"), ("B", "c"), ("Y", "y2")]),
        ],
    );
    lower_xor_gates(&mut m);
    assert_eq!(m.instances.len(), 10);
    let mut names: Vec<String> = m.instances.iter().map(|i| i.inst_name.as_str().to_string()).collect();
    names.sort();
    let n_before = names.len();
    names.dedup();
    assert_eq!(names.len(), n_before, "duplicate instance names");
}

#[test]
fn lowering_is_idempotent() {
    let mut m = module("m", &["a", "b"], &["y"], &[], vec![gate("g", GateKind::Xor, &[("A", "a"), ("B", "b"), ("Y", "y")])]);
    lower_xor_gates(&mut m);
    let after_first = m.instances.len();
    let wires_first = m.wires.len();
    lower_xor_gates(&mut m);
    assert_eq!(m.instances.len(), after_first);
    assert_eq!(m.wires.len(), wires_first);
}

#[test]
fn lowered_xor_is_wired_as_and_or_of_inverted_inputs() {
    let mut m = module("m", &["a", "b"], &["y"], &[], vec![gate("g", GateKind::Xor, &[("A", "a"), ("B", "b"), ("Y", "y")])]);
    lower_xor_gates(&mut m);
    let names: Vec<&str> = m.instances.iter().map(|i| i.inst_name.as_str()).collect();
    assert_eq!(names, vec!["__xor_g_not_a__", "__xor_g_not_b__", "__xor_g_and_ab__", "__xor_g_and_ba__", "__xor_g_or__"]);
    let wires: Vec<&str> = m.wires.iter().map(|w| w.name.as_str()).collect();
    assert_eq!(wires, vec!["__xor_g_na__", "__xor_g_nb__", "__xor_g_ab__", "__xor_g_nba__"]);
    assert_eq!(conn(&m.instances[0], "A"), "a");
    assert_eq!(conn(&m.instances[0], "Y"), "__xor_g_na__");
    assert_eq!(conn(&m.instances[2], "A"), "a");
    assert_eq!(conn(&m.instances[2], "B"), "__xor_g_nb__");
    assert_eq!(conn(&m.instances[3], "A"), "__xor_g_na__");
    assert_eq!(conn(&m.instances[3], "B"), "b");
    assert_eq!(conn(&m.instances[4], "Y"), "y");
}

#[test]
fn lowering_names_missing_ports() {
    let mut m = module("m", &["a"], &["y"], &[], vec![gate("g", GateKind::Xor, &[("a", "a"), ("Y", "y")])]);
    lower_xor_gates(&mut m);
    // Port names match ignoring ASCII case; B is missing.
    assert_eq!(conn(&m.instances[0], "A"), "a");
    assert_eq!(conn(&m.instances[1], "A"), "__missing_B_in_g__");
}

#[test]
fn dead_gate_is_removed() {
    let mut m = module(
        "m",
        &["a", "b"],
        &["y"],
        &["dead"],
        vec![
            gate("g_live", GateKind::And, &[("A", "a"), ("B", "b"), ("Y", "y")]),
            gate("g_dead", GateKind::And, &[("A", "a"), ("B", "b"), ("Y", "dead")]),
        ],
    );
    assert_eq!(m.instances.len(), 2);
    let removed = prune_dead_gates(&mut m);
    assert_eq!(removed, 1, "exactly g_dead should be pruned");
    assert_eq!(m.instances.len(), 1);
    assert_eq!(m.instances[0].inst_name.as_str(), "g_live");
}

#[test]
fn transitive_dead_chain_is_fully_removed() {
    let mut m = module(
        "m",
        &["a"],
        &["y"],
        &["w0", "w1", "w2"],
        vec![
            gate("live", GateKind::Not, &[("A", "a"), ("Y", "y")]),
            gate("d0", GateKind::Not, &[("A", "a"), ("Y", "w0")]),
            gate("d1", GateKind::Not, &[("A", "w0"), ("Y", "w1")]),
            gate("d2", GateKind::Not, &[("A", "w1"), ("Y", "w2")]),
        ],
    );
    let removed = prune_dead_gates(&mut m);
    assert_eq!(removed, 3, "all 3 dead gates pruned");
    assert_eq!(m.instances.len(), 1);
}

#[test]
fn live_design_is_untouched() {
    let mut m = module(
        "ha",
        &["a", "b"],
        &["sum", "carry"],
        &["ab"],
        vec![
            gate("x1", GateKind::Xor, &[("A", "a"), ("B", "b"), ("Y", "ab")]),
            gate("x2", GateKind::Xor, &[("A", "ab"), ("B", "b"), ("Y", "sum")]),
            gate("a1", GateKind::And, &[("A", "a"), ("B", "b"), ("Y", "carry")]),
        ],
    );
    let before = m.instances.len();
    let removed = prune_dead_gates(&mut m);
    assert_eq!(removed, 0, "fully-live design must not shrink");
    assert_eq!(m.instances.len(), before);
}

#[test]
fn stateful_chain_into_an_output_is_kept() {
    let mut m = module(
        "m",
        &["d", "clk"],
        &["q"],
        &["w"],
        vec![
            gate("ff", GateKind::DTrigger, &[("D", "d"), ("CLK", "clk"), ("Q", "w")]),
            gate("n", GateKind::Not, &[("A", "w"), ("Y", "q")]),
        ],
    );
    assert!(gate_drives(&m.instances[0], "w"));
    assert!(!gate_drives(&m.instances[0], "d"));
    assert_eq!(prune_dead_gates(&mut m), 0);
}

#[test]
fn pruning_twice_removes_nothing_more() {
    let mut m = module(
        "m",
        &["a"],
        &["y"],
        &["w0", "w1", "w2", "u"],
        vec![
            gate("live", GateKind::Not, &[("A", "u"), ("Y", "y")]),
            gate("feed", GateKind::Not, &[("A", "a"), ("Y", "u")]),
            gate("d0", GateKind::Not, &[("A", "a"), ("Y", "w0")]),
            gate("d1", GateKind::And, &[("A", "w0"), ("B", "u"), ("Y", "w1")]),
            gate("d2", GateKind::Not, &[("A", "w1"), ("Y", "w2")]),
        ],
    );
    assert_eq!(prune_dead_gates(&mut m), 3);
    let names: Vec<&str> = m.instances.iter().map(|i| i.inst_name.as_str()).collect();
    assert_eq!(names, vec!["live", "feed"]);
    assert_eq!(prune_dead_gates(&mut m), 0);
    assert_eq!(m.instances.len(), 2);
}

#[test]
fn lowered_xor_evaluates_to_exclusive_or() {
    let mut m = module("m", &["a", "b"], &["y"], &[], vec![gate("g", GateKind::Xor, &[("A", "a"), ("B", "b"), ("Y", "y")])]);
    lower_xor_gates(&mut m);
    for (a, b) in [(false, false), (false, true), (true, false), (true, true)] {
        let mut levels: Vec<(String, bool)> = vec![("a".to_string(), a), ("b".to_string(), b)];
        let level = |levels: &Vec<(String, bool)>, n: &str| levels.iter().find(|(k, _)| k == n).map(|(_, v)| *v).unwrap();
        for inst in &m.instances {
            let out = match inst.kind {
                GateKind::Not => !level(&levels, conn(inst, "A")),
                GateKind::And => level(&levels, conn(inst, "A")) && level(&levels, conn(inst, "B")),
                GateKind::Or => level(&levels, conn(inst, "A")) || level(&levels, conn(inst, "B")),
                other => panic!("unexpected kind {:?}", other),
            };
            levels.push((conn(inst, "Y").to_string(), out));
        }
        assert_eq!(level(&levels, "y"), a != b);
    }
}
