use rb_synthesis::ast::{Connection, GateInst, Ident, Module, PortDecl, PortDir, SignalKind, WireDecl};
use rb_synthesis::error::PlaceError;
use rb_synthesis::geom::{Bbox3, GateKind, Pos3, SourceSpan};
use rb_synthesis::netlist::build_netlist;
use rb_synthesis::place::greedy::{place, PlaceConfig};
use rb_synthesis::place::sa::{hpwl_cost, placement_bounds, restore_origins, swap_origins};

fn sp() -> SourceSpan {
    SourceSpan { start: 0, end: 0 }
}

fn id(s: &str) -> Ident {
    Ident::new(s, sp())
}

fn gate(name: &str, kind: GateKind, conns: &[(&str, &str)]) -> GateInst {
    GateInst {
        inst_name: id(name),
        kind,
        connections: conns.iter().map(|(p, n)| Connection { port: id(p), net: id(n), span: sp() }).collect(),
        clock: None,
        compare_mode: None,
        repeater_delay: None,
        span: sp(),
    }
}

fn module(name: &str, ins: &[&str], outs: &[&str], wires: &[&str], instances: Vec<GateInst>) -> Module {
    let mut ports = Vec::new();
    for n in ins {
        ports.push(PortDecl { name: id(n), dir: PortDir::Input, kind: SignalKind::Boolean, span: sp() });
    }
    for n in outs {
        ports.push(PortDecl { name: id(n), dir: PortDir::Output, kind: SignalKind::Boolean, span: sp() });
    }
    Module {
        name: id(name),
        ports,
        wires: wires.iter().map(|w| WireDecl { name: id(w), kind: SignalKind::Boolean, span: sp() }).collect(),
        instances,
        span: sp(),
    }
}

fn half_adder() -> Module {
    module(
        "ha",
        &["a", "b"],
        &["sum", "carry"],
        &[],
        vec![
            gate("x1", GateKind::Xor, &[("A", "a"), ("B", "b"), ("Y", "sum")]),
            gate("a1", GateKind::And, &[("A", "a"), ("B", "b"), ("Y", "carry")]),
        ],
    )
}

#[test]
fn exceeding_max_footprint_reports_too_large() {
    let netlist = build_netlist(&half_adder()).expect("netlist");
    let cfg = PlaceConfig { max_footprint: (3, 3, 3), row_gap_z: 1 };
    let err = place(&netlist, &cfg).expect_err("must exceed footprint");
    match err {
        PlaceError::TooLarge { actual, bound } => {
            assert!(bound.contains("3×3×3"), "bound formatted unexpectedly: {bound}");
            assert!(!actual.is_empty(), "actual footprint must be reported, got: {actual}");
        }
    }
}

#[test]
fn comfortably_sized_design_passes() {
    let netlist = build_netlist(&half_adder()).expect("netlist");
    place(&netlist, &PlaceConfig::default()).expect("half-adder fits in defaults");
}

#[test]
fn default_and_permissive_configs() {
    let d = PlaceConfig::default();
    assert_eq!(d.max_footprint, (256, 384, 256));
    assert_eq!(d.row_gap_z, 4);
    let p = PlaceConfig::max_permissive();
    assert_eq!(p.max_footprint, (i32::MAX as u32, i32::MAX as u32, i32::MAX as u32));
}

#[test]
fn cells_of_one_row_are_two_blocks_apart_and_bounds_cover_them() {
    let netlist = build_netlist(&half_adder()).expect("netlist");
    let pl = place(&netlist, &PlaceConfig::max_permissive()).expect("placement");
    assert_eq!(pl.cells.len(), 2);
    // Both gates read only module inputs: one row at z = 0.
    let c0 = &pl.cells[0];
    let c1 = &pl.cells[1];
    assert_eq!(c0.origin, Pos3::origin());
    assert_eq!(c1.origin.z, 0);
    assert_eq!(c1.origin.x, c0.footprint.max.x + 2);
    let mut u = c0.footprint;
    u = u.union(&c1.footprint);
    assert_eq!(pl.bounds, u);
    assert_eq!(placement_bounds(&pl.cells), u);
}

#[test]
fn deeper_gates_go_to_later_rows() {
    let m = module(
        "chain",
        &["a"],
        &["y"],
        &["w"],
        vec![gate("g1", GateKind::Not, &[("A", "a"), ("Y", "w")]), gate("g2", GateKind::Not, &[("A", "w"), ("Y", "y")])],
    );
    let netlist = build_netlist(&m).expect("netlist");
    let gap = 4;
    let pl = place(&netlist, &PlaceConfig { max_footprint: (1000, 1000, 1000), row_gap_z: gap }).expect("placement");
    assert_eq!(pl.cells.len(), 2);
    assert_eq!(pl.cells[0].origin, Pos3::origin());
    // The second row starts past the deepest cell of the first plus the gap.
    assert_eq!(pl.cells[1].origin.x, 0);
    assert_eq!(pl.cells[1].origin.z, pl.cells[0].footprint.max.z + 1 + gap);
}

#[test]
fn swap_then_restore_gives_back_the_placement() {
    let m = module(
        "chain",
        &["a"],
        &["y"],
        &["w"],
        vec![gate("g1", GateKind::Not, &[("A", "a"), ("Y", "w")]), gate("g2", GateKind::And, &[("A", "w"), ("B", "a"), ("Y", "y")])],
    );
    let netlist = build_netlist(&m).expect("netlist");
    let mut pl = place(&netlist, &PlaceConfig::max_permissive()).expect("placement");
    let before: Vec<(Pos3, Bbox3)> = pl.cells.iter().map(|c| (c.origin, c.footprint)).collect();
    let cost0 = hpwl_cost(&pl.cells, &netlist);
    let (o0, o1) = (pl.cells[0].origin, pl.cells[1].origin);
    swap_origins(&mut pl.cells, 0, 1);
    assert_eq!(pl.cells[0].origin, o1);
    assert_eq!(pl.cells[1].origin, o0);
    let b0 = pl.cells[0].macro_cell.bbox.max;
    assert_eq!(pl.cells[0].footprint.max, Pos3::new(o1.x + b0.x, o1.y + b0.y, o1.z + b0.z));
    restore_origins(&mut pl.cells, 0, 1, o0, o1);
    let after: Vec<(Pos3, Bbox3)> = pl.cells.iter().map(|c| (c.origin, c.footprint)).collect();
    assert_eq!(before, after);
    assert_eq!(hpwl_cost(&pl.cells, &netlist), cost0);
}

#[test]
fn hpwl_sums_x_and_z_distances_over_edges() {
    let m = module(
        "chain",
        &["a"],
        &["y"],
        &["w"],
        vec![gate("g1", GateKind::Not, &[("A", "a"), ("Y", "w")]), gate("g2", GateKind::Not, &[("A", "w"), ("Y", "y")])],
    );
    let netlist = build_netlist(&m).expect("netlist");
    let pl = place(&netlist, &PlaceConfig::max_permissive()).expect("placement");
    // Only the g1 -> g2 edge joins two placed cells.
    let a = pl.cells[0].origin;
    let b = pl.cells[1].origin;
    let expect = ((a.x - b.x).abs() + (a.z - b.z).abs()) as u128;
    assert_eq!(hpwl_cost(&pl.cells, &netlist), expect);
    assert!(expect > 0);
}

#[test]
fn placed_footprints_never_overlap() {
    // Three rows: g1 at depth 0, g2 and g3 at depth 1, g4 at depth 2.
    let m = module(
        "tree",
        &["a", "b"],
        &["y"],
        &["w1", "w2", "w3"],
        vec![
            gate("g1", GateKind::And, &[("A", "a"), ("B", "b"), ("Y", "w1")]),
            gate("g2", GateKind::Not, &[("A", "w1"), ("Y", "w2")]),
            gate("g3", GateKind::Or, &[("A", "w1"), ("B", "a"), ("Y", "w3")]),
            gate("g4", GateKind::And, &[("A", "w2"), ("B", "w3"), ("Y", "y")]),
        ],
    );
    let netlist = build_netlist(&m).expect("netlist");
    let pl = place(&netlist, &PlaceConfig { max_footprint: (1000, 1000, 1000), row_gap_z: 0 }).expect("placement");
    assert_eq!(pl.cells.len(), 4);
    let overlap = |a: &Bbox3, b: &Bbox3| {
        a.min.x <= b.max.x && b.min.x <= a.max.x && a.min.y <= b.max.y && b.min.y <= a.max.y && a.min.z <= b.max.z
            && b.min.z <= a.max.z
    };
    for i in 0..pl.cells.len() {
        for j in (i + 1)..pl.cells.len() {
            assert!(!overlap(&pl.cells[i].footprint, &pl.cells[j].footprint), "cells {i} and {j} overlap");
        }
    }
    // Rows follow depth: g2 and g3 share a row after g1's, g4 comes last.
    assert_eq!(pl.cells[1].origin.z, pl.cells[2].origin.z);
    assert!(pl.cells[1].origin.z > pl.cells[0].origin.z);
    assert!(pl.cells[3].origin.z > pl.cells[1].origin.z);
}
