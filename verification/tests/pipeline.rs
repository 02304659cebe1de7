use rb_synthesis::assemble::{assemble_grid, assembly_is_representable, placement_is_routable, GridBlock};
use rb_synthesis::ast::{Connection, GateInst, Ident, Module, PortDecl, PortDir, SignalKind, WireDecl};
use rb_synthesis::budget::{BudgetGuard, MemoryError};
use rb_synthesis::cli::{parse_u32, Cli, Footprint, IntFail, Placer, Router};
use rb_synthesis::error::{CycleError, PlaceError, RouteError};
use rb_synthesis::geom::{Bbox3, BlockId, GateKind, Pos3, SourceSpan};
use rb_synthesis::grid3d::{Grid3D, NetTag};
use rb_synthesis::lower::lower_xor_gates;
use rb_synthesis::netlist::{build_netlist, module_is_small};
use rb_synthesis::pipeline::{
    anchor_world_pos, cfg_from_cli, collect_routes, find_cell_for_node, harvest_wires, pad_bbox,
    pathfinder_cfg_from_cli, route_cfg_from_cli, route_pipeline_lee, route_pipeline_pathfinder,
    route_pipeline_pathfinder_singlepass, seed_grid_with_cells, timing_is_strict, ExitCategory, PipelineError,
};
use rb_synthesis::place::greedy::{place, PlaceConfig};
use rb_synthesis::route::lee::{RouteSegment, RoutedWire};
use rb_synthesis::timing::TimingError;
use rb_synthesis::DEFAULT_SEED;

fn sp() -> SourceSpan {
    SourceSpan { start: 0, end: 0 }
}

fn id(s: &str) -> Ident {
    Ident::new(s, sp())
}

fn gate(name: &str, kind: GateKind, conns: &[(&str, &str)]) -> GateInst {
    GateInst {
        inst_name: id(name),
        kind,
        connections: conns.iter().map(|(p, n)| Connection { port: id(p), net: id(n), span: sp() }).collect(),
        clock: None,
        compare_mode: None,
        repeater_delay: None,
        span: sp(),
    }
}

fn module(name: &str, ins: &[&str], outs: &[&str], wires: &[&str], instances: Vec<GateInst>) -> Module {
    let mut ports = Vec::new();
    for n in ins {
        ports.push(PortDecl { name: id(n), dir: PortDir::Input, kind: SignalKind::Boolean, span: sp() });
    }
    for n in outs {
        ports.push(PortDecl { name: id(n), dir: PortDir::Output, kind: SignalKind::Boolean, span: sp() });
    }
    Module {
        name: id(name),
        ports,
        wires: wires.iter().map(|w| WireDecl { name: id(w), kind: SignalKind::Boolean, span: sp() }).collect(),
        instances,
        span: sp(),
    }
}

fn cli() -> Cli {
    Cli {
        input: "in.hdl".to_string(),
        output: Some("out.litematic".to_string()),
        max_footprint: None,
        seed: None,
        dump_ast: None,
        dump_netlist: None,
        dump_placement: None,
        dump_only: false,
        verbose: 0,
        placer: Placer::Sa,
        router: Router::Lee,
        max_routing_iterations: 64,
        max_route_distance: 64,
        allow_timing_races: true,
        strict_timing: false,
        max_ram: 4096,
        stats: false,
    }
}

fn two_inverters() -> Module {
    module(
        "chain",
        &["a"],
        &["y"],
        &["w"],
        vec![gate("g1", GateKind::Not, &[("A", "a"), ("Y", "w")]), gate("g2", GateKind::Not, &[("A", "w"), ("Y", "y")])],
    )
}

#[test]
fn exit_codes_follow_the_documented_table() {
    let all = [
        (ExitCategory::Success, 0),
        (ExitCategory::Cli, 1),
        (ExitCategory::Parse, 2),
        (ExitCategory::Synth, 3),
        (ExitCategory::Place, 4),
        (ExitCategory::Route, 5),
        (ExitCategory::Nbt, 6),
        (ExitCategory::PathFinderExhausted, 7),
        (ExitCategory::MemoryCap, 8),
        (ExitCategory::TimingRace, 9),
    ];
    for (c, code) in all {
        assert_eq!(c.code(), code);
    }
}

#[test]
fn each_error_maps_to_its_exit_category() {
    let cases: Vec<(PipelineError, ExitCategory)> = vec![
        (PipelineError::Io { path: "x".into(), message: "gone".into() }, ExitCategory::Cli),
        (PipelineError::NoOutput, ExitCategory::Cli),
        (PipelineError::Parse { message: "bad".into() }, ExitCategory::Parse),
        (PipelineError::Semantic { message: "bad".into() }, ExitCategory::Parse),
        (PipelineError::Cycle(CycleError::Combinational { wires: vec!["w".into()] }), ExitCategory::Synth),
        (PipelineError::Place(PlaceError::TooLarge { actual: "1".into(), bound: "0".into() }), ExitCategory::Place),
        (
            PipelineError::Route(RouteError::Exhausted { unrouted: vec![], retries: 0, final_bbox: "n/a".into() }),
            ExitCategory::Route,
        ),
        (
            PipelineError::Route(RouteError::ConvergenceExhausted { unrouted: vec![], iterations: 1, peak_congestion: 0 }),
            ExitCategory::PathFinderExhausted,
        ),
        (PipelineError::Nbt { message: "disk".into() }, ExitCategory::Nbt),
        (PipelineError::Memory(MemoryError::CapExceeded { cap: 1, actual: 2, stage: "s" }), ExitCategory::MemoryCap),
        (
            PipelineError::Timing(TimingError::DataRace { sink_index: 0, arrivals: vec![0, 1], tolerance: 0 }),
            ExitCategory::TimingRace,
        ),
    ];
    for (e, c) in cases {
        assert_eq!(ExitCategory::for_error(&e), c, "{e:?}");
    }
}

#[test]
fn configs_follow_the_command_line() {
    let mut c = cli();
    let pc = cfg_from_cli(&c);
    assert_eq!(pc.max_footprint, (256, 384, 256));
    assert_eq!(pc.row_gap_z, 4);
    c.max_footprint = Some(Footprint { width: 10, height: 20, depth: 30 });
    assert_eq!(cfg_from_cli(&c).max_footprint, (10, 20, 30));

    let rc = route_cfg_from_cli(&c);
    assert_eq!(rc.seed, DEFAULT_SEED);
    assert_eq!(rc.initial_max_distance, 64);
    c.seed = Some(7);
    c.max_route_distance = 320;
    let rc = route_cfg_from_cli(&c);
    assert_eq!(rc.seed, 7);
    assert_eq!(rc.initial_max_distance, 320);
    assert_eq!(rc.bbox_grow_step, 64);
    assert_eq!(rc.max_bbox_retries, 4);

    c.max_routing_iterations = 3;
    let pf = pathfinder_cfg_from_cli(&c);
    assert_eq!(pf.max_iterations, 3);
    assert_eq!(pf.max_explored_cells, 256_000);
    assert!(!pf.adjacency_isolation);

    assert!(!timing_is_strict(&c));
    c.strict_timing = true;
    assert!(timing_is_strict(&c));
    c.strict_timing = false;
    c.allow_timing_races = false;
    assert!(timing_is_strict(&c));
}

#[test]
fn footprint_parses_three_components() {
    assert_eq!(Footprint::parse("256x384x256"), Ok(Footprint { width: 256, height: 384, depth: 256 }));
    assert_eq!(Footprint::parse(" 3 X 4×5 "), Ok(Footprint { width: 3, height: 4, depth: 5 }));
    assert_eq!("+7x1x4096".parse::<Footprint>(), Ok(Footprint { width: 7, height: 1, depth: 4096 }));
}

#[test]
fn footprint_errors_name_the_offending_component() {
    assert_eq!(
        Footprint::parse("3x3"),
        Err("expected WxHxD (three components separated by 'x' or '×'), got '3x3'".to_string())
    );
    assert_eq!(Footprint::parse("0x3x3"), Err("width must be > 0, got 0".to_string()));
    assert_eq!(Footprint::parse("3x5000x3"), Err("height too large: 5000 > 4096 (sanity cap)".to_string()));
    assert_eq!(Footprint::parse("3x3xq"), Err("invalid depth 'q': invalid digit found in string".to_string()));
    assert_eq!(Footprint::parse("3xx3"), Err("invalid height '': cannot parse integer from empty string".to_string()));
    assert_eq!(
        Footprint::parse("99999999999x1x1"),
        Err("invalid width '99999999999': number too large to fit in target type".to_string())
    );
}

#[test]
fn decimal_parsing_matches_std() {
    assert_eq!(parse_u32("4294967295"), Ok(u32::MAX));
    assert_eq!(parse_u32("4294967296"), Err(IntFail::Overflow));
    assert_eq!(parse_u32("+12"), Ok(12));
    assert_eq!(parse_u32("-"), Err(IntFail::InvalidDigit));
    assert_eq!(parse_u32(""), Err(IntFail::Empty));
    assert_eq!(parse_u32("1 2"), Err(IntFail::InvalidDigit));
    for s in ["0", "17", "+0", "-0", "-1", "0042", "x"] {
        assert_eq!(parse_u32(s).ok(), s.parse::<u32>().ok(), "{s}");
    }
}

#[test]
fn budget_check_fires_only_above_the_cap() {
    let g = BudgetGuard::new(1, "after_place");
    assert_eq!(g.cap_bytes(), 1024 * 1024);
    assert_eq!(g.stage_label(), "after_place");
    assert!(matches!(g.check_sample(1024 * 1024), Ok(v) if v == 1024 * 1024));
    match g.check_sample(1024 * 1024 + 1) {
        Err(MemoryError::CapExceeded { cap, actual, stage }) => {
            assert_eq!(cap, 1024 * 1024);
            assert_eq!(actual, 1024 * 1024 + 1);
            assert_eq!(stage, "after_place");
        }
        other => panic!("expected CapExceeded, got {other:?}"),
    }
    // A zero cap refuses any measured use; a generous one accepts it.
    let rss = BudgetGuard::current_rss_bytes();
    if rss > 0 {
        assert!(BudgetGuard::new(0, "zero").check().is_err());
        assert!(BudgetGuard::new(u32::MAX, "big").check().is_ok());
    }
}

#[test]
fn world_positions_and_padding() {
    assert_eq!(anchor_world_pos(Pos3::new(10, 0, 4), Pos3::new(2, 1, -1)), Pos3::new(12, 1, 3));
    let b = Bbox3::from_corners(Pos3::new(0, 0, 0), Pos3::new(4, 2, 2));
    assert_eq!(pad_bbox(b, 3), Bbox3::from_corners(Pos3::new(-3, -3, -3), Pos3::new(7, 5, 5)));
}

#[test]
fn lee_pipeline_routes_a_two_gate_chain() {
    let m = two_inverters();
    assert!(module_is_small(&m));
    let netlist = build_netlist(&m).expect("netlist");
    let pl = place(&netlist, &PlaceConfig::default()).expect("placement");
    assert!(placement_is_routable(&pl));
    assert_eq!(find_cell_for_node(&pl, pl.cells[1].node), Some(1));
    assert_eq!(find_cell_for_node(&pl, 999), None);

    let routes = collect_routes(&pl, &netlist);
    // Only net w joins two placed cells.
    assert_eq!(routes.len(), 1);

    let mut grid = Grid3D::new();
    seed_grid_with_cells(&mut grid, &pl);
    assert!(grid.len() > 0);
    assert!(harvest_wires(&grid).is_empty());

    let (wires, unrouted) = route_pipeline_lee(&pl, &netlist, &rb_synthesis::route::lee::RouteConfig::default());
    assert!(unrouted.is_empty(), "unrouted: {unrouted:?}");
    assert_eq!(wires.len(), 1);
    assert!(!wires[0].segments.is_empty());
    assert!(assembly_is_representable(&pl, &wires));

    let grid = assemble_grid(&pl, &wires);
    assert_eq!(grid.bounds.min, Pos3::origin());
    assert!(grid.blocks.len() > 0);
}

#[test]
fn pathfinder_pipelines_route_a_two_gate_chain() {
    let netlist = build_netlist(&two_inverters()).expect("netlist");
    let pl = place(&netlist, &PlaceConfig::default()).expect("placement");
    let cfg = pathfinder_cfg_from_cli(&cli());
    let wires = route_pipeline_pathfinder(&pl, &netlist, &cfg).expect("routes");
    assert_eq!(wires.len(), 1);
    assert!(wires[0].segments.iter().all(|s| matches!(s, RouteSegment::Dust { .. })));
    let (w2, unrouted) = route_pipeline_pathfinder_singlepass(&pl, &netlist, &cfg);
    assert!(unrouted.is_empty());
    assert_eq!(w2.len(), 1);
}

#[test]
fn lowered_half_adder_places_and_routes() {
    let mut m = module(
        "ha",
        &["a", "b"],
        &["sum", "carry"],
        &[],
        vec![
            gate("x1", GateKind::Xor, &[("A", "a"), ("B", "b"), ("Y", "sum")]),
            gate("a1", GateKind::And, &[("A", "a"), ("B", "b"), ("Y", "carry")]),
        ],
    );
    lower_xor_gates(&mut m);
    let netlist = build_netlist(&m).expect("netlist");
    let pl = place(&netlist, &PlaceConfig::default()).expect("placement");
    assert_eq!(pl.cells.len(), 6);
    let (wires, _unrouted) = route_pipeline_lee(&pl, &netlist, &rb_synthesis::route::lee::RouteConfig::default());
    let grid = assemble_grid(&pl, &wires);
    assert_eq!(grid.bounds.min, Pos3::origin());
}

#[test]
fn assembly_keeps_cell_blocks_and_supports_wires() {
    let netlist = build_netlist(&two_inverters()).expect("netlist");
    let pl = place(&netlist, &PlaceConfig::default()).expect("placement");
    // A hand-made wire: one cell already owned by a cell block, one free
    // cell below the placement's floor.
    let owned = pl.cells[0].macro_cell.blocks[0].pos;
    let owned_world = Pos3::new(pl.cells[0].origin.x + owned.x, pl.cells[0].origin.y + owned.y, pl.cells[0].origin.z + owned.z);
    let free = Pos3::new(-3, -2, -3);
    let wire = RoutedWire {
        net: NetTag(1),
        segments: vec![RouteSegment::Dust { pos: owned_world }, RouteSegment::Dust { pos: free }],
    };
    let wires = vec![wire];
    let grid = assemble_grid(&pl, &wires);
    // The box grew to the free cell and the support under it, and was
    // shifted so that the free cell's support is at y = 0, x = 0, z = 0.
    assert_eq!(grid.bounds.min, Pos3::origin());
    let d = (3, 3, 3);
    let key = |p: Pos3| (p.y + d.1, p.z + d.2, p.x + d.0);
    let cell_block = pl.cells[0].macro_cell.blocks[0];
    assert_eq!(grid.blocks.get(&key(owned_world)).map(|g| g.block), Some(cell_block.block));
    assert_eq!(
        grid.blocks.get(&key(free)),
        Some(&GridBlock { block: BlockId::RedstoneDust, facing: None, delay: None, mode: None })
    );
    let under = Pos3::new(free.x, free.y - 1, free.z);
    assert_eq!(grid.blocks.get(&key(under)).map(|g| g.block), Some(BlockId::Stone));
}

#[test]
fn footprint_text_round_trips() {
    for (w, h, d) in [(1, 1, 1), (256, 384, 256), (4096, 7, 19), (10, 4096, 3)] {
        for sep in ['x', 'X', '×'] {
            let s = format!("{w}{sep}{h}{sep}{d}");
            assert_eq!(Footprint::parse(&s), Ok(Footprint { width: w, height: h, depth: d }), "{s}");
        }
    }
}

#[test]
fn assembly_beyond_the_i32_range_is_refused_up_front() {
    let netlist = build_netlist(&two_inverters()).expect("netlist");
    let pl = place(&netlist, &PlaceConfig::default()).expect("placement");
    let far = RoutedWire { net: NetTag(1), segments: vec![RouteSegment::Dust { pos: Pos3::new(-10, 0, 0) }, RouteSegment::Dust { pos: Pos3::new(i32::MAX, 0, 0) }] };
    assert!(!assembly_is_representable(&pl, &[far]));
    let deep = RoutedWire { net: NetTag(1), segments: vec![RouteSegment::Dust { pos: Pos3::new(0, i32::MIN, 0) }] };
    assert!(!assembly_is_representable(&pl, &[deep]));
    let wide = RoutedWire { net: NetTag(1), segments: vec![RouteSegment::Dust { pos: Pos3::new(1_000_000_000, 0, 0) }] };
    assert!(assembly_is_representable(&pl, &[wide.clone()]));
    let grid = assemble_grid(&pl, &[wide]);
    assert!(grid.bounds.max.x >= 1_000_000_000);
}
