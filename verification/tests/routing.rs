use rb_synthesis::error::RouteError;
use rb_synthesis::geom::{Bbox3, Pos3};
use rb_synthesis::grid3d::{CellState, Grid3D, NetTag};
use rb_synthesis::route::cost::CostMap;
use rb_synthesis::route::lee::{
    annotate_with_repeaters, route_all, route_single, route_single_bounded, route_with_retry, RouteConfig, RouteSegment, SingleRouteOutcome,
    MAX_SIGNAL,
};
use rb_synthesis::route::pathfinder::{route_pathfinder, PathFinderConfig};

fn seg_pos(s: &RouteSegment) -> Pos3 {
    match s {
        RouteSegment::Dust { pos } => *pos,
        RouteSegment::Repeater { pos, .. } => *pos,
    }
}

fn count_repeaters(segs: &[RouteSegment]) -> usize {
    segs.iter().filter(|s| matches!(s, RouteSegment::Repeater { .. })).count()
}

fn dust_positions(out: &SingleRouteOutcome) -> Vec<Pos3> {
    if let SingleRouteOutcome::Routed(w) = out {
        w.segments
            .iter()
            .filter_map(|s| match *s {
                RouteSegment::Dust { pos } => Some(pos),
                _ => None,
            })
            .collect()
    } else {
        panic!("route was not Routed: {out:?}");
    }
}

#[test]
fn long_straight_run_inserts_at_least_one_repeater() {
    let mut grid = Grid3D::new();
    let out = route_single(&mut grid, NetTag(7), Pos3::new(0, 0, 0), Pos3::new(20, 0, 0));
    let SingleRouteOutcome::Routed(w) = out else {
        panic!("expected route to succeed");
    };
    let n_repeaters = count_repeaters(&w.segments);
    assert!(n_repeaters >= 1, "expected at least one repeater on a 20-block run, got {n_repeaters}");
    assert_eq!(w.segments.len(), 21, "expected 21 segments (start through end inclusive), got {}", w.segments.len());
}

#[test]
fn repeater_short_run_has_no_repeaters() {
    let mut grid = Grid3D::new();
    let out = route_single(&mut grid, NetTag(8), Pos3::new(0, 0, 0), Pos3::new(5, 0, 0));
    let SingleRouteOutcome::Routed(w) = out else {
        panic!("expected route to succeed");
    };
    assert!(
        w.segments.iter().all(|s| matches!(s, RouteSegment::Dust { .. })),
        "5-block run should be all dust, no repeaters; got {:?}",
        w.segments
    );
}

#[test]
fn long_straight_run_via_pathfinder_inserts_at_least_one_repeater() {
    let mut cost = CostMap::new(Bbox3::from_corners(Pos3::new(-1, 0, -1), Pos3::new(25, 0, 1)));
    let routes = vec![(NetTag(1), Pos3::new(0, 0, 0), Pos3::new(20, 0, 0))];
    let wires = route_pathfinder(&mut cost, &routes, &PathFinderConfig::default()).expect("routes");
    let w = &wires[0];
    let n_rep = count_repeaters(&w.segments);
    assert!(n_rep >= 1, "expected >= 1 repeater on a 20-block straight run, got {n_rep}");
    let first_rep_idx = w
        .segments
        .iter()
        .position(|s| matches!(s, RouteSegment::Repeater { .. }))
        .expect("at least one repeater");
    assert!(first_rep_idx <= MAX_SIGNAL as usize, "first repeater at idx {first_rep_idx} exceeds strength budget");
}

#[test]
fn very_long_run_inserts_multiple_repeaters() {
    let mut cost = CostMap::new(Bbox3::from_corners(Pos3::new(-1, 0, -1), Pos3::new(40, 0, 1)));
    let routes = vec![(NetTag(1), Pos3::new(0, 0, 0), Pos3::new(35, 0, 0))];
    let wires = route_pathfinder(&mut cost, &routes, &PathFinderConfig::default()).expect("routes");
    let n_rep = count_repeaters(&wires[0].segments);
    assert!(n_rep >= 2, "expected >= 2 repeaters on a 35-block run, got {n_rep}");
}

#[test]
fn repeater_insertion_short_run_has_no_repeaters() {
    let mut cost = CostMap::new(Bbox3::from_corners(Pos3::new(-1, 0, -1), Pos3::new(10, 0, 1)));
    let routes = vec![(NetTag(1), Pos3::new(0, 0, 0), Pos3::new(5, 0, 0))];
    let wires = route_pathfinder(&mut cost, &routes, &PathFinderConfig::default()).expect("routes");
    assert_eq!(count_repeaters(&wires[0].segments), 0);
}

#[test]
fn repeaters_sit_at_every_fifteenth_cell() {
    let path: Vec<Pos3> = (0..40).map(|x| Pos3::new(x, 0, 0)).collect();
    let segs = annotate_with_repeaters(&path);
    assert_eq!(segs.len(), 40);
    for (i, s) in segs.iter().enumerate() {
        assert_eq!(seg_pos(s), path[i]);
        let is_rep = matches!(s, RouteSegment::Repeater { .. });
        assert_eq!(is_rep, (i + 1) % 15 == 0, "segment {i}");
    }
    // Every window of MAX_SIGNAL consecutive segments holds a repeater.
    for start in 0..=(segs.len() - MAX_SIGNAL as usize) {
        assert!(count_repeaters(&segs[start..start + MAX_SIGNAL as usize]) >= 1);
    }
}

#[test]
fn two_parallel_nets_do_not_share_adjacent_cells() {
    let mut grid = Grid3D::new();
    let a = NetTag(1);
    let b = NetTag(2);
    let a_out = route_single(&mut grid, a, Pos3::new(0, 0, 0), Pos3::new(10, 0, 0));
    let b_out = route_single(&mut grid, b, Pos3::new(0, 0, 3), Pos3::new(10, 0, 3));
    let a_dust = dust_positions(&a_out);
    let b_dust = dust_positions(&b_out);
    assert!(!a_dust.is_empty());
    assert!(!b_dust.is_empty());
    for pa in &a_dust {
        for pb in &b_dust {
            let same_or_adj_xz = (pa.x - pb.x).abs() <= 1 && (pa.z - pb.z).abs() <= 1 && pa.y == pb.y;
            assert!(!same_or_adj_xz, "net A at {pa:?} and net B at {pb:?} are too close");
        }
    }
}

#[test]
fn obstruction_state_blocks_foreign_dust_but_not_own_dust() {
    let mut grid = Grid3D::new();
    let a = NetTag(1);
    let b = NetTag(2);
    let _ = route_single(&mut grid, a, Pos3::new(0, 0, 0), Pos3::new(5, 0, 0));
    assert!(!grid.is_passable_for(Pos3::new(2, 0, 1), b));
    assert!(grid.is_passable_for(Pos3::new(2, 0, 0), a));
    assert_eq!(grid.get(Pos3::new(2, 0, 1)), CellState::Obstructed(a));
    assert_eq!(grid.get(Pos3::new(2, 0, 0)), CellState::Dust(a));
}

#[test]
fn distance_cap_exhaustion_returns_exhausted_with_unrouted_list() {
    let template = Grid3D::new();
    let cfg = RouteConfig { initial_max_distance: 2, bbox_grow_step: 1, max_bbox_retries: 1, seed: 0 };
    let routes = vec![(NetTag(42), Pos3::new(0, 0, 0), Pos3::new(20, 0, 0))];
    let err = route_with_retry(&template, &routes, &cfg).expect_err("must exhaust");
    match err {
        RouteError::Exhausted { unrouted, retries, final_bbox } => {
            assert_eq!(unrouted, vec!["net#42".to_string()]);
            assert_eq!(retries, 1);
            assert!(final_bbox.contains("max_distance"));
            assert_eq!(final_bbox, "max_distance=3");
        }
        other => panic!("expected Exhausted, got {other:?}"),
    }
}

#[test]
fn retry_eventually_succeeds_when_cap_grows_enough() {
    let template = Grid3D::new();
    let cfg = RouteConfig { initial_max_distance: 2, bbox_grow_step: 30, max_bbox_retries: 4, seed: 0 };
    let routes = vec![(NetTag(1), Pos3::new(0, 0, 0), Pos3::new(20, 0, 0))];
    let (_, wires) = route_with_retry(&template, &routes, &cfg).expect("retry must succeed");
    assert_eq!(wires.len(), 1);
}

#[test]
fn route_all_routes_every_pair_in_order() {
    let mut grid = Grid3D::new();
    let routes = vec![(NetTag(1), Pos3::new(0, 0, 0), Pos3::new(3, 0, 0)), (NetTag(2), Pos3::new(0, 0, 6), Pos3::new(3, 0, 6))];
    let wires = route_all(&mut grid, &routes).expect("both route");
    assert_eq!(wires.len(), 2);
    assert_eq!(wires[0].net, NetTag(1));
    assert_eq!(wires[1].net, NetTag(2));
    assert_eq!(seg_pos(&wires[1].segments[0]), Pos3::new(0, 0, 6));
    assert_eq!(seg_pos(wires[1].segments.last().unwrap()), Pos3::new(3, 0, 6));
    assert_eq!(grid.get(Pos3::new(1, 0, 6)), CellState::Dust(NetTag(2)));
}

#[test]
fn grid_reads_back_what_was_written() {
    let mut g = Grid3D::new();
    let p = Pos3::new(1, 2, 3);
    assert_eq!(g.get(p), CellState::Air);
    assert_eq!(g.set(p, CellState::Dust(NetTag(4))), CellState::Air);
    assert_eq!(g.get(p), CellState::Dust(NetTag(4)));
    assert_eq!(g.len(), 1);
    assert_eq!(g.set(p, CellState::Air), CellState::Dust(NetTag(4)));
    assert!(g.is_empty());
    assert!(g.is_passable_for(p, NetTag(9)));
}

#[test]
fn two_independent_nets_route_in_one_iteration() {
    let mut cost = CostMap::new(Bbox3::from_corners(Pos3::new(-5, 0, -5), Pos3::new(15, 0, 15)));
    let routes = vec![
        (NetTag(1), Pos3::new(0, 0, 0), Pos3::new(10, 0, 0)),
        (NetTag(2), Pos3::new(0, 0, 5), Pos3::new(10, 0, 5)),
    ];
    let wires = route_pathfinder(&mut cost, &routes, &PathFinderConfig::default()).expect("two parallel nets should route");
    assert_eq!(wires.len(), 2);
}

#[test]
fn pathfinder_aborts_with_convergence_exhausted_on_dense_input() {
    let mut cost = CostMap::new(Bbox3::from_corners(Pos3::new(0, 0, 0), Pos3::new(3, 0, 1)));
    let routes: Vec<(NetTag, Pos3, Pos3)> =
        (0..4u32).map(|i| (NetTag(i), Pos3::new(0, 0, i as i32 % 2), Pos3::new(3, 0, i as i32 % 2))).collect();
    let mut cfg = PathFinderConfig::default();
    cfg.max_iterations = 1;
    let err = route_pathfinder(&mut cost, &routes, &cfg).expect_err("must hit ConvergenceExhausted");
    match err {
        RouteError::ConvergenceExhausted { iterations, unrouted, .. } => {
            assert_eq!(iterations, 1);
            assert!(!unrouted.is_empty(), "expected >= 1 unrouted/overused net");
        }
        other => panic!("expected ConvergenceExhausted, got {other:?}"),
    }
}

#[test]
fn adjacency_isolation_forces_second_net_to_detour() {
    let mut cost = CostMap::new(Bbox3::from_corners(Pos3::new(0, 0, 0), Pos3::new(4, 2, 2)));
    let routes = vec![
        (NetTag(1), Pos3::new(0, 0, 0), Pos3::new(4, 0, 0)),
        (NetTag(2), Pos3::new(0, 0, 1), Pos3::new(4, 0, 1)),
    ];
    let mut cfg = PathFinderConfig::default();
    cfg.max_iterations = 8;
    cfg.adjacency_isolation = true;
    let wires = route_pathfinder(&mut cost, &routes, &cfg).expect("both nets should route through detour");
    assert_eq!(wires.len(), 2);
    let net2 = wires.iter().find(|w| w.net == NetTag(2)).unwrap();
    let detoured = net2.segments.iter().any(|s| {
        let p = seg_pos(s);
        p.y >= 1 || p.z >= 2
    });
    assert!(detoured, "net#2 should detour off the shadowed straight line; got {:?}", net2.segments);
}

#[test]
fn adjacency_isolation_off_lets_parallel_nets_share_plane() {
    let mut cost = CostMap::new(Bbox3::from_corners(Pos3::new(0, 0, 0), Pos3::new(4, 2, 2)));
    let routes = vec![
        (NetTag(1), Pos3::new(0, 0, 0), Pos3::new(4, 0, 0)),
        (NetTag(2), Pos3::new(0, 0, 1), Pos3::new(4, 0, 1)),
    ];
    let mut cfg = PathFinderConfig::default();
    cfg.max_iterations = 8;
    cfg.adjacency_isolation = false;
    let wires = route_pathfinder(&mut cost, &routes, &cfg).expect("cosmetic mode should route both flat");
    assert_eq!(wires.len(), 2);
    for w in &wires {
        for s in &w.segments {
            assert_eq!(seg_pos(s).y, 0, "cosmetic mode keeps both nets on y=0");
        }
    }
}

#[test]
fn pathfinder_wires_share_no_cell() {
    let mut cost = CostMap::new(Bbox3::from_corners(Pos3::new(-2, -2, -2), Pos3::new(8, 2, 8)));
    let routes = vec![
        (NetTag(1), Pos3::new(0, 0, 0), Pos3::new(6, 0, 3)),
        (NetTag(2), Pos3::new(0, 0, 4), Pos3::new(0, 0, 6)),
    ];
    let wires = route_pathfinder(&mut cost, &routes, &PathFinderConfig::default()).expect("routes");
    let mut seen = std::collections::HashSet::new();
    for w in &wires {
        for s in &w.segments {
            assert!(seen.insert(seg_pos(s)), "cell {:?} used twice", seg_pos(s));
        }
    }
    assert_eq!(seg_pos(&wires[0].segments[0]), Pos3::new(0, 0, 0));
    assert_eq!(seg_pos(wires[1].segments.last().unwrap()), Pos3::new(0, 0, 6));
}

#[test]
fn maze_router_gives_up_beyond_its_cap_and_leaves_the_grid() {
    let mut grid = Grid3D::new();
    // A 5-step run: a cap of 4 steps is one short.
    let out = route_single_bounded(&mut grid, NetTag(1), Pos3::new(0, 0, 0), Pos3::new(5, 0, 0), 4);
    assert!(matches!(out, SingleRouteOutcome::Unroutable));
    assert!(grid.is_empty());
    // A cap of 5 steps allows the 6 cells.
    let out = route_single_bounded(&mut grid, NetTag(1), Pos3::new(0, 0, 0), Pos3::new(5, 0, 0), 5);
    let SingleRouteOutcome::Routed(w) = out else {
        panic!("cap 5 suffices");
    };
    assert_eq!(w.segments.len(), 6);
}

#[test]
fn maze_router_takes_a_shortest_detour() {
    let mut grid = Grid3D::new();
    // A wall at x = 2 for z in -1..=1 and y in -1..=1.
    for z in -1..=1 {
        for y in -1..=1 {
            grid.set(Pos3::new(2, y, z), CellState::Solid);
        }
    }
    let out = route_single(&mut grid, NetTag(3), Pos3::new(0, 0, 0), Pos3::new(4, 0, 0));
    let SingleRouteOutcome::Routed(w) = out else {
        panic!("a detour exists");
    };
    // Around the wall: 4 steps along x and 2 + 2 sideways = 8 steps, 9 cells.
    assert_eq!(w.segments.len(), 9);
    let path: Vec<Pos3> = w.segments.iter().map(seg_pos).collect();
    for pair in path.windows(2) {
        let d = (pair[0].x - pair[1].x).abs() + (pair[0].y - pair[1].y).abs() + (pair[0].z - pair[1].z).abs();
        assert_eq!(d, 1);
    }
}

#[test]
fn pathfinder_repeater_faces_the_direction_of_travel() {
    let mut cost = CostMap::new(Bbox3::from_corners(Pos3::new(-1, 0, -1), Pos3::new(25, 0, 1)));
    let routes = vec![(NetTag(1), Pos3::new(0, 0, 0), Pos3::new(20, 0, 0))];
    let wires = route_pathfinder(&mut cost, &routes, &PathFinderConfig::default()).expect("routes");
    let w = &wires[0];
    assert_eq!(w.segments.len(), 21);
    for (i, s) in w.segments.iter().enumerate() {
        assert_eq!(seg_pos(s), Pos3::new(i as i32, 0, 0));
        match s {
            RouteSegment::Repeater { facing, .. } => {
                assert_eq!(i, 14);
                assert_eq!(*facing, rb_synthesis::geom::Direction::East);
            }
            RouteSegment::Dust { .. } => assert_ne!(i, 14),
        }
    }
}

#[test]
fn pathfinder_routes_stay_inside_the_routing_region() {
    let mut cost = CostMap::new(Bbox3::from_corners(Pos3::new(-1, 0, -1), Pos3::new(7, 0, 1)));
    cost.mark_blocked(Pos3::new(3, 0, 0));
    let routes = vec![(NetTag(1), Pos3::new(0, 0, 0), Pos3::new(6, 0, 0))];
    let wires = route_pathfinder(&mut cost, &routes, &PathFinderConfig::default()).expect("routes");
    for s in &wires[0].segments {
        let p = seg_pos(s);
        assert!(p.x >= -1 && p.x <= 7 && p.y == 0 && p.z >= -1 && p.z <= 1, "{p:?} leaves the region");
    }
}

#[test]
fn isolation_holds_between_nets_when_a_net_has_several_routes() {
    let mut cost = CostMap::new(Bbox3::from_corners(Pos3::new(-2, 0, -2), Pos3::new(10, 3, 8)));
    let routes = vec![
        (NetTag(7), Pos3::new(0, 0, 0), Pos3::new(8, 0, 0)),
        (NetTag(3), Pos3::new(0, 0, 3), Pos3::new(8, 0, 3)),
        (NetTag(7), Pos3::new(0, 0, 6), Pos3::new(8, 0, 6)),
    ];
    let mut cfg = PathFinderConfig::default();
    cfg.max_iterations = 16;
    cfg.adjacency_isolation = true;
    let wires = route_pathfinder(&mut cost, &routes, &cfg).expect("routes");
    let pins: Vec<Pos3> = routes.iter().flat_map(|r| [r.1, r.2]).collect();
    for a in &wires {
        for b in &wires {
            if a.net == b.net {
                continue;
            }
            for s in &a.segments {
                for t in &b.segments {
                    let (p, q) = (seg_pos(s), seg_pos(t));
                    if pins.contains(&p) || pins.contains(&q) {
                        continue;
                    }
                    let d = (p.x - q.x).abs() + (p.y - q.y).abs() + (p.z - q.z).abs();
                    assert_ne!(d, 1, "dust of {:?} at {:?} touches dust of {:?} at {:?}", a.net, p, b.net, q);
                }
            }
        }
    }
}
