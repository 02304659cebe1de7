use rb_synthesis::geom::{Bbox3, Pos3};
use rb_synthesis::grid3d::NetTag;
use rb_synthesis::route::astar::{astar_route, astar_route_multisrc};
use rb_synthesis::route::cost::{CostMap, EdgeCostConfig};

fn unit_steps(path: &[Pos3]) -> bool {
    path.windows(2).all(|w| {
        (w[0].x - w[1].x).abs() + (w[0].y - w[1].y).abs() + (w[0].z - w[1].z).abs() == 1
    })
}

#[test]
fn trivial_straight_route_returns_path() {
    let cost = CostMap::new(Bbox3::from_corners(Pos3::origin(), Pos3::new(10, 0, 0)));
    let path = astar_route(
        &cost,
        NetTag(1),
        Pos3::origin(),
        Pos3::new(5, 0, 0),
        &EdgeCostConfig::default(),
        10_000,
    )
    .expect("path exists");
    assert_eq!(path.len(), 6, "5-block straight = 6 cells (incl. source)");
}

#[test]
fn obstacle_forces_detour() {
    let mut cost = CostMap::new(Bbox3::from_corners(Pos3::new(-10, 0, -10), Pos3::new(10, 0, 10)));
    for z in -5..=5 {
        cost.mark_blocked(Pos3::new(2, 0, z));
    }
    cost.mark_blocked(Pos3::new(2, 0, 6));

    let path = astar_route(
        &cost,
        NetTag(1),
        Pos3::new(0, 0, 0),
        Pos3::new(5, 0, 0),
        &EdgeCostConfig::default(),
        20_000,
    )
    .expect("path exists via detour");
    assert!(path.len() > 6, "expected a detour, got direct path of length {}", path.len());
}

#[test]
fn astar_is_deterministic() {
    let cost = CostMap::new(Bbox3::from_corners(Pos3::new(-5, -5, -5), Pos3::new(5, 5, 5)));
    let p1 = astar_route(&cost, NetTag(1), Pos3::origin(), Pos3::new(3, 0, 3), &EdgeCostConfig::default(), 5_000)
        .expect("p1");
    let p2 = astar_route(&cost, NetTag(1), Pos3::origin(), Pos3::new(3, 0, 3), &EdgeCostConfig::default(), 5_000)
        .expect("p2");
    assert_eq!(p1, p2, "A* must be deterministic across runs");
}

#[test]
fn astar_path_runs_from_source_to_sink_in_unit_steps() {
    let cost = CostMap::new(Bbox3::from_corners(Pos3::new(-5, -5, -5), Pos3::new(5, 5, 5)));
    let p = astar_route(&cost, NetTag(1), Pos3::new(-2, 0, 1), Pos3::new(3, 0, -2), &EdgeCostConfig::default(), 5_000)
        .expect("path");
    assert_eq!(p[0], Pos3::new(-2, 0, 1));
    assert_eq!(*p.last().unwrap(), Pos3::new(3, 0, -2));
    assert!(unit_steps(&p));
    // Open space: the shortest path is taken.
    assert_eq!(p.len(), 5 + 3 + 1);
}

#[test]
fn astar_source_equal_to_sink_is_a_single_cell() {
    let cost = CostMap::new(Bbox3::from_corners(Pos3::origin(), Pos3::new(3, 0, 3)));
    let p = astar_route(&cost, NetTag(4), Pos3::new(1, 0, 1), Pos3::new(1, 0, 1), &EdgeCostConfig::default(), 100)
        .expect("trivial");
    assert_eq!(p, vec![Pos3::new(1, 0, 1)]);
}

#[test]
fn astar_fully_walled_sink_is_unreachable() {
    let mut cost = CostMap::new(Bbox3::from_corners(Pos3::new(-3, -3, -3), Pos3::new(3, 3, 3)));
    let sink = Pos3::new(2, 0, 0);
    for (dx, dy, dz) in [(1, 0, 0), (-1, 0, 0), (0, 1, 0), (0, -1, 0), (0, 0, 1), (0, 0, -1)] {
        cost.mark_blocked(Pos3::new(sink.x + dx, sink.y + dy, sink.z + dz));
    }
    let p = astar_route(&cost, NetTag(1), Pos3::origin(), sink, &EdgeCostConfig::default(), 2_000);
    assert!(p.is_none());
}

#[test]
fn multisource_without_sources_finds_nothing() {
    let cost = CostMap::new(Bbox3::from_corners(Pos3::origin(), Pos3::new(3, 0, 3)));
    let p = astar_route_multisrc(&cost, NetTag(1), &[], Pos3::new(1, 0, 1), &EdgeCostConfig::default(), 100);
    assert!(p.is_none());
}

#[test]
fn multisource_starts_from_the_nearest_source() {
    let cost = CostMap::new(Bbox3::from_corners(Pos3::new(-10, 0, -10), Pos3::new(10, 0, 10)));
    let sources = [Pos3::new(-8, 0, 0), Pos3::new(4, 0, 0)];
    let p = astar_route_multisrc(&cost, NetTag(1), &sources, Pos3::new(6, 0, 0), &EdgeCostConfig::default(), 5_000)
        .expect("path");
    assert_eq!(p[0], Pos3::new(4, 0, 0));
    assert_eq!(p.len(), 3);
}

#[test]
fn astar_with_free_turns_avoids_a_congested_corridor() {
    // The straight corridor y=0,z=0 costs 1 + 20 per step; going around
    // through z=1 costs 1 per step plus the two side steps.
    let mut cost = CostMap::new(Bbox3::from_corners(Pos3::new(-2, 0, -2), Pos3::new(8, 0, 2)));
    let congested: Vec<Pos3> = (1..=5).map(|x| Pos3::new(x, 0, 0)).collect();
    cost.bump_history(&congested, 20);
    let cfg = EdgeCostConfig { straight_base: 1, level_change_base: 3, turn_penalty: 0, down_penalty: 6, up_penalty: 10 };
    let p = astar_route(&cost, NetTag(1), Pos3::new(0, 0, 0), Pos3::new(6, 0, 0), &cfg, 10_000).expect("path");
    assert!(unit_steps(&p));
    assert_eq!(p[0], Pos3::new(0, 0, 0));
    assert_eq!(*p.last().unwrap(), Pos3::new(6, 0, 0));
    // Cheapest: leave the corridor at once and come back at the end
    // (8 steps of cost 1), never through a congested cell.
    assert_eq!(p.len(), 9);
    assert!(p.iter().all(|c| !congested.contains(c)));
}

#[test]
fn multisource_path_leaves_the_trunk_once() {
    let cost = CostMap::new(Bbox3::from_corners(Pos3::new(-1, 0, -1), Pos3::new(5, 0, 5)));
    let sources = [Pos3::new(0, 0, 0), Pos3::new(1, 0, 0), Pos3::new(2, 0, 0)];
    let p = astar_route_multisrc(&cost, NetTag(1), &sources, Pos3::new(2, 0, 3), &EdgeCostConfig::default(), 5_000)
        .expect("path");
    assert_eq!(p[0], Pos3::new(2, 0, 0));
    assert_eq!(p.len(), 4);
    assert!(unit_steps(&p));
    assert!(p[1..].iter().all(|c| !sources.contains(c)));
}
