use rb_synthesis::geom::{Bbox3, Direction, Pos3};
use rb_synthesis::grid3d::NetTag;
use rb_synthesis::route::cost::{CellAttrs, CostMap, EdgeCostConfig, VerticalCost};

#[test]
fn slab_blocks_downward_traversal_but_allows_upward() {
    let mut map = CostMap::new(Bbox3::from_corners(Pos3::new(0, 0, 0), Pos3::new(2, 2, 2)));
    map.mark_slab(Pos3::new(1, 1, 1));
    let net = NetTag(1);
    let cfg = EdgeCostConfig::default();

    let down_cost = map.cost_for_edge(Pos3::new(1, 1, 1), None, Direction::Down, Pos3::new(1, 0, 1), net, &cfg);
    assert_eq!(down_cost, u32::MAX, "slab top must block downward");

    let up_cost = map.cost_for_edge(Pos3::new(1, 1, 1), None, Direction::Up, Pos3::new(1, 2, 1), net, &cfg);
    assert!(up_cost < u32::MAX, "slab top must permit upward step");
}

#[test]
fn blocked_cell_rejects_foreign_net_traversal() {
    let mut map = CostMap::new(Bbox3::from_corners(Pos3::new(0, 0, 0), Pos3::new(2, 0, 2)));
    map.mark_blocked(Pos3::new(1, 0, 1));
    let cfg = EdgeCostConfig::default();
    let cost = map.cost_for_edge(Pos3::new(0, 0, 1), None, Direction::East, Pos3::new(1, 0, 1), NetTag(1), &cfg);
    assert_eq!(cost, u32::MAX, "blocked cell rejects foreign net");
}

#[test]
fn turn_penalty_applied_on_direction_change() {
    let map = CostMap::new(Bbox3::from_corners(Pos3::origin(), Pos3::new(5, 0, 5)));
    let cfg = EdgeCostConfig::default();
    let net = NetTag(1);
    let straight =
        map.cost_for_edge(Pos3::origin(), Some(Direction::East), Direction::East, Pos3::new(1, 0, 0), net, &cfg);
    let turn =
        map.cost_for_edge(Pos3::origin(), Some(Direction::East), Direction::South, Pos3::new(0, 0, 1), net, &cfg);
    assert!(turn > straight, "turn must cost more than straight: turn={turn}, straight={straight}");
}

#[test]
fn shadow_blocks_foreign_net_but_not_own() {
    let mut map = CostMap::new(Bbox3::from_corners(Pos3::origin(), Pos3::new(4, 0, 4)));
    let net_a = NetTag(1);
    let net_b = NetTag(2);
    map.assign(Pos3::new(2, 0, 2), net_a);
    for i in 0..6 {
        let (dx, dy, dz) = Direction::nth(i).offset();
        map.mark_shadow(Pos3::new(2 + dx, dy, 2 + dz), net_a);
    }
    let cfg = EdgeCostConfig::default();

    let cost_foreign =
        map.cost_for_edge(Pos3::new(0, 0, 2), None, Direction::East, Pos3::new(1, 0, 2), net_b, &cfg);
    assert_eq!(cost_foreign, u32::MAX, "foreign net must not traverse another net's shadow");

    let cost_own = map.cost_for_edge(Pos3::new(0, 0, 2), None, Direction::East, Pos3::new(1, 0, 2), net_a, &cfg);
    assert!(cost_own < u32::MAX, "net must be allowed into its own shadow ({cost_own})");
}

#[test]
fn mark_shadow_does_not_overwrite_existing_owner() {
    let mut map = CostMap::new(Bbox3::from_corners(Pos3::origin(), Pos3::new(2, 0, 2)));
    let p = Pos3::new(1, 0, 1);
    map.mark_shadow(p, NetTag(1));
    map.mark_shadow(p, NetTag(2));
    assert_eq!(map.shadow_of(p), Some(NetTag(1)), "first-in wins");
}

#[test]
fn clear_iteration_state_clears_shadows_too() {
    let mut map = CostMap::new(Bbox3::from_corners(Pos3::origin(), Pos3::new(2, 0, 2)));
    map.mark_shadow(Pos3::new(1, 0, 1), NetTag(1));
    map.assign(Pos3::new(0, 0, 0), NetTag(1));
    map.clear_iteration_state();
    assert!(map.shadows.is_empty(), "shadows cleared between iterations");
    assert!(map.assigned.is_empty(), "assigned cleared between iterations");
}

#[test]
fn edge_costs_have_the_documented_values() {
    let map = CostMap::new(Bbox3::from_corners(Pos3::new(-2, -2, -2), Pos3::new(2, 2, 2)));
    let cfg = EdgeCostConfig::default();
    let n = NetTag(3);
    let o = Pos3::origin();
    // Straight horizontal step: base 1.
    assert_eq!(map.cost_for_edge(o, None, Direction::East, Pos3::new(1, 0, 0), n, &cfg), 1);
    // Turn: base 1 + turn 4.
    assert_eq!(map.cost_for_edge(o, Some(Direction::North), Direction::East, Pos3::new(1, 0, 0), n, &cfg), 5);
    // Up: level change 3 + up 10.
    assert_eq!(map.cost_for_edge(o, Some(Direction::Up), Direction::Up, Pos3::new(0, 1, 0), n, &cfg), 13);
    // Down: level change 3 + down 6.
    assert_eq!(map.cost_for_edge(o, Some(Direction::Down), Direction::Down, Pos3::new(0, -1, 0), n, &cfg), 9);
}

#[test]
fn congestion_penalties_add_to_the_step_cost() {
    let mut map = CostMap::new(Bbox3::from_corners(Pos3::origin(), Pos3::new(3, 0, 0)));
    let cfg = EdgeCostConfig::default();
    let p = Pos3::new(1, 0, 0);
    map.bump_present(&vec![p], 2);
    map.bump_history(&vec![p, p], 8);
    assert_eq!(map.cost_for_edge(Pos3::origin(), None, Direction::East, p, NetTag(1), &cfg), 1 + 2 + 16);
    // Saturates at u16::MAX.
    map.bump_history(&vec![p], u16::MAX);
    assert_eq!(
        map.cost_for_edge(Pos3::origin(), None, Direction::East, p, NetTag(1), &cfg),
        1 + 2 + u16::MAX as u32
    );
}

#[test]
fn pins_override_blocking_and_ownership() {
    let mut map = CostMap::new(Bbox3::from_corners(Pos3::origin(), Pos3::new(3, 0, 0)));
    let cfg = EdgeCostConfig::default();
    let p = Pos3::new(1, 0, 0);
    map.mark_blocked(p);
    map.assign(p, NetTag(9));
    assert_eq!(map.cost_for_edge(Pos3::origin(), None, Direction::East, p, NetTag(1), &cfg), u32::MAX);
    map.mark_pin(p);
    assert!(map.cost_for_edge(Pos3::origin(), None, Direction::East, p, NetTag(1), &cfg) < u32::MAX);
}

#[test]
fn cell_attributes_read_back() {
    let mut map = CostMap::new(Bbox3::from_corners(Pos3::origin(), Pos3::new(3, 0, 0)));
    assert_eq!(
        map.attrs_at(Pos3::new(2, 0, 0)),
        CellAttrs { base_passable: true, vertical: VerticalCost::Symmetric }
    );
    map.mark_glass(Pos3::new(2, 0, 0));
    assert_eq!(map.attrs_at(Pos3::new(2, 0, 0)).vertical, VerticalCost::GlassCross);
    assert_eq!(CellAttrs::default(), CellAttrs { base_passable: false, vertical: VerticalCost::Symmetric });
}

#[test]
fn a_cell_in_two_shadows_is_closed_to_both_nets() {
    let mut map = CostMap::new(Bbox3::from_corners(Pos3::origin(), Pos3::new(2, 0, 2)));
    let p = Pos3::new(1, 0, 1);
    map.mark_shadow(p, NetTag(1));
    map.mark_shadow(p, NetTag(2));
    let cfg = EdgeCostConfig::default();
    for n in [NetTag(1), NetTag(2)] {
        let c = map.cost_for_edge(Pos3::new(0, 0, 1), None, Direction::East, p, n, &cfg);
        assert_eq!(c, u32::MAX, "a contested cell is closed to net {:?}", n);
    }
    map.clear_iteration_state();
    assert!(map.contested.is_empty());
}
