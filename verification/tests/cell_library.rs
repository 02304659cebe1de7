use std::collections::HashMap;

use rb_synthesis::cell_library::{macrocell_for, Macrocell, PlacedBlock};
use rb_synthesis::geom::{BlockId, Direction, GateKind, Pos3};
use rb_synthesis::netlist::EndpointRole;

const ALL_KINDS: [GateKind; 10] = [
    GateKind::Not,
    GateKind::And,
    GateKind::Or,
    GateKind::Xor,
    GateKind::DTrigger,
    GateKind::MemoryCell,
    GateKind::Comparator,
    GateKind::Observer,
    GateKind::Repeater,
    GateKind::TargetBlock,
];

fn is_solid_opaque_support(block: BlockId) -> bool {
    matches!(
        block,
        BlockId::Stone | BlockId::OakPlanks | BlockId::TargetBlock | BlockId::Glass | BlockId::Slab
    )
}

fn block_map(cell: &Macrocell) -> HashMap<Pos3, PlacedBlock> {
    cell.blocks.iter().map(|b| (b.pos, *b)).collect()
}

#[test]
fn every_primitive_has_a_cell_with_nonempty_bbox() {
    for kind in ALL_KINDS {
        let cell = macrocell_for(kind).unwrap_or_else(|e| panic!("no cell for {kind:?}: {e:?}"));
        assert!(cell.bbox.volume() > 0, "cell for {kind:?} has empty bbox");
        assert!(!cell.blocks.is_empty(), "cell for {kind:?} has no blocks");
        assert!(!cell.outputs.is_empty(), "cell for {kind:?} has no outputs");
    }
}

#[test]
fn not_cell_has_one_input_one_output() {
    let c = macrocell_for(GateKind::Not).unwrap();
    assert_eq!(c.inputs.len(), 1);
    assert_eq!(c.outputs.len(), 1);
    assert!(matches!(c.outputs[0].role, EndpointRole::DataOut));
}

#[test]
fn dtrigger_anchors_use_stateful_roles() {
    let c = macrocell_for(GateKind::DTrigger).unwrap();
    assert!(c.inputs.iter().any(|a| matches!(a.role, EndpointRole::DataInStateful)));
    assert!(c.inputs.iter().any(|a| matches!(a.role, EndpointRole::ClockIn)));
    assert!(matches!(c.outputs[0].role, EndpointRole::Q));
    assert_eq!(c.tick_delay, 4);
}

#[test]
fn comparator_cell_has_analog_anchors() {
    let c = macrocell_for(GateKind::Comparator).unwrap();
    assert!(c.inputs.iter().any(|a| matches!(a.role, EndpointRole::AnalogIn(0))));
    assert!(c.inputs.iter().any(|a| matches!(a.role, EndpointRole::AnalogIn(1))));
    assert!(matches!(c.outputs[0].role, EndpointRole::AnalogOut));
}

#[test]
fn observer_cell_has_watch_and_pulse_anchors() {
    let c = macrocell_for(GateKind::Observer).unwrap();
    assert!(c.inputs.iter().any(|a| matches!(a.role, EndpointRole::ObserverWatch)));
    assert!(matches!(c.outputs[0].role, EndpointRole::ObserverPulse));
}

#[test]
fn repeater_cell_has_in_out_anchors() {
    let c = macrocell_for(GateKind::Repeater).unwrap();
    assert!(c.inputs.iter().any(|a| matches!(a.role, EndpointRole::RepeaterIn)));
    assert!(matches!(c.outputs[0].role, EndpointRole::RepeaterOut));
}

#[test]
fn target_cell_is_minimal() {
    let c = macrocell_for(GateKind::TargetBlock).unwrap();
    assert_eq!(c.inputs.len(), 1);
    assert_eq!(c.outputs.len(), 1);
    assert_eq!(c.tick_delay, 0);
}

#[test]
fn wall_torches_have_valid_attachment_blocks() {
    for kind in ALL_KINDS {
        let cell = macrocell_for(kind).unwrap();
        let map = block_map(&cell);
        for pb in &cell.blocks {
            if !matches!(pb.block, BlockId::RedstoneWallTorch) {
                continue;
            }
            let facing = pb
                .facing
                .unwrap_or_else(|| panic!("{kind:?}: wall_torch at {:?} has no facing", pb.pos));
            let (dx, dy, dz) = facing.offset();
            let attach = Pos3::new(pb.pos.x - dx, pb.pos.y - dy, pb.pos.z - dz);
            let attached = map.get(&attach).unwrap_or_else(|| {
                panic!("{kind:?}: wall_torch[facing={facing:?}] at {:?} expects attachment block at {attach:?}", pb.pos)
            });
            assert!(
                is_solid_opaque_support(attached.block),
                "{kind:?}: wall_torch[facing={facing:?}] at {:?} attached to {:?}",
                pb.pos,
                attached.block
            );
        }
    }
}

#[test]
fn floor_torches_have_valid_support_blocks() {
    for kind in ALL_KINDS {
        let cell = macrocell_for(kind).unwrap();
        let map = block_map(&cell);
        for pb in &cell.blocks {
            if !matches!(pb.block, BlockId::RedstoneTorch) {
                continue;
            }
            let below = Pos3::new(pb.pos.x, pb.pos.y - 1, pb.pos.z);
            let support = map
                .get(&below)
                .unwrap_or_else(|| panic!("{kind:?}: floor torch at {:?} has nothing under it", pb.pos));
            assert!(
                is_solid_opaque_support(support.block),
                "{kind:?}: floor torch at {:?} sits on {:?}",
                pb.pos,
                support.block
            );
        }
    }
}

#[test]
fn dust_blocks_have_valid_support_blocks() {
    for kind in ALL_KINDS {
        let cell = macrocell_for(kind).unwrap();
        let map = block_map(&cell);
        for pb in &cell.blocks {
            if !matches!(pb.block, BlockId::RedstoneDust) {
                continue;
            }
            let below = Pos3::new(pb.pos.x, pb.pos.y - 1, pb.pos.z);
            let support = map
                .get(&below)
                .unwrap_or_else(|| panic!("{kind:?}: dust at {:?} has nothing under it (would float)", pb.pos));
            assert!(
                is_solid_opaque_support(support.block),
                "{kind:?}: dust at {:?} sits on {:?}",
                pb.pos,
                support.block
            );
        }
    }
}

#[test]
fn directional_blocks_have_required_facings() {
    let horizontal_only = [BlockId::RedstoneWallTorch, BlockId::Repeater, BlockId::Comparator];
    for kind in ALL_KINDS {
        let cell = macrocell_for(kind).unwrap();
        for pb in &cell.blocks {
            if horizontal_only.contains(&pb.block) {
                let f = pb
                    .facing
                    .unwrap_or_else(|| panic!("{kind:?}: {:?} at {:?} missing facing", pb.block, pb.pos));
                assert!(
                    matches!(f, Direction::North | Direction::South | Direction::East | Direction::West),
                    "{kind:?}: {:?} at {:?} has non-horizontal facing {:?}",
                    pb.block,
                    pb.pos,
                    f
                );
            }
        }
    }
}

#[test]
fn memcell_anchors_use_stateful_roles() {
    let c = macrocell_for(GateKind::MemoryCell).unwrap();
    assert!(c.inputs.iter().any(|a| matches!(a.role, EndpointRole::DataInStateful)));
    assert!(c.inputs.iter().any(|a| matches!(a.role, EndpointRole::WriteEnable)));
    assert!(matches!(c.outputs[0].role, EndpointRole::Q));
}

#[test]
fn every_cell_lies_inside_its_bbox_with_min_at_origin() {
    for kind in ALL_KINDS {
        let c = macrocell_for(kind).unwrap();
        assert_eq!(c.bbox.min, Pos3::origin());
        for b in &c.blocks {
            assert!(c.bbox.contains(b.pos), "{kind:?}: block at {:?} outside bbox", b.pos);
        }
    }
}

#[test]
fn repeater_cell_defaults_to_delay_one() {
    let c = macrocell_for(GateKind::Repeater).unwrap();
    assert_eq!(c.repeater_delay, Some(1));
    let n = macrocell_for(GateKind::Not).unwrap();
    assert_eq!(n.repeater_delay, None);
}

#[test]
fn target_cell_blocks_are_exact() {
    let cell = macrocell_for(GateKind::TargetBlock).unwrap();
    let expected = vec![
        PlacedBlock { pos: Pos3::new(0, 0, 0), block: BlockId::OakPlanks, facing: None },
        PlacedBlock { pos: Pos3::new(1, 0, 0), block: BlockId::OakPlanks, facing: None },
        PlacedBlock { pos: Pos3::new(2, 0, 0), block: BlockId::OakPlanks, facing: None },
        PlacedBlock { pos: Pos3::new(0, 1, 0), block: BlockId::RedstoneDust, facing: None },
        PlacedBlock { pos: Pos3::new(1, 1, 0), block: BlockId::TargetBlock, facing: None },
        PlacedBlock { pos: Pos3::new(2, 1, 0), block: BlockId::RedstoneDust, facing: None },
    ];
    assert_eq!(cell.blocks, expected);
}

#[test]
fn observer_cell_blocks_are_exact() {
    let cell = macrocell_for(GateKind::Observer).unwrap();
    assert_eq!(cell.blocks.len(), 6);
    assert_eq!(
        cell.blocks[4],
        PlacedBlock { pos: Pos3::new(0, 1, 1), block: BlockId::Observer, facing: Some(Direction::North) }
    );
}

#[test]
fn every_cell_places_one_block_per_position() {
    for kind in ALL_KINDS {
        let cell = macrocell_for(kind).unwrap();
        let positions: std::collections::HashSet<Pos3> = cell.blocks.iter().map(|b| b.pos).collect();
        assert_eq!(positions.len(), cell.blocks.len(), "{kind:?} repeats a position");
    }
}
