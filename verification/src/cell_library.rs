//! Macro-cell library: the block layout, I/O anchors and delay of each
//! gate primitive, in a cell-local frame (+X output direction, +Y up).
use vstd::prelude::*;

use crate::ast::{CompareMode, GateInst};
use crate::error::SynthError;
use crate::geom::{Bbox3, BlockId, Direction, GateKind, Pos3};
use crate::netlist::EndpointRole;
use crate::text::{ascii_ci_eq, eq_ignore_ascii_case};

verus! {

/// One block of a macro-cell, in cell-local coordinates.
#[derive(Debug, Clone, Copy, PartialEq, Eq, Structural)]
pub struct PlacedBlock {
    /// Cell-local position.
    pub pos: Pos3,
    /// Block to place.
    pub block: BlockId,
    /// `facing` block-state, for directional blocks.
    pub facing: Option<Direction>,
}

/// One I/O attachment point of a macro-cell.
#[derive(Debug, Clone, Copy, PartialEq, Eq, Structural)]
pub struct Anchor {
    /// Port the anchor represents.
    pub role: EndpointRole,
    /// Cell-local position the router connects to.
    pub pos: Pos3,
    /// Direction the router approaches from.
    pub approach: Direction,
}

/// A macro-cell: bounding box, blocks, anchors and timing.
#[derive(Debug)]
pub struct Macrocell {
    /// Primitive implemented.
    pub kind: GateKind,
    /// Cell-local bounding box, `min` at the origin.
    pub bbox: Bbox3,
    /// Blocks of the cell.
    pub blocks: Vec<PlacedBlock>,
    /// Input anchors.
    pub inputs: Vec<Anchor>,
    /// Output anchors.
    pub outputs: Vec<Anchor>,
    /// Settle delay from input change to stable output, in redstone ticks.
    pub tick_delay: u8,
    /// Per-instance repeater delay (1..=4), for repeater cells.
    pub repeater_delay: Option<u8>,
    /// Per-instance comparator mode, for comparator cells.
    pub comparator_mode: Option<CompareMode>,
}

// ---------------------------------------------------------------------
// Physical validity of a block layout.
// ---------------------------------------------------------------------

/// The block at `p` among the first `k` blocks (a later block at the same
/// position replaces an earlier one).
pub open spec fn block_at(bs: Seq<PlacedBlock>, p: Pos3, k: int) -> Option<BlockId>
    decreases k,
{
    if k <= 0 {
        None
    } else if bs[k - 1].pos == p {
        Some(bs[k - 1].block)
    } else {
        block_at(bs, p, k - 1)
    }
}

/// A full opaque block sits at `p`.
pub open spec fn solid_at(bs: Seq<PlacedBlock>, p: Pos3) -> bool {
    match block_at(bs, p, bs.len() as int) {
        Some(b) => b.is_solid_support(),
        None => false,
    }
}

/// The position directly below `p`.
pub open spec fn below(p: Pos3) -> Pos3 {
    Pos3 { x: p.x, y: (p.y - 1) as i32, z: p.z }
}

/// The block a wall torch at `p` facing `f` hangs on: `p - offset(f)`.
pub open spec fn behind(p: Pos3, f: Direction) -> Pos3 {
    let (dx, dy, dz) = f.spec_offset();
    Pos3 { x: (p.x - dx) as i32, y: (p.y - dy) as i32, z: (p.z - dz) as i32 }
}

/// Block `b` of layout `bs` survives a block update: dust and floor
/// torches stand on a full solid, wall torches hang on one, and every
/// directional block has its facing (horizontal for torches, repeaters
/// and comparators).
pub open spec fn block_supported(bs: Seq<PlacedBlock>, b: PlacedBlock) -> bool {
    match b.block {
        BlockId::RedstoneDust => solid_at(bs, below(b.pos)),
        BlockId::RedstoneTorch => solid_at(bs, below(b.pos)),
        BlockId::RedstoneWallTorch => match b.facing {
            Some(f) => f.is_horizontal() && solid_at(bs, behind(b.pos, f)),
            None => false,
        },
        BlockId::Repeater | BlockId::Comparator => match b.facing {
            Some(f) => f.is_horizontal(),
            None => false,
        },
        _ => true,
    }
}

/// Every one of the first `k` blocks is supported.
pub open spec fn supported_upto(bs: Seq<PlacedBlock>, k: int) -> bool
    decreases k,
{
    if k <= 0 {
        true
    } else {
        block_supported(bs, bs[k - 1]) && supported_upto(bs, k - 1)
    }
}

/// Every block of the layout survives a block update.
pub open spec fn layout_supported(bs: Seq<PlacedBlock>) -> bool {
    forall|i: int| 0 <= i < bs.len() ==> block_supported(bs, #[trigger] bs[i])
}

/// Every block lies inside the box.
pub open spec fn layout_inside(bs: Seq<PlacedBlock>, b: Bbox3) -> bool {
    forall|i: int| 0 <= i < bs.len() ==> b.spec_contains(#[trigger] bs[i].pos)
}

proof fn lemma_supported_upto(bs: Seq<PlacedBlock>, k: int)
    requires
        0 <= k <= bs.len(),
        supported_upto(bs, k),
    ensures
        forall|i: int| 0 <= i < k ==> block_supported(bs, #[trigger] bs[i]),
    decreases k,
{
    if k > 0 {
        lemma_supported_upto(bs, k - 1);
    }
}

/// A cell's layout is physically sound: non-empty, every block inside the
/// bounding box (whose minimum corner is the origin), every block
/// supported, and at least one output anchor.
pub open spec fn cell_sound(c: Macrocell) -> bool {
    &&& c.blocks@.len() > 0
    &&& c.outputs@.len() > 0
    &&& c.bbox.min == Pos3 { x: 0, y: 0, z: 0 }
    &&& layout_inside(c.blocks@, c.bbox)
    &&& layout_supported(c.blocks@)
}

/// A block without a facing at cell-local `(x, y, z)`.
pub open spec fn blk(x: i32, y: i32, z: i32, block: BlockId) -> PlacedBlock {
    PlacedBlock { pos: Pos3 { x, y, z }, block, facing: None }
}

/// A block facing `f` at cell-local `(x, y, z)`.
pub open spec fn blkf(x: i32, y: i32, z: i32, block: BlockId, f: Direction) -> PlacedBlock {
    PlacedBlock { pos: Pos3 { x, y, z }, block, facing: Some(f) }
}

/// Blocks of the Not cell, in placement order.
pub open spec fn not_blocks() -> Seq<PlacedBlock> {
    seq![
        blk(0, 0, 0, BlockId::OakPlanks),
        blk(0, 1, 0, BlockId::RedstoneDust),
        blk(1, 0, 0, BlockId::OakPlanks),
        blk(1, 1, 0, BlockId::Stone),
        blk(1, 2, 0, BlockId::RedstoneDust),
        blk(2, 0, 0, BlockId::OakPlanks),
        blkf(2, 1, 0, BlockId::RedstoneWallTorch, Direction::East),
        blk(3, 0, 0, BlockId::OakPlanks),
        blk(3, 1, 0, BlockId::RedstoneDust),
    ]
}

/// Blocks of the And cell, in placement order.
pub open spec fn and_blocks() -> Seq<PlacedBlock> {
    seq![
        blk(0, 0, 0, BlockId::OakPlanks),
        blk(0, 1, 0, BlockId::RedstoneDust),
        blk(1, 0, 0, BlockId::OakPlanks),
        blk(1, 1, 0, BlockId::Stone),
        blk(1, 2, 0, BlockId::RedstoneDust),
        blk(2, 0, 0, BlockId::OakPlanks),
        blkf(2, 1, 0, BlockId::RedstoneWallTorch, Direction::East),
        blk(3, 0, 0, BlockId::OakPlanks),
        blk(3, 1, 0, BlockId::RedstoneDust),
        blk(4, 0, 0, BlockId::OakPlanks),
        blk(4, 1, 0, BlockId::RedstoneDust),
        blk(0, 0, 2, BlockId::OakPlanks),
        blk(0, 1, 2, BlockId::RedstoneDust),
        blk(1, 0, 2, BlockId::OakPlanks),
        blk(1, 1, 2, BlockId::Stone),
        blk(1, 2, 2, BlockId::RedstoneDust),
        blk(2, 0, 2, BlockId::OakPlanks),
        blkf(2, 1, 2, BlockId::RedstoneWallTorch, Direction::East),
        blk(3, 0, 2, BlockId::OakPlanks),
        blk(3, 1, 2, BlockId::RedstoneDust),
        blk(4, 0, 2, BlockId::OakPlanks),
        blk(4, 1, 2, BlockId::RedstoneDust),
        blk(4, 0, 1, BlockId::OakPlanks),
        blk(4, 1, 1, BlockId::RedstoneDust),
        blk(5, 0, 1, BlockId::OakPlanks),
        blk(5, 1, 1, BlockId::Stone),
        blk(5, 2, 1, BlockId::RedstoneDust),
        blk(6, 0, 1, BlockId::OakPlanks),
        blkf(6, 1, 1, BlockId::RedstoneWallTorch, Direction::East),
        blk(7, 0, 1, BlockId::OakPlanks),
        blk(7, 1, 1, BlockId::RedstoneDust),
    ]
}

/// Blocks of the Or cell, in placement order.
pub open spec fn or_blocks() -> Seq<PlacedBlock> {
    seq![
        blk(0, 0, 0, BlockId::OakPlanks),
        blk(0, 0, 1, BlockId::OakPlanks),
        blk(0, 0, 2, BlockId::OakPlanks),
        blk(1, 0, 0, BlockId::OakPlanks),
        blk(1, 0, 1, BlockId::OakPlanks),
        blk(1, 0, 2, BlockId::OakPlanks),
        blk(2, 0, 1, BlockId::OakPlanks),
        blk(3, 0, 1, BlockId::OakPlanks),
        blk(0, 1, 0, BlockId::RedstoneDust),
        blk(0, 1, 2, BlockId::RedstoneDust),
        blk(1, 1, 0, BlockId::RedstoneDust),
        blk(1, 1, 1, BlockId::RedstoneDust),
        blk(1, 1, 2, BlockId::RedstoneDust),
        blkf(2, 1, 1, BlockId::Repeater, Direction::West),
        blk(3, 1, 1, BlockId::RedstoneDust),
    ]
}

/// Blocks of the DTrigger cell, in placement order.
pub open spec fn dtrigger_blocks() -> Seq<PlacedBlock> {
    seq![
        blk(0, 0, 0, BlockId::OakPlanks),
        blk(0, 0, 1, BlockId::OakPlanks),
        blk(0, 0, 2, BlockId::OakPlanks),
        blk(1, 0, 0, BlockId::OakPlanks),
        blk(1, 0, 1, BlockId::OakPlanks),
        blk(1, 0, 2, BlockId::OakPlanks),
        blk(2, 0, 0, BlockId::OakPlanks),
        blk(2, 0, 1, BlockId::OakPlanks),
        blk(2, 0, 2, BlockId::OakPlanks),
        blk(3, 0, 0, BlockId::OakPlanks),
        blk(3, 0, 1, BlockId::OakPlanks),
        blk(3, 0, 2, BlockId::OakPlanks),
        blk(4, 0, 0, BlockId::OakPlanks),
        blk(4, 0, 1, BlockId::OakPlanks),
        blk(4, 0, 2, BlockId::OakPlanks),
        blk(0, 1, 0, BlockId::RedstoneDust),
        blk(0, 1, 2, BlockId::RedstoneDust),
        blkf(2, 1, 0, BlockId::Repeater, Direction::West),
        blkf(2, 1, 2, BlockId::Repeater, Direction::West),
        blk(3, 1, 1, BlockId::RedstoneTorch),
        blk(4, 1, 1, BlockId::RedstoneDust),
    ]
}

/// Blocks of the MemoryCell cell, in placement order.
pub open spec fn memcell_blocks() -> Seq<PlacedBlock> {
    seq![
        blk(0, 0, 0, BlockId::OakPlanks),
        blk(0, 0, 1, BlockId::OakPlanks),
        blk(0, 0, 2, BlockId::OakPlanks),
        blk(1, 0, 0, BlockId::OakPlanks),
        blk(1, 0, 1, BlockId::OakPlanks),
        blk(1, 0, 2, BlockId::OakPlanks),
        blk(2, 0, 0, BlockId::OakPlanks),
        blk(2, 0, 1, BlockId::OakPlanks),
        blk(2, 0, 2, BlockId::OakPlanks),
        blk(3, 0, 0, BlockId::OakPlanks),
        blk(3, 0, 1, BlockId::OakPlanks),
        blk(3, 0, 2, BlockId::OakPlanks),
        blk(0, 1, 0, BlockId::RedstoneDust),
        blk(0, 1, 2, BlockId::RedstoneDust),
        blkf(1, 1, 1, BlockId::Comparator, Direction::West),
        blk(2, 1, 1, BlockId::RedstoneDust),
        blk(3, 1, 1, BlockId::RedstoneDust),
    ]
}

/// Blocks of the Xor cell, in placement order.
pub open spec fn xor_blocks() -> Seq<PlacedBlock> {
    seq![
        blk(0, 0, 0, BlockId::OakPlanks),
        blk(0, 0, 1, BlockId::OakPlanks),
        blk(0, 0, 2, BlockId::OakPlanks),
        blk(1, 0, 0, BlockId::OakPlanks),
        blk(1, 0, 1, BlockId::OakPlanks),
        blk(1, 0, 2, BlockId::OakPlanks),
        blk(2, 0, 0, BlockId::OakPlanks),
        blk(2, 0, 1, BlockId::OakPlanks),
        blk(2, 0, 2, BlockId::OakPlanks),
        blk(3, 0, 0, BlockId::OakPlanks),
        blk(3, 0, 1, BlockId::OakPlanks),
        blk(3, 0, 2, BlockId::OakPlanks),
        blk(4, 0, 0, BlockId::OakPlanks),
        blk(4, 0, 1, BlockId::OakPlanks),
        blk(4, 0, 2, BlockId::OakPlanks),
        blk(0, 1, 0, BlockId::RedstoneDust),
        blk(0, 1, 2, BlockId::RedstoneDust),
        blk(2, 1, 1, BlockId::RedstoneTorch),
        blk(2, 2, 1, BlockId::Stone),
        blk(4, 1, 1, BlockId::RedstoneDust),
    ]
}

/// Blocks of the Comparator cell, in placement order.
pub open spec fn comparator_blocks() -> Seq<PlacedBlock> {
    seq![
        blk(0, 0, 0, BlockId::OakPlanks),
        blk(1, 0, 0, BlockId::OakPlanks),
        blk(2, 0, 0, BlockId::OakPlanks),
        blk(1, 0, 2, BlockId::OakPlanks),
        blk(0, 1, 0, BlockId::RedstoneDust),
        blkf(1, 1, 0, BlockId::Comparator, Direction::West),
        blk(2, 1, 0, BlockId::RedstoneDust),
        blk(1, 1, 2, BlockId::RedstoneDust),
    ]
}

/// Blocks of the Observer cell, in placement order.
pub open spec fn observer_blocks() -> Seq<PlacedBlock> {
    seq![
        blk(0, 0, 0, BlockId::OakPlanks),
        blk(0, 0, 1, BlockId::OakPlanks),
        blk(0, 0, 2, BlockId::OakPlanks),
        blk(0, 1, 0, BlockId::RedstoneDust),
        blkf(0, 1, 1, BlockId::Observer, Direction::North),
        blk(0, 1, 2, BlockId::RedstoneDust),
    ]
}

/// Blocks of the TargetBlock cell, in placement order.
pub open spec fn target_blocks() -> Seq<PlacedBlock> {
    seq![
        blk(0, 0, 0, BlockId::OakPlanks),
        blk(1, 0, 0, BlockId::OakPlanks),
        blk(2, 0, 0, BlockId::OakPlanks),
        blk(0, 1, 0, BlockId::RedstoneDust),
        blk(1, 1, 0, BlockId::TargetBlock),
        blk(2, 1, 0, BlockId::RedstoneDust),
    ]
}

/// Blocks of a repeater cell, in placement order; the lock input adds a
/// dust on a plank beside the repeater.
pub open spec fn repeater_blocks(lock_used: bool) -> Seq<PlacedBlock> {
    let base = seq![
        blk(0, 0, 0, BlockId::OakPlanks),
        blk(1, 0, 0, BlockId::OakPlanks),
        blk(2, 0, 0, BlockId::OakPlanks),
        blk(0, 1, 0, BlockId::RedstoneDust),
        blkf(1, 1, 0, BlockId::Repeater, Direction::West),
        blk(2, 1, 0, BlockId::RedstoneDust),
    ];
    if lock_used {
        base.push(blk(1, 0, 1, BlockId::OakPlanks)).push(blk(1, 1, 1, BlockId::RedstoneDust))
    } else {
        base
    }
}

/// Blocks of the default cell of `k`, in placement order.
pub open spec fn cell_blocks(k: GateKind) -> Seq<PlacedBlock> {
    match k {
        GateKind::Not => not_blocks(),
        GateKind::And => and_blocks(),
        GateKind::Or => or_blocks(),
        GateKind::DTrigger => dtrigger_blocks(),
        GateKind::MemoryCell => memcell_blocks(),
        GateKind::Xor => xor_blocks(),
        GateKind::Comparator => comparator_blocks(),
        GateKind::Observer => observer_blocks(),
        GateKind::TargetBlock => target_blocks(),
        GateKind::Repeater => repeater_blocks(false),
    }
}

/// No two blocks of `bs` share a position.
pub open spec fn positions_distinct(bs: Seq<PlacedBlock>) -> bool {
    forall|i: int, j: int| 0 <= i < j < bs.len() ==> (#[trigger] bs[i]).pos != (#[trigger] bs[j]).pos
}

/// Every macro-cell places at most one block per position.
pub proof fn law_cell_positions_distinct(k: GateKind, lock_used: bool)
    ensures
        positions_distinct(cell_blocks(k)),
        positions_distinct(repeater_blocks(lock_used)),
{
    assert(positions_distinct(not_blocks()));
    assert(positions_distinct(and_blocks()));
    assert(positions_distinct(or_blocks()));
    assert(positions_distinct(dtrigger_blocks()));
    assert(positions_distinct(memcell_blocks()));
    assert(positions_distinct(xor_blocks()));
    assert(positions_distinct(comparator_blocks()));
    assert(positions_distinct(observer_blocks()));
    assert(positions_distinct(target_blocks()));
    assert(positions_distinct(repeater_blocks(false)));
    assert(positions_distinct(repeater_blocks(true)));
}

fn pb(x: i32, y: i32, z: i32, block: BlockId) -> (r: PlacedBlock)
    ensures
        r == (PlacedBlock { pos: Pos3 { x, y, z }, block, facing: None }),
{
    PlacedBlock { pos: Pos3::new(x, y, z), block, facing: None }
}

fn pbf(x: i32, y: i32, z: i32, block: BlockId, f: Direction) -> (r: PlacedBlock)
    ensures
        r == (PlacedBlock { pos: Pos3 { x, y, z }, block, facing: Some(f) }),
{
    PlacedBlock { pos: Pos3::new(x, y, z), block, facing: Some(f) }
}

fn anchor(role: EndpointRole, x: i32, y: i32, z: i32, approach: Direction) -> (r: Anchor)
    ensures
        r == (Anchor { role, pos: Pos3 { x, y, z }, approach }),
{
    Anchor { role, pos: Pos3::new(x, y, z), approach }
}

fn bbox_to(x: i32, y: i32, z: i32) -> (r: Bbox3)
    requires
        x >= 0 && y >= 0 && z >= 0,
    ensures
        r == (Bbox3 { min: Pos3 { x: 0, y: 0, z: 0 }, max: Pos3 { x, y, z } }),
{
    Bbox3::from_corners(Pos3::new(0, 0, 0), Pos3::new(x, y, z))
}

/// 1-tick torch inverter, 4×3×1: input on -X, output on +X, at Y=1.
fn not_cell() -> (c: Macrocell)
    ensures
        c.kind == GateKind::Not,
        c.bbox.max == (Pos3 { x: 3, y: 2, z: 0 }),
        c.inputs@ == seq![Anchor { role: EndpointRole::DataIn(0), pos: Pos3 { x: 0, y: 1, z: 0 }, approach: Direction::West }],
        c.outputs@ == seq![Anchor { role: EndpointRole::DataOut, pos: Pos3 { x: 3, y: 1, z: 0 }, approach: Direction::East }],
        c.tick_delay == 1,
        c.repeater_delay is None,
        c.comparator_mode is None,
        c.blocks@ == not_blocks(),
        cell_sound(c),
{
    let blocks = vec![
        pb(0, 0, 0, BlockId::OakPlanks),
        pb(0, 1, 0, BlockId::RedstoneDust),
        pb(1, 0, 0, BlockId::OakPlanks),
        pb(1, 1, 0, BlockId::Stone),
        pb(1, 2, 0, BlockId::RedstoneDust),
        pb(2, 0, 0, BlockId::OakPlanks),
        pbf(2, 1, 0, BlockId::RedstoneWallTorch, Direction::East),
        pb(3, 0, 0, BlockId::OakPlanks),
        pb(3, 1, 0, BlockId::RedstoneDust),
    ];
    let c = Macrocell {
        kind: GateKind::Not,
        bbox: bbox_to(3, 2, 0),
        blocks,
        inputs: vec![anchor(EndpointRole::DataIn(0), 0, 1, 0, Direction::West)],
        outputs: vec![anchor(EndpointRole::DataOut, 3, 1, 0, Direction::East)],
        tick_delay: 1,
        repeater_delay: None,
        comparator_mode: None,
    };
    proof {
        reveal_with_fuel(supported_upto, 10);
        reveal_with_fuel(block_at, 10);
        assert(supported_upto(c.blocks@, c.blocks@.len() as int));
        lemma_supported_upto(c.blocks@, c.blocks@.len() as int);
    }
    c
}

/// Two-input AND as NOT(NOT A OR NOT B), 8×3×3.
#[verifier::spinoff_prover]
#[verifier::rlimit(60)]
fn and_cell() -> (c: Macrocell)
    ensures
        c.kind == GateKind::And,
        c.bbox.max == (Pos3 { x: 7, y: 2, z: 2 }),
        c.inputs@ == seq![Anchor { role: EndpointRole::DataIn(0), pos: Pos3 { x: 0, y: 1, z: 0 }, approach: Direction::West }, Anchor { role: EndpointRole::DataIn(1), pos: Pos3 { x: 0, y: 1, z: 2 }, approach: Direction::West }],
        c.outputs@ == seq![Anchor { role: EndpointRole::DataOut, pos: Pos3 { x: 7, y: 1, z: 1 }, approach: Direction::East }],
        c.tick_delay == 3,
        c.repeater_delay is None,
        c.comparator_mode is None,
        c.blocks@ == and_blocks(),
        cell_sound(c),
{
    let blocks = vec![
        pb(0, 0, 0, BlockId::OakPlanks),
        pb(0, 1, 0, BlockId::RedstoneDust),
        pb(1, 0, 0, BlockId::OakPlanks),
        pb(1, 1, 0, BlockId::Stone),
        pb(1, 2, 0, BlockId::RedstoneDust),
        pb(2, 0, 0, BlockId::OakPlanks),
        pbf(2, 1, 0, BlockId::RedstoneWallTorch, Direction::East),
        pb(3, 0, 0, BlockId::OakPlanks),
        pb(3, 1, 0, BlockId::RedstoneDust),
        pb(4, 0, 0, BlockId::OakPlanks),
        pb(4, 1, 0, BlockId::RedstoneDust),
        pb(0, 0, 2, BlockId::OakPlanks),
        pb(0, 1, 2, BlockId::RedstoneDust),
        pb(1, 0, 2, BlockId::OakPlanks),
        pb(1, 1, 2, BlockId::Stone),
        pb(1, 2, 2, BlockId::RedstoneDust),
        pb(2, 0, 2, BlockId::OakPlanks),
        pbf(2, 1, 2, BlockId::RedstoneWallTorch, Direction::East),
        pb(3, 0, 2, BlockId::OakPlanks),
        pb(3, 1, 2, BlockId::RedstoneDust),
        pb(4, 0, 2, BlockId::OakPlanks),
        pb(4, 1, 2, BlockId::RedstoneDust),
        pb(4, 0, 1, BlockId::OakPlanks),
        pb(4, 1, 1, BlockId::RedstoneDust),
        pb(5, 0, 1, BlockId::OakPlanks),
        pb(5, 1, 1, BlockId::Stone),
        pb(5, 2, 1, BlockId::RedstoneDust),
        pb(6, 0, 1, BlockId::OakPlanks),
        pbf(6, 1, 1, BlockId::RedstoneWallTorch, Direction::East),
        pb(7, 0, 1, BlockId::OakPlanks),
        pb(7, 1, 1, BlockId::RedstoneDust),
    ];
    let c = Macrocell {
        kind: GateKind::And,
        bbox: bbox_to(7, 2, 2),
        blocks,
        inputs: vec![anchor(EndpointRole::DataIn(0), 0, 1, 0, Direction::West), anchor(EndpointRole::DataIn(1), 0, 1, 2, Direction::West)],
        outputs: vec![anchor(EndpointRole::DataOut, 7, 1, 1, Direction::East)],
        tick_delay: 3,
        repeater_delay: None,
        comparator_mode: None,
    };
    proof {
        reveal_with_fuel(supported_upto, 32);
        reveal_with_fuel(block_at, 32);
        assert(supported_upto(c.blocks@, 8));
        assert(supported_upto(c.blocks@, 16));
        assert(supported_upto(c.blocks@, 24));
        assert(supported_upto(c.blocks@, c.blocks@.len() as int));
        lemma_supported_upto(c.blocks@, c.blocks@.len() as int);
    }
    c
}

/// Two-input OR as a dust merge with an output repeater, 4×2×3.
fn or_cell() -> (c: Macrocell)
    ensures
        c.kind == GateKind::Or,
        c.bbox.max == (Pos3 { x: 3, y: 1, z: 2 }),
        c.inputs@ == seq![Anchor { role: EndpointRole::DataIn(0), pos: Pos3 { x: 0, y: 1, z: 0 }, approach: Direction::West }, Anchor { role: EndpointRole::DataIn(1), pos: Pos3 { x: 0, y: 1, z: 2 }, approach: Direction::West }],
        c.outputs@ == seq![Anchor { role: EndpointRole::DataOut, pos: Pos3 { x: 3, y: 1, z: 1 }, approach: Direction::East }],
        c.tick_delay == 2,
        c.repeater_delay is None,
        c.comparator_mode is None,
        c.blocks@ == or_blocks(),
        cell_sound(c),
{
    let blocks = vec![
        pb(0, 0, 0, BlockId::OakPlanks),
        pb(0, 0, 1, BlockId::OakPlanks),
        pb(0, 0, 2, BlockId::OakPlanks),
        pb(1, 0, 0, BlockId::OakPlanks),
        pb(1, 0, 1, BlockId::OakPlanks),
        pb(1, 0, 2, BlockId::OakPlanks),
        pb(2, 0, 1, BlockId::OakPlanks),
        pb(3, 0, 1, BlockId::OakPlanks),
        pb(0, 1, 0, BlockId::RedstoneDust),
        pb(0, 1, 2, BlockId::RedstoneDust),
        pb(1, 1, 0, BlockId::RedstoneDust),
        pb(1, 1, 1, BlockId::RedstoneDust),
        pb(1, 1, 2, BlockId::RedstoneDust),
        pbf(2, 1, 1, BlockId::Repeater, Direction::West),
        pb(3, 1, 1, BlockId::RedstoneDust),
    ];
    let c = Macrocell {
        kind: GateKind::Or,
        bbox: bbox_to(3, 1, 2),
        blocks,
        inputs: vec![anchor(EndpointRole::DataIn(0), 0, 1, 0, Direction::West), anchor(EndpointRole::DataIn(1), 0, 1, 2, Direction::West)],
        outputs: vec![anchor(EndpointRole::DataOut, 3, 1, 1, Direction::East)],
        tick_delay: 2,
        repeater_delay: None,
        comparator_mode: None,
    };
    proof {
        reveal_with_fuel(supported_upto, 16);
        reveal_with_fuel(block_at, 16);
        assert(supported_upto(c.blocks@, c.blocks@.len() as int));
        lemma_supported_upto(c.blocks@, c.blocks@.len() as int);
    }
    c
}

/// Edge-triggered D flip-flop, 5×2×3: D and CLK on -X, Q on +X.
fn dtrigger_cell() -> (c: Macrocell)
    ensures
        c.kind == GateKind::DTrigger,
        c.bbox.max == (Pos3 { x: 4, y: 1, z: 2 }),
        c.inputs@ == seq![Anchor { role: EndpointRole::DataInStateful, pos: Pos3 { x: 0, y: 1, z: 0 }, approach: Direction::West }, Anchor { role: EndpointRole::ClockIn, pos: Pos3 { x: 0, y: 1, z: 2 }, approach: Direction::West }],
        c.outputs@ == seq![Anchor { role: EndpointRole::Q, pos: Pos3 { x: 4, y: 1, z: 1 }, approach: Direction::East }],
        c.tick_delay == 4,
        c.repeater_delay is None,
        c.comparator_mode is None,
        c.blocks@ == dtrigger_blocks(),
        cell_sound(c),
{
    let blocks = vec![
        pb(0, 0, 0, BlockId::OakPlanks),
        pb(0, 0, 1, BlockId::OakPlanks),
        pb(0, 0, 2, BlockId::OakPlanks),
        pb(1, 0, 0, BlockId::OakPlanks),
        pb(1, 0, 1, BlockId::OakPlanks),
        pb(1, 0, 2, BlockId::OakPlanks),
        pb(2, 0, 0, BlockId::OakPlanks),
        pb(2, 0, 1, BlockId::OakPlanks),
        pb(2, 0, 2, BlockId::OakPlanks),
        pb(3, 0, 0, BlockId::OakPlanks),
        pb(3, 0, 1, BlockId::OakPlanks),
        pb(3, 0, 2, BlockId::OakPlanks),
        pb(4, 0, 0, BlockId::OakPlanks),
        pb(4, 0, 1, BlockId::OakPlanks),
        pb(4, 0, 2, BlockId::OakPlanks),
        pb(0, 1, 0, BlockId::RedstoneDust),
        pb(0, 1, 2, BlockId::RedstoneDust),
        pbf(2, 1, 0, BlockId::Repeater, Direction::West),
        pbf(2, 1, 2, BlockId::Repeater, Direction::West),
        pb(3, 1, 1, BlockId::RedstoneTorch),
        pb(4, 1, 1, BlockId::RedstoneDust),
    ];
    let c = Macrocell {
        kind: GateKind::DTrigger,
        bbox: bbox_to(4, 1, 2),
        blocks,
        inputs: vec![anchor(EndpointRole::DataInStateful, 0, 1, 0, Direction::West), anchor(EndpointRole::ClockIn, 0, 1, 2, Direction::West)],
        outputs: vec![anchor(EndpointRole::Q, 4, 1, 1, Direction::East)],
        tick_delay: 4,
        repeater_delay: None,
        comparator_mode: None,
    };
    proof {
        reveal_with_fuel(supported_upto, 22);
        reveal_with_fuel(block_at, 22);
        assert(supported_upto(c.blocks@, c.blocks@.len() as int));
        lemma_supported_upto(c.blocks@, c.blocks@.len() as int);
    }
    c
}

/// One-bit memory latch, 4×2×3: DATA and WRITE on -X, Q on +X.
fn memcell_cell() -> (c: Macrocell)
    ensures
        c.kind == GateKind::MemoryCell,
        c.bbox.max == (Pos3 { x: 3, y: 1, z: 2 }),
        c.inputs@ == seq![Anchor { role: EndpointRole::DataInStateful, pos: Pos3 { x: 0, y: 1, z: 0 }, approach: Direction::West }, Anchor { role: EndpointRole::WriteEnable, pos: Pos3 { x: 0, y: 1, z: 2 }, approach: Direction::West }],
        c.outputs@ == seq![Anchor { role: EndpointRole::Q, pos: Pos3 { x: 3, y: 1, z: 1 }, approach: Direction::East }],
        c.tick_delay == 2,
        c.repeater_delay is None,
        c.comparator_mode is None,
        c.blocks@ == memcell_blocks(),
        cell_sound(c),
{
    let blocks = vec![
        pb(0, 0, 0, BlockId::OakPlanks),
        pb(0, 0, 1, BlockId::OakPlanks),
        pb(0, 0, 2, BlockId::OakPlanks),
        pb(1, 0, 0, BlockId::OakPlanks),
        pb(1, 0, 1, BlockId::OakPlanks),
        pb(1, 0, 2, BlockId::OakPlanks),
        pb(2, 0, 0, BlockId::OakPlanks),
        pb(2, 0, 1, BlockId::OakPlanks),
        pb(2, 0, 2, BlockId::OakPlanks),
        pb(3, 0, 0, BlockId::OakPlanks),
        pb(3, 0, 1, BlockId::OakPlanks),
        pb(3, 0, 2, BlockId::OakPlanks),
        pb(0, 1, 0, BlockId::RedstoneDust),
        pb(0, 1, 2, BlockId::RedstoneDust),
        pbf(1, 1, 1, BlockId::Comparator, Direction::West),
        pb(2, 1, 1, BlockId::RedstoneDust),
        pb(3, 1, 1, BlockId::RedstoneDust),
    ];
    let c = Macrocell {
        kind: GateKind::MemoryCell,
        bbox: bbox_to(3, 1, 2),
        blocks,
        inputs: vec![anchor(EndpointRole::DataInStateful, 0, 1, 0, Direction::West), anchor(EndpointRole::WriteEnable, 0, 1, 2, Direction::West)],
        outputs: vec![anchor(EndpointRole::Q, 3, 1, 1, Direction::East)],
        tick_delay: 2,
        repeater_delay: None,
        comparator_mode: None,
    };
    proof {
        reveal_with_fuel(supported_upto, 18);
        reveal_with_fuel(block_at, 18);
        assert(supported_upto(c.blocks@, c.blocks@.len() as int));
        lemma_supported_upto(c.blocks@, c.blocks@.len() as int);
    }
    c
}

/// Coarse 5×3×3 XOR scaffold.
fn xor_cell() -> (c: Macrocell)
    ensures
        c.kind == GateKind::Xor,
        c.bbox.max == (Pos3 { x: 4, y: 2, z: 2 }),
        c.inputs@ == seq![Anchor { role: EndpointRole::DataIn(0), pos: Pos3 { x: 0, y: 1, z: 0 }, approach: Direction::West }, Anchor { role: EndpointRole::DataIn(1), pos: Pos3 { x: 0, y: 1, z: 2 }, approach: Direction::West }],
        c.outputs@ == seq![Anchor { role: EndpointRole::DataOut, pos: Pos3 { x: 4, y: 1, z: 1 }, approach: Direction::East }],
        c.tick_delay == 3,
        c.repeater_delay is None,
        c.comparator_mode is None,
        c.blocks@ == xor_blocks(),
        cell_sound(c),
{
    let blocks = vec![
        pb(0, 0, 0, BlockId::OakPlanks),
        pb(0, 0, 1, BlockId::OakPlanks),
        pb(0, 0, 2, BlockId::OakPlanks),
        pb(1, 0, 0, BlockId::OakPlanks),
        pb(1, 0, 1, BlockId::OakPlanks),
        pb(1, 0, 2, BlockId::OakPlanks),
        pb(2, 0, 0, BlockId::OakPlanks),
        pb(2, 0, 1, BlockId::OakPlanks),
        pb(2, 0, 2, BlockId::OakPlanks),
        pb(3, 0, 0, BlockId::OakPlanks),
        pb(3, 0, 1, BlockId::OakPlanks),
        pb(3, 0, 2, BlockId::OakPlanks),
        pb(4, 0, 0, BlockId::OakPlanks),
        pb(4, 0, 1, BlockId::OakPlanks),
        pb(4, 0, 2, BlockId::OakPlanks),
        pb(0, 1, 0, BlockId::RedstoneDust),
        pb(0, 1, 2, BlockId::RedstoneDust),
        pb(2, 1, 1, BlockId::RedstoneTorch),
        pb(2, 2, 1, BlockId::Stone),
        pb(4, 1, 1, BlockId::RedstoneDust),
    ];
    let c = Macrocell {
        kind: GateKind::Xor,
        bbox: bbox_to(4, 2, 2),
        blocks,
        inputs: vec![anchor(EndpointRole::DataIn(0), 0, 1, 0, Direction::West), anchor(EndpointRole::DataIn(1), 0, 1, 2, Direction::West)],
        outputs: vec![anchor(EndpointRole::DataOut, 4, 1, 1, Direction::East)],
        tick_delay: 3,
        repeater_delay: None,
        comparator_mode: None,
    };
    proof {
        reveal_with_fuel(supported_upto, 21);
        reveal_with_fuel(block_at, 21);
        assert(supported_upto(c.blocks@, c.blocks@.len() as int));
        lemma_supported_upto(c.blocks@, c.blocks@.len() as int);
    }
    c
}

/// Comparator, 3×2×3; the mode is applied per instance.
fn comparator_cell(_mode: CompareMode) -> (c: Macrocell)
    ensures
        c.kind == GateKind::Comparator,
        c.bbox.max == (Pos3 { x: 2, y: 1, z: 2 }),
        c.inputs@ == seq![Anchor { role: EndpointRole::AnalogIn(0), pos: Pos3 { x: 0, y: 1, z: 0 }, approach: Direction::West }, Anchor { role: EndpointRole::AnalogIn(1), pos: Pos3 { x: 1, y: 1, z: 2 }, approach: Direction::South }],
        c.outputs@ == seq![Anchor { role: EndpointRole::AnalogOut, pos: Pos3 { x: 2, y: 1, z: 0 }, approach: Direction::East }],
        c.tick_delay == 1,
        c.repeater_delay is None,
        c.comparator_mode is None,
        c.blocks@ == comparator_blocks(),
        cell_sound(c),
{
    let blocks = vec![
        pb(0, 0, 0, BlockId::OakPlanks),
        pb(1, 0, 0, BlockId::OakPlanks),
        pb(2, 0, 0, BlockId::OakPlanks),
        pb(1, 0, 2, BlockId::OakPlanks),
        pb(0, 1, 0, BlockId::RedstoneDust),
        pbf(1, 1, 0, BlockId::Comparator, Direction::West),
        pb(2, 1, 0, BlockId::RedstoneDust),
        pb(1, 1, 2, BlockId::RedstoneDust),
    ];
    let c = Macrocell {
        kind: GateKind::Comparator,
        bbox: bbox_to(2, 1, 2),
        blocks,
        inputs: vec![anchor(EndpointRole::AnalogIn(0), 0, 1, 0, Direction::West), anchor(EndpointRole::AnalogIn(1), 1, 1, 2, Direction::South)],
        outputs: vec![anchor(EndpointRole::AnalogOut, 2, 1, 0, Direction::East)],
        tick_delay: 1,
        repeater_delay: None,
        comparator_mode: None,
    };
    proof {
        reveal_with_fuel(supported_upto, 9);
        reveal_with_fuel(block_at, 9);
        assert(supported_upto(c.blocks@, c.blocks@.len() as int));
        lemma_supported_upto(c.blocks@, c.blocks@.len() as int);
    }
    c
}

/// Observer, 1×2×3: watches -Z, pulses +Z.
fn observer_cell() -> (c: Macrocell)
    ensures
        c.kind == GateKind::Observer,
        c.bbox.max == (Pos3 { x: 0, y: 1, z: 2 }),
        c.inputs@ == seq![Anchor { role: EndpointRole::ObserverWatch, pos: Pos3 { x: 0, y: 1, z: 0 }, approach: Direction::North }],
        c.outputs@ == seq![Anchor { role: EndpointRole::ObserverPulse, pos: Pos3 { x: 0, y: 1, z: 2 }, approach: Direction::South }],
        c.tick_delay == 1,
        c.repeater_delay is None,
        c.comparator_mode is None,
        c.blocks@ == observer_blocks(),
        cell_sound(c),
{
    let blocks = vec![
        pb(0, 0, 0, BlockId::OakPlanks),
        pb(0, 0, 1, BlockId::OakPlanks),
        pb(0, 0, 2, BlockId::OakPlanks),
        pb(0, 1, 0, BlockId::RedstoneDust),
        pbf(0, 1, 1, BlockId::Observer, Direction::North),
        pb(0, 1, 2, BlockId::RedstoneDust),
    ];
    let c = Macrocell {
        kind: GateKind::Observer,
        bbox: bbox_to(0, 1, 2),
        blocks,
        inputs: vec![anchor(EndpointRole::ObserverWatch, 0, 1, 0, Direction::North)],
        outputs: vec![anchor(EndpointRole::ObserverPulse, 0, 1, 2, Direction::South)],
        tick_delay: 1,
        repeater_delay: None,
        comparator_mode: None,
    };
    proof {
        reveal_with_fuel(supported_upto, 7);
        reveal_with_fuel(block_at, 7);
        assert(supported_upto(c.blocks@, c.blocks@.len() as int));
        lemma_supported_upto(c.blocks@, c.blocks@.len() as int);
    }
    c
}

/// Target block, 3×2×1.
fn target_cell() -> (c: Macrocell)
    ensures
        c.kind == GateKind::TargetBlock,
        c.bbox.max == (Pos3 { x: 2, y: 1, z: 0 }),
        c.inputs@ == seq![Anchor { role: EndpointRole::DataIn(0), pos: Pos3 { x: 0, y: 1, z: 0 }, approach: Direction::West }],
        c.outputs@ == seq![Anchor { role: EndpointRole::DataOut, pos: Pos3 { x: 2, y: 1, z: 0 }, approach: Direction::East }],
        c.tick_delay == 0,
        c.repeater_delay is None,
        c.comparator_mode is None,
        c.blocks@ == target_blocks(),
        cell_sound(c),
{
    let blocks = vec![
        pb(0, 0, 0, BlockId::OakPlanks),
        pb(1, 0, 0, BlockId::OakPlanks),
        pb(2, 0, 0, BlockId::OakPlanks),
        pb(0, 1, 0, BlockId::RedstoneDust),
        pb(1, 1, 0, BlockId::TargetBlock),
        pb(2, 1, 0, BlockId::RedstoneDust),
    ];
    let c = Macrocell {
        kind: GateKind::TargetBlock,
        bbox: bbox_to(2, 1, 0),
        blocks,
        inputs: vec![anchor(EndpointRole::DataIn(0), 0, 1, 0, Direction::West)],
        outputs: vec![anchor(EndpointRole::DataOut, 2, 1, 0, Direction::East)],
        tick_delay: 0,
        repeater_delay: None,
        comparator_mode: None,
    };
    proof {
        reveal_with_fuel(supported_upto, 7);
        reveal_with_fuel(block_at, 7);
        assert(supported_upto(c.blocks@, c.blocks@.len() as int));
        lemma_supported_upto(c.blocks@, c.blocks@.len() as int);
    }
    c
}

/// Input anchors of the default cell of `k` (repeater: no lock input).
pub open spec fn cell_inputs(k: GateKind) -> Seq<Anchor> {
    match k {
        GateKind::Not => seq![Anchor { role: EndpointRole::DataIn(0), pos: Pos3 { x: 0, y: 1, z: 0 }, approach: Direction::West }],
        GateKind::And => seq![Anchor { role: EndpointRole::DataIn(0), pos: Pos3 { x: 0, y: 1, z: 0 }, approach: Direction::West }, Anchor { role: EndpointRole::DataIn(1), pos: Pos3 { x: 0, y: 1, z: 2 }, approach: Direction::West }],
        GateKind::Or => seq![Anchor { role: EndpointRole::DataIn(0), pos: Pos3 { x: 0, y: 1, z: 0 }, approach: Direction::West }, Anchor { role: EndpointRole::DataIn(1), pos: Pos3 { x: 0, y: 1, z: 2 }, approach: Direction::West }],
        GateKind::DTrigger => seq![Anchor { role: EndpointRole::DataInStateful, pos: Pos3 { x: 0, y: 1, z: 0 }, approach: Direction::West }, Anchor { role: EndpointRole::ClockIn, pos: Pos3 { x: 0, y: 1, z: 2 }, approach: Direction::West }],
        GateKind::MemoryCell => seq![Anchor { role: EndpointRole::DataInStateful, pos: Pos3 { x: 0, y: 1, z: 0 }, approach: Direction::West }, Anchor { role: EndpointRole::WriteEnable, pos: Pos3 { x: 0, y: 1, z: 2 }, approach: Direction::West }],
        GateKind::Xor => seq![Anchor { role: EndpointRole::DataIn(0), pos: Pos3 { x: 0, y: 1, z: 0 }, approach: Direction::West }, Anchor { role: EndpointRole::DataIn(1), pos: Pos3 { x: 0, y: 1, z: 2 }, approach: Direction::West }],
        GateKind::Comparator => seq![Anchor { role: EndpointRole::AnalogIn(0), pos: Pos3 { x: 0, y: 1, z: 0 }, approach: Direction::West }, Anchor { role: EndpointRole::AnalogIn(1), pos: Pos3 { x: 1, y: 1, z: 2 }, approach: Direction::South }],
        GateKind::Observer => seq![Anchor { role: EndpointRole::ObserverWatch, pos: Pos3 { x: 0, y: 1, z: 0 }, approach: Direction::North }],
        GateKind::TargetBlock => seq![Anchor { role: EndpointRole::DataIn(0), pos: Pos3 { x: 0, y: 1, z: 0 }, approach: Direction::West }],
        GateKind::Repeater => seq![Anchor { role: EndpointRole::RepeaterIn, pos: Pos3 { x: 0, y: 1, z: 0 }, approach: Direction::West }],
    }
}

/// Output anchors of the cell of `k`.
pub open spec fn cell_outputs(k: GateKind) -> Seq<Anchor> {
    match k {
        GateKind::Not => seq![Anchor { role: EndpointRole::DataOut, pos: Pos3 { x: 3, y: 1, z: 0 }, approach: Direction::East }],
        GateKind::And => seq![Anchor { role: EndpointRole::DataOut, pos: Pos3 { x: 7, y: 1, z: 1 }, approach: Direction::East }],
        GateKind::Or => seq![Anchor { role: EndpointRole::DataOut, pos: Pos3 { x: 3, y: 1, z: 1 }, approach: Direction::East }],
        GateKind::DTrigger => seq![Anchor { role: EndpointRole::Q, pos: Pos3 { x: 4, y: 1, z: 1 }, approach: Direction::East }],
        GateKind::MemoryCell => seq![Anchor { role: EndpointRole::Q, pos: Pos3 { x: 3, y: 1, z: 1 }, approach: Direction::East }],
        GateKind::Xor => seq![Anchor { role: EndpointRole::DataOut, pos: Pos3 { x: 4, y: 1, z: 1 }, approach: Direction::East }],
        GateKind::Comparator => seq![Anchor { role: EndpointRole::AnalogOut, pos: Pos3 { x: 2, y: 1, z: 0 }, approach: Direction::East }],
        GateKind::Observer => seq![Anchor { role: EndpointRole::ObserverPulse, pos: Pos3 { x: 0, y: 1, z: 2 }, approach: Direction::South }],
        GateKind::TargetBlock => seq![Anchor { role: EndpointRole::DataOut, pos: Pos3 { x: 2, y: 1, z: 0 }, approach: Direction::East }],
        GateKind::Repeater => seq![Anchor { role: EndpointRole::RepeaterOut, pos: Pos3 { x: 2, y: 1, z: 0 }, approach: Direction::East }],
    }
}

/// Maximum corner of the default cell's bounding box.
pub open spec fn cell_bbox_max(k: GateKind) -> Pos3 {
    match k {
        GateKind::Not => Pos3 { x: 3, y: 2, z: 0 },
        GateKind::And => Pos3 { x: 7, y: 2, z: 2 },
        GateKind::Or => Pos3 { x: 3, y: 1, z: 2 },
        GateKind::DTrigger => Pos3 { x: 4, y: 1, z: 2 },
        GateKind::MemoryCell => Pos3 { x: 3, y: 1, z: 2 },
        GateKind::Xor => Pos3 { x: 4, y: 2, z: 2 },
        GateKind::Comparator => Pos3 { x: 2, y: 1, z: 2 },
        GateKind::Observer => Pos3 { x: 0, y: 1, z: 2 },
        GateKind::TargetBlock => Pos3 { x: 2, y: 1, z: 0 },
        GateKind::Repeater => Pos3 { x: 2, y: 1, z: 0 },
    }
}

/// Settle delay of the default cell of `k`, in redstone ticks.
pub open spec fn cell_tick_delay(k: GateKind) -> u8 {
    match k {
        GateKind::Not => 1,
        GateKind::And => 3,
        GateKind::Or => 2,
        GateKind::DTrigger => 4,
        GateKind::MemoryCell => 2,
        GateKind::Xor => 3,
        GateKind::Comparator => 1,
        GateKind::Observer => 1,
        GateKind::TargetBlock => 0,
        GateKind::Repeater => 1,
    }
}

/// Input anchors of a repeater cell, with the lock input when used.
pub open spec fn repeater_inputs(lock_used: bool) -> Seq<Anchor> {
    if lock_used {
        seq![Anchor { role: EndpointRole::RepeaterIn, pos: Pos3 { x: 0, y: 1, z: 0 }, approach: Direction::West }].push(Anchor { role: EndpointRole::RepeaterLock, pos: Pos3 { x: 1, y: 1, z: 1 }, approach: Direction::South })
    } else {
        seq![Anchor { role: EndpointRole::RepeaterIn, pos: Pos3 { x: 0, y: 1, z: 0 }, approach: Direction::West }]
    }
}

/// Repeater cell, 3×2×1 (3×2×2 with a lock input).
fn repeater_cell(delay: u8, lock_used: bool) -> (c: Macrocell)
    ensures
        c.kind == GateKind::Repeater,
        c.bbox.max == (Pos3 { x: 2, y: 1, z: if lock_used { 1 } else { 0 } }),
        c.inputs@ == repeater_inputs(lock_used),
        c.outputs@ == seq![Anchor { role: EndpointRole::RepeaterOut, pos: Pos3 { x: 2, y: 1, z: 0 }, approach: Direction::East }],
        c.tick_delay == (if delay >= 1 { delay } else { 1 }),
        c.repeater_delay == Some(delay),
        c.comparator_mode is None,
        c.blocks@ == repeater_blocks(lock_used),
        cell_sound(c),
{
    let mut blocks: Vec<PlacedBlock> = vec![
        pb(0, 0, 0, BlockId::OakPlanks),
        pb(1, 0, 0, BlockId::OakPlanks),
        pb(2, 0, 0, BlockId::OakPlanks),
        pb(0, 1, 0, BlockId::RedstoneDust),
        pbf(1, 1, 0, BlockId::Repeater, Direction::West),
        pb(2, 1, 0, BlockId::RedstoneDust),
    ];
    let mut inputs = vec![anchor(EndpointRole::RepeaterIn, 0, 1, 0, Direction::West)];
    let bbox_max_z: i32 = if lock_used {
        blocks.push(pb(1, 0, 1, BlockId::OakPlanks));
        blocks.push(pb(1, 1, 1, BlockId::RedstoneDust));
        inputs.push(anchor(EndpointRole::RepeaterLock, 1, 1, 1, Direction::South));
        1
    } else {
        0
    };
    let c = Macrocell {
        kind: GateKind::Repeater,
        bbox: bbox_to(2, 1, bbox_max_z),
        blocks,
        inputs,
        outputs: vec![anchor(EndpointRole::RepeaterOut, 2, 1, 0, Direction::East)],
        tick_delay: if delay >= 1 { delay } else { 1 },
        repeater_delay: Some(delay),
        comparator_mode: None,
    };
    proof {
        reveal_with_fuel(supported_upto, 9);
        reveal_with_fuel(block_at, 9);
        assert(supported_upto(c.blocks@, c.blocks@.len() as int));
        lemma_supported_upto(c.blocks@, c.blocks@.len() as int);
        assert(c.inputs@ =~= repeater_inputs(lock_used));
    }
    c
}

/// The macro-cell of a primitive, with default attributes (repeater
/// delay 1 without lock, comparator in compare mode).
pub fn macrocell_for(kind: GateKind) -> (r: Result<Macrocell, SynthError>)
    ensures
        r matches Ok(c) && c.kind == kind && c.bbox.max == cell_bbox_max(kind) && c.blocks@ == cell_blocks(kind)
            && c.inputs@ == cell_inputs(kind) && c.outputs@ == cell_outputs(kind) && c.tick_delay
            == cell_tick_delay(kind) && cell_sound(c) && (if kind == GateKind::Repeater {
            c.repeater_delay == Some(1u8)
        } else {
            c.repeater_delay is None
        }) && c.comparator_mode is None,
{
    match kind {
        GateKind::Not => Ok(not_cell()),
        GateKind::And => Ok(and_cell()),
        GateKind::Or => Ok(or_cell()),
        GateKind::Xor => Ok(xor_cell()),
        GateKind::DTrigger => Ok(dtrigger_cell()),
        GateKind::MemoryCell => Ok(memcell_cell()),
        GateKind::Comparator => Ok(comparator_cell(CompareMode::Compare)),
        GateKind::Observer => Ok(observer_cell()),
        GateKind::Repeater => Ok(repeater_cell(1, false)),
        GateKind::TargetBlock => Ok(target_cell()),
    }
}

/// True iff some connection of `inst` is to a port named `LOCK` (any
/// ASCII case).
pub open spec fn uses_lock(inst: GateInst) -> bool {
    exists|i: int|
        0 <= i < inst.connections@.len() && ascii_ci_eq(
            #[trigger] inst.connections@[i].port.text@,
            "LOCK"@,
        )
}

/// The macro-cell of a gate instance, carrying its attributes: a
/// comparator takes its `.MODE` (default compare), a repeater its
/// `.DELAY` (default 1) and a lock input when a `LOCK` port is wired.
pub fn macrocell_for_inst(inst: &GateInst) -> (r: Result<Macrocell, SynthError>)
    ensures
        r matches Ok(c) && c.kind == inst.kind && cell_sound(c) && c.outputs@ == cell_outputs(
            inst.kind,
        ) && (match inst.kind {
            GateKind::Comparator => {
                &&& c.comparator_mode == Some(
                    match inst.compare_mode {
                        Some(m) => m,
                        None => CompareMode::Compare,
                    },
                )
                &&& c.inputs@ == cell_inputs(inst.kind)
                &&& c.blocks@ == cell_blocks(inst.kind)
                &&& c.bbox.max == cell_bbox_max(inst.kind)
                &&& c.tick_delay == cell_tick_delay(inst.kind)
            },
            GateKind::Repeater => {
                let d = match inst.repeater_delay {
                    Some(d) => d,
                    None => 1u8,
                };
                &&& c.repeater_delay == Some(d)
                &&& c.inputs@ == repeater_inputs(uses_lock(*inst))
                &&& c.blocks@ == repeater_blocks(uses_lock(*inst))
                &&& c.bbox.max == (Pos3 { x: 2, y: 1, z: if uses_lock(*inst) { 1 } else { 0 } })
                &&& c.tick_delay == (if d >= 1 { d } else { 1 })
            },
            _ => {
                &&& c.inputs@ == cell_inputs(inst.kind)
                &&& c.blocks@ == cell_blocks(inst.kind)
                &&& c.bbox.max == cell_bbox_max(inst.kind)
                &&& c.tick_delay == cell_tick_delay(inst.kind)
                &&& c.repeater_delay is None
                &&& c.comparator_mode is None
            },
        }),
{
    match inst.kind {
        GateKind::Comparator => {
            let mode = match inst.compare_mode {
                Some(m) => m,
                None => CompareMode::Compare,
            };
            let mut cell = comparator_cell(mode);
            cell.comparator_mode = Some(mode);
            Ok(cell)
        },
        GateKind::Repeater => {
            let delay = match inst.repeater_delay {
                Some(d) => d,
                None => 1,
            };
            let mut lock_used = false;
            let mut i: usize = 0;
            proof {
                reveal_strlit("LOCK");
            }
            while i < inst.connections.len()
                invariant
                    i <= inst.connections@.len(),
                    lock_used == exists|j: int|
                        0 <= j < i && ascii_ci_eq(
                            #[trigger] inst.connections@[j].port.text@,
                            "LOCK"@,
                        ),
                decreases inst.connections@.len() - i,
            {
                if eq_ignore_ascii_case(inst.connections[i].port.as_str(), "LOCK") {
                    lock_used = true;
                }
                i += 1;
            }
            let mut cell = repeater_cell(delay, lock_used);
            cell.repeater_delay = Some(delay);
            Ok(cell)
        },
        _ => macrocell_for(inst.kind),
    }
}

} // verus!
