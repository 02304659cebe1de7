//! Assembly of the final block grid: the placed macro-cells, then the
//! routed wires with a stone support under each wire block, all shifted
//! so that the grid's minimum corner is the origin.
use vstd::prelude::*;

use std::collections::BTreeMap;

use crate::ast::CompareMode;
use crate::cell_library::{Macrocell, PlacedBlock};
use crate::geom::{pos_key, Bbox3, BlockId, Direction, Pos3};
use crate::pipeline::{placement_routable, world, world_in};
use crate::place::greedy::{PlacedCell, Placement};
use crate::route::lee::{RouteSegment, RoutedWire};

verus! {

/// One block of the assembled grid with its per-instance state.
#[derive(Debug, Clone, Copy, PartialEq, Eq, Structural)]
pub struct GridBlock {
    /// Block kind.
    pub block: BlockId,
    /// `facing` block-state, for directional blocks.
    pub facing: Option<Direction>,
    /// Repeater delay set by the instance, if any.
    pub delay: Option<u8>,
    /// Comparator mode set by the instance, if any.
    pub mode: Option<CompareMode>,
}

/// The assembled structure: its bounds and the block at each position.
#[derive(Debug)]
pub struct BlockGrid {
    /// Bounds of the structure, minimum corner at the origin.
    pub bounds: Bbox3,
    /// Blocks by position key.
    pub blocks: BTreeMap<(i32, i32, i32), GridBlock>,
}

/// The single-block box at `p`.
pub open spec fn point_box(p: Pos3) -> Bbox3 {
    Bbox3 { min: p, max: p }
}

/// The position directly below `p`.
pub open spec fn under(p: Pos3) -> Pos3 {
    Pos3 { x: p.x, y: (p.y - 1) as i32, z: p.z }
}

/// `p` moved by the offset `d`.
pub open spec fn shifted(p: Pos3, d: Pos3) -> Pos3 {
    Pos3 { x: (p.x + d.x) as i32, y: (p.y + d.y) as i32, z: (p.z + d.z) as i32 }
}

/// `b` grown to hold every segment of `segs` and the support cell under it.
pub open spec fn grow_by_segs(b: Bbox3, segs: Seq<RouteSegment>) -> Bbox3
    decreases segs.len(),
{
    if segs.len() == 0 {
        b
    } else {
        let p = segs.last().spec_pos();
        grow_by_segs(b, segs.drop_last()).spec_union(point_box(p)).spec_union(point_box(under(p)))
    }
}

/// `b` grown to hold every segment of every wire of `ws`, with supports.
pub open spec fn grow_by_wires(b: Bbox3, ws: Seq<RoutedWire>) -> Bbox3
    decreases ws.len(),
{
    if ws.len() == 0 {
        b
    } else {
        grow_by_segs(grow_by_wires(b, ws.drop_last()), ws.last().segments@)
    }
}

/// The offset that moves the minimum corner of `b` to the origin.
pub open spec fn to_origin(b: Bbox3) -> Pos3 {
    Pos3 { x: (-b.min.x) as i32, y: (-b.min.y) as i32, z: (-b.min.z) as i32 }
}

/// Grid state of block `b` of macro-cell `c`: the instance's repeater
/// delay and comparator mode apply to its repeaters and comparators.
pub open spec fn cell_block_state(c: Macrocell, b: PlacedBlock) -> GridBlock {
    GridBlock {
        block: b.block,
        facing: b.facing,
        delay: if b.block == BlockId::Repeater { c.repeater_delay } else { None },
        mode: if b.block == BlockId::Comparator { c.comparator_mode } else { None },
    }
}

/// `m` with the blocks `bs` of cell `c` written in order (a later block
/// replaces an earlier one at the same position), shifted by `d`.
pub open spec fn put_blocks(
    m: Map<(i32, i32, i32), GridBlock>,
    c: PlacedCell,
    bs: Seq<PlacedBlock>,
    d: Pos3,
) -> Map<(i32, i32, i32), GridBlock>
    decreases bs.len(),
{
    if bs.len() == 0 {
        m
    } else {
        put_blocks(m, c, bs.drop_last(), d).insert(
            pos_key(shifted(world(c.origin, bs.last().pos), d)),
            cell_block_state(c.macro_cell, bs.last()),
        )
    }
}

/// `m` with the blocks of every cell of `cells` written in order.
pub open spec fn put_cells(m: Map<(i32, i32, i32), GridBlock>, cells: Seq<PlacedCell>, d: Pos3) -> Map<
    (i32, i32, i32),
    GridBlock,
>
    decreases cells.len(),
{
    if cells.len() == 0 {
        m
    } else {
        put_blocks(put_cells(m, cells.drop_last(), d), cells.last(), cells.last().macro_cell.blocks@, d)
    }
}

/// The block a wire segment becomes.
pub open spec fn wire_block(s: RouteSegment) -> GridBlock {
    match s {
        RouteSegment::Dust { .. } => GridBlock {
            block: BlockId::RedstoneDust,
            facing: None,
            delay: None,
            mode: None,
        },
        RouteSegment::Repeater { facing, .. } => GridBlock {
            block: BlockId::Repeater,
            facing: Some(facing),
            delay: None,
            mode: None,
        },
    }
}

/// A plain stone block.
pub open spec fn stone() -> GridBlock {
    GridBlock { block: BlockId::Stone, facing: None, delay: None, mode: None }
}

/// `m` with segment `s` laid at its shifted position, unless that position
/// is taken; a newly laid segment gets a stone under it where that cell is
/// free.
pub open spec fn lay_seg(m: Map<(i32, i32, i32), GridBlock>, s: RouteSegment, d: Pos3) -> Map<
    (i32, i32, i32),
    GridBlock,
> {
    let w = shifted(s.spec_pos(), d);
    if m.contains_key(pos_key(w)) {
        m
    } else {
        let m1 = m.insert(pos_key(w), wire_block(s));
        if m1.contains_key(pos_key(under(w))) {
            m1
        } else {
            m1.insert(pos_key(under(w)), stone())
        }
    }
}

/// `m` with the segments `segs` laid in order.
pub open spec fn lay_segs(m: Map<(i32, i32, i32), GridBlock>, segs: Seq<RouteSegment>, d: Pos3) -> Map<
    (i32, i32, i32),
    GridBlock,
>
    decreases segs.len(),
{
    if segs.len() == 0 {
        m
    } else {
        lay_seg(lay_segs(m, segs.drop_last(), d), segs.last(), d)
    }
}

/// `m` with the segments of every wire of `ws` laid in order.
pub open spec fn lay_wires(m: Map<(i32, i32, i32), GridBlock>, ws: Seq<RoutedWire>, d: Pos3) -> Map<
    (i32, i32, i32),
    GridBlock,
>
    decreases ws.len(),
{
    if ws.len() == 0 {
        m
    } else {
        lay_segs(lay_wires(m, ws.drop_last(), d), ws.last().segments@, d)
    }
}

/// `v` is representable as an `i32`.
pub open spec fn fits_i32(v: int) -> bool {
    i32::MIN <= v <= i32::MAX
}

/// Every segment of every wire of `ws` has a cell below it that an `i32`
/// can name.
pub open spec fn supports_fit(ws: Seq<RoutedWire>) -> bool {
    forall|i: int, k: int|
        0 <= i < ws.len() && 0 <= k < ws[i].segments@.len() ==> (#[trigger] ws[i].segments@[k]).spec_pos().y
            > i32::MIN
}

/// Position `p` moved by `d`, and the cell below it, are representable.
pub open spec fn seg_shift_fits(p: Pos3, d: Pos3) -> bool {
    fits_i32(p.x + d.x) && fits_i32(p.y + d.y) && fits_i32(p.z + d.z) && p.y + d.y > i32::MIN
}

/// Every segment of every wire of `ws` moved by `d` is representable.
pub open spec fn wires_shift_fit(ws: Seq<RoutedWire>, d: Pos3) -> bool {
    forall|i: int, k: int|
        0 <= i < ws.len() && 0 <= k < ws[i].segments@.len() ==> seg_shift_fits(
            (#[trigger] ws[i].segments@[k]).spec_pos(),
            d,
        )
}

/// The world position of block `b` of cell `c`, and that position moved
/// by `d`, are representable.
pub open spec fn block_fits(c: PlacedCell, b: PlacedBlock, d: Pos3) -> bool {
    &&& fits_i32(c.origin.x + b.pos.x) && fits_i32(c.origin.y + b.pos.y) && fits_i32(c.origin.z + b.pos.z)
    &&& fits_i32(c.origin.x + b.pos.x + d.x) && fits_i32(c.origin.y + b.pos.y + d.y) && fits_i32(
        c.origin.z + b.pos.z + d.z,
    )
}

/// Every block of every cell of `cells` fits when moved by `d`.
pub open spec fn cells_fit(cells: Seq<PlacedCell>, d: Pos3) -> bool {
    forall|i: int, j: int|
        0 <= i < cells.len() && 0 <= j < cells[i].macro_cell.blocks@.len() ==> block_fits(
            cells[i],
            #[trigger] cells[i].macro_cell.blocks@[j],
            d,
        )
}

/// The assembly of `pl` and `ws` stays within `i32`: every wire block has
/// a support cell below it, the grown box's minimum corner can be negated,
/// its extent along each axis fits, and every cell block's world position
/// fits before and after the shift.
pub open spec fn assembly_fits(pl: Placement, ws: Seq<RoutedWire>) -> bool {
    let bb = grow_by_wires(pl.bounds, ws);
    &&& supports_fit(ws)
    &&& bb.min.x > i32::MIN && bb.min.y > i32::MIN && bb.min.z > i32::MIN
    &&& fits_i32(bb.max.x - bb.min.x) && fits_i32(bb.max.y - bb.min.y) && fits_i32(bb.max.z - bb.min.z)
    &&& cells_fit(pl.cells@, to_origin(bb))
}

/// True iff every wire segment has a support cell that an `i32` can name.
fn supports_are_representable(wires: &[RoutedWire]) -> (r: bool)
    ensures
        r == supports_fit(wires@),
{
    let mut i: usize = 0;
    while i < wires.len()
        invariant
            0 <= i <= wires@.len(),
            forall|a: int, k: int|
                0 <= a < i && 0 <= k < wires@[a].segments@.len() ==> (#[trigger] wires@[a].segments@[k]).spec_pos().y
                    > i32::MIN,
        decreases wires@.len() - i,
    {
        let segs = &wires[i].segments;
        let mut k: usize = 0;
        while k < segs.len()
            invariant
                0 <= i < wires@.len(),
                segs@ == wires@[i as int].segments@,
                0 <= k <= segs@.len(),
                forall|a: int, b: int|
                    0 <= a < i && 0 <= b < wires@[a].segments@.len() ==> (#[trigger] wires@[a].segments@[b]).spec_pos().y
                        > i32::MIN,
                forall|b: int| 0 <= b < k ==> (#[trigger] segs@[b]).spec_pos().y > i32::MIN,
            decreases segs@.len() - k,
        {
            let p = segs[k].pos();
            if p.y == i32::MIN {
                return false;
            }
            k += 1;
        }
        i += 1;
    }
    true
}

/// `v`, given as an `i64`, fits an `i32`.
fn fits_i32_exec(v: i64) -> (r: bool)
    ensures
        r == fits_i32(v as int),
{
    -2147483648i64 <= v && v <= 2147483647i64
}

/// True iff every block of every cell fits when moved by `d`.
fn cells_are_representable(cells: &Vec<PlacedCell>, d: Pos3) -> (r: bool)
    ensures
        r == cells_fit(cells@, d),
{
    let mut i: usize = 0;
    while i < cells.len()
        invariant
            0 <= i <= cells@.len(),
            forall|a: int, j: int|
                0 <= a < i && 0 <= j < cells@[a].macro_cell.blocks@.len() ==> block_fits(
                    cells@[a],
                    #[trigger] cells@[a].macro_cell.blocks@[j],
                    d,
                ),
        decreases cells@.len() - i,
    {
        let c = &cells[i];
        let mut j: usize = 0;
        while j < c.macro_cell.blocks.len()
            invariant
                0 <= i < cells@.len(),
                *c == cells@[i as int],
                0 <= j <= c.macro_cell.blocks@.len(),
                forall|a: int, k: int|
                    0 <= a < i && 0 <= k < cells@[a].macro_cell.blocks@.len() ==> block_fits(
                        cells@[a],
                        #[trigger] cells@[a].macro_cell.blocks@[k],
                        d,
                    ),
                forall|k: int| 0 <= k < j ==> block_fits(*c, #[trigger] c.macro_cell.blocks@[k], d),
            decreases c.macro_cell.blocks@.len() - j,
        {
            let bp = c.macro_cell.blocks[j].pos;
            let wx = c.origin.x as i64 + bp.x as i64;
            let wy = c.origin.y as i64 + bp.y as i64;
            let wz = c.origin.z as i64 + bp.z as i64;
            if !(fits_i32_exec(wx) && fits_i32_exec(wy) && fits_i32_exec(wz) && fits_i32_exec(wx + d.x as i64)
                && fits_i32_exec(wy + d.y as i64) && fits_i32_exec(wz + d.z as i64)) {
                assert(!block_fits(cells@[i as int], cells@[i as int].macro_cell.blocks@[j as int], d));
                return false;
            }
            j += 1;
        }
        i += 1;
    }
    true
}

/// True iff assembling `placement` with `wires` stays within `i32`
/// (see [`assembly_fits`]).
pub fn assembly_is_representable(placement: &Placement, wires: &[RoutedWire]) -> (r: bool)
    ensures
        r == assembly_fits(*placement, wires@),
{
    if !supports_are_representable(wires) {
        return false;
    }
    let bb = grow_by_all(placement.bounds, wires);
    if bb.min.x == i32::MIN || bb.min.y == i32::MIN || bb.min.z == i32::MIN {
        return false;
    }
    if !(fits_i32_exec(bb.max.x as i64 - bb.min.x as i64) && fits_i32_exec(bb.max.y as i64 - bb.min.y as i64)
        && fits_i32_exec(bb.max.z as i64 - bb.min.z as i64)) {
        return false;
    }
    let d = Pos3 { x: -bb.min.x, y: -bb.min.y, z: -bb.min.z };
    cells_are_representable(&placement.cells, d)
}

/// True iff the placement can be routed within `i32` (see
/// [`placement_routable`]).
pub fn placement_is_routable(placement: &Placement) -> (r: bool)
    ensures
        r == placement_routable(*placement),
{
    let b = placement.bounds;
    if !(b.min.x > i32::MIN + 3 && b.min.y > i32::MIN + 3 && b.min.z > i32::MIN + 3 && b.max.x < i32::MAX - 3
        && b.max.y < i32::MAX - 3 && b.max.z < i32::MAX - 3) {
        return false;
    }
    let mut i: usize = 0;
    while i < placement.cells.len()
        invariant
            0 <= i <= placement.cells@.len(),
            forall|a: int| 0 <= a < i ==> crate::pipeline::cell_routable(#[trigger] placement.cells@[a]),
        decreases placement.cells@.len() - i,
    {
        if !cell_is_routable(&placement.cells[i]) {
            return false;
        }
        i += 1;
    }
    true
}

/// True iff local position `l` of a cell at `o` lies strictly inside the
/// `i32` range.
fn world_is_in(o: Pos3, l: Pos3) -> (r: bool)
    ensures
        r == world_in(o, l),
{
    let x = o.x as i64 + l.x as i64;
    let y = o.y as i64 + l.y as i64;
    let z = o.z as i64 + l.z as i64;
    -2147483648i64 < x && x < 2147483647i64 && -2147483648i64 < y && y < 2147483647i64 && -2147483648i64 < z
        && z < 2147483647i64
}

fn cell_is_routable(c: &PlacedCell) -> (r: bool)
    ensures
        r == crate::pipeline::cell_routable(*c),
{
    let mut i: usize = 0;
    while i < c.macro_cell.blocks.len()
        invariant
            0 <= i <= c.macro_cell.blocks@.len(),
            forall|a: int| 0 <= a < i ==> world_in(c.origin, (#[trigger] c.macro_cell.blocks@[a]).pos),
        decreases c.macro_cell.blocks@.len() - i,
    {
        if !world_is_in(c.origin, c.macro_cell.blocks[i].pos) {
            assert(!world_in(c.origin, c.macro_cell.blocks@[i as int].pos));
            return false;
        }
        i += 1;
    }
    let mut i: usize = 0;
    while i < c.macro_cell.inputs.len()
        invariant
            0 <= i <= c.macro_cell.inputs@.len(),
            forall|a: int| 0 <= a < c.macro_cell.blocks@.len() ==> world_in(c.origin, (#[trigger] c.macro_cell.blocks@[a]).pos),
            forall|a: int| 0 <= a < i ==> world_in(c.origin, (#[trigger] c.macro_cell.inputs@[a]).pos),
        decreases c.macro_cell.inputs@.len() - i,
    {
        if !world_is_in(c.origin, c.macro_cell.inputs[i].pos) {
            assert(!world_in(c.origin, c.macro_cell.inputs@[i as int].pos));
            return false;
        }
        i += 1;
    }
    let mut i: usize = 0;
    while i < c.macro_cell.outputs.len()
        invariant
            0 <= i <= c.macro_cell.outputs@.len(),
            forall|a: int| 0 <= a < c.macro_cell.blocks@.len() ==> world_in(c.origin, (#[trigger] c.macro_cell.blocks@[a]).pos),
            forall|a: int| 0 <= a < c.macro_cell.inputs@.len() ==> world_in(c.origin, (#[trigger] c.macro_cell.inputs@[a]).pos),
            forall|a: int| 0 <= a < i ==> world_in(c.origin, (#[trigger] c.macro_cell.outputs@[a]).pos),
        decreases c.macro_cell.outputs@.len() - i,
    {
        if !world_is_in(c.origin, c.macro_cell.outputs[i].pos) {
            assert(!world_in(c.origin, c.macro_cell.outputs@[i as int].pos));
            return false;
        }
        i += 1;
    }
    true
}

fn shift_pos(p: Pos3, d: Pos3) -> (r: Pos3)
    requires
        fits_i32(p.x + d.x),
        fits_i32(p.y + d.y),
        fits_i32(p.z + d.z),
    ensures
        r == shifted(p, d),
{
    Pos3 { x: p.x + d.x, y: p.y + d.y, z: p.z + d.z }
}

fn grow_box(b: &Bbox3, p: Pos3) -> (r: Bbox3)
    requires
        p.y > i32::MIN,
    ensures
        r == b.spec_union(point_box(p)).spec_union(point_box(under(p))),
{
    let u = Pos3 { x: p.x, y: p.y - 1, z: p.z };
    let b1 = b.union(&Bbox3::point(p));
    b1.union(&Bbox3::point(u))
}

/// `b` grown to hold every segment of `wires` and the cell under each.
fn grow_by_all(b: Bbox3, wires: &[RoutedWire]) -> (r: Bbox3)
    requires
        supports_fit(wires@),
    ensures
        r == grow_by_wires(b, wires@),
{
    let mut bb = b;
    let mut i: usize = 0;
    while i < wires.len()
        invariant
            0 <= i <= wires@.len(),
            supports_fit(wires@),
            bb == grow_by_wires(b, wires@.take(i as int)),
        decreases wires@.len() - i,
    {
        let segs = &wires[i].segments;
        let ghost b0 = bb;
        let mut k: usize = 0;
        while k < segs.len()
            invariant
                0 <= i < wires@.len(),
                supports_fit(wires@),
                segs@ == wires@[i as int].segments@,
                0 <= k <= segs@.len(),
                bb == grow_by_segs(b0, segs@.take(k as int)),
            decreases segs@.len() - k,
        {
            let p = segs[k].pos();
            proof {
                assert(wires@[i as int].segments@[k as int].spec_pos().y > i32::MIN);
                assert(segs@.take(k as int + 1).drop_last() =~= segs@.take(k as int));
            }
            bb = grow_box(&bb, p);
            k += 1;
        }
        proof {
            assert(segs@.take(segs@.len() as int) =~= segs@);
            assert(wires@.take(i as int + 1).drop_last() =~= wires@.take(i as int));
        }
        i += 1;
    }
    proof {
        assert(wires@.take(wires@.len() as int) =~= wires@);
    }
    bb
}

fn cell_state(mc: &Macrocell, b: &PlacedBlock) -> (r: GridBlock)
    ensures
        r == cell_block_state(*mc, *b),
{
    GridBlock {
        block: b.block,
        facing: b.facing,
        delay: if b.block == BlockId::Repeater { mc.repeater_delay } else { None },
        mode: if b.block == BlockId::Comparator { mc.comparator_mode } else { None },
    }
}

/// Writes the blocks of every cell, shifted by `d`, into `m`.
fn put_all_cells(m: &mut BTreeMap<(i32, i32, i32), GridBlock>, cells: &Vec<PlacedCell>, d: Pos3)
    requires
        cells_fit(cells@, d),
    ensures
        final(m)@ == put_cells(old(m)@, cells@, d),
{
    let ghost m0 = m@;
    let mut ci: usize = 0;
    while ci < cells.len()
        invariant
            0 <= ci <= cells@.len(),
            cells_fit(cells@, d),
            m@ == put_cells(m0, cells@.take(ci as int), d),
        decreases cells@.len() - ci,
    {
        let c = &cells[ci];
        let ghost mc0 = m@;
        let mut bi: usize = 0;
        while bi < c.macro_cell.blocks.len()
            invariant
                0 <= ci < cells@.len(),
                *c == cells@[ci as int],
                cells_fit(cells@, d),
                0 <= bi <= c.macro_cell.blocks@.len(),
                m@ == put_blocks(mc0, *c, c.macro_cell.blocks@.take(bi as int), d),
            decreases c.macro_cell.blocks@.len() - bi,
        {
            let b = c.macro_cell.blocks[bi];
            proof {
                assert(block_fits(cells@[ci as int], cells@[ci as int].macro_cell.blocks@[bi as int], d));
                assert(c.macro_cell.blocks@.take(bi as int + 1).drop_last() =~= c.macro_cell.blocks@.take(bi as int));
            }
            let wp = Pos3 { x: c.origin.x + b.pos.x, y: c.origin.y + b.pos.y, z: c.origin.z + b.pos.z };
            let w = shift_pos(wp, d);
            let st = cell_state(&c.macro_cell, &b);
            m.insert(w.key(), st);
            bi += 1;
        }
        proof {
            assert(c.macro_cell.blocks@.take(c.macro_cell.blocks@.len() as int) =~= c.macro_cell.blocks@);
            assert(cells@.take(ci as int + 1).drop_last() =~= cells@.take(ci as int));
        }
        ci += 1;
    }
    proof {
        assert(cells@.take(cells@.len() as int) =~= cells@);
    }
}

fn wire_state(s: &RouteSegment) -> (r: GridBlock)
    ensures
        r == wire_block(*s),
{
    match s {
        RouteSegment::Dust { .. } => GridBlock {
            block: BlockId::RedstoneDust,
            facing: None,
            delay: None,
            mode: None,
        },
        RouteSegment::Repeater { facing, .. } => GridBlock {
            block: BlockId::Repeater,
            facing: Some(*facing),
            delay: None,
            mode: None,
        },
    }
}

fn lay_one(m: &mut BTreeMap<(i32, i32, i32), GridBlock>, s: &RouteSegment, d: Pos3)
    requires
        fits_i32(s.spec_pos().x + d.x),
        fits_i32(s.spec_pos().y + d.y),
        fits_i32(s.spec_pos().z + d.z),
        s.spec_pos().y + d.y > i32::MIN,
    ensures
        final(m)@ == lay_seg(old(m)@, *s, d),
{
    let w = shift_pos(s.pos(), d);
    if !m.contains_key(&w.key()) {
        m.insert(w.key(), wire_state(s));
        let u = Pos3 { x: w.x, y: w.y - 1, z: w.z };
        if !m.contains_key(&u.key()) {
            m.insert(u.key(), GridBlock { block: BlockId::Stone, facing: None, delay: None, mode: None });
        }
    }
}

/// Lays the segments of every wire, shifted by `d`, into `m`.
fn lay_all_wires(m: &mut BTreeMap<(i32, i32, i32), GridBlock>, wires: &[RoutedWire], d: Pos3)
    requires
        wires_shift_fit(wires@, d),
    ensures
        final(m)@ == lay_wires(old(m)@, wires@, d),
{
    let ghost m0 = m@;
    let mut i: usize = 0;
    while i < wires.len()
        invariant
            0 <= i <= wires@.len(),
            wires_shift_fit(wires@, d),
            m@ == lay_wires(m0, wires@.take(i as int), d),
        decreases wires@.len() - i,
    {
        let segs = &wires[i].segments;
        let ghost mw0 = m@;
        let mut k: usize = 0;
        while k < segs.len()
            invariant
                0 <= i < wires@.len(),
                wires_shift_fit(wires@, d),
                segs@ == wires@[i as int].segments@,
                0 <= k <= segs@.len(),
                m@ == lay_segs(mw0, segs@.take(k as int), d),
            decreases segs@.len() - k,
        {
            proof {
                assert(seg_shift_fits(wires@[i as int].segments@[k as int].spec_pos(), d));
                assert(segs@.take(k as int + 1).drop_last() =~= segs@.take(k as int));
            }
            lay_one(m, &segs[k], d);
            k += 1;
        }
        proof {
            assert(segs@.take(segs@.len() as int) =~= segs@);
            assert(wires@.take(i as int + 1).drop_last() =~= wires@.take(i as int));
        }
        i += 1;
    }
    proof {
        assert(wires@.take(wires@.len() as int) =~= wires@);
    }
}

/// `inner` lies within `outer`.
pub open spec fn box_within(inner: Bbox3, outer: Bbox3) -> bool {
    outer.min.x <= inner.min.x && inner.max.x <= outer.max.x && outer.min.y <= inner.min.y && inner.max.y
        <= outer.max.y && outer.min.z <= inner.min.z && inner.max.z <= outer.max.z
}

/// Growing a box by segments keeps the box and holds every segment.
proof fn lemma_grow_segs_contains(b: Bbox3, segs: Seq<RouteSegment>)
    ensures
        box_within(b, grow_by_segs(b, segs)),
        forall|k: int| 0 <= k < segs.len() ==> grow_by_segs(b, segs).spec_contains(#[trigger] segs[k].spec_pos()),
    decreases segs.len(),
{
    if segs.len() > 0 {
        lemma_grow_segs_contains(b, segs.drop_last());
        assert forall|k: int| 0 <= k < segs.len() implies grow_by_segs(b, segs).spec_contains(
            #[trigger] segs[k].spec_pos(),
        ) by {
            if k < segs.len() - 1 {
                assert(segs.drop_last()[k] == segs[k]);
            }
        }
    }
}

/// Growing a box by wires keeps the box and holds every segment.
proof fn lemma_grow_wires_contains(b: Bbox3, ws: Seq<RoutedWire>)
    ensures
        box_within(b, grow_by_wires(b, ws)),
        forall|i: int, k: int|
            0 <= i < ws.len() && 0 <= k < ws[i].segments@.len() ==> grow_by_wires(b, ws).spec_contains(
                (#[trigger] ws[i].segments@[k]).spec_pos(),
            ),
    decreases ws.len(),
{
    if ws.len() > 0 {
        let pre = grow_by_wires(b, ws.drop_last());
        lemma_grow_wires_contains(b, ws.drop_last());
        lemma_grow_segs_contains(pre, ws.last().segments@);
        assert forall|i: int, k: int|
            0 <= i < ws.len() && 0 <= k < ws[i].segments@.len() implies grow_by_wires(b, ws).spec_contains(
                (#[trigger] ws[i].segments@[k]).spec_pos(),
            ) by {
            if i < ws.len() - 1 {
                assert(ws.drop_last()[i] == ws[i]);
                assert(pre.spec_contains(ws.drop_last()[i].segments@[k].spec_pos()));
            }
        }
    }
}

/// Assembles the structure: the bounds are the placement's bounds grown to
/// hold every wire segment and the cell under it; everything is shifted so
/// that the minimum corner is the origin; the cells' blocks are written
/// first, in placement order; then each wire segment is laid unless its
/// position is already taken, and a newly laid segment gets a stone
/// support under it where that cell is still free.
pub fn assemble_grid(placement: &Placement, wires: &[RoutedWire]) -> (r: BlockGrid)
    requires
        assembly_fits(*placement, wires@),
    ensures
        ({
            let bb = grow_by_wires(placement.bounds, wires@);
            let d = to_origin(bb);
            &&& r.bounds == (Bbox3 { min: Pos3 { x: 0, y: 0, z: 0 }, max: shifted(bb.max, d) })
            &&& r.blocks@ == lay_wires(put_cells(Map::empty(), placement.cells@, d), wires@, d)
        }),
{
    let bb = grow_by_all(placement.bounds, wires);
    proof {
        lemma_grow_wires_contains(placement.bounds, wires@);
    }
    let d = Pos3 { x: -bb.min.x, y: -bb.min.y, z: -bb.min.z };
    let bounds = Bbox3 { min: Pos3::origin(), max: Pos3 { x: bb.max.x + d.x, y: bb.max.y + d.y, z: bb.max.z + d.z } };
    let mut blocks: BTreeMap<(i32, i32, i32), GridBlock> = BTreeMap::new();
    put_all_cells(&mut blocks, &placement.cells, d);
    lay_all_wires(&mut blocks, wires, d);
    BlockGrid { bounds, blocks }
}

/// Grid key of block `b` of cell `c` after the shift by `d`.
pub open spec fn block_key(c: PlacedCell, b: PlacedBlock, d: Pos3) -> (i32, i32, i32) {
    pos_key(shifted(world(c.origin, b.pos), d))
}

/// Block `bi` of cell `ci` is the last block of `cells`, in writing order,
/// at its grid position.
pub open spec fn last_writer(cells: Seq<PlacedCell>, ci: int, bi: int, d: Pos3) -> bool {
    forall|cj: int, bj: int|
        0 <= cj < cells.len() && 0 <= bj < cells[cj].macro_cell.blocks@.len() && (cj > ci || (cj == ci && bj > bi))
            ==> block_key(cells[cj], #[trigger] cells[cj].macro_cell.blocks@[bj], d) != block_key(
            cells[ci],
            cells[ci].macro_cell.blocks@[bi],
            d,
        )
}

/// Writing blocks leaves a key that none of them lands on untouched.
proof fn lemma_put_blocks_frame(
    m: Map<(i32, i32, i32), GridBlock>,
    c: PlacedCell,
    bs: Seq<PlacedBlock>,
    d: Pos3,
    k: (i32, i32, i32),
)
    requires
        forall|j: int| 0 <= j < bs.len() ==> block_key(c, #[trigger] bs[j], d) != k,
    ensures
        put_blocks(m, c, bs, d).contains_key(k) == m.contains_key(k),
        m.contains_key(k) ==> put_blocks(m, c, bs, d)[k] == m[k],
    decreases bs.len(),
{
    if bs.len() > 0 {
        let pre = bs.drop_last();
        assert(block_key(c, bs[bs.len() - 1], d) != k);
        assert forall|j: int| 0 <= j < pre.len() implies block_key(c, #[trigger] pre[j], d) != k by {
            assert(pre[j] == bs[j]);
        }
        lemma_put_blocks_frame(m, c, pre, d, k);
    }
}

/// Writing blocks holds a block's state at its key when no later block
/// lands there.
proof fn lemma_put_blocks_value(m: Map<(i32, i32, i32), GridBlock>, c: PlacedCell, bs: Seq<PlacedBlock>, d: Pos3, j: int)
    requires
        0 <= j < bs.len(),
        forall|l: int| j < l < bs.len() ==> block_key(c, #[trigger] bs[l], d) != block_key(c, bs[j], d),
    ensures
        put_blocks(m, c, bs, d).contains_key(block_key(c, bs[j], d)),
        put_blocks(m, c, bs, d)[block_key(c, bs[j], d)] == cell_block_state(c.macro_cell, bs[j]),
    decreases bs.len(),
{
    let pre = bs.drop_last();
    if j < bs.len() - 1 {
        assert(pre[j] == bs[j]);
        assert(block_key(c, bs[bs.len() - 1], d) != block_key(c, bs[j], d));
        assert forall|l: int| j < l < pre.len() implies block_key(c, #[trigger] pre[l], d) != block_key(c, pre[j], d) by {
            assert(pre[l] == bs[l]);
        }
        lemma_put_blocks_value(m, c, pre, d, j);
    }
}

/// Writing the blocks of the cells holds each block's state at its key
/// when no later block lands there.
proof fn lemma_put_cells(m: Map<(i32, i32, i32), GridBlock>, cells: Seq<PlacedCell>, d: Pos3, ci: int, bi: int)
    requires
        0 <= ci < cells.len(),
        0 <= bi < cells[ci].macro_cell.blocks@.len(),
        last_writer(cells, ci, bi, d),
    ensures
        put_cells(m, cells, d).contains_key(block_key(cells[ci], cells[ci].macro_cell.blocks@[bi], d)),
        put_cells(m, cells, d)[block_key(cells[ci], cells[ci].macro_cell.blocks@[bi], d)] == cell_block_state(
            cells[ci].macro_cell,
            cells[ci].macro_cell.blocks@[bi],
        ),
    decreases cells.len(),
{
    let k = block_key(cells[ci], cells[ci].macro_cell.blocks@[bi], d);
    let pre = cells.drop_last();
    let last = cells.last();
    let inner = put_cells(m, pre, d);
    if ci == cells.len() - 1 {
        assert(last == cells[ci]);
        assert forall|l: int| bi < l < last.macro_cell.blocks@.len() implies block_key(
            last,
            #[trigger] last.macro_cell.blocks@[l],
            d,
        ) != block_key(last, last.macro_cell.blocks@[bi], d) by {
            assert(block_key(cells[ci], cells[ci].macro_cell.blocks@[l], d) != k);
        }
        lemma_put_blocks_value(inner, last, last.macro_cell.blocks@, d, bi);
    } else {
        assert(pre[ci] == cells[ci]);
        assert(last_writer(pre, ci, bi, d)) by {
            assert forall|cj: int, bj: int|
                0 <= cj < pre.len() && 0 <= bj < pre[cj].macro_cell.blocks@.len() && (cj > ci || (cj == ci && bj > bi))
                    implies block_key(pre[cj], #[trigger] pre[cj].macro_cell.blocks@[bj], d) != block_key(
                    pre[ci],
                    pre[ci].macro_cell.blocks@[bi],
                    d,
                ) by {
                assert(pre[cj] == cells[cj]);
            }
        }
        lemma_put_cells(m, pre, d, ci, bi);
        assert forall|j: int| 0 <= j < last.macro_cell.blocks@.len() implies block_key(
            last,
            #[trigger] last.macro_cell.blocks@[j],
            d,
        ) != k by {
            assert(cells[cells.len() - 1] == last);
            assert(block_key(cells[cells.len() - 1], cells[cells.len() - 1].macro_cell.blocks@[j], d) != k);
        }
        lemma_put_blocks_frame(inner, last, last.macro_cell.blocks@, d, k);
    }
}

/// Laying wires never changes a key that is already written.
proof fn lemma_lay_wires_keeps(m: Map<(i32, i32, i32), GridBlock>, ws: Seq<RoutedWire>, d: Pos3, k: (i32, i32, i32))
    requires
        m.contains_key(k),
    ensures
        lay_wires(m, ws, d).contains_key(k),
        lay_wires(m, ws, d)[k] == m[k],
    decreases ws.len(),
{
    if ws.len() > 0 {
        lemma_lay_wires_keeps(m, ws.drop_last(), d, k);
        lemma_lay_segs_keeps(lay_wires(m, ws.drop_last(), d), ws.last().segments@, d, k);
    }
}

proof fn lemma_lay_segs_keeps(m: Map<(i32, i32, i32), GridBlock>, segs: Seq<RouteSegment>, d: Pos3, k: (i32, i32, i32))
    requires
        m.contains_key(k),
    ensures
        lay_segs(m, segs, d).contains_key(k),
        lay_segs(m, segs, d)[k] == m[k],
    decreases segs.len(),
{
    if segs.len() > 0 {
        lemma_lay_segs_keeps(m, segs.drop_last(), d, k);
    }
}

/// Assembly keeps each placed block's state: a block that no later block
/// of the placement overwrites appears in the grid, wires laid or not,
/// with its kind and facing, a comparator with its cell's comparator mode
/// and a repeater with its cell's repeater delay.
pub proof fn law_assembly_keeps_cell_block_states(
    cells: Seq<PlacedCell>,
    ws: Seq<RoutedWire>,
    d: Pos3,
    ci: int,
    bi: int,
)
    requires
        0 <= ci < cells.len(),
        0 <= bi < cells[ci].macro_cell.blocks@.len(),
        last_writer(cells, ci, bi, d),
    ensures
        ({
            let c = cells[ci];
            let b = c.macro_cell.blocks@[bi];
            let m = lay_wires(put_cells(Map::empty(), cells, d), ws, d);
            let k = block_key(c, b, d);
            &&& m.contains_key(k)
            &&& m[k].block == b.block
            &&& m[k].facing == b.facing
            &&& (b.block == BlockId::Comparator ==> m[k].mode == c.macro_cell.comparator_mode)
            &&& (b.block == BlockId::Repeater ==> m[k].delay == c.macro_cell.repeater_delay)
            &&& (b.block != BlockId::Comparator ==> m[k].mode is None)
            &&& (b.block != BlockId::Repeater ==> m[k].delay is None)
        }),
{
    lemma_put_cells(Map::empty(), cells, d, ci, bi);
    lemma_lay_wires_keeps(
        put_cells(Map::empty(), cells, d),
        ws,
        d,
        block_key(cells[ci], cells[ci].macro_cell.blocks@[bi], d),
    );
}

/// A wire segment laid at a free position becomes redstone dust, or a
/// repeater with the segment's facing, and a free cell below it becomes a
/// stone support; a taken position is left as it was.
pub proof fn law_laid_segment_state(m: Map<(i32, i32, i32), GridBlock>, s: RouteSegment, d: Pos3)
    ensures
        ({
            let w = shifted(s.spec_pos(), d);
            let r = lay_seg(m, s, d);
            &&& r.contains_key(pos_key(w))
            &&& (m.contains_key(pos_key(w)) ==> r == m)
            &&& (!m.contains_key(pos_key(w)) ==> match s {
                RouteSegment::Dust { .. } => r[pos_key(w)].block == BlockId::RedstoneDust && r[pos_key(w)].facing is None,
                RouteSegment::Repeater { facing, .. } => r[pos_key(w)].block == BlockId::Repeater && r[pos_key(w)].facing
                    == Some(facing),
            })
            &&& (!m.contains_key(pos_key(w)) && !m.contains_key(pos_key(under(w))) && pos_key(under(w)) != pos_key(w)
                ==> r.contains_key(pos_key(under(w))) && r[pos_key(under(w))].block == BlockId::Stone)
        }),
{
}

} // verus!
