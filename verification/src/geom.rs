//! Shared geometric and primitive types: block positions, bounding boxes,
//! directions, gate kinds, block identifiers and redstone ticks.
use vstd::prelude::*;

verus! {

/// A block position in world (or cell-local) coordinates.
#[derive(Debug, Clone, Copy, PartialEq, Eq, Structural, Hash, PartialOrd, Ord)]
pub struct Pos3 {
    /// East/west axis.
    pub x: i32,
    /// Vertical axis.
    pub y: i32,
    /// North/south axis.
    pub z: i32,
}

/// The key under which a position is stored in ordered maps: `(y, z, x)`,
/// so that map order is the deterministic `(y, z, x)` scan order.
pub open spec fn pos_key(p: Pos3) -> (i32, i32, i32) {
    (p.y, p.z, p.x)
}

/// The position a key stands for (inverse of [`pos_key`]).
pub open spec fn key_pos(k: (i32, i32, i32)) -> Pos3 {
    Pos3 { x: k.2, y: k.0, z: k.1 }
}

/// True iff `(x, y, z)` all fit in `i32`.
pub open spec fn fits_i32(x: int, y: int, z: int) -> bool {
    i32::MIN <= x <= i32::MAX && i32::MIN <= y <= i32::MAX && i32::MIN <= z <= i32::MAX
}

/// Manhattan distance between two positions.
pub open spec fn manhattan(a: Pos3, b: Pos3) -> nat {
    (abs_int(a.x - b.x) + abs_int(a.y - b.y) + abs_int(a.z - b.z)) as nat
}

/// Absolute value of an integer.
pub open spec fn abs_int(v: int) -> int {
    if v < 0 { -v } else { v }
}

impl Pos3 {
    /// The world origin `(0, 0, 0)`.
    pub fn origin() -> (p: Pos3)
        ensures
            p == (Pos3 { x: 0, y: 0, z: 0 }),
    {
        Pos3 { x: 0, y: 0, z: 0 }
    }

    /// Construct a position.
    pub fn new(x: i32, y: i32, z: i32) -> (p: Pos3)
        ensures
            p.x == x && p.y == y && p.z == z,
    {
        Pos3 { x, y, z }
    }

    /// The ordered-map key of this position.
    pub fn key(self) -> (k: (i32, i32, i32))
        ensures
            k == pos_key(self),
            key_pos(k) == self,
    {
        (self.y, self.z, self.x)
    }

    /// The position stored under an ordered-map key.
    pub fn from_key(k: (i32, i32, i32)) -> (p: Pos3)
        ensures
            p == key_pos(k),
            pos_key(p) == k,
    {
        Pos3 { x: k.2, y: k.0, z: k.1 }
    }

    /// The position one block away in direction `dir`.
    pub open spec fn spec_step(self, dir: Direction) -> Pos3 {
        let (dx, dy, dz) = dir.spec_offset();
        Pos3 { x: (self.x + dx) as i32, y: (self.y + dy) as i32, z: (self.z + dz) as i32 }
    }

    /// True iff stepping in `dir` stays inside the `i32` coordinate range.
    pub open spec fn can_step(self, dir: Direction) -> bool {
        let (dx, dy, dz) = dir.spec_offset();
        fits_i32(self.x + dx, self.y + dy, self.z + dz)
    }

    /// The neighbour in direction `dir`.
    pub fn step(self, dir: Direction) -> (p: Pos3)
        requires
            self.can_step(dir),
        ensures
            p == self.spec_step(dir),
    {
        let (dx, dy, dz) = dir.offset();
        Pos3 { x: self.x + dx, y: self.y + dy, z: self.z + dz }
    }

    /// The neighbour in direction `dir`, or `None` when it would leave the
    /// `i32` coordinate range.
    pub fn checked_step(self, dir: Direction) -> (p: Option<Pos3>)
        ensures
            p == (if self.can_step(dir) { Some(self.spec_step(dir)) } else { None::<Pos3> }),
    {
        let (dx, dy, dz) = dir.offset();
        let x = self.x as i64 + dx as i64;
        let y = self.y as i64 + dy as i64;
        let z = self.z as i64 + dz as i64;
        if x < i32::MIN as i64 || x > i32::MAX as i64 || y < i32::MIN as i64 || y > i32::MAX as i64
            || z < i32::MIN as i64 || z > i32::MAX as i64 {
            None
        } else {
            Some(Pos3 { x: x as i32, y: y as i32, z: z as i32 })
        }
    }

    /// Translate by `(dx, dy, dz)`.
    pub fn translate(self, dx: i32, dy: i32, dz: i32) -> (p: Pos3)
        requires
            fits_i32(self.x + dx, self.y + dy, self.z + dz),
        ensures
            p.x == self.x + dx && p.y == self.y + dy && p.z == self.z + dz,
    {
        Pos3 { x: self.x + dx, y: self.y + dy, z: self.z + dz }
    }

    /// The four horizontal neighbours, in `North, South, East, West` order.
    pub fn neighbors4(self) -> (v: Vec<Pos3>)
        requires
            fits_i32(self.x - 1, self.y as int, self.z - 1),
            fits_i32(self.x + 1, self.y as int, self.z + 1),
        ensures
            v@ == seq![
                Pos3 { x: self.x, y: self.y, z: (self.z - 1) as i32 },
                Pos3 { x: self.x, y: self.y, z: (self.z + 1) as i32 },
                Pos3 { x: (self.x + 1) as i32, y: self.y, z: self.z },
                Pos3 { x: (self.x - 1) as i32, y: self.y, z: self.z },
            ],
    {
        let mut v: Vec<Pos3> = Vec::new();
        v.push(Pos3 { x: self.x, y: self.y, z: self.z - 1 });
        v.push(Pos3 { x: self.x, y: self.y, z: self.z + 1 });
        v.push(Pos3 { x: self.x + 1, y: self.y, z: self.z });
        v.push(Pos3 { x: self.x - 1, y: self.y, z: self.z });
        v
    }
}

/// One of the six axis-aligned directions.
#[derive(Debug, Clone, Copy, PartialEq, Eq, Structural, Hash)]
pub enum Direction {
    /// Towards `-Z`.
    North,
    /// Towards `+Z`.
    South,
    /// Towards `+X`.
    East,
    /// Towards `-X`.
    West,
    /// Towards `+Y`.
    Up,
    /// Towards `-Y`.
    Down,
}

/// All six directions in search order.
pub open spec fn all_directions() -> Seq<Direction> {
    seq![
        Direction::North,
        Direction::South,
        Direction::East,
        Direction::West,
        Direction::Up,
        Direction::Down,
    ]
}

impl Direction {
    /// All six directions, in the order searches explore them.
    pub const ALL: [Direction; 6] = [
        Direction::North,
        Direction::South,
        Direction::East,
        Direction::West,
        Direction::Up,
        Direction::Down,
    ];

    /// The `(dx, dy, dz)` unit offset of this direction.
    pub open spec fn spec_offset(self) -> (i32, i32, i32) {
        match self {
            Direction::North => (0i32, 0i32, -1i32),
            Direction::South => (0i32, 0i32, 1i32),
            Direction::East => (1i32, 0i32, 0i32),
            Direction::West => (-1i32, 0i32, 0i32),
            Direction::Up => (0i32, 1i32, 0i32),
            Direction::Down => (0i32, -1i32, 0i32),
        }
    }

    /// The `(dx, dy, dz)` unit offset of this direction.
    pub fn offset(self) -> (o: (i32, i32, i32))
        ensures
            o == self.spec_offset(),
    {
        match self {
            Direction::North => (0, 0, -1),
            Direction::South => (0, 0, 1),
            Direction::East => (1, 0, 0),
            Direction::West => (-1, 0, 0),
            Direction::Up => (0, 1, 0),
            Direction::Down => (0, -1, 0),
        }
    }

    /// The `i`-th direction of [`Direction::ALL`].
    pub fn nth(i: usize) -> (d: Direction)
        requires
            i < 6,
        ensures
            d == all_directions()[i as int],
    {
        if i == 0 {
            Direction::North
        } else if i == 1 {
            Direction::South
        } else if i == 2 {
            Direction::East
        } else if i == 3 {
            Direction::West
        } else if i == 4 {
            Direction::Up
        } else {
            Direction::Down
        }
    }

    /// True iff the direction is one of the four horizontal cardinals.
    pub open spec fn is_horizontal(self) -> bool {
        self == Direction::North || self == Direction::South || self == Direction::East
            || self == Direction::West
    }
}

/// An axis-aligned, inclusive bounding box.
#[derive(Debug, Clone, Copy, PartialEq, Eq, Structural)]
pub struct Bbox3 {
    /// Minimum corner (inclusive).
    pub min: Pos3,
    /// Maximum corner (inclusive).
    pub max: Pos3,
}

/// Minimum of two `i32`.
pub open spec fn min_i32(a: i32, b: i32) -> i32 {
    if a <= b { a } else { b }
}

/// Maximum of two `i32`.
pub open spec fn max_i32(a: i32, b: i32) -> i32 {
    if a >= b { a } else { b }
}

/// Extent of `[lo, hi]` as a block count (0 when the range is inverted),
/// saturated at `u32::MAX`.
pub open spec fn extent(lo: i32, hi: i32) -> nat {
    if hi < lo {
        0
    } else if hi - lo + 1 > u32::MAX {
        u32::MAX as nat
    } else {
        (hi - lo + 1) as nat
    }
}

fn min_of(a: i32, b: i32) -> (r: i32)
    ensures
        r == min_i32(a, b),
{
    if a <= b { a } else { b }
}

fn max_of(a: i32, b: i32) -> (r: i32)
    ensures
        r == max_i32(a, b),
{
    if a >= b { a } else { b }
}

fn extent_of(lo: i32, hi: i32) -> (r: u32)
    ensures
        r == extent(lo, hi),
{
    if hi < lo {
        0
    } else {
        let e: i64 = hi as i64 - lo as i64 + 1;
        if e > u32::MAX as i64 {
            u32::MAX
        } else {
            e as u32
        }
    }
}

impl Bbox3 {
    /// The union box of two boxes.
    pub open spec fn spec_union(self, other: Bbox3) -> Bbox3 {
        Bbox3 {
            min: Pos3 {
                x: min_i32(self.min.x, other.min.x),
                y: min_i32(self.min.y, other.min.y),
                z: min_i32(self.min.z, other.min.z),
            },
            max: Pos3 {
                x: max_i32(self.max.x, other.max.x),
                y: max_i32(self.max.y, other.max.y),
                z: max_i32(self.max.z, other.max.z),
            },
        }
    }

    /// True iff `p` lies inside the box (bounds inclusive).
    pub open spec fn spec_contains(self, p: Pos3) -> bool {
        self.min.x <= p.x <= self.max.x && self.min.y <= p.y <= self.max.y && self.min.z <= p.z
            <= self.max.z
    }

    /// The box spanned by two opposite corners, in any order.
    pub fn from_corners(a: Pos3, b: Pos3) -> (r: Bbox3)
        ensures
            r.min == (Pos3 { x: min_i32(a.x, b.x), y: min_i32(a.y, b.y), z: min_i32(a.z, b.z) }),
            r.max == (Pos3 { x: max_i32(a.x, b.x), y: max_i32(a.y, b.y), z: max_i32(a.z, b.z) }),
    {
        Bbox3 {
            min: Pos3 { x: min_of(a.x, b.x), y: min_of(a.y, b.y), z: min_of(a.z, b.z) },
            max: Pos3 { x: max_of(a.x, b.x), y: max_of(a.y, b.y), z: max_of(a.z, b.z) },
        }
    }

    /// The single-block box at `p`.
    pub fn point(p: Pos3) -> (r: Bbox3)
        ensures
            r.min == p && r.max == p,
    {
        Bbox3 { min: p, max: p }
    }

    /// Smallest box containing both boxes.
    pub fn union(&self, other: &Bbox3) -> (r: Bbox3)
        ensures
            r == self.spec_union(*other),
    {
        Bbox3 {
            min: Pos3 {
                x: min_of(self.min.x, other.min.x),
                y: min_of(self.min.y, other.min.y),
                z: min_of(self.min.z, other.min.z),
            },
            max: Pos3 {
                x: max_of(self.max.x, other.max.x),
                y: max_of(self.max.y, other.max.y),
                z: max_of(self.max.z, other.max.z),
            },
        }
    }

    /// True iff `p` lies inside the box (bounds inclusive).
    pub fn contains(&self, p: Pos3) -> (r: bool)
        ensures
            r == self.spec_contains(p),
    {
        self.min.x <= p.x && p.x <= self.max.x && self.min.y <= p.y && p.y <= self.max.y
            && self.min.z <= p.z && p.z <= self.max.z
    }

    /// Number of blocks along X.
    pub fn width(&self) -> (r: u32)
        ensures
            r == extent(self.min.x, self.max.x),
    {
        extent_of(self.min.x, self.max.x)
    }

    /// Number of blocks along Y.
    pub fn height(&self) -> (r: u32)
        ensures
            r == extent(self.min.y, self.max.y),
    {
        extent_of(self.min.y, self.max.y)
    }

    /// Number of blocks along Z.
    pub fn depth(&self) -> (r: u32)
        ensures
            r == extent(self.min.z, self.max.z),
    {
        extent_of(self.min.z, self.max.z)
    }

    /// Number of blocks in the box, saturated at `u64::MAX`.
    pub fn volume(&self) -> (r: u64)
        ensures
            r == (if self.spec_volume() > u64::MAX { u64::MAX as int } else { self.spec_volume() as int }),
    {
        let w = self.width() as u64;
        let h = self.height() as u64;
        let d = self.depth() as u64;
        assert(w * h <= u64::MAX) by (nonlinear_arith)
            requires
                w <= 0xffff_ffff,
                h <= 0xffff_ffff,
        ;
        let wh = w * h;
        let r = wh.checked_mul(d);
        match r {
            Some(v) => v,
            None => u64::MAX,
        }
    }

    /// Exact number of blocks in the box (extents saturated per axis).
    pub open spec fn spec_volume(self) -> nat {
        extent(self.min.x, self.max.x) * extent(self.min.y, self.max.y) * extent(
            self.min.z,
            self.max.z,
        )
    }
}

/// A gate primitive of the HDL.
#[derive(Debug, Clone, Copy, PartialEq, Eq, Structural, Hash)]
pub enum GateKind {
    /// Inverter.
    Not,
    /// Two-input AND.
    And,
    /// Two-input OR.
    Or,
    /// Two-input XOR.
    Xor,
    /// Edge-triggered D flip-flop.
    DTrigger,
    /// One-bit memory cell.
    MemoryCell,
    /// Analog comparator.
    Comparator,
    /// Block-update observer.
    Observer,
    /// Delay repeater.
    Repeater,
    /// Target block.
    TargetBlock,
}

impl GateKind {
    /// Stateful primitives hold a value across clock edges or updates.
    pub open spec fn spec_is_stateful(self) -> bool {
        self == GateKind::DTrigger || self == GateKind::MemoryCell || self == GateKind::Observer
    }

    /// True for stateful primitives.
    pub fn is_stateful(self) -> (r: bool)
        ensures
            r == self.spec_is_stateful(),
    {
        match self {
            GateKind::DTrigger | GateKind::MemoryCell | GateKind::Observer => true,
            _ => false,
        }
    }

    /// The HDL keyword of the primitive.
    pub fn keyword(self) -> (s: &'static str)
        ensures
            s@ == keyword_text(self),
    {
        proof {
            reveal_strlit("not");
            reveal_strlit("and");
            reveal_strlit("or");
            reveal_strlit("xor");
            reveal_strlit("dtrigger");
            reveal_strlit("memcell");
            reveal_strlit("comparator");
            reveal_strlit("observer");
            reveal_strlit("repeater");
            reveal_strlit("target_block");
        }
        match self {
            GateKind::Not => "not",
            GateKind::And => "and",
            GateKind::Or => "or",
            GateKind::Xor => "xor",
            GateKind::DTrigger => "dtrigger",
            GateKind::MemoryCell => "memcell",
            GateKind::Comparator => "comparator",
            GateKind::Observer => "observer",
            GateKind::Repeater => "repeater",
            GateKind::TargetBlock => "target_block",
        }
    }
}

/// The HDL keyword of a gate kind.
pub open spec fn keyword_text(k: GateKind) -> Seq<char> {
    match k {
        GateKind::Not => "not"@,
        GateKind::And => "and"@,
        GateKind::Or => "or"@,
        GateKind::Xor => "xor"@,
        GateKind::DTrigger => "dtrigger"@,
        GateKind::MemoryCell => "memcell"@,
        GateKind::Comparator => "comparator"@,
        GateKind::Observer => "observer"@,
        GateKind::Repeater => "repeater"@,
        GateKind::TargetBlock => "target_block"@,
    }
}

/// A Minecraft block primitive used by the cell library and the router.
#[derive(Debug, Clone, Copy, PartialEq, Eq, Structural, Hash)]
pub enum BlockId {
    /// Oak planks (solid support).
    OakPlanks,
    /// Stone (solid support / torch switch).
    Stone,
    /// Glass.
    Glass,
    /// Slab.
    Slab,
    /// Redstone dust.
    RedstoneDust,
    /// Floor redstone torch.
    RedstoneTorch,
    /// Wall-mounted redstone torch.
    RedstoneWallTorch,
    /// Redstone repeater.
    Repeater,
    /// Redstone comparator.
    Comparator,
    /// Observer.
    Observer,
    /// Target block.
    TargetBlock,
}

impl BlockId {
    /// Full opaque blocks that can hold dust on top or carry a wall torch.
    pub open spec fn is_solid_support(self) -> bool {
        self == BlockId::Stone || self == BlockId::OakPlanks || self == BlockId::TargetBlock
            || self == BlockId::Glass || self == BlockId::Slab
    }
}

/// A redstone tick count.
#[derive(Debug, Clone, Copy, PartialEq, Eq, Structural, Hash, PartialOrd, Ord)]
pub struct Tick(pub u32);

impl Tick {
    /// Tick zero.
    pub fn zero() -> (t: Tick)
        ensures
            t.0 == 0,
    {
        Tick(0)
    }

    /// Saturating addition of two tick counts.
    pub fn saturating_add(self, other: Tick) -> (r: Tick)
        ensures
            r.0 == (if self.0 + other.0 > u32::MAX { u32::MAX as int } else { self.0 + other.0 }),
    {
        Tick(self.0.saturating_add(other.0))
    }
}

/// A byte range in the HDL source, carried for diagnostics.
#[derive(Debug, Clone, Copy, PartialEq, Eq, Structural, Hash)]
pub struct SourceSpan {
    /// Byte offset of the first character.
    pub start: usize,
    /// Byte offset one past the last character.
    pub end: usize,
}

} // verus!
