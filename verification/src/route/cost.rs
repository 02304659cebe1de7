//! Cost map for the A* / negotiated-congestion router.
//!
//! Captures the vertical asymmetry of redstone: dust on top of a slab
//! carries signal upward to the cell above but not downward, so the
//! downward edge out of a slab cell is forbidden.
use vstd::prelude::*;

use std::collections::{BTreeMap, BTreeSet};

use crate::geom::{pos_key, Bbox3, Direction, Pos3};
use crate::grid3d::NetTag;

verus! {

/// Vertical-transmission semantics of a cell.
#[derive(Debug, Clone, Copy, PartialEq, Eq, Structural)]
pub enum VerticalCost {
    /// Ordinary support block.
    Symmetric,
    /// Slab: transmits upward only; the downward edge is forbidden.
    UpOnly,
    /// Glass: nets cross here without coupling.
    GlassCross,
    /// Solid block of a placed gate: foreign nets cannot pass.
    Blocked,
}

impl Default for VerticalCost {
    fn default() -> (r: VerticalCost)
        ensures
            r == VerticalCost::Symmetric,
    {
        VerticalCost::Symmetric
    }
}

/// Per-cell physical attributes.
#[derive(Debug, Clone, Copy, PartialEq, Eq, Structural)]
pub struct CellAttrs {
    /// True for cells redstone dust may occupy.
    pub base_passable: bool,
    /// Vertical-transmission semantics.
    pub vertical: VerticalCost,
}

impl Default for CellAttrs {
    fn default() -> (r: CellAttrs)
        ensures
            r == (CellAttrs { base_passable: false, vertical: VerticalCost::Symmetric }),
    {
        CellAttrs { base_passable: false, vertical: VerticalCost::Symmetric }
    }
}

/// Tunables of [`CostMap::cost_for_edge`].
#[derive(Debug, Clone, Copy)]
pub struct EdgeCostConfig {
    /// Base cost of a horizontal step.
    pub straight_base: u32,
    /// Base cost of a vertical step.
    pub level_change_base: u32,
    /// Extra cost when the direction changes.
    pub turn_penalty: u32,
    /// Extra cost of a downward step.
    pub down_penalty: u32,
    /// Extra cost of an upward step.
    pub up_penalty: u32,
}

impl Default for EdgeCostConfig {
    /// Straight 1, level change 3, turn 4, down 6, up 10.
    fn default() -> (r: EdgeCostConfig)
        ensures
            r.straight_base == 1,
            r.level_change_base == 3,
            r.turn_penalty == 4,
            r.down_penalty == 6,
            r.up_penalty == 10,
    {
        EdgeCostConfig {
            straight_base: 1,
            level_change_base: 3,
            turn_penalty: 4,
            down_penalty: 6,
            up_penalty: 10,
        }
    }
}

impl EdgeCostConfig {
    /// Every finite edge cost fits in `u32`: the largest base, turn and
    /// vertical penalty plus two full congestion penalties.
    pub open spec fn fits(self) -> bool {
        &&& self.straight_base + self.turn_penalty + 2 * 0xffff <= u32::MAX
        &&& self.level_change_base + self.turn_penalty + self.up_penalty + 2 * 0xffff <= u32::MAX
        &&& self.level_change_base + self.turn_penalty + self.down_penalty + 2 * 0xffff <= u32::MAX
    }
}

/// Cost-map state of one negotiated-congestion iteration. All maps are
/// keyed by a position's `(y, z, x)` key.
#[derive(Debug)]
pub struct CostMap {
    /// Active routing region.
    pub bounds: Bbox3,
    /// Per-cell attributes; a missing cell is passable and symmetric.
    pub cells: BTreeMap<(i32, i32, i32), CellAttrs>,
    /// Congestion penalty of the current iteration.
    pub present_cost: BTreeMap<(i32, i32, i32), u16>,
    /// Accumulated congestion penalty.
    pub history_cost: BTreeMap<(i32, i32, i32), u16>,
    /// Owner of each routed cell in the current iteration.
    pub assigned: BTreeMap<(i32, i32, i32), NetTag>,
    /// Adjacency shadow: cells next to a net's committed dust, which no
    /// foreign net may enter. The first net to claim a cell keeps it.
    pub shadows: BTreeMap<(i32, i32, i32), NetTag>,
    /// Cells in the shadows of two different nets, which no net may enter
    /// (unless it owns them).
    pub contested: BTreeSet<(i32, i32, i32)>,
    /// Pin terminals, exempt from shadows and blocks.
    pub pins: BTreeSet<(i32, i32, i32)>,
}

/// The attributes a cell without an entry has.
pub open spec fn default_attrs() -> CellAttrs {
    CellAttrs { base_passable: true, vertical: VerticalCost::Symmetric }
}

/// `v + d` saturated at `u16::MAX`.
pub open spec fn sat_add_u16(v: u16, d: u16) -> u16 {
    if v + d > u16::MAX { u16::MAX } else { (v + d) as u16 }
}

/// `m` after bumping each of `cells`, in order, by `delta` (a missing
/// entry counts as zero; each bump saturates).
pub open spec fn bumped(m: Map<(i32, i32, i32), u16>, cells: Seq<Pos3>, delta: u16) -> Map<
    (i32, i32, i32),
    u16,
>
    decreases cells.len(),
{
    if cells.len() == 0 {
        m
    } else {
        let prev = bumped(m, cells.drop_last(), delta);
        let k = pos_key(cells.last());
        let cur: u16 = if prev.contains_key(k) { prev[k] } else { 0 };
        prev.insert(k, sat_add_u16(cur, delta))
    }
}

impl CostMap {
    /// Attributes of `p` (the passable, symmetric default when unset).
    pub open spec fn spec_attrs(&self, p: Pos3) -> CellAttrs {
        if self.cells@.contains_key(pos_key(p)) {
            self.cells@[pos_key(p)]
        } else {
            default_attrs()
        }
    }

    /// `p` is owned by `net` in the current iteration.
    pub open spec fn owned_by(&self, p: Pos3, net: NetTag) -> bool {
        self.assigned@.contains_key(pos_key(p)) && self.assigned@[pos_key(p)] == net
    }

    /// `p` is a pin terminal.
    pub open spec fn is_pin(&self, p: Pos3) -> bool {
        self.pins@.contains(pos_key(p))
    }

    /// Congestion penalty of `m` at `p` (zero when unset).
    pub open spec fn penalty(m: Map<(i32, i32, i32), u16>, p: Pos3) -> int {
        if m.contains_key(pos_key(p)) {
            m[pos_key(p)] as int
        } else {
            0
        }
    }

    /// The edge `from -> to` in direction `dir` is forbidden for `net`:
    /// `to` lies outside the routing region, or is blocked, owned by or
    /// shadowed by another net (pins excepted), or the step goes down out
    /// of an up-only cell.
    pub open spec fn edge_forbidden(&self, from: Pos3, dir: Direction, to: Pos3, net: NetTag) -> bool {
        let a = self.spec_attrs(to);
        ||| !self.bounds.spec_contains(to)
        ||| (!a.base_passable && !self.is_pin(to) && !self.owned_by(to, net))
        ||| (self.assigned@.contains_key(pos_key(to)) && self.assigned@[pos_key(to)] != net
            && !self.is_pin(to))
        ||| (!self.is_pin(to) && self.shadows@.contains_key(pos_key(to))
            && self.shadows@[pos_key(to)] != net && !self.owned_by(to, net))
        ||| (!self.is_pin(to) && self.contested@.contains(pos_key(to)) && !self.owned_by(to, net))
        ||| (dir == Direction::Down && self.spec_attrs(from).vertical == VerticalCost::UpOnly)
    }

    /// Finite cost of a step: base by axis, turn penalty when the
    /// direction changes, vertical penalty, and both congestion
    /// penalties of the target.
    pub open spec fn step_cost(
        &self,
        prev_dir: Option<Direction>,
        dir: Direction,
        to: Pos3,
        cfg: EdgeCostConfig,
    ) -> int {
        let base = if dir == Direction::Up || dir == Direction::Down {
            cfg.level_change_base
        } else {
            cfg.straight_base
        };
        let turn = match prev_dir {
            Some(p) => if p == dir { 0 } else { cfg.turn_penalty },
            None => 0,
        };
        let vertical = if dir == Direction::Up {
            cfg.up_penalty
        } else if dir == Direction::Down {
            cfg.down_penalty
        } else {
            0
        };
        base + turn + vertical + Self::penalty(self.present_cost@, to) + Self::penalty(
            self.history_cost@,
            to,
        )
    }

    /// What [`CostMap::cost_for_edge`] returns: `u32::MAX` for a forbidden
    /// edge, the step cost otherwise.
    pub open spec fn spec_cost(
        &self,
        from: Pos3,
        prev_dir: Option<Direction>,
        dir: Direction,
        to: Pos3,
        net: NetTag,
        cfg: EdgeCostConfig,
    ) -> int {
        if self.edge_forbidden(from, dir, to, net) {
            u32::MAX as int
        } else {
            self.step_cost(prev_dir, dir, to, cfg)
        }
    }

    /// Empty cost map over `bounds` with no special cells.
    pub fn new(bounds: Bbox3) -> (r: CostMap)
        ensures
            r.bounds == bounds,
            r.cells@ == Map::<(i32, i32, i32), CellAttrs>::empty(),
            r.present_cost@ == Map::<(i32, i32, i32), u16>::empty(),
            r.history_cost@ == Map::<(i32, i32, i32), u16>::empty(),
            r.assigned@ == Map::<(i32, i32, i32), NetTag>::empty(),
            r.shadows@ == Map::<(i32, i32, i32), NetTag>::empty(),
            r.pins@ == Set::<(i32, i32, i32)>::empty(),
            r.contested@ == Set::<(i32, i32, i32)>::empty(),
    {
        CostMap {
            bounds,
            cells: BTreeMap::new(),
            present_cost: BTreeMap::new(),
            history_cost: BTreeMap::new(),
            assigned: BTreeMap::new(),
            shadows: BTreeMap::new(),
            contested: BTreeSet::new(),
            pins: BTreeSet::new(),
        }
    }

    /// Registers `p` as a pin terminal.
    pub fn mark_pin(&mut self, p: Pos3)
        ensures
            final(self).pins@ == old(self).pins@.insert(pos_key(p)),
            final(self).bounds == old(self).bounds,
            final(self).cells@ == old(self).cells@,
            final(self).present_cost@ == old(self).present_cost@,
            final(self).history_cost@ == old(self).history_cost@,
            final(self).assigned@ == old(self).assigned@,
            final(self).shadows@ == old(self).shadows@,
            final(self).contested@ == old(self).contested@,
    {
        self.pins.insert(p.key());
    }

    /// Records that `net` owns `p` in the current iteration.
    pub fn assign(&mut self, p: Pos3, net: NetTag)
        ensures
            final(self).assigned@ == old(self).assigned@.insert(pos_key(p), net),
            final(self).bounds == old(self).bounds,
            final(self).cells@ == old(self).cells@,
            final(self).present_cost@ == old(self).present_cost@,
            final(self).history_cost@ == old(self).history_cost@,
            final(self).shadows@ == old(self).shadows@,
            final(self).contested@ == old(self).contested@,
            final(self).pins@ == old(self).pins@,
    {
        self.assigned.insert(p.key(), net);
    }

    /// The net whose shadow covers `p`, if any.
    pub fn shadow_of(&self, p: Pos3) -> (r: Option<NetTag>)
        ensures
            r == (if self.shadows@.contains_key(pos_key(p)) {
                Some(self.shadows@[pos_key(p)])
            } else {
                None::<NetTag>
            }),
    {
        match self.shadows.get(&p.key()) {
            Some(n) => Some(*n),
            None => None,
        }
    }

    /// Adds `p` to `net`'s adjacency shadow unless `net` owns `p`. Where
    /// another net's shadow already covers `p`, that shadow stays and `p`
    /// becomes contested.
    pub fn mark_shadow(&mut self, p: Pos3, net: NetTag)
        ensures
            final(self).shadows@ == (if old(self).owned_by(p, net) || old(self).shadows@.contains_key(
                pos_key(p),
            ) {
                old(self).shadows@
            } else {
                old(self).shadows@.insert(pos_key(p), net)
            }),
            final(self).contested@ == (if !old(self).owned_by(p, net) && old(self).shadows@.contains_key(pos_key(p))
                && old(self).shadows@[pos_key(p)] != net {
                old(self).contested@.insert(pos_key(p))
            } else {
                old(self).contested@
            }),
            final(self).bounds == old(self).bounds,
            final(self).cells@ == old(self).cells@,
            final(self).present_cost@ == old(self).present_cost@,
            final(self).history_cost@ == old(self).history_cost@,
            final(self).assigned@ == old(self).assigned@,
            final(self).pins@ == old(self).pins@,
    {
        let k = p.key();
        let own = match self.assigned.get(&k) {
            Some(o) => *o == net,
            None => false,
        };
        if own {
            return;
        }
        match self.shadows.get(&k) {
            Some(o) => {
                if *o != net {
                    self.contested.insert(k);
                }
            },
            None => {
                self.shadows.insert(k, net);
            },
        }
    }

    /// Marks `p` as a placed-block obstruction.
    pub fn mark_blocked(&mut self, p: Pos3)
        ensures
            final(self).cells@ == old(self).cells@.insert(
                pos_key(p),
                CellAttrs { base_passable: false, vertical: VerticalCost::Blocked },
            ),
            final(self).bounds == old(self).bounds,
            final(self).present_cost@ == old(self).present_cost@,
            final(self).history_cost@ == old(self).history_cost@,
            final(self).assigned@ == old(self).assigned@,
            final(self).shadows@ == old(self).shadows@,
            final(self).contested@ == old(self).contested@,
            final(self).pins@ == old(self).pins@,
    {
        self.cells.insert(p.key(), CellAttrs { base_passable: false, vertical: VerticalCost::Blocked });
    }

    /// Marks `p` as a slab (upward-only vertical transmission).
    pub fn mark_slab(&mut self, p: Pos3)
        ensures
            final(self).cells@ == old(self).cells@.insert(
                pos_key(p),
                CellAttrs { base_passable: true, vertical: VerticalCost::UpOnly },
            ),
            final(self).bounds == old(self).bounds,
            final(self).present_cost@ == old(self).present_cost@,
            final(self).history_cost@ == old(self).history_cost@,
            final(self).assigned@ == old(self).assigned@,
            final(self).shadows@ == old(self).shadows@,
            final(self).contested@ == old(self).contested@,
            final(self).pins@ == old(self).pins@,
    {
        self.cells.insert(p.key(), CellAttrs { base_passable: true, vertical: VerticalCost::UpOnly });
    }

    /// Marks `p` as glass (nets cross without coupling).
    pub fn mark_glass(&mut self, p: Pos3)
        ensures
            final(self).cells@ == old(self).cells@.insert(
                pos_key(p),
                CellAttrs { base_passable: true, vertical: VerticalCost::GlassCross },
            ),
            final(self).bounds == old(self).bounds,
            final(self).present_cost@ == old(self).present_cost@,
            final(self).history_cost@ == old(self).history_cost@,
            final(self).assigned@ == old(self).assigned@,
            final(self).shadows@ == old(self).shadows@,
            final(self).contested@ == old(self).contested@,
            final(self).pins@ == old(self).pins@,
    {
        self.cells.insert(
            p.key(),
            CellAttrs { base_passable: true, vertical: VerticalCost::GlassCross },
        );
    }

    /// Attributes at `p` (the passable, symmetric default when unset).
    pub fn attrs_at(&self, p: Pos3) -> (r: CellAttrs)
        ensures
            r == self.spec_attrs(p),
    {
        match self.cells.get(&p.key()) {
            Some(a) => *a,
            None => CellAttrs { base_passable: true, vertical: VerticalCost::Symmetric },
        }
    }

    fn owner_is(&self, p: Pos3, net: NetTag) -> (r: bool)
        ensures
            r == self.owned_by(p, net),
    {
        match self.assigned.get(&p.key()) {
            Some(o) => *o == net,
            None => false,
        }
    }

    fn penalty_at(m: &BTreeMap<(i32, i32, i32), u16>, p: Pos3) -> (r: u16)
        ensures
            r == Self::penalty(m@, p),
    {
        match m.get(&p.key()) {
            Some(v) => *v,
            None => 0,
        }
    }

    /// Cost of stepping from `from` to its neighbour `to` in direction
    /// `dir` for `net`, having arrived at `from` in direction `prev_dir`:
    /// `u32::MAX` when the edge is forbidden (a cell outside the routing region, a blocked cell, a cell owned
    /// by or shadowed for another net, unless it is a pin; a descent out
    /// of a slab), else the step cost.
    pub fn cost_for_edge(
        &self,
        from: Pos3,
        prev_dir: Option<Direction>,
        dir: Direction,
        to: Pos3,
        net: NetTag,
        cfg: &EdgeCostConfig,
    ) -> (r: u32)
        requires
            cfg.fits(),
        ensures
            r == self.spec_cost(from, prev_dir, dir, to, net, *cfg),
    {
        if !self.bounds.contains(to) {
            return u32::MAX;
        }
        let to_attrs = self.attrs_at(to);
        let tk = to.key();
        let pin = self.pins.contains(&tk);
        if !to_attrs.base_passable && !pin {
            match self.assigned.get(&tk) {
                Some(owner) => {
                    if *owner != net {
                        return u32::MAX;
                    }
                },
                None => {
                    return u32::MAX;
                },
            }
        }
        match self.assigned.get(&tk) {
            Some(owner) => {
                if *owner != net && !pin {
                    return u32::MAX;
                }
            },
            None => {},
        }
        if !pin {
            match self.shadows.get(&tk) {
                Some(owner) => {
                    if *owner != net && !self.owner_is(to, net) {
                        return u32::MAX;
                    }
                },
                None => {},
            }
        }
        if !pin && self.contested.contains(&tk) && !self.owner_is(to, net) {
            return u32::MAX;
        }
        if dir == Direction::Down {
            let from_attrs = self.attrs_at(from);
            if from_attrs.vertical == VerticalCost::UpOnly {
                return u32::MAX;
            }
        }
        let base = if dir == Direction::Up || dir == Direction::Down {
            cfg.level_change_base
        } else {
            cfg.straight_base
        };
        let turn = match prev_dir {
            Some(p) => if p == dir { 0 } else { cfg.turn_penalty },
            None => 0,
        };
        let vertical = if dir == Direction::Up {
            cfg.up_penalty
        } else if dir == Direction::Down {
            cfg.down_penalty
        } else {
            0
        };
        let present = Self::penalty_at(&self.present_cost, to) as u32;
        let history = Self::penalty_at(&self.history_cost, to) as u32;
        base + turn + vertical + present + history
    }

    /// Bumps the accumulated congestion of each of `cells` by `delta`.
    pub fn bump_history(&mut self, cells: &Vec<Pos3>, delta: u16)
        ensures
            final(self).history_cost@ == bumped(old(self).history_cost@, cells@, delta),
            final(self).bounds == old(self).bounds,
            final(self).cells@ == old(self).cells@,
            final(self).present_cost@ == old(self).present_cost@,
            final(self).assigned@ == old(self).assigned@,
            final(self).shadows@ == old(self).shadows@,
            final(self).contested@ == old(self).contested@,
            final(self).pins@ == old(self).pins@,
    {
        bump_all(&mut self.history_cost, cells, delta);
    }

    /// Bumps the current-iteration congestion of each of `cells` by
    /// `delta`.
    pub fn bump_present(&mut self, cells: &Vec<Pos3>, delta: u16)
        ensures
            final(self).present_cost@ == bumped(old(self).present_cost@, cells@, delta),
            final(self).bounds == old(self).bounds,
            final(self).cells@ == old(self).cells@,
            final(self).history_cost@ == old(self).history_cost@,
            final(self).assigned@ == old(self).assigned@,
            final(self).shadows@ == old(self).shadows@,
            final(self).contested@ == old(self).contested@,
            final(self).pins@ == old(self).pins@,
    {
        bump_all(&mut self.present_cost, cells, delta);
    }

    /// Clears the per-iteration state (owners, current congestion,
    /// shadows); accumulated congestion, attributes and pins stay.
    pub fn clear_iteration_state(&mut self)
        ensures
            final(self).assigned@ == Map::<(i32, i32, i32), NetTag>::empty(),
            final(self).present_cost@ == Map::<(i32, i32, i32), u16>::empty(),
            final(self).shadows@ == Map::<(i32, i32, i32), NetTag>::empty(),
            final(self).contested@ == Set::<(i32, i32, i32)>::empty(),
            final(self).bounds == old(self).bounds,
            final(self).cells@ == old(self).cells@,
            final(self).history_cost@ == old(self).history_cost@,
            final(self).pins@ == old(self).pins@,
    {
        self.assigned.clear();
        self.present_cost.clear();
        self.shadows.clear();
        self.contested.clear();
    }
}

fn bump_all(m: &mut BTreeMap<(i32, i32, i32), u16>, cells: &Vec<Pos3>, delta: u16)
    ensures
        final(m)@ == bumped(old(m)@, cells@, delta),
{
    let ghost m0 = old(m)@;
    for i in 0..cells.len()
        invariant
            m@ == bumped(m0, cells@.take(i as int), delta),
    {
        let k = cells[i].key();
        let cur: u16 = match m.get(&k) {
            Some(v) => *v,
            None => 0,
        };
        let next: u16 = if cur as u32 + delta as u32 > u16::MAX as u32 {
            u16::MAX
        } else {
            cur + delta
        };
        m.insert(k, next);
        proof {
            assert(cells@.take(i as int + 1).drop_last() =~= cells@.take(i as int));
        }
    }
    proof {
        assert(cells@.take(cells@.len() as int) =~= cells@);
    }
}

} // verus!
