//! Sparse 3D obstruction grid used by the maze router.
use vstd::prelude::*;

use std::collections::BTreeMap;

use crate::geom::{key_pos, pos_key, Pos3};
use vstd::std_specs::iter::IteratorSpec;
use vstd::std_specs::cmp::OrdSpec;

verus! {

/// A net identifier as seen by the router.
#[derive(Debug, Clone, Copy, PartialEq, Eq, Structural, Hash, PartialOrd, Ord)]
pub struct NetTag(pub u32);

/// What occupies a cell of the obstruction grid.
#[derive(Debug, Clone, Copy, PartialEq, Eq, Structural)]
pub enum CellState {
    /// Free.
    Air,
    /// A non-redstone block of a placed cell.
    Solid,
    /// Redstone dust of the given net.
    Dust(NetTag),
    /// A repeater of the given net.
    Repeater(NetTag),
    /// Adjacency shadow of the given net's dust: no foreign dust may go here.
    Obstructed(NetTag),
}

impl Default for CellState {
    fn default() -> (r: CellState)
        ensures
            r == CellState::Air,
    {
        CellState::Air
    }
}

/// Whether a cell in state `s` may carry dust of `net`.
pub open spec fn passable(s: CellState, net: NetTag) -> bool {
    match s {
        CellState::Air => true,
        CellState::Solid => false,
        CellState::Dust(n) => n == net,
        CellState::Repeater(n) => n == net,
        CellState::Obstructed(n) => n == net,
    }
}

/// State of `p` in a map of populated cells (`Air` when absent).
pub open spec fn cell_of(m: Map<Pos3, CellState>, p: Pos3) -> CellState {
    if m.contains_key(p) {
        m[p]
    } else {
        CellState::Air
    }
}

/// The populated cells after writing `s` at `p`: writing `Air`
/// depopulates the cell.
pub open spec fn write_cell(m: Map<Pos3, CellState>, p: Pos3, s: CellState) -> Map<Pos3, CellState> {
    if s == CellState::Air {
        m.remove(p)
    } else {
        m.insert(p, s)
    }
}

/// Reading a cell gives back what was last written there, and a write
/// leaves every other cell as it was; only non-`Air` cells are populated.
pub proof fn law_read_after_write(m: Map<Pos3, CellState>, p: Pos3, s: CellState, q: Pos3)
    ensures
        cell_of(write_cell(m, p, s), q) == (if q == p { s } else { cell_of(m, q) }),
        write_cell(m, p, s).contains_key(p) == (s != CellState::Air),
{
}

/// Strict `(y, z, x)` lexicographic order on map keys.
pub open spec fn key_lt(a: (i32, i32, i32), b: (i32, i32, i32)) -> bool {
    a.0 < b.0 || (a.0 == b.0 && (a.1 < b.1 || (a.1 == b.1 && a.2 < b.2)))
}

/// Strict `(y, z, x)` order on positions.
pub open spec fn pos_lt(a: Pos3, b: Pos3) -> bool {
    key_lt(pos_key(a), pos_key(b))
}

/// Sparse 3D grid. Cells that are not populated read as [`CellState::Air`].
#[derive(Debug)]
pub struct Grid3D {
    cells: BTreeMap<(i32, i32, i32), CellState>,
}

impl View for Grid3D {
    type V = Map<Pos3, CellState>;

    /// The populated (non-Air) cells.
    closed spec fn view(&self) -> Map<Pos3, CellState> {
        Map::new(
            |p: Pos3| self.cells@.contains_key(pos_key(p)),
            |p: Pos3| self.cells@[pos_key(p)],
        )
    }
}

impl Clone for Grid3D {
    fn clone(&self) -> (r: Grid3D)
        ensures
            r@ == self@,
    {
        proof {
            use_type_invariant(self);
        }
        let r = Grid3D { cells: self.cells.clone() };
        assert(r@ =~= self@);
        r
    }
}

impl Grid3D {
    /// No populated cell is stored as `Air`.
    #[verifier::type_invariant]
    spec fn inv(self) -> bool {
        forall|k: (i32, i32, i32)| #[trigger]
            self.cells@.contains_key(k) ==> self.cells@[k] != CellState::Air
    }

    /// State of `p` (Air when unpopulated).
    pub open spec fn state(self, p: Pos3) -> CellState {
        cell_of(self@, p)
    }

    proof fn lemma_view(self)
        ensures
            forall|p: Pos3| #[trigger]
                self@.contains_key(p) == self.cells@.contains_key(pos_key(p)),
            forall|p: Pos3| #[trigger] self@.contains_key(p) ==> self@[p] == self.cells@[pos_key(p)],
            self@.dom().finite(),
            self@.dom().len() == self.cells@.dom().len(),
    {
        let f = |p: Pos3| pos_key(p);
        assert(self@.dom() =~= self.cells@.dom().map(|k: (i32, i32, i32)| key_pos(k)));
        self.lemma_dom_map();
    }

    proof fn lemma_dom_map(self)
        ensures
            self.cells@.dom().map(|k: (i32, i32, i32)| key_pos(k)).finite(),
            self.cells@.dom().map(|k: (i32, i32, i32)| key_pos(k)).len() == self.cells@.dom().len(),
    {
        let g = |k: (i32, i32, i32)| key_pos(k);
        assert(vstd::relations::injective(g)) by {
            assert forall|a: (i32, i32, i32), b: (i32, i32, i32)| #[trigger] g(a) == #[trigger] g(b) implies a == b by {
                assert(pos_key(g(a)) == a);
                assert(pos_key(g(b)) == b);
            }
        }
        vstd::set_lib::lemma_map_size(self.cells@.dom(), self.cells@.dom().map(g), g);
    }

    /// An empty grid.
    pub fn new() -> (g: Grid3D)
        ensures
            g@ == Map::<Pos3, CellState>::empty(),
    {
        let g = Grid3D { cells: BTreeMap::new() };
        assert(g@ =~= Map::<Pos3, CellState>::empty());
        g
    }

    /// The state of cell `p` (Air when unpopulated).
    pub fn get(&self, p: Pos3) -> (s: CellState)
        ensures
            s == self.state(p),
            (s == CellState::Air) == !self@.contains_key(p),
    {
        proof {
            use_type_invariant(self);
        }
        match self.cells.get(&p.key()) {
            Some(s) => *s,
            None => CellState::Air,
        }
    }

    /// Write `state` at `p`, returning the previous state. Writing `Air`
    /// depopulates the cell.
    pub fn set(&mut self, p: Pos3, state: CellState) -> (prev: CellState)
        ensures
            prev == old(self).state(p),
            final(self)@ == write_cell(old(self)@, p, state),
    {
        proof {
            use_type_invariant(&*self);
        }
        let prev = self.get(p);
        let mut cells: BTreeMap<(i32, i32, i32), CellState> = BTreeMap::new();
        std::mem::swap(&mut cells, &mut self.cells);
        if state == CellState::Air {
            cells.remove(&p.key());
        } else {
            cells.insert(p.key(), state);
        }
        self.cells = cells;
        proof {
            if state == CellState::Air {
                assert(self@ =~= old(self)@.remove(p)) by {
                    assert forall|q: Pos3| #[trigger] self@.contains_key(q) == old(self)@.remove(
                        p,
                    ).contains_key(q) by {
                        assert(pos_key(q) == pos_key(p) ==> q == p);
                    }
                }
            } else {
                assert(self@ =~= old(self)@.insert(p, state)) by {
                    assert forall|q: Pos3| #[trigger] self@.contains_key(q) == old(self)@.insert(
                        p,
                        state,
                    ).contains_key(q) by {
                        assert(pos_key(q) == pos_key(p) ==> q == p);
                    }
                    assert forall|q: Pos3| self@.contains_key(q) implies #[trigger] self@[q]
                        == old(self)@.insert(p, state)[q] by {
                        assert(pos_key(q) == pos_key(p) ==> q == p);
                    }
                }
            }
        }
        prev
    }

    /// True iff `p` is Air or already owned by `net`.
    pub fn is_passable_for(&self, p: Pos3, net: NetTag) -> (r: bool)
        ensures
            r == passable(self.state(p), net),
    {
        match self.get(p) {
            CellState::Air => true,
            CellState::Solid => false,
            CellState::Dust(n) => n == net,
            CellState::Repeater(n) => n == net,
            CellState::Obstructed(n) => n == net,
        }
    }

    /// The populated cells in deterministic `(y, z, x)` order.
    pub fn iter_sorted(&self) -> (v: Vec<(Pos3, CellState)>)
        ensures
            v@.len() == self@.dom().len(),
            forall|i: int| #![trigger v@[i]]
                0 <= i < v@.len() ==> self@.contains_key(v@[i].0) && self@[v@[i].0] == v@[i].1,
            forall|p: Pos3| #[trigger]
                self@.contains_key(p) ==> exists|i: int| 0 <= i < v@.len() && v@[i].0 == p,
            forall|i: int, j: int| 0 <= i < j < v@.len() ==> pos_lt(v@[i].0, v@[j].0),
    {
        proof {
            self.lemma_view();
        }
        let mut out: Vec<(Pos3, CellState)> = Vec::new();
        let keys: Vec<(i32, i32, i32)> = sorted_keys_of(&self.cells);
        let n = keys.len();
        for i in 0..n
            invariant
                n == keys@.len(),
                out@.len() == i,
                forall|j: int| #![trigger out@[j]]
                    0 <= j < i ==> out@[j].0 == key_pos(keys@[j]) && out@[j].1
                        == self.cells@[keys@[j]],
                forall|j: int| 0 <= j < keys@.len() ==> self.cells@.contains_key(#[trigger] keys@[j]),
        {
            let k = keys[i];
            let s = match self.cells.get(&k) {
                Some(s) => *s,
                None => CellState::Air,
            };
            out.push((Pos3::from_key(k), s));
        }
        proof {
            assert forall|p: Pos3| #[trigger] self@.contains_key(p) implies exists|i: int|
                0 <= i < out@.len() && out@[i].0 == p by {
                let i = choose|i: int| 0 <= i < keys@.len() && keys@[i] == pos_key(p);
                assert(out@[i].0 == key_pos(pos_key(p)));
            }
        }
        out
    }

}

/// Keys of `m` in increasing `(y, z, x)` order.
pub fn sorted_keys_of<V>(m: &BTreeMap<(i32, i32, i32), V>) -> (v: Vec<(i32, i32, i32)>)
    ensures
        v@.len() == m@.dom().len(),
        forall|i: int| 0 <= i < v@.len() ==> m@.contains_key(#[trigger] v@[i]),
        forall|k: (i32, i32, i32)| #[trigger]
            m@.contains_key(k) ==> exists|i: int| 0 <= i < v@.len() && v@[i] == k,
        forall|i: int, j: int| 0 <= i < j < v@.len() ==> key_lt(v@[i], v@[j]),
{
    let mut out: Vec<(i32, i32, i32)> = Vec::new();
    let keys = m.keys();
    let ghost full = keys.remaining().unref();
    for k in it: keys
        invariant
            out@ == it.seq().unref().take(it.index() as int),
            it.seq().unref() == full,
            full.to_set() == m@.dom(),
    {
        out.push(*k);
    }
    proof {
        assert(out@.len() == full.len());
        assert(out@ =~= full);
        lemma_increasing_keys(keys.remaining());
        assert forall|k: (i32, i32, i32)| #[trigger]
            m@.contains_key(k) implies exists|i: int| 0 <= i < out@.len() && out@[i] == k by {
            assert(out@.to_set().contains(k));
        }
        assert forall|i: int| 0 <= i < out@.len() implies m@.contains_key(#[trigger] out@[i]) by {
            assert(out@.to_set().contains(out@[i]));
        }
        full.unique_seq_to_set();
    }
    out
}

/// `a` orders strictly before `b` under `Ord`.
spec fn ordered_before<K: Ord>(a: K, b: K) -> bool {
    a.cmp_spec(&b) is Less
}

/// An increasing sequence of key references is strictly `(y, z, x)` sorted.
proof fn lemma_increasing_keys(s: Seq<&(i32, i32, i32)>)
    requires
        vstd::std_specs::btree::increasing_seq(s),
    ensures
        forall|i: int, j: int| 0 <= i < j < s.len() ==> key_lt(*s[i], *s[j]),
{
    assert(vstd::laws_cmp::obeys_cmp::<i32>());
    assert(vstd::laws_cmp::obeys_cmp::<(i32, i32, i32)>());
    assert(vstd::laws_cmp::obeys_cmp::<&(i32, i32, i32)>());
    vstd::std_specs::btree::axiom_increasing_seq_meaning(s);
    assert forall|i: int, j: int| 0 <= i < j < s.len() implies key_lt(*s[i], *s[j]) by {
        assert(ordered_before::<&(i32, i32, i32)>(s[i], s[j]));
    }
}

impl Grid3D {
    /// Number of populated cells.
    pub fn len(&self) -> (n: usize)
        ensures
            n == self@.dom().len(),
    {
        proof {
            self.lemma_view();
        }
        self.cells.len()
    }

    /// True iff nothing is populated.
    pub fn is_empty(&self) -> (r: bool)
        ensures
            r == (self@.dom().len() == 0),
    {
        proof {
            self.lemma_view();
        }
        self.cells.is_empty()
    }
}

/// An increasing sequence of `u32` references, dereferenced, is strictly
/// increasing.
pub proof fn lemma_increasing_u32(s: Seq<&u32>)
    requires
        vstd::std_specs::btree::increasing_seq(s),
    ensures
        crate::graph::ascending(s.map_values(|k: &u32| *k)),
{
    assert(vstd::laws_cmp::obeys_cmp::<u32>());
    assert(vstd::laws_cmp::obeys_cmp::<&u32>());
    vstd::std_specs::btree::axiom_increasing_seq_meaning(s);
    let m = s.map_values(|k: &u32| *k);
    assert forall|i: int, j: int| 0 <= i < j < m.len() implies #[trigger] m[i] < #[trigger] m[j] by {
        assert(ordered_before::<&u32>(s[i], s[j]));
    }
}

} // verus!
