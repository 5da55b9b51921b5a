//! Integer grid coordinates and the set of occupied cells.

use std::collections::HashSet;
use vstd::prelude::*;

verus! {

broadcast use vstd::std_specs::hash::group_hash_axioms;

/// One tile cell of a level grid.
#[derive(Clone, Copy, Debug, PartialEq, Eq, Structural, Hash)]
pub struct GridCoords {
    pub x: i32,
    pub y: i32,
}

/// The cell as a pair of mathematical integers.
pub open spec fn pos(c: GridCoords) -> (int, int) {
    (c.x as int, c.y as int)
}

pub open spec fn in_i32(v: int) -> bool {
    i32::MIN <= v <= i32::MAX
}

/// The hash key of a cell: the two coordinates, shifted to be non-negative,
/// side by side in one 64-bit word.
pub open spec fn key_of(x: int, y: int) -> int {
    (x + 0x8000_0000) * 0x1_0000_0000 + (y + 0x8000_0000)
}

proof fn lemma_key_bounds(x: int, y: int)
    requires
        in_i32(x),
        in_i32(y),
    ensures
        0 <= key_of(x, y) <= u64::MAX,
{
    let a = x + 0x8000_0000;
    let b = y + 0x8000_0000;
    assert(0 <= a * 0x1_0000_0000 <= 0xFFFF_FFFF * 0x1_0000_0000) by (nonlinear_arith)
        requires
            0 <= a <= 0xFFFF_FFFF,
    ;
}

proof fn lemma_key_injective(x1: int, y1: int, x2: int, y2: int)
    requires
        in_i32(x1),
        in_i32(y1),
        in_i32(x2),
        in_i32(y2),
        key_of(x1, y1) == key_of(x2, y2),
    ensures
        x1 == x2,
        y1 == y2,
{
    let a1 = x1 + 0x8000_0000;
    let b1 = y1 + 0x8000_0000;
    let a2 = x2 + 0x8000_0000;
    let b2 = y2 + 0x8000_0000;
    assert(a1 == a2) by (nonlinear_arith)
        requires
            0 <= a1 <= 0xFFFF_FFFF,
            0 <= a2 <= 0xFFFF_FFFF,
            0 <= b1 <= 0xFFFF_FFFF,
            0 <= b2 <= 0xFFFF_FFFF,
            a1 * 0x1_0000_0000 + b1 == a2 * 0x1_0000_0000 + b2,
    ;
}

fn cell_key(c: GridCoords) -> (k: u64)
    ensures
        k as int == key_of(c.x as int, c.y as int),
{
    proof {
        lemma_key_bounds(c.x as int, c.y as int);
    }
    let a: u64 = (c.x as i64 + 0x8000_0000) as u64;
    let b: u64 = (c.y as i64 + 0x8000_0000) as u64;
    a * 0x1_0000_0000 + b
}

/// A set of occupied grid cells with constant-time average membership.
pub struct OccupancySet {
    cells: HashSet<u64>,
}

impl View for OccupancySet {
    type V = Set<(int, int)>;

    closed spec fn view(&self) -> Set<(int, int)> {
        Set::new(
            |c: (int, int)|
                in_i32(c.0) && in_i32(c.1) && self.cells@.contains(key_of(c.0, c.1) as u64),
        )
    }
}

impl OccupancySet {
    /// The number of cells in the set.
    pub closed spec fn count(&self) -> nat {
        self.cells@.len()
    }

    pub closed spec fn wf(&self) -> bool {
        self.cells@.finite()
    }

    /// An empty set.
    pub fn new() -> (s: Self)
        ensures
            s.wf(),
            s@ == Set::<(int, int)>::empty(),
            s.count() == 0,
    {
        let s = OccupancySet { cells: HashSet::new() };
        assert(s@ =~= Set::<(int, int)>::empty());
        s
    }

    /// Whether the cell is in the set.
    pub fn contains(&self, c: GridCoords) -> (r: bool)
        ensures
            r == self@.contains(pos(c)),
    {
        let k = cell_key(c);
        self.cells.contains(&k)
    }

    /// Adds a cell; returns whether it was absent before.
    pub fn insert(&mut self, c: GridCoords) -> (added: bool)
        requires
            old(self).wf(),
        ensures
            final(self).wf(),
            final(self)@ == old(self)@.insert(pos(c)),
            added == !old(self)@.contains(pos(c)),
            final(self).count() == old(self).count() + if added { 1nat } else { 0nat },
    {
        let k = cell_key(c);
        let added = self.cells.insert(k);
        proof {
            self.lemma_view_insert(*old(self), c);
        }
        added
    }

    /// Removes a cell; returns whether it was present.
    pub fn remove(&mut self, c: GridCoords) -> (removed: bool)
        requires
            old(self).wf(),
        ensures
            final(self).wf(),
            final(self)@ == old(self)@.remove(pos(c)),
            removed == old(self)@.contains(pos(c)),
            final(self).count() + if removed { 1nat } else { 0nat } == old(self).count(),
    {
        let k = cell_key(c);
        let removed = self.cells.remove(&k);
        proof {
            self.lemma_view_remove(*old(self), c);
        }
        removed
    }

    /// Empties the set.
    pub fn clear(&mut self)
        ensures
            final(self).wf(),
            final(self)@ == Set::<(int, int)>::empty(),
            final(self).count() == 0,
    {
        self.cells.clear();
        assert(self@ =~= Set::<(int, int)>::empty());
    }

    /// The number of cells in the set.
    pub fn len(&self) -> (n: usize)
        ensures
            n == self.count(),
    {
        self.cells.len()
    }

    proof fn lemma_view_insert(self, prev: Self, c: GridCoords)
        requires
            self.cells@ == prev.cells@.insert(key_of(c.x as int, c.y as int) as u64),
        ensures
            self@ == prev@.insert(pos(c)),
    {
        assert forall|p: (int, int)| #[trigger] self@.contains(p) == prev@.insert(pos(c)).contains(
            p,
        ) by {
            if in_i32(p.0) && in_i32(p.1) {
                lemma_key_bounds(p.0, p.1);
                lemma_key_bounds(c.x as int, c.y as int);
                if key_of(p.0, p.1) == key_of(c.x as int, c.y as int) {
                    lemma_key_injective(p.0, p.1, c.x as int, c.y as int);
                }
            }
        }
        assert(self@ =~= prev@.insert(pos(c)));
    }

    proof fn lemma_view_remove(self, prev: Self, c: GridCoords)
        requires
            self.cells@ == prev.cells@.remove(key_of(c.x as int, c.y as int) as u64),
        ensures
            self@ == prev@.remove(pos(c)),
    {
        assert forall|p: (int, int)| #[trigger] self@.contains(p) == prev@.remove(pos(c)).contains(
            p,
        ) by {
            if in_i32(p.0) && in_i32(p.1) {
                lemma_key_bounds(p.0, p.1);
                lemma_key_bounds(c.x as int, c.y as int);
                if key_of(p.0, p.1) == key_of(c.x as int, c.y as int) {
                    lemma_key_injective(p.0, p.1, c.x as int, c.y as int);
                }
            }
        }
        assert(self@ =~= prev@.remove(pos(c)));
    }
}

} // verus!
