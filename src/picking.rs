//! Pointer picking against axis-aligned boxes: candidates are ordered by
//! depth, nearest first, and a pointer hits each box that contains it until
//! one that blocks the boxes below it.

use vstd::prelude::*;

verus! {

/// Where a candidate stands in the world: its centre, its depth (higher is
/// nearer the viewer) and its scale along each axis.
#[derive(Clone, Copy, Debug, PartialEq, Eq, Structural)]
pub struct Placement {
    pub x: i32,
    pub y: i32,
    pub depth: i32,
    pub scale_x: i32,
    pub scale_y: i32,
}

/// A box that a pointer can pick: half its size along each axis in its own
/// space, where it is centred on the origin, and how it is placed.
#[derive(Clone, Copy, Debug, PartialEq, Eq, Structural)]
pub struct PickCandidate {
    pub id: u64,
    pub half_x: i32,
    pub half_y: i32,
    pub placement: Placement,
    pub blocks_lower: bool,
}

/// A pointer at a point of the world.
#[derive(Clone, Copy, Debug, PartialEq, Eq, Structural)]
pub struct PointerPos {
    pub id: u64,
    pub x: i32,
    pub y: i32,
}

/// A candidate hit by a pointer, at the candidate's depth.
#[derive(Clone, Copy, Debug, PartialEq, Eq, Structural)]
pub struct Hit {
    pub id: u64,
    pub depth: i32,
}

/// The hits of one pointer, nearest first.
#[derive(Clone, Debug)]
pub struct PointerHits {
    pub pointer: u64,
    pub hits: Vec<Hit>,
}

pub open spec fn abs(v: int) -> int {
    if v < 0 {
        -v
    } else {
        v
    }
}

/// The point `(px, py)`, taken into the candidate's own space by undoing its
/// placement (subtract the centre, divide by the scale), lies in the box
/// (bounds included). A zero scale cannot be undone, and such a candidate
/// contains no point.
pub open spec fn contains_point(c: PickCandidate, px: int, py: int) -> bool {
    let pl = c.placement;
    &&& pl.scale_x != 0
    &&& pl.scale_y != 0
    &&& abs(px - pl.x) <= c.half_x * abs(pl.scale_x as int)
    &&& abs(py - pl.y) <= c.half_y * abs(pl.scale_y as int)
}

pub open spec fn hit_of(c: PickCandidate) -> Hit {
    Hit { id: c.id, depth: c.placement.depth }
}

/// The hits of a pointer at `(px, py)` against candidates taken in the order
/// given: each candidate that contains the point, up to and including the
/// first of them that blocks lower ones.
pub open spec fn hits_in_order(px: int, py: int, cands: Seq<PickCandidate>) -> Seq<Hit>
    decreases cands.len(),
{
    if cands.len() == 0 {
        Seq::empty()
    } else {
        let c = cands[0];
        let rest = hits_in_order(px, py, cands.drop_first());
        if contains_point(c, px, py) {
            if c.blocks_lower {
                seq![hit_of(c)]
            } else {
                seq![hit_of(c)] + rest
            }
        } else {
            rest
        }
    }
}

/// Nearest first: depths never increase along `s`.
pub open spec fn nearest_first(s: Seq<PickCandidate>) -> bool {
    forall|i: int, j: int|
        0 <= i < j < s.len() ==> #[trigger] s[i].placement.depth >= #[trigger] s[j].placement.depth
}

/// Whether the candidate contains the point.
pub fn contains(c: &PickCandidate, px: i32, py: i32) -> (r: bool)
    ensures
        r == contains_point(*c, px as int, py as int),
{
    let pl = c.placement;
    if pl.scale_x == 0 || pl.scale_y == 0 {
        return false;
    }
    let dx: i64 = px as i64 - pl.x as i64;
    let dy: i64 = py as i64 - pl.y as i64;
    let adx: i64 = if dx < 0 { -dx } else { dx };
    let ady: i64 = if dy < 0 { -dy } else { dy };
    let asx: i64 = if pl.scale_x < 0 { -(pl.scale_x as i64) } else { pl.scale_x as i64 };
    let asy: i64 = if pl.scale_y < 0 { -(pl.scale_y as i64) } else { pl.scale_y as i64 };
    proof {
        lemma_scaled_half_fits(c.half_x as int, asx as int);
        lemma_scaled_half_fits(c.half_y as int, asy as int);
    }
    adx <= c.half_x as i64 * asx && ady <= c.half_y as i64 * asy
}

proof fn lemma_scaled_half_fits(half: int, scale: int)
    requires
        i32::MIN <= half <= i32::MAX,
        0 <= scale <= 0x8000_0000,
    ensures
        i64::MIN <= half * scale <= i64::MAX,
{
    assert(-0x8000_0000 * 0x8000_0000 <= half * scale <= 0x8000_0000 * 0x8000_0000)
        by (nonlinear_arith)
        requires
            -0x8000_0000 <= half <= 0x8000_0000,
            0 <= scale <= 0x8000_0000,
    ;
}

/// The candidates reordered nearest first.
pub fn sort_nearest_first(cands: &Vec<PickCandidate>) -> (s: Vec<PickCandidate>)
    ensures
        s@.to_multiset() == cands@.to_multiset(),
        nearest_first(s@),
{
    let mut s: Vec<PickCandidate> = Vec::new();
    let mut i: usize = 0;
    assert(s@ =~= cands@.subrange(0, 0));
    while i < cands.len()
        invariant
            i <= cands.len(),
            s@.to_multiset() == cands@.subrange(0, i as int).to_multiset(),
            nearest_first(s@),
        decreases cands.len() - i,
    {
        let c = cands[i];
        // after every candidate at least as near, so equal depths keep their order
        let mut k: usize = 0;
        while k < s.len() && s[k].placement.depth >= c.placement.depth
            invariant
                k <= s.len(),
                forall|m: int| 0 <= m < k ==> #[trigger] s[m].placement.depth >= c.placement.depth,
            decreases s.len() - k,
        {
            k = k + 1;
        }
        let ghost before = s@;
        s.insert(k, c);
        proof {
            vstd::seq_lib::to_multiset_insert(before, k as int, c);
            assert(cands@.subrange(0, i + 1) =~= cands@.subrange(0, i as int).push(c));
            vstd::seq_lib::to_multiset_build(cands@.subrange(0, i as int), c);
            assert forall|a: int, b: int| 0 <= a < b < s.len() implies #[trigger] s[a].placement.depth
                >= #[trigger] s[b].placement.depth by {
                if k < before.len() {
                    assert(before[k as int].placement.depth < c.placement.depth);
                }
                if b < k {
                    assert(s[a] == before[a] && s[b] == before[b]);
                } else if b == k {
                    assert(s[a] == before[a]);
                } else if a < k {
                    assert(s[a] == before[a] && s[b] == before[b - 1]);
                    assert(before[k as int].placement.depth >= before[b - 1].placement.depth);
                } else if a == k {
                    assert(s[b] == before[b - 1]);
                    assert(before[k as int].placement.depth >= before[b - 1].placement.depth);
                } else {
                    assert(s[a] == before[a - 1] && s[b] == before[b - 1]);
                }
            }
        }
        i = i + 1;
    }
    assert(cands@.subrange(0, cands.len() as int) =~= cands@);
    s
}

/// The hits of a pointer at `(px, py)` against candidates taken in the order
/// given.
pub fn pick_in_order(px: i32, py: i32, cands: &Vec<PickCandidate>) -> (hits: Vec<Hit>)
    ensures
        hits@ == hits_in_order(px as int, py as int, cands@),
{
    let mut hits: Vec<Hit> = Vec::new();
    let mut i: usize = 0;
    proof {
        let all = hits_in_order(px as int, py as int, cands@);
        assert(cands@.subrange(0, cands@.len() as int) =~= cands@);
        assert(hits@ + all =~= all);
    }
    while i < cands.len()
        invariant
            i <= cands.len(),
            hits@ + hits_in_order(px as int, py as int, cands@.subrange(i as int, cands@.len() as int))
                == hits_in_order(px as int, py as int, cands@),
        decreases cands.len() - i,
    {
        let c = cands[i];
        let ghost rest = cands@.subrange(i as int, cands@.len() as int);
        proof {
            assert(rest.drop_first() =~= cands@.subrange(i + 1, cands@.len() as int));
            assert(rest[0] == c);
        }
        if contains(&c, px, py) {
            hits.push(Hit { id: c.id, depth: c.placement.depth });
            if c.blocks_lower {
                proof {
                    assert(hits@ =~= hits@ + Seq::<Hit>::empty());
                }
                return hits;
            }
            proof {
                let h = hits_in_order(px as int, py as int, cands@.subrange(i + 1, cands@.len() as int));
                assert(hits@ + h =~= hits@.drop_last() + (seq![hit_of(c)] + h));
            }
        }
        i = i + 1;
    }
    proof {
        assert(cands@.subrange(i as int, cands@.len() as int) =~= Seq::<PickCandidate>::empty());
        assert(hits@ + Seq::<Hit>::empty() =~= hits@);
    }
    hits
}

/// The hits of every pointer. The candidates are ordered nearest first once,
/// and that one order serves all pointers.
pub fn aabb_picking(pointers: &Vec<PointerPos>, cands: &Vec<PickCandidate>) -> (res: Vec<PointerHits>)
    ensures
        res.len() == pointers.len(),
        exists|order: Seq<PickCandidate>|
            #![trigger nearest_first(order)]
            nearest_first(order) && order.to_multiset() == cands@.to_multiset() && forall|i: int|
                0 <= i < res.len() ==> (#[trigger] res[i]).pointer == pointers[i].id && res[i].hits@
                    == hits_in_order(pointers[i].x as int, pointers[i].y as int, order),
{
    let order = sort_nearest_first(cands);
    let mut res: Vec<PointerHits> = Vec::new();
    let mut i: usize = 0;
    while i < pointers.len()
        invariant
            i <= pointers.len(),
            res.len() == i,
            forall|m: int|
                0 <= m < i ==> (#[trigger] res[m]).pointer == pointers[m].id && res[m].hits@
                    == hits_in_order(pointers[m].x as int, pointers[m].y as int, order@),
        decreases pointers.len() - i,
    {
        let p = pointers[i];
        let hits = pick_in_order(p.x, p.y, &order);
        res.push(PointerHits { pointer: p.id, hits });
        i = i + 1;
    }
    assert(nearest_first(order@));
    res
}

} // verus!
