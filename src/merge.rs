//! Merging the occupied cells of a rectangular region into axis-aligned
//! rectangles: each row is cut into maximal horizontal runs ("plates"), and
//! runs with identical bounds in consecutive rows are stacked into one
//! rectangle.

use crate::grid::{GridCoords, OccupancySet};
use vstd::prelude::*;

verus! {

/// A maximal run of occupied cells within one row, by its inclusive column
/// bounds.
#[derive(Clone, Copy, Debug, PartialEq, Eq, Structural)]
pub struct Plate {
    pub left: i32,
    pub right: i32,
}

/// An axis-aligned rectangle of grid cells, all bounds inclusive.
#[derive(Clone, Copy, Debug, PartialEq, Eq, Structural)]
pub struct MergedRect {
    pub left: i32,
    pub right: i32,
    pub bottom: i32,
    pub top: i32,
}

/// Why a merge pass was refused.
#[derive(Clone, Copy, Debug, PartialEq, Eq, Structural)]
pub enum MergeError {
    /// The region's width or height is negative, or too large for the
    /// closing column or row past its edge to be addressed.
    InvalidRegion,
}

/// Cell `(x, y)` is inside the `w` by `h` region and occupied.
pub open spec fn occupied(o: Set<(int, int)>, w: int, h: int, x: int, y: int) -> bool {
    0 <= x < w && 0 <= y < h && o.contains((x, y))
}

/// Columns `l..=r` of row `y` form a maximal run of occupied cells.
pub open spec fn is_plate(o: Set<(int, int)>, w: int, h: int, y: int, l: int, r: int) -> bool {
    &&& 0 <= y < h
    &&& 0 <= l <= r < w
    &&& forall|x: int| l <= x <= r ==> #[trigger] occupied(o, w, h, x, y)
    &&& !occupied(o, w, h, l - 1, y)
    &&& !occupied(o, w, h, r + 1, y)
}

/// `ps` lists, from left to right, exactly the plates of row `y`.
pub open spec fn row_plates_of(o: Set<(int, int)>, w: int, h: int, y: int, ps: Seq<Plate>) -> bool {
    &&& forall|i: int|
        0 <= i < ps.len() ==> is_plate(o, w, h, y, #[trigger] ps[i].left as int, ps[i].right as int)
    &&& forall|i: int, j: int| 0 <= i < j < ps.len() ==> #[trigger] ps[i].right < #[trigger] ps[j].left
    &&& forall|l: int, r: int|
        #[trigger] is_plate(o, w, h, y, l, r) ==> exists|i: int|
            0 <= i < ps.len() && #[trigger] ps[i].left == l && ps[i].right == r
}

/// The lowest row of the unbroken stack of plates `l..=r` that reaches down
/// from row `y`.
pub open spec fn stack_bottom(o: Set<(int, int)>, w: int, h: int, l: int, r: int, y: int) -> int
    decreases y,
{
    if y > 0 && is_plate(o, w, h, y - 1, l, r) {
        stack_bottom(o, w, h, l, r, y - 1)
    } else {
        y
    }
}

/// The highest row of the unbroken stack of plates `l..=r` that reaches up
/// from row `y`.
pub open spec fn stack_top(o: Set<(int, int)>, w: int, h: int, l: int, r: int, y: int) -> int
    decreases h - y,
{
    if y + 1 < h && is_plate(o, w, h, y + 1, l, r) {
        stack_top(o, w, h, l, r, y + 1)
    } else {
        y
    }
}

/// `rc` is one rectangle of the merge: a plate repeated with the same bounds
/// on every row from `bottom` to `top`, and on neither row beyond.
pub open spec fn is_merged_rect(o: Set<(int, int)>, w: int, h: int, rc: MergedRect) -> bool {
    &&& rc.bottom <= rc.top
    &&& forall|y: int|
        rc.bottom <= y <= rc.top ==> #[trigger] is_plate(o, w, h, y, rc.left as int, rc.right as int)
    &&& !is_plate(o, w, h, rc.bottom - 1, rc.left as int, rc.right as int)
    &&& !is_plate(o, w, h, rc.top + 1, rc.left as int, rc.right as int)
}

proof fn lemma_merged_rect_bounds(o: Set<(int, int)>, w: int, h: int, rc: MergedRect)
    requires
        is_merged_rect(o, w, h, rc),
    ensures
        0 <= rc.bottom <= rc.top < h,
        0 <= rc.left <= rc.right < w,
{
    assert(is_plate(o, w, h, rc.bottom as int, rc.left as int, rc.right as int));
    assert(is_plate(o, w, h, rc.top as int, rc.left as int, rc.right as int));
}

/// Cell `(x, y)` lies in `rc`.
pub open spec fn rect_contains(rc: MergedRect, x: int, y: int) -> bool {
    rc.left <= x <= rc.right && rc.bottom <= y <= rc.top
}

/// The order in which a merge emits rectangles: by top row, then by left
/// column.
pub open spec fn emitted_before(a: MergedRect, b: MergedRect) -> bool {
    a.top < b.top || (a.top == b.top && a.left < b.left)
}

/// `s` holds every rectangle of the merge of `o` over the `w` by `h`
/// region, each once, in emission order.
pub open spec fn is_merge_of(o: Set<(int, int)>, w: int, h: int, s: Seq<MergedRect>) -> bool {
    &&& forall|i: int| 0 <= i < s.len() ==> is_merged_rect(o, w, h, #[trigger] s[i])
    &&& forall|rc: MergedRect| #[trigger] is_merged_rect(o, w, h, rc) ==> s.contains(rc)
    &&& forall|i: int, j: int|
        0 <= i < j < s.len() ==> emitted_before(#[trigger] s[i], #[trigger] s[j])
}

proof fn lemma_stack_bottom(o: Set<(int, int)>, w: int, h: int, l: int, r: int, y: int)
    requires
        is_plate(o, w, h, y, l, r),
    ensures
        0 <= stack_bottom(o, w, h, l, r, y) <= y,
        forall|z: int|
            stack_bottom(o, w, h, l, r, y) <= z <= y ==> #[trigger] is_plate(o, w, h, z, l, r),
        !is_plate(o, w, h, stack_bottom(o, w, h, l, r, y) - 1, l, r),
    decreases y,
{
    if y > 0 && is_plate(o, w, h, y - 1, l, r) {
        lemma_stack_bottom(o, w, h, l, r, y - 1);
    }
}

proof fn lemma_stack_top(o: Set<(int, int)>, w: int, h: int, l: int, r: int, y: int)
    requires
        is_plate(o, w, h, y, l, r),
    ensures
        y <= stack_top(o, w, h, l, r, y) < h,
        forall|z: int| y <= z <= stack_top(o, w, h, l, r, y) ==> #[trigger] is_plate(o, w, h, z, l, r),
        !is_plate(o, w, h, stack_top(o, w, h, l, r, y) + 1, l, r),
    decreases h - y,
{
    if y + 1 < h && is_plate(o, w, h, y + 1, l, r) {
        lemma_stack_top(o, w, h, l, r, y + 1);
    }
}

/// Plates from row `b` up to row `y`, none below `b`: the stack that reaches
/// down from `y` ends at `b`.
proof fn lemma_bottom_unique(o: Set<(int, int)>, w: int, h: int, l: int, r: int, b: int, y: int)
    requires
        b <= y,
        forall|z: int| b <= z <= y ==> #[trigger] is_plate(o, w, h, z, l, r),
        !is_plate(o, w, h, b - 1, l, r),
    ensures
        stack_bottom(o, w, h, l, r, y) == b,
    decreases y - b,
{
    assert(is_plate(o, w, h, y, l, r));
    if b < y {
        assert(is_plate(o, w, h, y - 1, l, r));
        lemma_bottom_unique(o, w, h, l, r, b, y - 1);
    }
}

/// Plates from row `y` up to row `t`, none above `t`: the stack that reaches
/// up from `y` ends at `t`.
proof fn lemma_top_unique(o: Set<(int, int)>, w: int, h: int, l: int, r: int, t: int, y: int)
    requires
        y <= t,
        forall|z: int| y <= z <= t ==> #[trigger] is_plate(o, w, h, z, l, r),
        !is_plate(o, w, h, t + 1, l, r),
    ensures
        stack_top(o, w, h, l, r, y) == t,
    decreases t - y,
{
    assert(is_plate(o, w, h, y, l, r));
    if y < t {
        assert(is_plate(o, w, h, y + 1, l, r));
        lemma_top_unique(o, w, h, l, r, t, y + 1);
    }
}

/// Two plates of one row that share a column are the same plate.
proof fn lemma_plates_overlap(
    o: Set<(int, int)>,
    w: int,
    h: int,
    y: int,
    l1: int,
    r1: int,
    l2: int,
    r2: int,
    x: int,
)
    requires
        is_plate(o, w, h, y, l1, r1),
        is_plate(o, w, h, y, l2, r2),
        l1 <= x <= r1,
        l2 <= x <= r2,
    ensures
        l1 == l2,
        r1 == r2,
{
    if l1 < l2 {
        assert(occupied(o, w, h, l2 - 1, y));
    }
    if l2 < l1 {
        assert(occupied(o, w, h, l1 - 1, y));
    }
    if r1 < r2 {
        assert(occupied(o, w, h, r1 + 1, y));
    }
    if r2 < r1 {
        assert(occupied(o, w, h, r2 + 1, y));
    }
}

/// Two rectangles of a merge that share a cell are the same rectangle.
proof fn lemma_rects_overlap(o: Set<(int, int)>, w: int, h: int, a: MergedRect, b: MergedRect, x: int, y: int)
    requires
        is_merged_rect(o, w, h, a),
        is_merged_rect(o, w, h, b),
        rect_contains(a, x, y),
        rect_contains(b, x, y),
    ensures
        a == b,
{
    assert(is_plate(o, w, h, y, a.left as int, a.right as int));
    assert(is_plate(o, w, h, y, b.left as int, b.right as int));
    lemma_plates_overlap(o, w, h, y, a.left as int, a.right as int, b.left as int, b.right as int, x);
    let l = a.left as int;
    let r = a.right as int;
    lemma_bottom_unique(o, w, h, l, r, a.bottom as int, y);
    lemma_bottom_unique(o, w, h, l, r, b.bottom as int, y);
    lemma_top_unique(o, w, h, l, r, a.top as int, y);
    lemma_top_unique(o, w, h, l, r, b.top as int, y);
}

/// The leftmost column of the run of occupied cells through `(x, y)`.
pub open spec fn run_left(o: Set<(int, int)>, w: int, h: int, x: int, y: int) -> int
    decreases x,
{
    if x > 0 && occupied(o, w, h, x - 1, y) {
        run_left(o, w, h, x - 1, y)
    } else {
        x
    }
}

/// The rightmost column of the run of occupied cells through `(x, y)`.
pub open spec fn run_right(o: Set<(int, int)>, w: int, h: int, x: int, y: int) -> int
    decreases w - x,
{
    if x + 1 < w && occupied(o, w, h, x + 1, y) {
        run_right(o, w, h, x + 1, y)
    } else {
        x
    }
}

proof fn lemma_run_left(o: Set<(int, int)>, w: int, h: int, x: int, y: int)
    requires
        occupied(o, w, h, x, y),
    ensures
        0 <= run_left(o, w, h, x, y) <= x,
        forall|z: int| run_left(o, w, h, x, y) <= z <= x ==> #[trigger] occupied(o, w, h, z, y),
        !occupied(o, w, h, run_left(o, w, h, x, y) - 1, y),
    decreases x,
{
    if x > 0 && occupied(o, w, h, x - 1, y) {
        lemma_run_left(o, w, h, x - 1, y);
    }
}

proof fn lemma_run_right(o: Set<(int, int)>, w: int, h: int, x: int, y: int)
    requires
        occupied(o, w, h, x, y),
    ensures
        x <= run_right(o, w, h, x, y) < w,
        forall|z: int| x <= z <= run_right(o, w, h, x, y) ==> #[trigger] occupied(o, w, h, z, y),
        !occupied(o, w, h, run_right(o, w, h, x, y) + 1, y),
    decreases w - x,
{
    if x + 1 < w && occupied(o, w, h, x + 1, y) {
        lemma_run_right(o, w, h, x + 1, y);
    }
}

/// The rectangle of the merge that holds the occupied cell `(x, y)`.
pub open spec fn rect_through(o: Set<(int, int)>, w: int, h: int, x: int, y: int) -> MergedRect {
    let l = run_left(o, w, h, x, y);
    let r = run_right(o, w, h, x, y);
    MergedRect {
        left: l as i32,
        right: r as i32,
        bottom: stack_bottom(o, w, h, l, r, y) as i32,
        top: stack_top(o, w, h, l, r, y) as i32,
    }
}

proof fn lemma_rect_through(o: Set<(int, int)>, w: int, h: int, x: int, y: int)
    requires
        w <= i32::MAX,
        h <= i32::MAX,
        occupied(o, w, h, x, y),
    ensures
        is_merged_rect(o, w, h, rect_through(o, w, h, x, y)),
        rect_contains(rect_through(o, w, h, x, y), x, y),
{
    lemma_run_left(o, w, h, x, y);
    lemma_run_right(o, w, h, x, y);
    let l = run_left(o, w, h, x, y);
    let r = run_right(o, w, h, x, y);
    assert(is_plate(o, w, h, y, l, r));
    lemma_stack_bottom(o, w, h, l, r, y);
    lemma_stack_top(o, w, h, l, r, y);
    let rc = rect_through(o, w, h, x, y);
    assert forall|z: int| rc.bottom <= z <= rc.top implies #[trigger] is_plate(
        o,
        w,
        h,
        z,
        rc.left as int,
        rc.right as int,
    ) by {
        if z <= y {
            assert(stack_bottom(o, w, h, l, r, y) <= z <= y);
        } else {
            assert(y <= z <= stack_top(o, w, h, l, r, y));
        }
    }
}

/// Coverage: a cell lies in some rectangle of a merge exactly when it is
/// an occupied cell inside the region.
pub proof fn lemma_merge_covers(o: Set<(int, int)>, w: i32, h: i32, s: Seq<MergedRect>, x: int, y: int)
    requires
        is_merge_of(o, w as int, h as int, s),
    ensures
        occupied(o, w as int, h as int, x, y) <==> exists|i: int|
            0 <= i < s.len() && rect_contains(#[trigger] s[i], x, y),
{
    if occupied(o, w as int, h as int, x, y) {
        lemma_rect_through(o, w as int, h as int, x, y);
        let rc = rect_through(o, w as int, h as int, x, y);
        assert(s.contains(rc));
        let i = choose|i: int| 0 <= i < s.len() && s[i] == rc;
        assert(rect_contains(s[i], x, y));
    }
    if exists|i: int| 0 <= i < s.len() && rect_contains(#[trigger] s[i], x, y) {
        let i = choose|i: int| 0 <= i < s.len() && rect_contains(#[trigger] s[i], x, y);
        assert(is_merged_rect(o, w as int, h as int, s[i]));
        assert(is_plate(o, w as int, h as int, y, s[i].left as int, s[i].right as int));
    }
}

/// Disjointness: no cell lies in two rectangles of one merge.
pub proof fn lemma_merge_disjoint(
    o: Set<(int, int)>,
    w: i32,
    h: i32,
    s: Seq<MergedRect>,
    i: int,
    j: int,
    x: int,
    y: int,
)
    requires
        is_merge_of(o, w as int, h as int, s),
        0 <= i < s.len(),
        0 <= j < s.len(),
        i != j,
    ensures
        !(rect_contains(s[i], x, y) && rect_contains(s[j], x, y)),
{
    if rect_contains(s[i], x, y) && rect_contains(s[j], x, y) {
        if i < j {
            assert(emitted_before(s[i], s[j]));
        } else {
            assert(emitted_before(s[j], s[i]));
        }
        lemma_rects_overlap(o, w as int, h as int, s[i], s[j], x, y);
    }
}

proof fn lemma_same_members_in_order(s1: Seq<MergedRect>, s2: Seq<MergedRect>)
    requires
        forall|i: int| 0 <= i < s1.len() ==> s2.contains(#[trigger] s1[i]),
        forall|i: int| 0 <= i < s2.len() ==> s1.contains(#[trigger] s2[i]),
        forall|i: int, j: int|
            0 <= i < j < s1.len() ==> emitted_before(#[trigger] s1[i], #[trigger] s1[j]),
        forall|i: int, j: int|
            0 <= i < j < s2.len() ==> emitted_before(#[trigger] s2[i], #[trigger] s2[j]),
    ensures
        s1 == s2,
    decreases s1.len(),
{
    if s1.len() == 0 {
        if s2.len() > 0 {
            assert(s1.contains(s2[0]));
        }
        assert(s1 =~= s2);
    } else {
        assert(s2.contains(s1[0]));
        let a = s1[0];
        let b = s2[0];
        let j = choose|j: int| 0 <= j < s2.len() && s2[j] == a;
        assert(s1.contains(b));
        let k = choose|k: int| 0 <= k < s1.len() && s1[k] == b;
        if j > 0 && k > 0 {
            assert(emitted_before(b, a));
            assert(emitted_before(a, b));
        }
        let t1 = s1.drop_first();
        let t2 = s2.drop_first();
        assert forall|i: int| 0 <= i < t1.len() implies t2.contains(#[trigger] t1[i]) by {
            assert(emitted_before(s1[0], s1[i + 1]));
            assert(s2.contains(s1[i + 1]));
            let m = choose|m: int| 0 <= m < s2.len() && s2[m] == s1[i + 1];
            assert(t2[m - 1] == t1[i]);
        }
        assert forall|i: int| 0 <= i < t2.len() implies t1.contains(#[trigger] t2[i]) by {
            assert(emitted_before(s2[0], s2[i + 1]));
            assert(s1.contains(s2[i + 1]));
            let m = choose|m: int| 0 <= m < s1.len() && s1[m] == s2[i + 1];
            assert(t1[m - 1] == t2[i]);
        }
        assert forall|i: int, j: int| 0 <= i < j < t1.len() implies emitted_before(
            #[trigger] t1[i],
            #[trigger] t1[j],
        ) by {
            assert(emitted_before(s1[i + 1], s1[j + 1]));
        }
        assert forall|i: int, j: int| 0 <= i < j < t2.len() implies emitted_before(
            #[trigger] t2[i],
            #[trigger] t2[j],
        ) by {
            assert(emitted_before(s2[i + 1], s2[j + 1]));
        }
        lemma_same_members_in_order(t1, t2);
        assert(a == b);
        assert forall|i: int| 0 <= i < s1.len() implies s1[i] == s2[i] by {
            if i > 0 {
                assert(s1[i] == t1[i - 1]);
                assert(s2[i] == t2[i - 1]);
            }
        }
        assert(s1 =~= s2);
    }
}

/// Idempotence: merging the same cells over the same region twice gives the
/// same rectangles, in the same order.
pub proof fn lemma_merge_deterministic(
    o: Set<(int, int)>,
    w: i32,
    h: i32,
    s1: Seq<MergedRect>,
    s2: Seq<MergedRect>,
)
    requires
        is_merge_of(o, w as int, h as int, s1),
        is_merge_of(o, w as int, h as int, s2),
    ensures
        s1 == s2,
{
    assert forall|i: int| 0 <= i < s1.len() implies s2.contains(#[trigger] s1[i]) by {
        assert(is_merged_rect(o, w as int, h as int, s1[i]));
    }
    assert forall|i: int| 0 <= i < s2.len() implies s1.contains(#[trigger] s2[i]) by {
        assert(is_merged_rect(o, w as int, h as int, s2[i]));
    }
    lemma_same_members_in_order(s1, s2);
}

/// The plates of row `y` of the `width` by `height` region, from left to
/// right. A row outside the region has none.
pub fn row_plates(o: &OccupancySet, width: i32, height: i32, y: i32) -> (ps: Vec<Plate>)
    requires
        width < i32::MAX,
    ensures
        row_plates_of(o@, width as int, height as int, y as int, ps@),
{
    let ghost w = width as int;
    let ghost h = height as int;
    let mut ps: Vec<Plate> = Vec::new();
    if y < 0 || y >= height || width < 0 {
        return ps;
    }
    let mut open = false;
    let mut start: i32 = 0;
    let mut x: i32 = 0;
    // one column past the right edge closes a run that touches it
    while x <= width
        invariant
            w == width,
            h == height,
            0 <= width < i32::MAX,
            0 <= y < height,
            0 <= x <= width + 1,
            open <==> (x > 0 && occupied(o@, w, h, x - 1, y as int)),
            open ==> 0 <= start <= x - 1,
            open ==> forall|z: int|
                start <= z <= x - 1 ==> #[trigger] occupied(o@, w, h, z, y as int),
            open ==> !occupied(o@, w, h, start - 1, y as int),
            open ==> forall|i: int| 0 <= i < ps.len() ==> #[trigger] ps[i].right < start,
            forall|i: int|
                0 <= i < ps.len() ==> is_plate(
                    o@,
                    w,
                    h,
                    y as int,
                    #[trigger] ps[i].left as int,
                    ps[i].right as int,
                ),
            forall|i: int| 0 <= i < ps.len() ==> #[trigger] ps[i].right + 1 < x,
            forall|i: int, j: int| 0 <= i < j < ps.len() ==> #[trigger] ps[i].right < #[trigger] ps[j].left,
            forall|l: int, r: int|
                #[trigger] is_plate(o@, w, h, y as int, l, r) && r + 1 < x ==> exists|i: int|
                    0 <= i < ps.len() && #[trigger] ps[i].left == l && ps[i].right == r,
        decreases width + 1 - x,
    {
        let here = x < width && o.contains(GridCoords { x, y });
        assert(here == occupied(o@, w, h, x as int, y as int));
        if open && !here {
            let ghost before = ps@;
            ps.push(Plate { left: start, right: x - 1 });
            proof {
                assert(is_plate(o@, w, h, y as int, start as int, x - 1));
                assert forall|l: int, r: int|
                    #[trigger] is_plate(o@, w, h, y as int, l, r) && r + 1 < x + 1 implies exists|i: int|
                        0 <= i < ps.len() && #[trigger] ps[i].left == l && ps[i].right == r by {
                    if r + 1 == x {
                        if l < start {
                            assert(occupied(o@, w, h, start - 1, y as int));
                        }
                        if start < l {
                            assert(occupied(o@, w, h, l - 1, y as int));
                        }
                        assert(ps[ps.len() - 1].left == l);
                    } else {
                        let i = choose|i: int|
                            0 <= i < before.len() && #[trigger] before[i].left == l && before[i].right
                                == r;
                        assert(ps[i] == before[i]);
                    }
                }
            }
            open = false;
        } else if !open && here {
            open = true;
            start = x;
        }
        x = x + 1;
    }
    ps
}

/// The position of `p` in `ps`, if it is there.
fn find_plate(ps: &Vec<Plate>, p: Plate) -> (r: Option<usize>)
    ensures
        match r {
            Some(k) => k < ps.len() && ps@[k as int] == p,
            None => forall|k: int| 0 <= k < ps.len() ==> ps@[k] != p,
        },
{
    let mut k: usize = 0;
    while k < ps.len()
        invariant
            k <= ps.len(),
            forall|m: int| 0 <= m < k ==> ps@[m] != p,
        decreases ps.len() - k,
    {
        if ps[k] == p {
            return Some(k);
        }
        k = k + 1;
    }
    None
}

/// Merges the occupied cells of the `width` by `height` region (columns
/// `0..width`, rows `0..height`) into rectangles: every occupied cell of the
/// region lies in exactly one of them, and no other cell in any. A run of
/// cells is stacked onto the rectangle below it only where both have
/// identical bounds. Cells outside the region are ignored.
#[verifier::loop_isolation(false)]
pub fn merge(o: &OccupancySet, width: i32, height: i32) -> (res: Result<
    Vec<MergedRect>,
    MergeError,
>)
    ensures
        res is Err <==> !(0 <= width < i32::MAX && 0 <= height < i32::MAX),
        res is Err ==> res == Err::<Vec<MergedRect>, MergeError>(MergeError::InvalidRegion),
        res matches Ok(out) ==> is_merge_of(o@, width as int, height as int, out@),
{
    if width < 0 || height < 0 || width == i32::MAX || height == i32::MAX {
        return Err(MergeError::InvalidRegion);
    }
    let ghost w = width as int;
    let ghost h = height as int;
    let mut out: Vec<MergedRect> = Vec::new();
    let mut prev: Vec<Plate> = Vec::new();
    let mut open: Vec<MergedRect> = Vec::new();
    let mut y: i32 = 0;
    proof {
        assert forall|rc: MergedRect| #[trigger] is_merged_rect(o@, w, h, rc) implies 0 <= rc.top < h by {
            lemma_merged_rect_bounds(o@, w, h, rc);
        }
    }
    // one row past the top edge closes the rectangles that touch it
    while y <= height
        invariant
            0 <= y <= height + 1,
            y == 0 ==> prev.len() == 0,
            y > 0 ==> row_plates_of(o@, w, h, y - 1, prev@),
            open.len() == prev.len(),
            forall|i: int|
                0 <= i < open.len() ==> {
                    &&& (#[trigger] open[i]).left == prev[i].left
                    &&& open[i].right == prev[i].right
                    &&& open[i].top == y - 1
                    &&& open[i].bottom == stack_bottom(
                        o@,
                        w,
                        h,
                        prev[i].left as int,
                        prev[i].right as int,
                        y - 1,
                    )
                },
            forall|m: int| 0 <= m < out.len() ==> is_merged_rect(o@, w, h, #[trigger] out[m]),
            forall|m: int| 0 <= m < out.len() ==> #[trigger] out[m].top + 1 < y,
            forall|rc: MergedRect| #[trigger]
                is_merged_rect(o@, w, h, rc) && rc.top + 1 < y ==> out@.contains(rc),
            forall|m: int, n: int|
                0 <= m < n < out.len() ==> emitted_before(#[trigger] out[m], #[trigger] out[n]),
        decreases height + 1 - y,
    {
        let cur = row_plates(o, width, height, y);
        assert(row_plates_of(o@, w, h, y as int, cur@));
        // close the rectangles whose plate does not go on into this row
        let ghost out0 = out@;
        let mut i: usize = 0;
        while i < prev.len()
            invariant
                0 <= i <= prev.len(),
                forall|m: int| 0 <= m < out.len() ==> is_merged_rect(o@, w, h, #[trigger] out[m]),
                forall|m: int|
                    0 <= m < out.len() ==> #[trigger] out[m].top + 1 < y || (out[m].top == y - 1 && (
                    i < prev.len() ==> out[m].left < prev[i as int].left)),
                forall|rc: MergedRect| #[trigger]
                    is_merged_rect(o@, w, h, rc) && rc.top + 1 < y ==> out@.contains(rc),
                forall|m: int, n: int|
                    0 <= m < n < out.len() ==> emitted_before(#[trigger] out[m], #[trigger] out[n]),
                forall|k: int|
                    0 <= k < i ==> (forall|q: int| 0 <= q < cur.len() ==> cur[q] != prev[k])
                        ==> out@.contains(#[trigger] open[k]),
            decreases prev.len() - i,
        {
            let ghost before = out@;
            if find_plate(&cur, prev[i]).is_none() {
                proof {
                    let l = prev[i as int].left as int;
                    let r = prev[i as int].right as int;
                    lemma_stack_bottom(o@, w, h, l, r, y - 1);
                    if is_plate(o@, w, h, y as int, l, r) {
                        let q = choose|q: int|
                            0 <= q < cur.len() && #[trigger] cur[q].left == l && cur[q].right == r;
                        assert(cur[q] == prev[i as int]);
                    }
                    assert(is_merged_rect(o@, w, h, open[i as int]));
                }
                out.push(open[i]);
                proof {
                    assert(out[out.len() - 1] == open[i as int]);
                    assert forall|rc: MergedRect| #[trigger]
                        is_merged_rect(o@, w, h, rc) && rc.top + 1 < y implies out@.contains(rc) by {
                        let m = choose|m: int| 0 <= m < before.len() && before[m] == rc;
                        assert(out[m] == before[m]);
                    }
                    assert forall|k: int|
                        0 <= k <= i && (forall|q: int| 0 <= q < cur.len() ==> cur[q] != prev[k])
                            implies out@.contains(#[trigger] open[k]) by {
                        if k < i {
                            let m = choose|m: int| 0 <= m < before.len() && before[m] == open[k];
                            assert(out[m] == before[m]);
                        }
                    }
                }
            }
            proof {
                if i + 1 < prev.len() {
                    assert(prev[i as int].right < prev[i + 1].left);
                }
            }
            i = i + 1;
        }
        proof {
            assert forall|rc: MergedRect| #[trigger]
                is_merged_rect(o@, w, h, rc) && rc.top + 1 < y + 1 implies out@.contains(rc) by {
                if rc.top == y - 1 {
                    let l = rc.left as int;
                    let r = rc.right as int;
                    assert(is_plate(o@, w, h, y - 1, l, r));
                    let k = choose|k: int|
                        0 <= k < prev.len() && #[trigger] prev[k].left == l && prev[k].right == r;
                    lemma_bottom_unique(o@, w, h, l, r, rc.bottom as int, y - 1);
                    assert(open[k] == rc);
                    assert forall|q: int| 0 <= q < cur.len() implies cur[q] != prev[k] by {
                        assert(is_plate(o@, w, h, y as int, cur[q].left as int, cur[q].right as int));
                    }
                }
            }
        }
        // extend the rectangles whose plate goes on, and open new ones
        let mut next: Vec<MergedRect> = Vec::new();
        let mut j: usize = 0;
        while j < cur.len()
            invariant
                0 <= j <= cur.len(),
                next.len() == j,
                forall|m: int|
                    0 <= m < j ==> {
                        &&& (#[trigger] next[m]).left == cur[m].left
                        &&& next[m].right == cur[m].right
                        &&& next[m].top == y
                        &&& next[m].bottom == stack_bottom(
                            o@,
                            w,
                            h,
                            cur[m].left as int,
                            cur[m].right as int,
                            y as int,
                        )
                    },
            decreases cur.len() - j,
        {
            let p = cur[j];
            proof {
                assert(is_plate(o@, w, h, y as int, p.left as int, p.right as int));
                lemma_stack_bottom(o@, w, h, p.left as int, p.right as int, y as int);
            }
            let bottom = match find_plate(&prev, p) {
                Some(k) => {
                    assert(is_plate(o@, w, h, y - 1, p.left as int, p.right as int));
                    open[k].bottom
                },
                None => {
                    proof {
                        if y > 0 && is_plate(o@, w, h, y - 1, p.left as int, p.right as int) {
                            let k = choose|k: int|
                                0 <= k < prev.len() && #[trigger] prev[k].left == p.left
                                    && prev[k].right == p.right;
                            assert(prev[k] == p);
                        }
                    }
                    y
                },
            };
            next.push(MergedRect { left: p.left, right: p.right, bottom, top: y });
            j = j + 1;
        }
        prev = cur;
        open = next;
        y = y + 1;
    }
    Ok(out)
}

} // verus!
