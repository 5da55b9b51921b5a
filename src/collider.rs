//! Turning the walls of a level into the static collision volumes that the
//! physics engine receives.

use crate::grid::{pos, GridCoords, OccupancySet};
use crate::merge::{is_merge_of, lemma_merge_deterministic, merge, MergeError, MergedRect};
use vstd::prelude::*;

verus! {

/// Which game is being played: in the platformer every wall collides, in the
/// puzzle only the walls that the player has enabled.
#[derive(Clone, Copy, Debug, PartialEq, Eq, Structural)]
pub enum GameKind {
    Platformer,
    Puzzle,
}

/// A wall tile, with the level entity that owns it.
#[derive(Clone, Copy, Debug, PartialEq, Eq, Structural)]
pub struct WallCell {
    pub level: u64,
    pub coords: GridCoords,
}

/// A static collision volume in world units, from its lower-left corner to
/// its upper-right corner, relative to the level it belongs to.
#[derive(Clone, Copy, Debug, PartialEq, Eq, Structural)]
pub struct ColliderBox {
    pub min_x: i64,
    pub min_y: i64,
    pub max_x: i64,
    pub max_y: i64,
}

/// The volume that covers the cells of `rc` when each cell is `grid_size`
/// world units wide.
pub open spec fn box_of(rc: MergedRect, grid_size: int) -> ColliderBox {
    ColliderBox {
        min_x: (rc.left * grid_size) as i64,
        min_y: (rc.bottom * grid_size) as i64,
        max_x: ((rc.right + 1) * grid_size) as i64,
        max_y: ((rc.top + 1) * grid_size) as i64,
    }
}

pub open spec fn boxes_of(rects: Seq<MergedRect>, grid_size: int) -> Seq<ColliderBox> {
    rects.map_values(|rc: MergedRect| box_of(rc, grid_size))
}

/// The cells of `level` that collide: its walls, and in the puzzle only those
/// that are enabled.
pub open spec fn colliding_cells(
    walls: Seq<WallCell>,
    level: u64,
    kind: GameKind,
    enabled: Set<(int, int)>,
) -> Set<(int, int)> {
    Set::new(
        |c: (int, int)|
            exists|i: int|
                0 <= i < walls.len() && #[trigger] walls[i].level == level && pos(walls[i].coords)
                    == c && (kind == GameKind::Platformer || enabled.contains(c)),
    )
}

/// The volume for one rectangle of cells.
pub fn collider_box(rc: MergedRect, grid_size: i32) -> (b: ColliderBox)
    ensures
        b == box_of(rc, grid_size as int),
        b.min_x == rc.left as int * grid_size as int,
        b.min_y == rc.bottom as int * grid_size as int,
        b.max_x == (rc.right as int + 1) * grid_size as int,
        b.max_y == (rc.top as int + 1) * grid_size as int,
{
    proof {
        lemma_product_fits(rc.left as int, grid_size as int);
        lemma_product_fits(rc.bottom as int, grid_size as int);
        lemma_product_fits(rc.right as int + 1, grid_size as int);
        lemma_product_fits(rc.top as int + 1, grid_size as int);
    }
    let g = grid_size as i64;
    ColliderBox {
        min_x: rc.left as i64 * g,
        min_y: rc.bottom as i64 * g,
        max_x: (rc.right as i64 + 1) * g,
        max_y: (rc.top as i64 + 1) * g,
    }
}

proof fn lemma_product_fits(a: int, b: int)
    requires
        i32::MIN <= a <= i32::MAX + 1,
        i32::MIN <= b <= i32::MAX,
    ensures
        i64::MIN <= a * b <= i64::MAX,
{
    assert(-0x8000_0000 * 0x8000_0000 <= a * b <= 0x8000_0000 * 0x8000_0000) by (nonlinear_arith)
        requires
            -0x8000_0000 <= a <= 0x8000_0000,
            -0x8000_0000 <= b <= 0x8000_0000,
    ;
}

/// The cells of `level` that collide, gathered from all wall tiles.
pub fn level_walls(walls: &Vec<WallCell>, level: u64, kind: GameKind, enabled: &OccupancySet) -> (o:
    OccupancySet)
    ensures
        o.wf(),
        o@ == colliding_cells(walls@, level, kind, enabled@),
{
    let mut o = OccupancySet::new();
    let mut i: usize = 0;
    while i < walls.len()
        invariant
            i <= walls.len(),
            o.wf(),
            o@ == colliding_cells(walls@.subrange(0, i as int), level, kind, enabled@),
        decreases walls.len() - i,
    {
        let wall = walls[i];
        let ghost prev = o@;
        if wall.level == level && (kind == GameKind::Platformer || enabled.contains(wall.coords)) {
            o.insert(wall.coords);
        }
        proof {
            let s0 = walls@.subrange(0, i as int);
            let s1 = walls@.subrange(0, i + 1);
            assert forall|c: (int, int)| #[trigger]
                o@.contains(c) == colliding_cells(s1, level, kind, enabled@).contains(c) by {
                if colliding_cells(s0, level, kind, enabled@).contains(c) {
                    let k = choose|k: int|
                        0 <= k < s0.len() && #[trigger] s0[k].level == level && pos(s0[k].coords)
                            == c && (kind == GameKind::Platformer || enabled@.contains(c));
                    assert(s1[k] == s0[k]);
                }
                if colliding_cells(s1, level, kind, enabled@).contains(c) {
                    let k = choose|k: int|
                        0 <= k < s1.len() && #[trigger] s1[k].level == level && pos(s1[k].coords)
                            == c && (kind == GameKind::Platformer || enabled@.contains(c));
                    if k < i {
                        assert(s0[k] == s1[k]);
                    }
                }
                if c == pos(wall.coords) && wall.level == level && (kind == GameKind::Platformer
                    || enabled@.contains(c)) {
                    assert(s1[i as int] == wall);
                }
            }
            assert(o@ =~= colliding_cells(s1, level, kind, enabled@));
        }
        i = i + 1;
    }
    assert(walls@.subrange(0, walls.len() as int) =~= walls@);
    o
}

/// The collision volumes of one level: the rectangles that merge its
/// colliding cells over its `width` by `height` grid, scaled by the cell
/// size. A region that cannot be merged is refused, and the caller keeps
/// the volumes it had.
pub fn level_colliders(
    walls: &Vec<WallCell>,
    level: u64,
    kind: GameKind,
    enabled: &OccupancySet,
    width: i32,
    height: i32,
    grid_size: i32,
) -> (res: Result<Vec<ColliderBox>, MergeError>)
    ensures
        res is Err <==> !(0 <= width < i32::MAX && 0 <= height < i32::MAX),
        res is Err ==> res == Err::<Vec<ColliderBox>, MergeError>(MergeError::InvalidRegion),
        res matches Ok(boxes) ==> exists|rects: Seq<MergedRect>|
            is_merge_of(colliding_cells(walls@, level, kind, enabled@), width as int, height as int, rects)
                && boxes@ == boxes_of(rects, grid_size as int),
{
    let o = level_walls(walls, level, kind, enabled);
    match merge(&o, width, height) {
        Err(e) => Err(e),
        Ok(rects) => {
            let mut boxes: Vec<ColliderBox> = Vec::new();
            let mut i: usize = 0;
            while i < rects.len()
                invariant
                    i <= rects.len(),
                    boxes@ == boxes_of(rects@.subrange(0, i as int), grid_size as int),
                decreases rects.len() - i,
            {
                boxes.push(collider_box(rects[i], grid_size));
                proof {
                    assert(rects@.subrange(0, i + 1) =~= rects@.subrange(0, i as int).push(rects@[i as int]));
                    assert(boxes@ =~= boxes_of(rects@.subrange(0, i + 1), grid_size as int));
                }
                i = i + 1;
            }
            assert(rects@.subrange(0, rects.len() as int) =~= rects@);
            Ok(boxes)
        },
    }
}

/// Regeneration is idempotent: two successful builds of one level's
/// volumes from the same walls, enabled tiles and grid give the same
/// volumes, in the same order.
pub proof fn lemma_level_colliders_deterministic(
    cells: Set<(int, int)>,
    width: i32,
    height: i32,
    grid_size: i32,
    first: Seq<ColliderBox>,
    second: Seq<ColliderBox>,
)
    requires
        exists|rects: Seq<MergedRect>|
            is_merge_of(cells, width as int, height as int, rects) && first == boxes_of(
                rects,
                grid_size as int,
            ),
        exists|rects: Seq<MergedRect>|
            is_merge_of(cells, width as int, height as int, rects) && second == boxes_of(
                rects,
                grid_size as int,
            ),
    ensures
        first == second,
{
    let r1 = choose|rects: Seq<MergedRect>|
        is_merge_of(cells, width as int, height as int, rects) && first == boxes_of(
            rects,
            grid_size as int,
        );
    let r2 = choose|rects: Seq<MergedRect>|
        is_merge_of(cells, width as int, height as int, rects) && second == boxes_of(
            rects,
            grid_size as int,
        );
    lemma_merge_deterministic(cells, width, height, r1, r2);
}

} // verus!
