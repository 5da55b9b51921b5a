use worst_physics_engine::collider::{collider_box, level_colliders, ColliderBox, GameKind, WallCell};
use worst_physics_engine::edit::{AudioEvent, EnabledColliders};
use worst_physics_engine::grid::{GridCoords, OccupancySet};
use worst_physics_engine::merge::{MergeError, MergedRect};
use worst_physics_engine::progress::{rank_for, Progression, NOT_COMPLETED};

fn gc(x: i32, y: i32) -> GridCoords {
    GridCoords { x, y }
}

#[test]
fn occupancy_set_tracks_membership() {
    let mut o = OccupancySet::new();
    assert_eq!(o.len(), 0);
    assert!(o.insert(gc(i32::MIN, i32::MAX)));
    assert!(o.insert(gc(-1, 0)));
    assert!(!o.insert(gc(-1, 0)));
    assert!(o.contains(gc(i32::MIN, i32::MAX)));
    assert!(!o.contains(gc(i32::MAX, i32::MIN)));
    assert!(!o.contains(gc(0, -1)));
    assert_eq!(o.len(), 2);
    assert!(o.remove(gc(-1, 0)));
    assert!(!o.remove(gc(-1, 0)));
    assert_eq!(o.len(), 1);
    o.clear();
    assert_eq!(o.len(), 0);
}

#[test]
fn toggling_respects_the_cap() {
    let mut e = EnabledColliders::new();
    assert_eq!(e.toggle(gc(1, 1), true, 2), AudioEvent::AddCollider);
    assert_eq!(e.toggle(gc(2, 1), true, 2), AudioEvent::AddCollider);
    assert_eq!(e.toggle(gc(3, 1), true, 2), AudioEvent::FailedCollider);
    assert!(!e.coords.contains(gc(3, 1)));
    assert_eq!(e.toggle(gc(1, 1), false, 2), AudioEvent::RemoveCollider);
    assert_eq!(e.coords.len(), 1);
    assert_eq!(e.toggle(gc(3, 1), true, 2), AudioEvent::AddCollider);
    assert!(e.coords.contains(gc(3, 1)));
}

#[test]
fn reset_restores_the_start() {
    let mut e = EnabledColliders::new();
    e.toggle(gc(9, 9), true, 20);
    e.reset(&[gc(5, 5), gc(30, 5)]);
    assert_eq!(e.coords.len(), 2);
    assert!(e.coords.contains(gc(5, 5)));
    assert!(e.coords.contains(gc(30, 5)));
    assert!(!e.coords.contains(gc(9, 9)));
}

#[test]
fn randomize_fills_up_to_the_cap_from_the_walls() {
    let walls: Vec<GridCoords> = (0..10).map(|x| gc(x, 0)).collect();
    let mut e = EnabledColliders::new();
    e.randomize(&[gc(5, 5), gc(30, 5)], &walls, 6);
    assert_eq!(e.coords.len(), 6);
    assert!(e.coords.contains(gc(5, 5)));
    assert!(e.coords.contains(gc(30, 5)));
    let from_walls = walls.iter().filter(|w| e.coords.contains(**w)).count();
    assert_eq!(from_walls, 4);
}

#[test]
fn randomize_stops_when_walls_run_out() {
    let walls = vec![gc(1, 0), gc(2, 0), gc(1, 0)];
    let mut e = EnabledColliders::new();
    e.randomize(&[gc(5, 5), gc(30, 5)], &walls, 20);
    assert_eq!(e.coords.len(), 4);
    assert!(e.coords.contains(gc(1, 0)));
    assert!(e.coords.contains(gc(2, 0)));
}

#[test]
fn ranks_count_the_thresholds_missed() {
    let t = [5, 8, 10];
    assert_eq!(rank_for(&t, 3), 0);
    assert_eq!(rank_for(&t, 5), 0);
    assert_eq!(rank_for(&t, 6), 1);
    assert_eq!(rank_for(&t, 8), 1);
    assert_eq!(rank_for(&t, 10), 2);
    assert_eq!(rank_for(&t, 11), 3);
}

#[test]
fn progression_keeps_the_best_rank() {
    let mut p = Progression::new(3);
    assert_eq!(p.levels, vec![NOT_COMPLETED; 3]);
    assert!(p.unlocked(0));
    assert!(!p.unlocked(1));
    p.record(0, 2);
    assert_eq!(p.levels[0], 2);
    p.record(0, 3);
    assert_eq!(p.levels[0], 2);
    p.record(0, 0);
    assert_eq!(p.levels[0], 0);
    assert!(p.unlocked(1));
    assert!(!p.unlocked(2));
}

#[test]
fn collider_box_scales_by_cell_size() {
    let b = collider_box(MergedRect { left: 2, right: 4, bottom: 1, top: 1 }, 16);
    assert_eq!(b, ColliderBox { min_x: 32, min_y: 16, max_x: 80, max_y: 32 });
}

#[test]
fn puzzle_levels_collide_only_on_enabled_walls() {
    let walls = vec![
        WallCell { level: 1, coords: gc(0, 0) },
        WallCell { level: 1, coords: gc(1, 0) },
        WallCell { level: 1, coords: gc(2, 0) },
        WallCell { level: 2, coords: gc(3, 0) },
    ];
    let mut enabled = OccupancySet::new();
    enabled.insert(gc(0, 0));
    enabled.insert(gc(1, 0));
    enabled.insert(gc(3, 0));
    assert_eq!(
        level_colliders(&walls, 1, GameKind::Puzzle, &enabled, 4, 1, 8),
        Ok(vec![ColliderBox { min_x: 0, min_y: 0, max_x: 16, max_y: 8 }])
    );
    assert_eq!(
        level_colliders(&walls, 1, GameKind::Platformer, &enabled, 4, 1, 8),
        Ok(vec![ColliderBox { min_x: 0, min_y: 0, max_x: 24, max_y: 8 }])
    );
    assert_eq!(
        level_colliders(&walls, 1, GameKind::Platformer, &enabled, -4, 1, 8),
        Err(MergeError::InvalidRegion)
    );
}
