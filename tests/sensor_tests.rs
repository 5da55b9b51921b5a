use worst_physics_engine::control::{climb_step, reaches_chest, ClimbStep};
use worst_physics_engine::sensor::{OverlapEvent, SensorTracker};

fn start(a: u64, b: u64) -> OverlapEvent {
    OverlapEvent { a, b, started: true }
}

fn stop(a: u64, b: u64) -> OverlapEvent {
    OverlapEvent { a, b, started: false }
}

#[test]
fn sensor_toggling_keeps_the_remaining_partner() {
    let (a, b, c) = (1, 2, 3);
    let mut t = SensorTracker::new();
    t.add_sensor(a);
    t.add_partner(b);
    t.add_partner(c);
    assert!(!t.is_active(a));
    t.apply(start(a, b));
    assert!(t.is_active(a));
    t.apply(start(a, c));
    assert!(t.is_active(a));
    t.apply(stop(a, b));
    assert!(t.is_active(a));
    assert!(!t.is_touching(a, b));
    assert!(t.is_touching(a, c));
}

#[test]
fn stop_without_start_changes_nothing() {
    let mut t = SensorTracker::new();
    t.add_sensor(1);
    t.add_partner(2);
    t.apply(stop(1, 2));
    assert!(!t.is_active(1));
    t.apply(start(1, 2));
    t.apply(stop(1, 2));
    t.apply(stop(1, 2));
    assert!(!t.is_active(1));
}

#[test]
fn roles_may_come_in_either_order() {
    let mut t = SensorTracker::new();
    t.add_sensor(10);
    t.add_partner(20);
    t.apply(start(20, 10));
    assert!(t.is_touching(10, 20));
    t.apply(stop(10, 20));
    assert!(!t.is_active(10));
}

#[test]
fn only_partners_are_recorded() {
    let mut t = SensorTracker::new();
    t.add_sensor(1);
    t.add_partner(2);
    t.apply(start(1, 5));
    assert!(!t.is_active(1));
    // neither side is a sensor
    t.apply(start(2, 5));
    assert!(!t.is_active(2));
    assert!(!t.is_active(5));
}

#[test]
fn a_tick_of_events_is_applied_in_order() {
    let mut t = SensorTracker::new();
    t.add_sensor(1);
    t.add_partner(2);
    t.add_partner(3);
    t.apply_all(&vec![start(1, 2), stop(1, 2), start(3, 1)]);
    assert!(!t.is_touching(1, 2));
    assert!(t.is_touching(1, 3));
    t.apply_all(&vec![stop(1, 3), start(1, 2)]);
    assert!(t.is_touching(1, 2));
    assert!(!t.is_touching(1, 3));
}

#[test]
fn removed_sensor_is_inactive() {
    let mut t = SensorTracker::new();
    t.add_sensor(1);
    t.add_partner(2);
    t.apply(start(1, 2));
    t.remove_sensor(1);
    assert!(!t.is_active(1));
    t.add_sensor(1);
    assert!(!t.is_active(1));
}

#[test]
fn climbing_needs_a_climbable_and_a_key() {
    assert_eq!(climb_step(false, true, true, false, false), ClimbStep { climbing: true, jump: false });
    assert_eq!(climb_step(false, true, false, false, false), ClimbStep { climbing: false, jump: false });
    assert_eq!(climb_step(true, true, false, false, false), ClimbStep { climbing: true, jump: false });
    assert_eq!(climb_step(true, false, true, false, false), ClimbStep { climbing: false, jump: false });
}

#[test]
fn jumping_needs_ground_or_a_climb() {
    assert_eq!(climb_step(false, false, false, true, true), ClimbStep { climbing: false, jump: true });
    assert_eq!(climb_step(false, false, false, true, false), ClimbStep { climbing: false, jump: false });
    assert_eq!(climb_step(true, true, false, true, false), ClimbStep { climbing: false, jump: true });
}

#[test]
fn touching_the_chest_wins() {
    assert!(reaches_chest(&start(7, 9), 7, 9));
    assert!(reaches_chest(&start(9, 7), 7, 9));
    assert!(!reaches_chest(&stop(7, 9), 7, 9));
    assert!(!reaches_chest(&start(7, 8), 7, 9));
}
