use worst_physics_engine::picking::{
    aabb_picking, contains, pick_in_order, sort_nearest_first, Hit, PickCandidate, Placement,
    PointerPos,
};

fn cand(id: u64, depth: i32, blocks_lower: bool) -> PickCandidate {
    PickCandidate {
        id,
        half_x: 8,
        half_y: 8,
        placement: Placement { x: 0, y: 0, depth, scale_x: 1, scale_y: 1 },
        blocks_lower,
    }
}

#[test]
fn blocking_candidate_hides_lower_ones() {
    let cands = vec![cand(1, 1, true), cand(3, 3, true), cand(2, 2, true)];
    let res = aabb_picking(&vec![PointerPos { id: 0, x: 1, y: 1 }], &cands);
    assert_eq!(res.len(), 1);
    assert_eq!(res[0].pointer, 0);
    assert_eq!(res[0].hits, vec![Hit { id: 3, depth: 3 }]);
}

#[test]
fn non_blocking_candidate_lets_the_next_through() {
    let cands = vec![cand(1, 1, true), cand(3, 3, false), cand(2, 2, true)];
    let res = aabb_picking(&vec![PointerPos { id: 0, x: 1, y: 1 }], &cands);
    assert_eq!(res[0].hits, vec![Hit { id: 3, depth: 3 }, Hit { id: 2, depth: 2 }]);
    let cands = vec![cand(1, 1, true), cand(3, 3, false), cand(2, 2, false)];
    let res = aabb_picking(&vec![PointerPos { id: 0, x: 1, y: 1 }], &cands);
    assert_eq!(
        res[0].hits,
        vec![Hit { id: 3, depth: 3 }, Hit { id: 2, depth: 2 }, Hit { id: 1, depth: 1 }]
    );
}

#[test]
fn each_pointer_is_picked_on_its_own() {
    let mut far = cand(5, 4, true);
    far.placement.x = 100;
    let cands = vec![cand(1, 1, true), far];
    let pointers = vec![PointerPos { id: 7, x: 0, y: 0 }, PointerPos { id: 8, x: 104, y: -8 }];
    let res = aabb_picking(&pointers, &cands);
    assert_eq!(res.len(), 2);
    assert_eq!(res[0].pointer, 7);
    assert_eq!(res[0].hits, vec![Hit { id: 1, depth: 1 }]);
    assert_eq!(res[1].pointer, 8);
    assert_eq!(res[1].hits, vec![Hit { id: 5, depth: 4 }]);
}

#[test]
fn no_candidates_no_hits() {
    let res = aabb_picking(&vec![PointerPos { id: 0, x: 0, y: 0 }], &vec![]);
    assert_eq!(res[0].hits, vec![]);
    assert!(aabb_picking(&vec![], &vec![cand(1, 1, true)]).is_empty());
}

#[test]
fn box_bounds_are_inclusive_and_scaled() {
    let mut c = cand(1, 0, true);
    c.placement.x = 10;
    c.placement.y = -10;
    assert!(contains(&c, 18, -2));
    assert!(!contains(&c, 19, -10));
    c.placement.scale_x = -2;
    assert!(contains(&c, 26, -10));
    assert!(contains(&c, -6, -10));
    assert!(!contains(&c, 27, -10));
    c.placement.scale_y = 0;
    assert!(!contains(&c, 10, -10));
}

#[test]
fn sort_puts_nearest_first() {
    let cands = vec![cand(1, 1, true), cand(2, 5, true), cand(3, -2, true), cand(4, 5, true)];
    let sorted = sort_nearest_first(&cands);
    let depths: Vec<i32> = sorted.iter().map(|c| c.placement.depth).collect();
    assert_eq!(depths, vec![5, 5, 1, -2]);
    let mut ids: Vec<u64> = sorted.iter().map(|c| c.id).collect();
    ids.sort();
    assert_eq!(ids, vec![1, 2, 3, 4]);
}

#[test]
fn order_given_is_the_order_tested() {
    let cands = vec![cand(1, 1, true), cand(2, 2, true)];
    assert_eq!(pick_in_order(0, 0, &cands), vec![Hit { id: 1, depth: 1 }]);
    assert_eq!(pick_in_order(50, 0, &cands), vec![]);
}
