use ruefi::collisions::{
    child_count, child_stages, collision_pairs, rebuild_with_children, retain_flagged, sweep_projectile_hits,
};

#[test]
fn split_stage_two_gives_four_children_at_stage_one() {
    assert_eq!(child_count(2), 4);
    assert_eq!(child_stages(2), vec![1, 1, 1, 1]);
}

#[test]
fn split_stage_one_gives_two_children_at_stage_zero() {
    assert_eq!(child_count(1), 2);
    assert_eq!(child_stages(1), vec![0, 0]);
}

#[test]
fn split_stage_zero_gives_no_children() {
    assert_eq!(child_count(0), 0);
    assert!(child_stages(0).is_empty());
}

#[test]
fn sweep_destroys_first_touched_asteroid_once() {
    // Projectile 0 touches asteroids 1 and 2, projectile 1 touches 1 and 3,
    // projectile 2 touches nothing, projectile 3 touches only 1.
    let hits = vec![
        vec![false, true, true, false],
        vec![false, true, false, true],
        vec![false, false, false, false],
        vec![false, true, false, false],
    ];
    let s = sweep_projectile_hits(&hits, 4);
    assert_eq!(s.hit, vec![Some(1), Some(3), None, None]);
    assert_eq!(s.projectile_alive, vec![false, false, true, true]);
    assert_eq!(s.asteroid_alive, vec![true, false, true, false]);
}

#[test]
fn sweep_with_no_projectiles_or_asteroids() {
    let s = sweep_projectile_hits(&Vec::new(), 3);
    assert!(s.hit.is_empty());
    assert_eq!(s.asteroid_alive, vec![true, true, true]);
    let t = sweep_projectile_hits(&vec![Vec::new(), Vec::new()], 0);
    assert_eq!(t.hit, vec![None, None]);
    assert_eq!(t.projectile_alive, vec![true, true]);
}

#[test]
fn retain_keeps_flagged_items_in_order() {
    let v = vec![10, 20, 30, 40];
    assert_eq!(retain_flagged(&v, &vec![true, false, false, true]), vec![10, 40]);
    assert_eq!(retain_flagged(&v, &vec![false; 4]), Vec::<i32>::new());
}

#[test]
fn rebuild_appends_children_after_survivors() {
    let v = vec![1, 2, 3];
    let kids = vec![7, 8];
    assert_eq!(rebuild_with_children(&v, &vec![false, true, true], &kids), vec![2, 3, 7, 8]);
}

#[test]
fn pairs_are_resolved_once_in_ascending_order() {
    assert_eq!(collision_pairs(4), vec![(0, 1), (0, 2), (0, 3), (1, 2), (1, 3), (2, 3)]);
    assert!(collision_pairs(1).is_empty());
    assert!(collision_pairs(0).is_empty());
}
