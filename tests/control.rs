use ruefi::game::{GameControl, Intent, KeyEvent, MAX_PROJECTILES};

#[test]
fn fire_with_full_projectile_list_is_dropped() {
    let mut c = GameControl::new();
    let fire = Intent::none().with_key(KeyEvent::Fire);
    let plan = c.plan_tick(fire, MAX_PROJECTILES);
    assert!(!plan.fire);
    assert_eq!(MAX_PROJECTILES, 100);
    let plan = c.plan_tick(fire, 99);
    assert!(plan.fire);
    assert_eq!(plan.fire_speed, 12);
}

#[test]
fn later_keys_override_earlier_on_each_axis() {
    let i = Intent::none()
        .with_key(KeyEvent::RotateLeft)
        .with_key(KeyEvent::ThrustBackward)
        .with_key(KeyEvent::RotateRight)
        .with_key(KeyEvent::Other)
        .with_key(KeyEvent::SpeedDown);
    assert_eq!(i.rot, 1);
    assert_eq!(i.thr, -1);
    assert_eq!(i.speed_adj, -1);
    assert!(!i.fire && !i.exit);
}

#[test]
fn exit_stops_the_tick() {
    let mut c = GameControl::new();
    let i = Intent::none().with_key(KeyEvent::Fire).with_key(KeyEvent::Exit);
    let plan = c.plan_tick(i, 0);
    assert!(plan.exit);
    assert!(!plan.fire);
    assert!(c.poll_input());
}

#[test]
fn projectile_speed_is_clamped_to_its_range() {
    let mut c = GameControl::new();
    assert_eq!(c.projectile_speed(), 12);
    let up = Intent::none().with_key(KeyEvent::SpeedUp);
    for _ in 0..60 {
        c.plan_tick(up, 0);
    }
    assert_eq!(c.projectile_speed(), 50);
    let down = Intent::none().with_key(KeyEvent::SpeedDown);
    for _ in 0..60 {
        c.plan_tick(down, 0);
    }
    assert_eq!(c.projectile_speed(), 2);
}

#[test]
fn speed_change_applies_after_the_shot() {
    let mut c = GameControl::new();
    let i = Intent::none().with_key(KeyEvent::Fire).with_key(KeyEvent::SpeedUp);
    let plan = c.plan_tick(i, 0);
    assert_eq!(plan.fire_speed, 12);
    assert_eq!(c.projectile_speed(), 13);
}

#[test]
fn input_is_polled_on_even_frames() {
    let mut c = GameControl::new();
    assert!(c.poll_input());
    c.plan_tick(Intent::none(), 0);
    assert!(!c.poll_input());
    c.plan_tick(Intent::none(), 0);
    assert!(c.poll_input());
}
