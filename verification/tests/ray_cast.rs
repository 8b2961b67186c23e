use bedwars::aabb::Aabb;
use bedwars::aabb::Vec3;
use bedwars::bedwars_config::ConfigVec3;
use bedwars::ray_cast::aabb_full_block_intersections;
use bedwars::ray_cast::collide;

fn cube(x0: i64, y0: i64, z0: i64, x1: i64, y1: i64, z1: i64) -> Aabb {
    Aabb::new(Vec3::new(x0, y0, z0), Vec3::new(x1, y1, z1))
}

#[test]
fn test_block_aabb_intersections1() {
    let aabb = cube(0, 0, 0, 1000, 1000, 1000);
    let blocks = aabb_full_block_intersections(&aabb);

    assert_eq!(blocks.len(), 1);
    assert_eq!(blocks[0], ConfigVec3::new(0, 0, 0));
}

#[test]
fn test_block_aabb_intersections2() {
    let aabb = cube(500, 500, 500, 1500, 1500, 1500);
    let blocks = aabb_full_block_intersections(&aabb);

    assert_eq!(blocks.len(), 8);
    assert_eq!(blocks[0], ConfigVec3::new(0, 0, 0));
    assert_eq!(blocks[1], ConfigVec3::new(0, 0, 1));
    assert_eq!(blocks[2], ConfigVec3::new(0, 1, 0));
    assert_eq!(blocks[3], ConfigVec3::new(0, 1, 1));
    assert_eq!(blocks[4], ConfigVec3::new(1, 0, 0));
    assert_eq!(blocks[5], ConfigVec3::new(1, 0, 1));
    assert_eq!(blocks[6], ConfigVec3::new(1, 1, 0));
    assert_eq!(blocks[7], ConfigVec3::new(1, 1, 1));
}

#[test]
fn zero_displacement_is_steady_state() {
    // Already overlapping, not moving: no fresh collision is reported.
    let a = cube(0, 0, 0, 1000, 1000, 1000);
    let b = cube(500, 500, 500, 1500, 1500, 1500);
    let (t, n) = collide(&a, Vec3::new(0, 0, 0), &b);
    assert!(n.0.is_none() && n.1.is_none() && n.2.is_none());
    assert_eq!((t.num, t.den), (1, 1));

    // Disjoint and not moving: no collision either.
    let c = cube(5000, 0, 0, 6000, 1000, 1000);
    let (t, n) = collide(&a, Vec3::new(0, 0, 0), &c);
    assert!(n.0.is_none() && n.1.is_none() && n.2.is_none());
    assert_eq!((t.num, t.den), (1, 1));
}

#[test]
fn head_on_hit_reports_exact_entry_time() {
    // Gap of 1000 closed by a displacement of 2000: first contact at
    // exactly half the step, on the west face of the target.
    let a = cube(0, 0, 0, 1000, 1000, 1000);
    let b = cube(2000, 0, 0, 3000, 1000, 1000);
    let (t, n) = collide(&a, Vec3::new(2000, 0, 0), &b);
    assert_eq!(n, (Some(-1), None, None));
    assert_eq!(t.num * 2, t.den);
    assert_eq!((t.num, t.den), (1000, 2000));
}

#[test]
fn corner_graze_reports_both_axes() {
    // A perfectly diagonal corner hit at the end of the step: both axes
    // report the contact at the same time.
    let a = cube(0, 0, 0, 1000, 1000, 1000);
    let b = cube(2000, 2000, 0, 3000, 3000, 1000);
    let (t, n) = collide(&a, Vec3::new(1000, 1000, 0), &b);
    assert_eq!(n, (Some(-1), Some(-1), None));
    assert_eq!((t.num, t.den), (1000, 1000));
}

#[test]
fn diagonal_corner_hit_mid_step() {
    let a = cube(0, 0, 0, 1000, 1000, 1000);
    let b = cube(2000, 2000, 0, 3000, 3000, 1000);
    let (t, n) = collide(&a, Vec3::new(2000, 2000, 0), &b);
    assert_eq!(n, (Some(-1), Some(-1), None));
    // Both axes touch at exactly half the step.
    assert_eq!(t.num * 2, t.den);
}

#[test]
fn negative_entry_on_one_axis_mixes_with_positive() {
    // Already penetrated on x, still approaching on y: the y entry wins.
    let a = cube(0, 0, 0, 1000, 1000, 1000);
    let b = cube(500, 2000, 0, 1500, 3000, 1000);
    let (t, n) = collide(&a, Vec3::new(100, 2000, 0), &b);
    assert_eq!(n, (None, Some(-1), None));
    assert_eq!((t.num, t.den), (1000, 2000));
}

#[test]
fn separated_motionless_axis_rules_out_collision() {
    // x and y would meet, but the boxes never overlap on z and z does
    // not move: no collision on any axis.
    let a = cube(0, 0, 0, 1000, 1000, 1000);
    let b = cube(2000, 0, 5000, 3000, 1000, 6000);
    let (_, n) = collide(&a, Vec3::new(2000, 0, 0), &b);
    assert!(n.0.is_none() && n.1.is_none() && n.2.is_none());
}

#[test]
fn entry_after_step_end_is_missed() {
    // The gap is larger than the whole displacement: contact would come
    // only after this step ends.
    let a = cube(0, 0, 0, 1000, 1000, 1000);
    let b = cube(5000, 0, 0, 6000, 1000, 1000);
    let (_, n) = collide(&a, Vec3::new(2000, 0, 0), &b);
    assert!(n.0.is_none() && n.1.is_none() && n.2.is_none());
}

#[test]
fn moving_away_is_missed() {
    let a = cube(0, 0, 0, 1000, 1000, 1000);
    let b = cube(2000, 0, 0, 3000, 1000, 1000);
    let (_, n) = collide(&a, Vec3::new(-2000, 0, 0), &b);
    assert!(n.0.is_none() && n.1.is_none() && n.2.is_none());
}

#[test]
fn fast_thin_box_cannot_pass_narrow_phase() {
    // A displacement far larger than the target: the swept test still
    // reports the contact, at a small fraction of the step.
    let a = cube(0, 0, 0, 100, 100, 100);
    let b = cube(2000, 0, 0, 3000, 1000, 1000);
    let (t, n) = collide(&a, Vec3::new(50_000, 0, 0), &b);
    assert_eq!(n, (Some(-1), None, None));
    assert_eq!((t.num, t.den), (1900, 50_000));
}
