use bedwars::aabb::Aabb;
use bedwars::aabb::Vec3;
use bedwars::bedwars_config::ConfigVec3;
use bedwars::direction::Direction;
use bedwars::physics::CollidesWithBlocks;
use bedwars::physics::CollidesWithEntities;
use bedwars::physics::GetsStuckOnCollision;
use bedwars::physics::Gravity;
use bedwars::physics::PhysicsBody;
use bedwars::physics::PhysicsEvent;
use bedwars::physics::SimPhysicsForTime;
use bedwars::physics::TerminalVelocity;
use bedwars::physics::apply_drag;
use bedwars::physics::apply_gravity;
use bedwars::physics::clamp_terminal;
use bedwars::physics::handle_collision;
use bedwars::world::WorldSnapshot;
use bedwars::world::get_block_center;
use bedwars::world::is_on_ground;

fn full_cube() -> Aabb {
    Aabb::new(Vec3::new(0, 0, 0), Vec3::new(1000, 1000, 1000))
}

fn still_body(entity: u64, position: Vec3, shape: Aabb) -> PhysicsBody {
    PhysicsBody {
        entity,
        physics_active: true,
        position,
        velocity: Vec3::new(0, 0, 0),
        shape,
        drag: None,
        gravity: None,
        terminal_velocity: None,
        block_collider: None,
        entity_collider: None,
        stuck_sides: None,
        sim_physics_for_time: None,
    }
}

#[test]
fn falling_item_sticks_to_the_floor() {
    // An entity with no initial velocity, gravity of 20 u/s^2, no drag,
    // spawned five units above a solid floor, stuck-on-ground: it must
    // come to rest exactly flush with the floor, with zero (not
    // negative) vertical velocity, its gravity zeroed, and its physics
    // deactivated (a stuck entity leaves the integrator).
    let mut world = WorldSnapshot::new();
    world.set_block(ConfigVec3::new(0, 0, 0), vec![full_cube()]);

    let shape = Aabb::new(Vec3::new(-100, 0, -100), Vec3::new(100, 200, 100));
    let mut body = still_body(1, Vec3::new(500, 6000, 500), shape);
    body.gravity = Some(Gravity(20_000));
    body.block_collider = Some(CollidesWithBlocks(None));
    body.stuck_sides = Some(GetsStuckOnCollision::ground());

    let mut bodies = vec![body];
    let collidable: Vec<(u64, Aabb)> = Vec::new();
    let mut saw_block_event = false;
    let mut saw_removal = false;
    for _ in 0..100 {
        let events = handle_collision(&mut bodies, &collidable, &world, 50);
        for e in &events {
            match e {
                PhysicsEvent::Block(ev) => {
                    saw_block_event = true;
                    assert_eq!(ev.entity, 1);
                    assert_eq!(ev.direction, Direction::Up);
                    assert_eq!(ev.block_pos, ConfigVec3::new(0, 0, 0));
                },
                PhysicsEvent::MarkAsRemovePhysics(id) => {
                    saw_removal = true;
                    assert_eq!(*id, 1);
                },
                _ => panic!("unexpected event"),
            }
        }
    }
    assert!(saw_block_event);
    assert!(saw_removal);
    assert_eq!(bodies[0].position, Vec3::new(500, 1000, 500));
    assert_eq!(bodies[0].velocity, Vec3::new(0, 0, 0));
    assert_eq!(bodies[0].gravity, Some(Gravity(0)));
    // The stuck transition detaches the entity from the integrator.
    assert!(!bodies[0].physics_active);

    // Resting flush is a steady state: further ticks change nothing.
    for _ in 0..10 {
        let _ = handle_collision(&mut bodies, &collidable, &world, 50);
    }
    assert_eq!(bodies[0].position, Vec3::new(500, 1000, 500));
    assert_eq!(bodies[0].velocity, Vec3::new(0, 0, 0));
}

#[test]
fn wall_hit_lands_flush() {
    // Moving at 10 u/s into a wall 0.2 units ahead, with a step of
    // 0.05 s (displacement 0.5 u): the entity ends exactly flush with
    // the wall and its horizontal velocity is zeroed.
    let mut world = WorldSnapshot::new();
    world.set_block(ConfigVec3::new(1, 0, 0), vec![full_cube()]);

    let shape = Aabb::new(Vec3::new(0, 0, 0), Vec3::new(200, 200, 200));
    let mut body = still_body(1, Vec3::new(600, 0, 0), shape);
    body.velocity = Vec3::new(10_000, 0, 0);
    body.block_collider = Some(CollidesWithBlocks(None));

    let mut bodies = vec![body];
    let collidable: Vec<(u64, Aabb)> = Vec::new();
    let events = handle_collision(&mut bodies, &collidable, &world, 50);

    assert_eq!(bodies[0].position, Vec3::new(800, 0, 0));
    assert_eq!(bodies[0].velocity, Vec3::new(0, 0, 0));
    assert!(events.is_empty());
}

#[test]
fn tunneling_fast_thin_box_still_hits() {
    // A thin, fast box whose one-step displacement (40 units) dwarfs
    // the single-block wall in its path: the broad phase may not skip
    // the wall's cell, and the box must stop at the wall, not beyond it.
    let mut world = WorldSnapshot::new();
    world.set_block(ConfigVec3::new(10, 0, 0), vec![full_cube()]);

    let shape = Aabb::new(Vec3::new(0, 0, 0), Vec3::new(50, 50, 50));
    let mut body = still_body(1, Vec3::new(0, 100, 100), shape);
    body.velocity = Vec3::new(800_000, 0, 0);
    body.block_collider = Some(CollidesWithBlocks(None));

    let mut bodies = vec![body];
    let collidable: Vec<(u64, Aabb)> = Vec::new();
    let _ = handle_collision(&mut bodies, &collidable, &world, 50);

    // Flush against the wall at x = 10_000, not at x = 40_000.
    assert_eq!(bodies[0].position.x, 10_000 - 50);
    assert_eq!(bodies[0].velocity.x, 0);
}

#[test]
fn entity_collision_emits_exactly_one_event() {
    // One moving entity with an entity collider, one collidable target
    // whose hitbox the swept box reaches this tick: exactly one
    // entity-entity event for the pair, even with the mover itself in
    // the collidable list.
    let world = WorldSnapshot::new();
    let shape = Aabb::new(Vec3::new(0, 0, 0), Vec3::new(200, 200, 200));
    let mut body = still_body(1, Vec3::new(0, 0, 0), shape);
    body.velocity = Vec3::new(10_000, 0, 0);
    body.entity_collider = Some(CollidesWithEntities(None));

    let own_hitbox = Aabb::new(Vec3::new(0, 0, 0), Vec3::new(200, 200, 200));
    let target_hitbox = Aabb::new(Vec3::new(600, 0, 0), Vec3::new(800, 200, 200));
    let collidable = vec![(1u64, own_hitbox), (2u64, target_hitbox)];

    let mut bodies = vec![body];
    let events = handle_collision(&mut bodies, &collidable, &world, 50);

    assert_eq!(events.len(), 1);
    match events[0] {
        PhysicsEvent::EntityEntity(ev) => {
            assert_eq!(ev.entity1, 1);
            assert_eq!(ev.entity2, 2);
        },
        _ => panic!("expected an entity-entity collision event"),
    }
    // The check alters neither velocity nor the free integration.
    assert_eq!(bodies[0].velocity, Vec3::new(10_000, 0, 0));
    assert_eq!(bodies[0].position, Vec3::new(500, 0, 0));
}

#[test]
fn time_boxed_physics_expires_on_schedule() {
    // A two-second physics budget at 50 ms per tick: the physics-active
    // flag must drop on tick 40, when the elapsed time first reaches
    // two seconds, collision or no collision.
    let world = WorldSnapshot::new();
    let shape = Aabb::new(Vec3::new(0, 0, 0), Vec3::new(200, 200, 200));
    let mut body = still_body(7, Vec3::new(0, 0, 0), shape);
    body.sim_physics_for_time = Some(SimPhysicsForTime::for_millis(2000));

    let mut bodies = vec![body];
    let collidable: Vec<(u64, Aabb)> = Vec::new();
    for tick in 1..=39 {
        let events = handle_collision(&mut bodies, &collidable, &world, 50);
        assert!(events.is_empty(), "no removal before two seconds (tick {})", tick);
        assert!(bodies[0].physics_active);
    }
    let events = handle_collision(&mut bodies, &collidable, &world, 50);
    assert_eq!(events.len(), 1);
    assert!(matches!(events[0], PhysicsEvent::MarkAsRemovePhysics(7)));
    assert!(!bodies[0].physics_active);
}

#[test]
fn tick_is_deterministic() {
    // Identical starting state, velocity, gravity, drag and world
    // snapshot: two runs of one tick produce identical bodies and
    // identical events.
    let build = || {
        let mut world = WorldSnapshot::new();
        world.set_block(ConfigVec3::new(0, 0, 0), vec![full_cube()]);
        let shape = Aabb::new(Vec3::new(-100, 0, -100), Vec3::new(100, 200, 100));
        let mut body = still_body(1, Vec3::new(500, 2500, 500), shape);
        body.velocity = Vec3::new(1234, -4321, 55);
        body.gravity = Some(Gravity(20_000));
        body.drag = Some(bedwars::physics::Drag(500));
        body.block_collider = Some(CollidesWithBlocks(None));
        body.stuck_sides = Some(GetsStuckOnCollision::ground());
        (world, vec![body])
    };
    let (world1, mut bodies1) = build();
    let (world2, mut bodies2) = build();
    let collidable: Vec<(u64, Aabb)> = Vec::new();
    for _ in 0..20 {
        let e1 = handle_collision(&mut bodies1, &collidable, &world1, 50);
        let e2 = handle_collision(&mut bodies2, &collidable, &world2, 50);
        assert_eq!(e1, e2);
        assert_eq!(bodies1[0], bodies2[0]);
    }
}

#[test]
fn tying_candidates_merge_their_axes() {
    // A perfectly diagonal approach into an inside corner: two separate
    // blocks are first touched at exactly the same entry time, one on
    // the x axis and one on the y axis. Both axes are resolved in the
    // same pass: one tick leaves the entity flush on both axes with
    // both velocity components zeroed.
    let mut world = WorldSnapshot::new();
    world.set_block(ConfigVec3::new(1, 0, 0), vec![full_cube()]);
    world.set_block(ConfigVec3::new(0, 1, 0), vec![full_cube()]);

    let shape = Aabb::new(Vec3::new(0, 0, 0), Vec3::new(500, 500, 500));
    let mut body = still_body(1, Vec3::new(250, 250, 0), shape);
    body.velocity = Vec3::new(10_000, 10_000, 0);
    body.block_collider = Some(CollidesWithBlocks(None));

    let mut bodies = vec![body];
    let collidable: Vec<(u64, Aabb)> = Vec::new();
    let events = handle_collision(&mut bodies, &collidable, &world, 50);

    assert_eq!(bodies[0].position, Vec3::new(500, 500, 0));
    assert_eq!(bodies[0].velocity, Vec3::new(0, 0, 0));
    assert!(events.is_empty());
}

#[test]
fn drag_gravity_and_terminal_velocity_formulas() {
    // Drag of 1 per second over 100 ms takes a tenth off.
    assert_eq!(apply_drag(Vec3::new(1000, -2000, 0), 1000, 100), Vec3::new(900, -1800, 0));
    // Gravity of 20 u/s^2 over 50 ms adds 1 u/s downward.
    assert_eq!(apply_gravity(Vec3::new(5, 0, 7), 20_000, 50), Vec3::new(5, -1000, 7));
    // A 3-4-5 velocity of length 5000 clamped to 2500 keeps direction.
    assert_eq!(clamp_terminal(Vec3::new(3000, 4000, 0), 2500), Vec3::new(1500, 2000, 0));
    // Under the cap nothing changes.
    assert_eq!(clamp_terminal(Vec3::new(3000, 4000, 0), 6000), Vec3::new(3000, 4000, 0));
}

#[test]
fn terminal_velocity_caps_a_falling_body() {
    let world = WorldSnapshot::new();
    let shape = Aabb::new(Vec3::new(0, 0, 0), Vec3::new(100, 100, 100));
    let mut body = still_body(1, Vec3::new(0, 400_000, 0), shape);
    body.gravity = Some(Gravity(20_000));
    body.terminal_velocity = Some(TerminalVelocity(3000));
    let mut bodies = vec![body];
    let collidable: Vec<(u64, Aabb)> = Vec::new();
    for _ in 0..10 {
        let _ = handle_collision(&mut bodies, &collidable, &world, 50);
        assert!(bodies[0].velocity.y >= -3000);
    }
    assert_eq!(bodies[0].velocity.y, -3000);
}

#[test]
fn ground_support_test() {
    let mut world = WorldSnapshot::new();
    world.set_block(ConfigVec3::new(0, 0, 0), vec![full_cube()]);
    let resting = Aabb::new(Vec3::new(200, 1000, 200), Vec3::new(800, 1400, 800));
    let floating = Aabb::new(Vec3::new(200, 1002, 200), Vec3::new(800, 1400, 800));
    assert!(is_on_ground(&resting, &world));
    assert!(!is_on_ground(&floating, &world));
}

#[test]
fn block_center_is_cell_midpoint() {
    assert_eq!(get_block_center(&ConfigVec3::new(0, 0, 0)), Vec3::new(500, 500, 500));
    assert_eq!(get_block_center(&ConfigVec3::new(-1, 2, 3)), Vec3::new(-500, 2500, 3500));
}
