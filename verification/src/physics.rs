//! The per-tick physics integrator: drag, gravity and terminal velocity,
//! up to three block-collision resolution passes over the swept-AABB
//! test, entity-vs-entity overlap events, and the deferred side effects
//! (collision events, physics removal) that are flushed after every
//! entity has been processed.
//!
//! Everything a tick does to one entity is a function of that entity's
//! state, the read-only world snapshot, the read-only list of collidable
//! entities and the step duration — nothing else. The whole tick is
//! specified by spec functions mirrored exactly by the executable code,
//! so two runs from the same state are equal by construction.

use vstd::prelude::*;
use crate::aabb::Aabb;
use crate::aabb::Vec3;
use crate::aabb::COORD_CEIL;
use crate::bedwars_config::ConfigVec3;
use crate::direction::Direction;
use crate::num::DT_MAX;
use crate::num::POS_LIMIT;
use crate::num::UNIT;
use crate::num::VEL_LIMIT;
use crate::num::clamp_spec;
use crate::num::clamp_to;
use crate::num::isqrt;
use crate::num::isqrt_spec;
use crate::num::lemma_isqrt_bounds;
use crate::num::lemma_mul_bound;
use crate::num::lemma_frac_nonneg;
use crate::num::frac_eq;
use crate::num::mul_div_trunc;
use crate::num::tdiv;
use crate::ray_cast::EntryTime;
use crate::ray_cast::collide;
use crate::ray_cast::collide_result_spec;
use crate::ray_cast::sweep_hits;
use crate::ray_cast::contact_at;
use crate::ray_cast::contact_on_axis;
use crate::ray_cast::lemma_first_contact;
use crate::ray_cast::normal_spec;
use crate::ray_cast::entry_gap;
use crate::ray_cast::dmag;
use crate::ray_cast::winning_axis;
use crate::ray_cast::axis_entry_nonneg;
use crate::ray_cast::lemma_cover_box_contains;
use crate::ray_cast::block_cover_spec;
use crate::ray_cast::aabb_full_block_intersections;
use crate::aabb::axis;
use crate::world::WorldSnapshot;

verus! {

/// Widest hitbox span the integrator accepts on any axis (milli-units).
pub const HITBOX_SPAN_LIMIT: i64 = 1_000_000_000_000;

/// Bound on world-space collision boxes: a position plus a hitbox span.
pub const WORLD_BOX_LIMIT: i64 = 1_500_000_000_000;

/// Bound on a one-step displacement: `VEL_LIMIT * DT_MAX / 1000`.
pub const DELTA_LIMIT: i64 = 60_000_000_000;

/// Bound on the velocity decay rate (thousandths per second).
pub const DRAG_LIMIT: i64 = 20_000;

/// Bound on a physics time budget (milliseconds).
pub const TIMER_LIMIT: i64 = 0x1_0000_0000_0000;

/// Downward acceleration applied to an entity, in milli-units per second
/// squared. Game logic zeroes it (distinct from removing it) when an
/// entity becomes stuck.
#[derive(Clone, Copy, PartialEq, Eq, Structural, Debug)]
pub struct Gravity(pub i64);

impl Gravity {
    /// The gravity rate of dropped items.
    pub fn items() -> (r: Gravity)
        ensures
            r == (Gravity { 0: 16_000i64 }),
    {
        Gravity(16_000)
    }
}

/// Fraction of its velocity an entity loses per second, in thousandths.
#[derive(Clone, Copy, PartialEq, Eq, Structural, Debug)]
pub struct Drag(pub i64);

/// Speed cap applied after gravity and drag, in milli-units per second.
#[derive(Clone, Copy, PartialEq, Eq, Structural, Debug)]
pub struct TerminalVelocity(pub i64);

/// The entity collides with world blocks; the inner box, when present,
/// overrides the entity hitbox for those sweeps and is re-anchored to
/// the entity position each tick.
#[derive(Clone, Copy, PartialEq, Eq, Structural, Debug)]
pub struct CollidesWithBlocks(pub Option<Aabb>);

/// The entity detects collisions against other entities; the inner box,
/// when present, overrides the entity hitbox for those checks.
#[derive(Clone, Copy, PartialEq, Eq, Structural, Debug)]
pub struct CollidesWithEntities(pub Option<Aabb>);

/// The six stuck-side bits, indexed by `Direction::as_u8`: on a block
/// collision whose face is among them the entity halts entirely and its
/// physics is deactivated, instead of merely losing that axis's
/// velocity component.
#[derive(Clone, Copy, PartialEq, Eq, Structural, Debug)]
pub struct GetsStuckOnCollision {
    pub sides: u8,
}

impl GetsStuckOnCollision {
    /// Stuck on any face.
    pub fn all() -> (r: GetsStuckOnCollision)
        ensures
            r.sides == 0xffu8,
    {
        GetsStuckOnCollision { sides: 0xff }
    }

    /// Stuck on no face.
    pub fn none() -> (r: GetsStuckOnCollision)
        ensures
            r.sides == 0u8,
    {
        GetsStuckOnCollision { sides: 0 }
    }

    /// Stuck only when landing on ground (the upward block face).
    pub fn ground() -> (r: GetsStuckOnCollision)
        ensures
            r.sides == 2u8,
    {
        assert(1u8 << 1 == 2u8) by (bit_vector);
        GetsStuckOnCollision { sides: 1u8 << 1 }
    }
}

/// A physics time budget: once it runs out, the integrator marks the
/// entity for physics removal and does nothing further with it.
#[derive(Clone, Copy, PartialEq, Eq, Structural, Debug)]
pub struct SimPhysicsForTime {
    pub remaining_millis: i64,
}

impl SimPhysicsForTime {
    pub fn for_millis(millis: i64) -> (r: SimPhysicsForTime)
        requires
            0 <= millis <= TIMER_LIMIT,
        ensures
            r.remaining_millis == millis,
    {
        SimPhysicsForTime { remaining_millis: millis }
    }
}

/// Emitted when a moving entity's swept hitbox meets another entity's.
#[derive(Clone, Copy, PartialEq, Eq, Structural, Debug)]
pub struct EntityEntityCollisionEvent {
    pub entity1: u64,
    pub entity2: u64,
}

/// Emitted when an entity halts on a block face in its stuck mask.
#[derive(Clone, Copy, PartialEq, Eq, Structural, Debug)]
pub struct EntityBlockCollisionEvent {
    pub entity: u64,
    pub collision_pos: Vec3,
    pub previous_velocity: Vec3,
    pub block_pos: ConfigVec3,
    pub direction: Direction,
}

/// A deferred side effect of one entity's tick, buffered during the
/// per-entity phase and applied or handed out in the flush phase.
#[derive(Clone, Copy, PartialEq, Eq, Structural, Debug)]
pub enum PhysicsEvent {
    MarkAsRemovePhysics(u64),
    Block(EntityBlockCollisionEvent),
    EntityEntity(EntityEntityCollisionEvent),
}

/// The full physics state of one dynamic entity. The world-space hitbox
/// is always derived from `shape` (an origin-anchored box) and the
/// current position, so it can never go stale.
#[derive(Clone, Copy, PartialEq, Eq, Structural, Debug)]
pub struct PhysicsBody {
    pub entity: u64,
    pub physics_active: bool,
    pub position: Vec3,
    pub velocity: Vec3,
    pub shape: Aabb,
    pub drag: Option<Drag>,
    pub gravity: Option<Gravity>,
    pub terminal_velocity: Option<TerminalVelocity>,
    pub block_collider: Option<CollidesWithBlocks>,
    pub entity_collider: Option<CollidesWithEntities>,
    pub stuck_sides: Option<GetsStuckOnCollision>,
    pub sim_physics_for_time: Option<SimPhysicsForTime>,
}

/// An override collision box is ordered, bounded, and no wider than the
/// engine's hitbox span on any axis.
pub open spec fn override_box_ok(b: Aabb) -> bool {
    &&& b.wf()
    &&& b.bounded_by(WORLD_BOX_LIMIT as int)
    &&& b.max.x - b.min.x <= HITBOX_SPAN_LIMIT
    &&& b.max.y - b.min.y <= HITBOX_SPAN_LIMIT
    &&& b.max.z - b.min.z <= HITBOX_SPAN_LIMIT
}

impl PhysicsBody {
    /// The engine's operating range: position and velocity within the
    /// world bounds and speed cap, boxes ordered and of bounded span,
    /// rates non-negative and bounded.
    pub open spec fn wf(self) -> bool {
        &&& self.position.bounded_by(POS_LIMIT as int)
        &&& self.velocity.bounded_by(VEL_LIMIT as int)
        &&& self.shape.wf()
        &&& self.shape.bounded_by(POS_LIMIT as int)
        &&& (self.drag matches Some(d) ==> 0 <= d.0 <= DRAG_LIMIT)
        &&& (self.gravity matches Some(g) ==> 0 <= g.0 <= VEL_LIMIT)
        &&& (self.terminal_velocity matches Some(t) ==> 0 <= t.0 <= VEL_LIMIT)
        &&& (self.block_collider matches Some(c) ==> (c.0 matches Some(b) ==> override_box_ok(b)))
        &&& (self.entity_collider matches Some(c) ==> (c.0 matches Some(b) ==> override_box_ok(b)))
        &&& (self.sim_physics_for_time matches Some(t) ==> 0 <= t.remaining_millis <= TIMER_LIMIT)
    }

    /// The world-space hitbox: the entity shape carried to the current
    /// position.
    pub open spec fn hitbox_spec(self) -> Aabb {
        self.shape.translate_spec(self.position)
    }

    pub fn hitbox(&self) -> (r: Aabb)
        requires
            self.wf(),
        ensures
            r == self.hitbox_spec(),
    {
        self.shape.translate(self.position)
    }
}

/// One-step displacement: velocity scaled by the step duration, each
/// component rounded toward zero.
pub open spec fn scale_spec(v: Vec3, dt: int) -> Vec3 {
    Vec3 {
        x: tdiv(v.x * dt, 1000) as i64,
        y: tdiv(v.y * dt, 1000) as i64,
        z: tdiv(v.z * dt, 1000) as i64,
    }
}

/// Quotients stay within `m` when the dividend stays within `d * m`.
pub proof fn lemma_tdiv_in_range(a: int, d: int, m: int)
    requires
        d > 0,
        m >= 0,
        -(d * m) <= a <= d * m,
    ensures
        -m <= tdiv(a, d) <= m,
{
    if a >= 0 {
        vstd::arithmetic::div_mod::lemma_div_is_ordered(a, d * m, d);
        vstd::arithmetic::div_mod::lemma_div_multiples_vanish(m, d);
        vstd::arithmetic::div_mod::lemma_div_pos_is_pos(a, d);
    } else {
        vstd::arithmetic::div_mod::lemma_div_is_ordered(-a, d * m, d);
        vstd::arithmetic::div_mod::lemma_div_multiples_vanish(m, d);
        vstd::arithmetic::div_mod::lemma_div_pos_is_pos(-a, d);
    }
}

proof fn lemma_mul_bound2(a: int, b: int, ma: int, mb: int)
    by (nonlinear_arith)
    requires
        0 <= ma,
        0 <= mb,
        -ma <= a <= ma,
        -mb <= b <= mb,
    ensures
        -(ma * mb) <= a * b <= ma * mb,
{
}

/// Scale a velocity to the displacement it causes over `dt` milliseconds.
pub fn scale_velocity(v: Vec3, dt: i64) -> (r: Vec3)
    requires
        v.bounded_by(VEL_LIMIT as int),
        0 < dt <= DT_MAX,
    ensures
        r == scale_spec(v, dt as int),
        r.bounded_by(DELTA_LIMIT as int),
{
    proof {
        lemma_mul_bound2(v.x as int, dt as int, VEL_LIMIT as int, DT_MAX as int);
        lemma_mul_bound2(v.y as int, dt as int, VEL_LIMIT as int, DT_MAX as int);
        lemma_mul_bound2(v.z as int, dt as int, VEL_LIMIT as int, DT_MAX as int);
        lemma_tdiv_in_range(v.x * dt, 1000, DELTA_LIMIT as int);
        lemma_tdiv_in_range(v.y * dt, 1000, DELTA_LIMIT as int);
        lemma_tdiv_in_range(v.z * dt, 1000, DELTA_LIMIT as int);
    }
    Vec3 {
        x: mul_div_trunc(v.x, dt, 1000),
        y: mul_div_trunc(v.y, dt, 1000),
        z: mul_div_trunc(v.z, dt, 1000),
    }
}

/// Velocity decay over one step: multiply by `1 - drag * dt` (in exact
/// thousandths), then cap at the engine speed limit.
pub open spec fn apply_drag_spec(v: Vec3, drag: int, dt: int) -> Vec3 {
    let f = 1_000_000 - drag * dt;
    Vec3 {
        x: clamp_spec(tdiv(v.x * f, 1_000_000), VEL_LIMIT as int) as i64,
        y: clamp_spec(tdiv(v.y * f, 1_000_000), VEL_LIMIT as int) as i64,
        z: clamp_spec(tdiv(v.z * f, 1_000_000), VEL_LIMIT as int) as i64,
    }
}

pub fn apply_drag(v: Vec3, drag: i64, dt: i64) -> (r: Vec3)
    requires
        v.bounded_by(VEL_LIMIT as int),
        0 <= drag <= DRAG_LIMIT,
        0 < dt <= DT_MAX,
    ensures
        r == apply_drag_spec(v, drag as int, dt as int),
        r.bounded_by(VEL_LIMIT as int),
{
    proof {
        lemma_mul_bound2(drag as int, dt as int, DRAG_LIMIT as int, DT_MAX as int);
    }
    let f: i64 = 1_000_000 - drag * dt;
    proof {
        lemma_mul_bound2(v.x as int, f as int, VEL_LIMIT as int, 1_201_000_000);
        lemma_mul_bound2(v.y as int, f as int, VEL_LIMIT as int, 1_201_000_000);
        lemma_mul_bound2(v.z as int, f as int, VEL_LIMIT as int, 1_201_000_000);
    }
    Vec3 {
        x: clamp_to(mul_div_trunc(v.x, f, 1_000_000), VEL_LIMIT),
        y: clamp_to(mul_div_trunc(v.y, f, 1_000_000), VEL_LIMIT),
        z: clamp_to(mul_div_trunc(v.z, f, 1_000_000), VEL_LIMIT),
    }
}

/// Gravity pull over one step: the vertical component drops by
/// `g * dt / 1000`, capped at the engine speed limit.
pub open spec fn apply_gravity_spec(v: Vec3, g: int, dt: int) -> Vec3 {
    Vec3 {
        x: v.x,
        y: clamp_spec(v.y - tdiv(g * dt, 1000), VEL_LIMIT as int) as i64,
        z: v.z,
    }
}

pub fn apply_gravity(v: Vec3, g: i64, dt: i64) -> (r: Vec3)
    requires
        v.bounded_by(VEL_LIMIT as int),
        0 <= g <= VEL_LIMIT,
        0 < dt <= DT_MAX,
    ensures
        r == apply_gravity_spec(v, g as int, dt as int),
        r.bounded_by(VEL_LIMIT as int),
{
    proof {
        lemma_mul_bound2(g as int, dt as int, VEL_LIMIT as int, DT_MAX as int);
        lemma_tdiv_in_range(g * dt, 1000, DELTA_LIMIT as int);
    }
    let pull: i64 = mul_div_trunc(g, dt, 1000);
    Vec3 { x: v.x, y: clamp_to(v.y - pull, VEL_LIMIT), z: v.z }
}

/// Squared speed of a velocity vector.
pub open spec fn speed_sq(v: Vec3) -> int {
    v.x * v.x + v.y * v.y + v.z * v.z
}

/// Terminal-velocity clamp: when the speed (rounded down) exceeds the
/// cap, rescale the whole vector to the cap, keeping its direction. The
/// vector's length is clamped, never the individual components.
pub open spec fn clamp_terminal_spec(v: Vec3, t: int) -> Vec3 {
    let len = isqrt_spec(speed_sq(v));
    if len <= t {
        v
    } else {
        Vec3 {
            x: tdiv(v.x * t, len) as i64,
            y: tdiv(v.y * t, len) as i64,
            z: tdiv(v.z * t, len) as i64,
        }
    }
}

pub fn clamp_terminal(v: Vec3, t: i64) -> (r: Vec3)
    requires
        v.bounded_by(VEL_LIMIT as int),
        0 <= t <= VEL_LIMIT,
    ensures
        r == clamp_terminal_spec(v, t as int),
        r.bounded_by(VEL_LIMIT as int),
{
    proof {
        lemma_mul_bound(v.x as int, v.x as int, VEL_LIMIT as int);
        lemma_mul_bound(v.y as int, v.y as int, VEL_LIMIT as int);
        lemma_mul_bound(v.z as int, v.z as int, VEL_LIMIT as int);
        assert(VEL_LIMIT as int * VEL_LIMIT as int == 1_000_000_000_000_000_000);
        assert(v.x * v.x >= 0 && v.y * v.y >= 0 && v.z * v.z >= 0) by (nonlinear_arith);
    }
    let xx: u64 = ((v.x as i128) * (v.x as i128)) as u64;
    let yy: u64 = ((v.y as i128) * (v.y as i128)) as u64;
    let zz: u64 = ((v.z as i128) * (v.z as i128)) as u64;
    let sq: u64 = xx + yy + zz;
    assert(sq == speed_sq(v));
    let len64 = isqrt(sq);
    proof {
        lemma_isqrt_bounds(sq as int);
        assert(isqrt_spec(sq as int) <= 2_000_000_000) by {
            if isqrt_spec(sq as int) > 2_000_000_000 {
                assert(isqrt_spec(sq as int) * isqrt_spec(sq as int) > 3_000_000_000_000_000_000)
                    by (nonlinear_arith)
                    requires
                        isqrt_spec(sq as int) > 2_000_000_000,
                ;
            }
        };
    }
    let len: i64 = len64 as i64;
    if len <= t {
        v
    } else {
        proof {
            lemma_mul_bound2(v.x as int, t as int, VEL_LIMIT as int, len as int);
            lemma_mul_bound2(v.y as int, t as int, VEL_LIMIT as int, len as int);
            lemma_mul_bound2(v.z as int, t as int, VEL_LIMIT as int, len as int);
            assert((VEL_LIMIT as int) * (len as int) == (len as int) * (VEL_LIMIT as int))
                by (nonlinear_arith);
            lemma_tdiv_in_range(v.x * t, len as int, VEL_LIMIT as int);
            lemma_tdiv_in_range(v.y * t, len as int, VEL_LIMIT as int);
            lemma_tdiv_in_range(v.z * t, len as int, VEL_LIMIT as int);
        }
        Vec3 {
            x: mul_div_trunc(v.x, t, len),
            y: mul_div_trunc(v.y, t, len),
            z: mul_div_trunc(v.z, t, len),
        }
    }
}

/// A narrow-phase hit found during one resolution pass: when it happens,
/// on which axes (with face signs), and against which block cell.
#[derive(Clone, Copy, Debug)]
pub struct Candidate {
    pub time: EntryTime,
    pub normals: (Option<i8>, Option<i8>, Option<i8>),
    pub block_pos: ConfigVec3,
}

pub open spec fn imin(a: int, b: int) -> int {
    if a <= b {
        a
    } else {
        b
    }
}

pub open spec fn imax(a: int, b: int) -> int {
    if a <= b {
        b
    } else {
        a
    }
}

/// World-space origin (minimum corner) of a block cell.
pub open spec fn cell_origin_spec(p: ConfigVec3) -> Vec3 {
    Vec3 { x: (p.x * UNIT) as i64, y: (p.y * UNIT) as i64, z: (p.z * UNIT) as i64 }
}

pub fn cell_origin(p: &ConfigVec3) -> (r: Vec3)
    ensures
        r == cell_origin_spec(*p),
        r.bounded_by(0x2000_0000_0000 as int),
{
    Vec3 { x: (p.x as i64) * UNIT, y: (p.y as i64) * UNIT, z: (p.z as i64) * UNIT }
}

/// The scan hull of one resolution pass: the collision box at its
/// current position, the box displaced by the remaining step, and one
/// cell of margin all around, so that not even a fast thin box can skip
/// a cell it might touch on the way.
pub open spec fn scan_box_spec(cbox: Aabb, delta: Vec3) -> Aabb {
    Aabb {
        min: Vec3 {
            x: (imin(cbox.min.x as int, cbox.min.x + delta.x) - UNIT) as i64,
            y: (imin(cbox.min.y as int, cbox.min.y + delta.y) - UNIT) as i64,
            z: (imin(cbox.min.z as int, cbox.min.z + delta.z) - UNIT) as i64,
        },
        max: Vec3 {
            x: (imax(cbox.max.x as int, cbox.max.x + delta.x) + UNIT) as i64,
            y: (imax(cbox.max.y as int, cbox.max.y + delta.y) + UNIT) as i64,
            z: (imax(cbox.max.z as int, cbox.max.z + delta.z) + UNIT) as i64,
        },
    }
}

pub fn scan_box(cbox: &Aabb, delta: Vec3) -> (r: Aabb)
    requires
        cbox.wf(),
        cbox.bounded_by(WORLD_BOX_LIMIT as int),
        delta.bounded_by(DELTA_LIMIT as int),
    ensures
        r == scan_box_spec(*cbox, delta),
        r.wf(),
        r.bounded_by(crate::ray_cast::SCAN_LIMIT as int),
{
    let minx = if delta.x < 0 {
        cbox.min.x + delta.x
    } else {
        cbox.min.x
    };
    let miny = if delta.y < 0 {
        cbox.min.y + delta.y
    } else {
        cbox.min.y
    };
    let minz = if delta.z < 0 {
        cbox.min.z + delta.z
    } else {
        cbox.min.z
    };
    let maxx = if delta.x > 0 {
        cbox.max.x + delta.x
    } else {
        cbox.max.x
    };
    let maxy = if delta.y > 0 {
        cbox.max.y + delta.y
    } else {
        cbox.max.y
    };
    let maxz = if delta.z > 0 {
        cbox.max.z + delta.z
    } else {
        cbox.max.z
    };
    Aabb {
        min: Vec3 { x: minx - UNIT, y: miny - UNIT, z: minz - UNIT },
        max: Vec3 { x: maxx + UNIT, y: maxy + UNIT, z: maxz + UNIT },
    }
}

/// The candidate a single block sub-shape contributes: one hit record
/// when the swept test reports contact, nothing otherwise.
pub open spec fn maybe_candidate_spec(cbox: Aabb, delta: Vec3, p: ConfigVec3, shape: Aabb) -> Seq<
    Candidate,
> {
    let world_box = shape.translate_spec(cell_origin_spec(p));
    if sweep_hits(cbox, delta, world_box) {
        let r = collide_result_spec(cbox, delta, world_box);
        seq![Candidate { time: r.0, normals: r.1, block_pos: p }]
    } else {
        Seq::empty()
    }
}

/// The candidates one cell contributes, one sub-shape at a time.
pub open spec fn shape_candidates_spec(cbox: Aabb, delta: Vec3, p: ConfigVec3, shapes: Seq<Aabb>) -> Seq<
    Candidate,
>
    decreases shapes.len(),
{
    if shapes.len() == 0 {
        Seq::empty()
    } else {
        shape_candidates_spec(cbox, delta, p, shapes.drop_last()) + maybe_candidate_spec(
            cbox,
            delta,
            p,
            shapes.last(),
        )
    }
}

/// The candidates of a run of cells, in enumeration order.
pub open spec fn cells_candidates_spec(
    cbox: Aabb,
    delta: Vec3,
    world: WorldSnapshot,
    cells: Seq<ConfigVec3>,
) -> Seq<Candidate>
    decreases cells.len(),
{
    if cells.len() == 0 {
        Seq::empty()
    } else {
        cells_candidates_spec(cbox, delta, world, cells.drop_last()) + shape_candidates_spec(
            cbox,
            delta,
            cells.last(),
            world.geom(cells.last()),
        )
    }
}

/// Every collision candidate of one resolution pass: every sub-shape of
/// every cell in the scan hull that the swept box reaches.
pub open spec fn candidates_spec(cbox: Aabb, delta: Vec3, world: WorldSnapshot) -> Seq<Candidate> {
    cells_candidates_spec(cbox, delta, world, block_cover_spec(scan_box_spec(cbox, delta)))
}

/// A candidate as the resolution pass relies on it: a well-formed entry
/// fraction within the step, with the step displacement itself as the
/// denominator.
pub open spec fn candidate_ok(c: Candidate) -> bool {
    c.time.wf() && 0 <= c.time.num <= c.time.den && c.time.den <= DELTA_LIMIT
}

/// Collect the collision candidates of one resolution pass.
pub fn collect_candidates(cbox: &Aabb, delta: Vec3, world: &WorldSnapshot) -> (r: Vec<Candidate>)
    requires
        cbox.wf(),
        cbox.bounded_by(WORLD_BOX_LIMIT as int),
        delta.bounded_by(DELTA_LIMIT as int),
        world.wf(),
    ensures
        r@ == candidates_spec(*cbox, delta, *world),
        forall|k: int| 0 <= k < r@.len() ==> candidate_ok(#[trigger] r@[k]),
{
    let hull = scan_box(cbox, delta);
    let cells = aabb_full_block_intersections(&hull);
    let n = cells.len();
    let mut r: Vec<Candidate> = Vec::new();
    proof {
        assert(cells@.take(0) =~= Seq::<ConfigVec3>::empty());
        assert(r@ =~= cells_candidates_spec(*cbox, delta, *world, cells@.take(0)));
    }
    let mut i: usize = 0;
    while i < n
        invariant
            0 <= i <= n,
            n == cells@.len(),
            cells@ == block_cover_spec(scan_box_spec(*cbox, delta)),
            cbox.wf(),
            cbox.bounded_by(WORLD_BOX_LIMIT as int),
            delta.bounded_by(DELTA_LIMIT as int),
            world.wf(),
            r@ == cells_candidates_spec(*cbox, delta, *world, cells@.take(i as int)),
            forall|k: int| 0 <= k < r@.len() ==> candidate_ok(#[trigger] r@[k]),
        decreases n - i,
    {
        let p = cells[i];
        proof {
            assert(cells@.take(i as int + 1).drop_last() =~= cells@.take(i as int));
            assert(cells@.take(i as int + 1).last() == p);
        }
        let maybe_shapes = world.block_at(&p);
        match maybe_shapes {
            None => {
                proof {
                    assert(shape_candidates_spec(*cbox, delta, p, world.geom(p)) =~= Seq::<
                        Candidate,
                    >::empty());
                    assert(r@ =~= cells_candidates_spec(
                        *cbox,
                        delta,
                        *world,
                        cells@.take(i as int + 1),
                    ));
                }
            },
            Some(shapes) => {
                let m = shapes.len();
                let ghost base = r@;
                proof {
                    assert(shapes@.take(0) =~= Seq::<Aabb>::empty());
                    assert(r@ =~= base + shape_candidates_spec(*cbox, delta, p, shapes@.take(0)));
                }
                let mut k: usize = 0;
                while k < m
                    invariant
                        0 <= k <= m,
                        m == shapes@.len(),
                        shapes@ == world.geom(p),
                        cbox.wf(),
                        cbox.bounded_by(WORLD_BOX_LIMIT as int),
                        delta.bounded_by(DELTA_LIMIT as int),
                        world.wf(),
                        base == cells_candidates_spec(*cbox, delta, *world, cells@.take(i as int)),
                        r@ == base + shape_candidates_spec(*cbox, delta, p, shapes@.take(k as int)),
                        forall|q: int| 0 <= q < r@.len() ==> candidate_ok(#[trigger] r@[q]),
                    decreases m - k,
                {
                    proof {
                        assert(world.geom(p)[k as int].wf() && world.geom(p)[k as int].bounded_by(
                            POS_LIMIT as int,
                        ));
                        assert(shapes@.take(k as int + 1).drop_last() =~= shapes@.take(k as int));
                        assert(shapes@.take(k as int + 1).last() == shapes@[k as int]);
                    }
                    let wb = shapes[k].translate(cell_origin(&p));
                    let c = collide(cbox, delta, &wb);
                    if c.1.0.is_some() || c.1.1.is_some() || c.1.2.is_some() {
                        assert(c.0.den <= DELTA_LIMIT);
                        r.push(Candidate { time: c.0, normals: c.1, block_pos: p });
                    }
                    proof {
                        assert(r@ =~= base + shape_candidates_spec(
                            *cbox,
                            delta,
                            p,
                            shapes@.take(k as int + 1),
                        ));
                    }
                    k = k + 1;
                }
                proof {
                    assert(shapes@.take(m as int) =~= shapes@);
                    assert(r@ =~= cells_candidates_spec(
                        *cbox,
                        delta,
                        *world,
                        cells@.take(i as int + 1),
                    ));
                }
            },
        }
        i = i + 1;
    }
    proof {
        assert(cells@.take(n as int) =~= cells@);
    }
    r
}

/// The index of the earliest candidate; on exact ties the earliest in
/// enumeration order wins, so the tie-break is the lexicographically
/// first cell (and, within one cell, the first sub-shape).
pub open spec fn first_min_index_spec(c: Seq<Candidate>) -> int
    decreases c.len(),
{
    if c.len() <= 1 {
        0
    } else {
        let r = first_min_index_spec(c.drop_last());
        if c.last().time.lt_spec(c[r].time) {
            c.len() - 1
        } else {
            r
        }
    }
}

pub proof fn lemma_first_min_index_in_range(c: Seq<Candidate>)
    requires
        c.len() > 0,
    ensures
        0 <= first_min_index_spec(c) < c.len(),
    decreases c.len(),
{
    if c.len() > 1 {
        lemma_first_min_index_in_range(c.drop_last());
    }
}

/// Pick the earliest candidate of a pass.
pub fn pick_min(c: &Vec<Candidate>) -> (best: usize)
    requires
        c@.len() > 0,
        forall|k: int| 0 <= k < c@.len() ==> candidate_ok(#[trigger] c@[k]),
    ensures
        best < c@.len(),
        best == first_min_index_spec(c@),
{
    let n = c.len();
    let mut best: usize = 0;
    proof {
        assert(c@.take(1).len() == 1);
        assert(first_min_index_spec(c@.take(1)) == 0);
    }
    let mut i: usize = 1;
    while i < n
        invariant
            1 <= i <= n,
            n == c@.len(),
            best < i,
            best == first_min_index_spec(c@.take(i as int)),
            forall|k: int| 0 <= k < c@.len() ==> candidate_ok(#[trigger] c@[k]),
        decreases n - i,
    {
        proof {
            assert(c@.take(i as int + 1).drop_last() =~= c@.take(i as int));
            assert(c@.take(i as int + 1).last() == c@[i as int]);
            lemma_first_min_index_in_range(c@.take(i as int));
            assert(c@.take(i as int + 1)[best as int] == c@[best as int]);
        }
        if c[i].time.lt(&c[best].time) {
            best = i;
        }
        i = i + 1;
    }
    proof {
        assert(c@.take(n as int) =~= c@);
    }
    best
}

/// Exact equality of two step fractions, by cross multiplication.
pub open spec fn time_eq_spec(a: EntryTime, b: EntryTime) -> bool {
    a.num * b.den == b.num * a.den
}

/// Keep the sign an earlier tying candidate reported for the axis; take
/// the new one only where no earlier candidate reported any.
pub open spec fn merge_normal(a: Option<i8>, b: Option<i8>) -> Option<i8> {
    if a is Some {
        a
    } else {
        b
    }
}

/// The per-axis face signs of every candidate whose entry time exactly
/// equals `t`, merged in enumeration order: when several candidates tie
/// on the minimum entry time, the resolution must act on all their axes
/// at once, not just on the axes of the one candidate picked for event
/// attribution. All tying candidates agree on the sign of a shared axis
/// (the sign only depends on the direction of travel), so merging is
/// order-independent in value.
pub open spec fn merged_normals_spec(cands: Seq<Candidate>, t: EntryTime) -> (
    Option<i8>,
    Option<i8>,
    Option<i8>,
)
    decreases cands.len(),
{
    if cands.len() == 0 {
        (None, None, None)
    } else {
        let prev = merged_normals_spec(cands.drop_last(), t);
        let c = cands.last();
        if time_eq_spec(c.time, t) {
            (
                merge_normal(prev.0, c.normals.0),
                merge_normal(prev.1, c.normals.1),
                merge_normal(prev.2, c.normals.2),
            )
        } else {
            prev
        }
    }
}

/// Merge the face signs of every candidate tying exactly on time `t`.
pub fn merged_normals(cands: &Vec<Candidate>, t: &EntryTime) -> (r: (
    Option<i8>,
    Option<i8>,
    Option<i8>,
))
    requires
        t.wf(),
        forall|k: int| 0 <= k < cands@.len() ==> candidate_ok(#[trigger] cands@[k]),
    ensures
        r == merged_normals_spec(cands@, *t),
{
    let n = cands.len();
    let mut r: (Option<i8>, Option<i8>, Option<i8>) = (None, None, None);
    proof {
        assert(cands@.take(0) =~= Seq::<Candidate>::empty());
    }
    let mut i: usize = 0;
    while i < n
        invariant
            0 <= i <= n,
            n == cands@.len(),
            t.wf(),
            forall|k: int| 0 <= k < cands@.len() ==> candidate_ok(#[trigger] cands@[k]),
            r == merged_normals_spec(cands@.take(i as int), *t),
        decreases n - i,
    {
        proof {
            assert(cands@.take(i as int + 1).drop_last() =~= cands@.take(i as int));
            assert(cands@.take(i as int + 1).last() == cands@[i as int]);
        }
        let c = cands[i];
        if frac_eq(c.time.num, c.time.den, t.num, t.den) {
            r = (
                if r.0.is_some() {
                    r.0
                } else {
                    c.normals.0
                },
                if r.1.is_some() {
                    r.1
                } else {
                    c.normals.1
                },
                if r.2.is_some() {
                    r.2
                } else {
                    c.normals.2
                },
            );
        }
        i = i + 1;
    }
    proof {
        assert(cands@.take(n as int) =~= cands@);
    }
    r
}

/// How far the position moves on one axis when the step displacement
/// `d` is cut off at the entry time: `d * num / den`, rounded toward
/// zero. On a colliding axis this is exact (the entry fraction has the
/// axis gap as numerator), leaving the box exactly flush with what it
/// hit.
pub open spec fn advance_spec(d: int, t: EntryTime) -> int {
    tdiv(d * t.num, t.den as int)
}

pub fn advance_component(d: i64, t: &EntryTime) -> (r: i64)
    requires
        -DELTA_LIMIT <= d <= DELTA_LIMIT,
        t.den > 0,
        0 <= t.num <= t.den,
        t.den <= DELTA_LIMIT,
    ensures
        r == advance_spec(d as int, *t),
        -DELTA_LIMIT <= r <= DELTA_LIMIT,
{
    proof {
        assert(-((t.den as int) * (DELTA_LIMIT as int)) <= d * t.num <= (t.den as int) * (
        DELTA_LIMIT as int)) by (nonlinear_arith)
            requires
                -DELTA_LIMIT <= d <= DELTA_LIMIT,
                0 <= t.num <= t.den,
        ;
        lemma_tdiv_in_range(d * t.num, t.den as int, DELTA_LIMIT as int);
    }
    mul_div_trunc(d, t.num, t.den)
}

/// On an axis that attains the entry time, the cut-off advance is
/// exact: the entry fraction has that axis's own gap as numerator, so
/// `d * num / den` divides without remainder and the moving box lands
/// exactly flush with what it hit — no epsilon back-off is needed to
/// avoid re-penetration, because nothing was rounded.
pub proof fn lemma_flush_advance(d: int, g: int, t: EntryTime)
    requires
        t.den > 0,
        g >= 0,
        (if d >= 0 {
            d
        } else {
            -d
        }) * t.num == g * t.den,
    ensures
        advance_spec(d, t) == (if d >= 0 {
            g
        } else {
            -g
        }),
{
    let den = t.den as int;
    if d >= 0 {
        assert(d * t.num == g * den);
        assert(g * den == den * g) by (nonlinear_arith);
        vstd::arithmetic::div_mod::lemma_div_multiples_vanish(g, den);
        assert(tdiv(g * den, den) == g);
    } else {
        assert((-d) * t.num == g * den);
        assert(d * t.num == -(g * den)) by (nonlinear_arith)
            requires
                (-d) * t.num == g * den,
        ;
        assert(g * den == den * g) by (nonlinear_arith);
        vstd::arithmetic::div_mod::lemma_div_multiples_vanish(g, den);
        if g == 0 {
            assert(tdiv(0, den) == 0) by {
                vstd::arithmetic::div_mod::lemma_div_multiples_vanish(0, den);
            };
        } else {
            assert(g * den > 0) by (nonlinear_arith)
                requires
                    g > 0,
                    den > 0,
            ;
            assert(tdiv(-(g * den), den) == -g);
        }
    }
}

/// Face of the block struck, from the axis (0, 1, 2) and the reported
/// sign: the normal points against the direction of travel.
pub open spec fn face_of(axis_i: int, n: i8) -> Direction {
    if axis_i == 0 {
        if n == 1 {
            Direction::East
        } else {
            Direction::West
        }
    } else if axis_i == 1 {
        if n == 1 {
            Direction::Up
        } else {
            Direction::Down
        }
    } else {
        if n == 1 {
            Direction::South
        } else {
            Direction::North
        }
    }
}

/// Whether the stuck mask includes the given face.
pub open spec fn stuck_on_spec(stuck: Option<GetsStuckOnCollision>, dir: Direction) -> bool {
    match stuck {
        Some(s) => s.sides & (1u8 << crate::direction::direction_index(dir) as u8) != 0,
        None => false,
    }
}

pub fn stuck_on(stuck: &Option<GetsStuckOnCollision>, dir: Direction) -> (r: bool)
    ensures
        r == stuck_on_spec(*stuck, dir),
{
    match stuck {
        Some(s) => s.sides & (1u8 << dir.as_u8()) != 0,
        None => false,
    }
}

/// Gravity is zeroed, not removed, when an entity becomes stuck: its
/// absence stays distinguishable from a zero rate.
pub open spec fn zero_gravity_spec(g: Option<Gravity>) -> Option<Gravity> {
    match g {
        Some(_) => Some(Gravity { 0: 0i64 }),
        None => None,
    }
}

/// The block event recorded when an entity halts on a face of its stuck
/// mask.
pub open spec fn block_event_spec(
    entity: u64,
    pos: Vec3,
    old_velocity: Vec3,
    block_pos: ConfigVec3,
    dir: Direction,
) -> PhysicsEvent {
    PhysicsEvent::Block(
        EntityBlockCollisionEvent {
            entity,
            collision_pos: pos,
            previous_velocity: old_velocity,
            block_pos,
            direction: dir,
        },
    )
}

/// What the winning candidate of one pass does to the entity: axis by
/// axis (x, then y, then z), zero that velocity component and advance
/// the position to the moment of contact; if the face struck is in the
/// stuck mask, halt the whole entity, zero its gravity, record the block
/// event, mark the entity for physics removal (the flush phase clears
/// its active flag: a stuck entity leaves the integrator), and stop
/// resolving for this tick.
pub open spec fn apply_candidate_spec(
    entity: u64,
    old_velocity: Vec3,
    pos0: Vec3,
    vel0: Vec3,
    grav0: Option<Gravity>,
    stuck: Option<GetsStuckOnCollision>,
    delta: Vec3,
    w: Candidate,
) -> (Vec3, Vec3, Option<Gravity>, Seq<PhysicsEvent>, bool) {
    let t = w.time;
    let pos1 = if w.normals.0 is Some {
        Vec3 {
            x: clamp_spec(pos0.x + advance_spec(delta.x as int, t), POS_LIMIT as int) as i64,
            y: pos0.y,
            z: pos0.z,
        }
    } else {
        pos0
    };
    let vel1 = if w.normals.0 is Some {
        Vec3 { x: 0i64, y: vel0.y, z: vel0.z }
    } else {
        vel0
    };
    if w.normals.0 matches Some(n) && stuck_on_spec(stuck, face_of(0, n)) {
        let dir = face_of(0, w.normals.0->0);
        (
            pos1,
            Vec3 { x: 0i64, y: 0i64, z: 0i64 },
            zero_gravity_spec(grav0),
            seq![
                block_event_spec(entity, pos1, old_velocity, w.block_pos, dir),
                PhysicsEvent::MarkAsRemovePhysics(entity),
            ],
            true,
        )
    } else {
        let pos2 = if w.normals.1 is Some {
            Vec3 {
                x: pos1.x,
                y: clamp_spec(pos1.y + advance_spec(delta.y as int, t), POS_LIMIT as int) as i64,
                z: pos1.z,
            }
        } else {
            pos1
        };
        let vel2 = if w.normals.1 is Some {
            Vec3 { x: vel1.x, y: 0i64, z: vel1.z }
        } else {
            vel1
        };
        if w.normals.1 matches Some(n) && stuck_on_spec(stuck, face_of(1, n)) {
            let dir = face_of(1, w.normals.1->0);
            (
                pos2,
                Vec3 { x: 0i64, y: 0i64, z: 0i64 },
                zero_gravity_spec(grav0),
                seq![
                    block_event_spec(entity, pos2, old_velocity, w.block_pos, dir),
                    PhysicsEvent::MarkAsRemovePhysics(entity),
                ],
                true,
            )
        } else {
            let pos3 = if w.normals.2 is Some {
                Vec3 {
                    x: pos2.x,
                    y: pos2.y,
                    z: clamp_spec(pos2.z + advance_spec(delta.z as int, t), POS_LIMIT as int)
                        as i64,
                }
            } else {
                pos2
            };
            let vel3 = if w.normals.2 is Some {
                Vec3 { x: vel2.x, y: vel2.y, z: 0i64 }
            } else {
                vel2
            };
            if w.normals.2 matches Some(n) && stuck_on_spec(stuck, face_of(2, n)) {
                let dir = face_of(2, w.normals.2->0);
                (
                    pos3,
                    Vec3 { x: 0i64, y: 0i64, z: 0i64 },
                    zero_gravity_spec(grav0),
                    seq![
                        block_event_spec(entity, pos3, old_velocity, w.block_pos, dir),
                        PhysicsEvent::MarkAsRemovePhysics(entity),
                    ],
                    true,
                )
            } else {
                (pos3, vel3, grav0, Seq::empty(), false)
            }
        }
    }
}

pub fn apply_candidate(
    entity: u64,
    old_velocity: Vec3,
    pos0: Vec3,
    vel0: Vec3,
    grav0: Option<Gravity>,
    stuck: &Option<GetsStuckOnCollision>,
    delta: Vec3,
    w: &Candidate,
) -> (r: (Vec3, Vec3, Option<Gravity>, Vec<PhysicsEvent>, bool))
    requires
        candidate_ok(*w),
        delta.bounded_by(DELTA_LIMIT as int),
        pos0.bounded_by(POS_LIMIT as int),
        vel0.bounded_by(VEL_LIMIT as int),
        (grav0 matches Some(g) ==> 0 <= g.0 <= VEL_LIMIT),
    ensures
        (r.0, r.1, r.2, r.3@, r.4) == apply_candidate_spec(
            entity,
            old_velocity,
            pos0,
            vel0,
            grav0,
            *stuck,
            delta,
            *w,
        ),
        r.0.bounded_by(POS_LIMIT as int),
        r.1.bounded_by(VEL_LIMIT as int),
        (r.2 matches Some(g) ==> 0 <= g.0 <= VEL_LIMIT),
        r.2 is Some <==> grav0 is Some,
{
    let t = w.time;
    let mut pos = pos0;
    let mut vel = vel0;
    let zero = Vec3 { x: 0, y: 0, z: 0 };

    if let Some(nx) = w.normals.0 {
        pos = Vec3 {
            x: clamp_to(pos.x + advance_component(delta.x, &t), POS_LIMIT),
            y: pos.y,
            z: pos.z,
        };
        vel = Vec3 { x: 0, y: vel.y, z: vel.z };
        let dir = if nx == 1 {
            Direction::East
        } else {
            Direction::West
        };
        assert(dir == face_of(0, nx));
        if stuck_on(stuck, dir) {
            let mut events: Vec<PhysicsEvent> = Vec::new();
            events.push(
                PhysicsEvent::Block(
                    EntityBlockCollisionEvent {
                        entity,
                        collision_pos: pos,
                        previous_velocity: old_velocity,
                        block_pos: w.block_pos,
                        direction: dir,
                    },
                ),
            );
            events.push(PhysicsEvent::MarkAsRemovePhysics(entity));
            let g = zero_gravity(&grav0);
            return (pos, zero, g, events, true);
        }
    }
    if let Some(ny) = w.normals.1 {
        pos = Vec3 {
            x: pos.x,
            y: clamp_to(pos.y + advance_component(delta.y, &t), POS_LIMIT),
            z: pos.z,
        };
        vel = Vec3 { x: vel.x, y: 0, z: vel.z };
        let dir = if ny == 1 {
            Direction::Up
        } else {
            Direction::Down
        };
        assert(dir == face_of(1, ny));
        if stuck_on(stuck, dir) {
            let mut events: Vec<PhysicsEvent> = Vec::new();
            events.push(
                PhysicsEvent::Block(
                    EntityBlockCollisionEvent {
                        entity,
                        collision_pos: pos,
                        previous_velocity: old_velocity,
                        block_pos: w.block_pos,
                        direction: dir,
                    },
                ),
            );
            events.push(PhysicsEvent::MarkAsRemovePhysics(entity));
            let g = zero_gravity(&grav0);
            return (pos, zero, g, events, true);
        }
    }
    if let Some(nz) = w.normals.2 {
        pos = Vec3 {
            x: pos.x,
            y: pos.y,
            z: clamp_to(pos.z + advance_component(delta.z, &t), POS_LIMIT),
        };
        vel = Vec3 { x: vel.x, y: vel.y, z: 0 };
        let dir = if nz == 1 {
            Direction::South
        } else {
            Direction::North
        };
        assert(dir == face_of(2, nz));
        if stuck_on(stuck, dir) {
            let mut events: Vec<PhysicsEvent> = Vec::new();
            events.push(
                PhysicsEvent::Block(
                    EntityBlockCollisionEvent {
                        entity,
                        collision_pos: pos,
                        previous_velocity: old_velocity,
                        block_pos: w.block_pos,
                        direction: dir,
                    },
                ),
            );
            events.push(PhysicsEvent::MarkAsRemovePhysics(entity));
            let g = zero_gravity(&grav0);
            return (pos, zero, g, events, true);
        }
    }
    let events: Vec<PhysicsEvent> = Vec::new();
    (pos, vel, grav0, events, false)
}

fn zero_gravity(g: &Option<Gravity>) -> (r: Option<Gravity>)
    ensures
        r == zero_gravity_spec(*g),
{
    match g {
        Some(_) => Some(Gravity(0)),
        None => None,
    }
}

/// One resolution pass: rescan with the remaining displacement, and
/// either stop (no candidate left) or resolve the earliest collision.
/// The winning entry time is the minimum over all candidates; the axes
/// of every candidate tying exactly on it are merged into the one
/// resolution, while the block named in a stuck event is the first
/// tying candidate's (the deterministic tie-break). The last component
/// is true when the pass loop must stop, because no candidate remained
/// or because the entity got stuck.
pub open spec fn resolve_pass_spec(
    entity: u64,
    old_velocity: Vec3,
    cbox: Aabb,
    world: WorldSnapshot,
    stuck: Option<GetsStuckOnCollision>,
    dt: int,
    pos: Vec3,
    vel: Vec3,
    grav: Option<Gravity>,
) -> (Vec3, Vec3, Option<Gravity>, Seq<PhysicsEvent>, bool) {
    let delta = scale_spec(vel, dt);
    let cands = candidates_spec(cbox, delta, world);
    if cands.len() == 0 {
        (pos, vel, grav, Seq::empty(), true)
    } else {
        let w = cands[first_min_index_spec(cands)];
        let merged = Candidate {
            time: w.time,
            normals: merged_normals_spec(cands, w.time),
            block_pos: w.block_pos,
        };
        apply_candidate_spec(entity, old_velocity, pos, vel, grav, stuck, delta, merged)
    }
}

pub fn resolve_pass(
    entity: u64,
    old_velocity: Vec3,
    cbox: &Aabb,
    world: &WorldSnapshot,
    stuck: &Option<GetsStuckOnCollision>,
    dt: i64,
    pos: Vec3,
    vel: Vec3,
    grav: Option<Gravity>,
) -> (r: (Vec3, Vec3, Option<Gravity>, Vec<PhysicsEvent>, bool))
    requires
        cbox.wf(),
        cbox.bounded_by(WORLD_BOX_LIMIT as int),
        world.wf(),
        0 < dt <= DT_MAX,
        pos.bounded_by(POS_LIMIT as int),
        vel.bounded_by(VEL_LIMIT as int),
        (grav matches Some(g) ==> 0 <= g.0 <= VEL_LIMIT),
    ensures
        (r.0, r.1, r.2, r.3@, r.4) == resolve_pass_spec(
            entity,
            old_velocity,
            *cbox,
            *world,
            *stuck,
            dt as int,
            pos,
            vel,
            grav,
        ),
        r.0.bounded_by(POS_LIMIT as int),
        r.1.bounded_by(VEL_LIMIT as int),
        (r.2 matches Some(g) ==> 0 <= g.0 <= VEL_LIMIT),
        r.2 is Some <==> grav is Some,
{
    let delta = scale_velocity(vel, dt);
    let cands = collect_candidates(cbox, delta, world);
    if cands.len() == 0 {
        let events: Vec<PhysicsEvent> = Vec::new();
        (pos, vel, grav, events, true)
    } else {
        let best = pick_min(&cands);
        let w = cands[best];
        let merged = Candidate {
            time: w.time,
            normals: merged_normals(&cands, &w.time),
            block_pos: w.block_pos,
        };
        apply_candidate(entity, old_velocity, pos, vel, grav, stuck, delta, &merged)
    }
}

/// Up to three resolution passes, stopping early when a pass finds no
/// candidate or the entity gets stuck.
pub open spec fn resolve_passes_spec(
    entity: u64,
    old_velocity: Vec3,
    cbox: Aabb,
    world: WorldSnapshot,
    stuck: Option<GetsStuckOnCollision>,
    dt: int,
    pos: Vec3,
    vel: Vec3,
    grav: Option<Gravity>,
) -> (Vec3, Vec3, Option<Gravity>, Seq<PhysicsEvent>) {
    let r1 = resolve_pass_spec(entity, old_velocity, cbox, world, stuck, dt, pos, vel, grav);
    if r1.4 {
        (r1.0, r1.1, r1.2, r1.3)
    } else {
        let r2 = resolve_pass_spec(
            entity,
            old_velocity,
            cbox,
            world,
            stuck,
            dt,
            r1.0,
            r1.1,
            r1.2,
        );
        if r2.4 {
            (r2.0, r2.1, r2.2, r1.3 + r2.3)
        } else {
            let r3 = resolve_pass_spec(
                entity,
                old_velocity,
                cbox,
                world,
                stuck,
                dt,
                r2.0,
                r2.1,
                r2.2,
            );
            (r3.0, r3.1, r3.2, r1.3 + r2.3 + r3.3)
        }
    }
}

pub fn resolve_passes(
    entity: u64,
    old_velocity: Vec3,
    cbox: &Aabb,
    world: &WorldSnapshot,
    stuck: &Option<GetsStuckOnCollision>,
    dt: i64,
    pos: Vec3,
    vel: Vec3,
    grav: Option<Gravity>,
) -> (r: (Vec3, Vec3, Option<Gravity>, Vec<PhysicsEvent>))
    requires
        cbox.wf(),
        cbox.bounded_by(WORLD_BOX_LIMIT as int),
        world.wf(),
        0 < dt <= DT_MAX,
        pos.bounded_by(POS_LIMIT as int),
        vel.bounded_by(VEL_LIMIT as int),
        (grav matches Some(g) ==> 0 <= g.0 <= VEL_LIMIT),
    ensures
        (r.0, r.1, r.2, r.3@) == resolve_passes_spec(
            entity,
            old_velocity,
            *cbox,
            *world,
            *stuck,
            dt as int,
            pos,
            vel,
            grav,
        ),
        r.0.bounded_by(POS_LIMIT as int),
        r.1.bounded_by(VEL_LIMIT as int),
        (r.2 matches Some(g) ==> 0 <= g.0 <= VEL_LIMIT),
        r.2 is Some <==> grav is Some,
{
    let r1 = resolve_pass(entity, old_velocity, cbox, world, stuck, dt, pos, vel, grav);
    if r1.4 {
        (r1.0, r1.1, r1.2, r1.3)
    } else {
        let r2 = resolve_pass(entity, old_velocity, cbox, world, stuck, dt, r1.0, r1.1, r1.2);
        if r2.4 {
            let mut events = r1.3;
            let mut e2 = r2.3;
            events.append(&mut e2);
            (r2.0, r2.1, r2.2, events)
        } else {
            let r3 = resolve_pass(entity, old_velocity, cbox, world, stuck, dt, r2.0, r2.1, r2.2);
            let mut events = r1.3;
            let mut e2 = r2.3;
            let mut e3 = r3.3;
            events.append(&mut e2);
            events.append(&mut e3);
            (r3.0, r3.1, r3.2, events)
        }
    }
}

/// The entity-vs-entity overlap events of one tick: the entity's swept
/// collision box against every other collidable entity's hitbox, one
/// event per pair that touches. Velocity and position are unaffected.
pub open spec fn entity_events_spec(id: u64, ebox: Aabb, vd: Vec3, others: Seq<(u64, Aabb)>) -> Seq<
    PhysicsEvent,
>
    decreases others.len(),
{
    if others.len() == 0 {
        Seq::empty()
    } else {
        entity_events_spec(id, ebox, vd, others.drop_last()) + {
            let o = others.last();
            if o.0 == id {
                Seq::empty()
            } else if sweep_hits(ebox, vd, o.1) {
                seq![
                    PhysicsEvent::EntityEntity(
                        EntityEntityCollisionEvent { entity1: id, entity2: o.0 },
                    ),
                ]
            } else {
                Seq::empty()
            }
        }
    }
}

pub fn entity_events(id: u64, ebox: &Aabb, vd: Vec3, others: &Vec<(u64, Aabb)>) -> (r: Vec<
    PhysicsEvent,
>)
    requires
        ebox.wf(),
        ebox.bounded_by(WORLD_BOX_LIMIT as int),
        vd.bounded_by(DELTA_LIMIT as int),
        forall|k: int|
            0 <= k < others@.len() ==> (#[trigger] others@[k].1).wf() && others@[k].1.bounded_by(
                WORLD_BOX_LIMIT as int,
            ),
    ensures
        r@ == entity_events_spec(id, *ebox, vd, others@),
{
    let n = others.len();
    let mut r: Vec<PhysicsEvent> = Vec::new();
    proof {
        assert(others@.take(0) =~= Seq::<(u64, Aabb)>::empty());
        assert(r@ =~= entity_events_spec(id, *ebox, vd, others@.take(0)));
    }
    let mut i: usize = 0;
    while i < n
        invariant
            0 <= i <= n,
            n == others@.len(),
            ebox.wf(),
            ebox.bounded_by(WORLD_BOX_LIMIT as int),
            vd.bounded_by(DELTA_LIMIT as int),
            forall|k: int|
                0 <= k < others@.len() ==> (#[trigger] others@[k].1).wf()
                    && others@[k].1.bounded_by(WORLD_BOX_LIMIT as int),
            r@ == entity_events_spec(id, *ebox, vd, others@.take(i as int)),
        decreases n - i,
    {
        proof {
            assert(others@.take(i as int + 1).drop_last() =~= others@.take(i as int));
            assert(others@.take(i as int + 1).last() == others@[i as int]);
        }
        let oid = others[i].0;
        if oid != id {
            let c = collide(ebox, vd, &others[i].1);
            if c.1.0.is_some() || c.1.1.is_some() || c.1.2.is_some() {
                r.push(
                    PhysicsEvent::EntityEntity(
                        EntityEntityCollisionEvent { entity1: id, entity2: oid },
                    ),
                );
            }
        }
        proof {
            assert(r@ =~= entity_events_spec(id, *ebox, vd, others@.take(i as int + 1)));
        }
        i = i + 1;
    }
    proof {
        assert(others@.take(n as int) =~= others@);
    }
    r
}

/// Free-motion integration of whatever velocity survived resolution,
/// saturated at the world bounds.
pub open spec fn integrate_pos_spec(p: Vec3, d: Vec3) -> Vec3 {
    Vec3 {
        x: clamp_spec(p.x + d.x, POS_LIMIT as int) as i64,
        y: clamp_spec(p.y + d.y, POS_LIMIT as int) as i64,
        z: clamp_spec(p.z + d.z, POS_LIMIT as int) as i64,
    }
}

pub fn integrate_pos(p: Vec3, d: Vec3) -> (r: Vec3)
    requires
        p.bounded_by(POS_LIMIT as int),
        d.bounded_by(DELTA_LIMIT as int),
    ensures
        r == integrate_pos_spec(p, d),
        r.bounded_by(POS_LIMIT as int),
{
    Vec3 {
        x: clamp_to(p.x + d.x, POS_LIMIT),
        y: clamp_to(p.y + d.y, POS_LIMIT),
        z: clamp_to(p.z + d.z, POS_LIMIT),
    }
}

/// Counting down a physics time budget by one step, stopping at zero.
pub open spec fn tick_timer_spec(t: SimPhysicsForTime, dt: int) -> SimPhysicsForTime {
    SimPhysicsForTime {
        remaining_millis: (if t.remaining_millis > dt {
            t.remaining_millis - dt
        } else {
            0
        }) as i64,
    }
}

/// The well-formedness the integrator requires of the collidable-entity
/// list: world-space hitboxes, ordered and bounded.
pub open spec fn others_ok(others: Seq<(u64, Aabb)>) -> bool {
    forall|k: int|
        0 <= k < others.len() ==> (#[trigger] others[k].1).wf() && others[k].1.bounded_by(
            WORLD_BOX_LIMIT as int,
        )
}

/// The entity-vs-entity check and the final free-motion integration,
/// shared by entities with and without a block collider: re-anchor the
/// entity-collision box (when configured) to the current position, emit
/// one event per other collidable entity the swept box touches, then
/// advance the position by the remaining velocity.
pub open spec fn finish_entity_spec(
    b: PhysicsBody,
    others: Seq<(u64, Aabb)>,
    dt: int,
    evs: Seq<PhysicsEvent>,
) -> (PhysicsBody, Seq<PhysicsEvent>) {
    let (b2, evs2) = match b.entity_collider {
        Some(c) => {
            let anchored = match c.0 {
                Some(ob) => Some(ob.translate_to_spec(b.position)),
                None => None,
            };
            let ebox = match anchored {
                Some(x) => x,
                None => b.shape.translate_spec(b.position),
            };
            let vd = scale_spec(b.velocity, dt);
            (
                PhysicsBody { entity_collider: Some(CollidesWithEntities(anchored)), ..b },
                evs + entity_events_spec(b.entity, ebox, vd, others),
            )
        },
        None => (b, evs),
    };
    let d = scale_spec(b2.velocity, dt);
    (PhysicsBody { position: integrate_pos_spec(b2.position, d), ..b2 }, evs2)
}

/// Drag, gravity, terminal velocity, block-collision resolution, the
/// entity-vs-entity check, and free-motion integration, in that order,
/// for an entity whose time budget (if any) has not expired.
pub open spec fn step_forces_spec(
    b: PhysicsBody,
    world: WorldSnapshot,
    others: Seq<(u64, Aabb)>,
    dt: int,
) -> (PhysicsBody, Seq<PhysicsEvent>) {
    let v1 = match b.drag {
        Some(d) => apply_drag_spec(b.velocity, d.0 as int, dt),
        None => b.velocity,
    };
    let v2 = match b.gravity {
        Some(g) => apply_gravity_spec(v1, g.0 as int, dt),
        None => v1,
    };
    let v3 = match b.terminal_velocity {
        Some(t) => clamp_terminal_spec(v2, t.0 as int),
        None => v2,
    };
    match b.block_collider {
        Some(c) => {
            let anchored = match c.0 {
                Some(ob) => Some(ob.translate_to_spec(b.position)),
                None => None,
            };
            let cbox = match anchored {
                Some(x) => x,
                None => b.shape.translate_spec(b.position),
            };
            let rp = resolve_passes_spec(
                b.entity,
                v3,
                cbox,
                world,
                b.stuck_sides,
                dt,
                b.position,
                v3,
                b.gravity,
            );
            let b4 = PhysicsBody {
                position: rp.0,
                velocity: rp.1,
                gravity: rp.2,
                block_collider: Some(CollidesWithBlocks(anchored)),
                ..b
            };
            finish_entity_spec(b4, others, dt, rp.3)
        },
        None => finish_entity_spec(PhysicsBody { velocity: v3, ..b }, others, dt, Seq::empty()),
    }
}

/// Everything one tick does to one entity. An inactive entity is left
/// alone; an expiring time budget marks the entity for physics removal
/// and skips the rest of its tick; otherwise forces, collision
/// resolution, entity events and integration run in order. The result
/// is a function of the entity state, the world snapshot, the
/// collidable list and the step duration alone.
pub open spec fn step_entity_spec(
    b: PhysicsBody,
    world: WorldSnapshot,
    others: Seq<(u64, Aabb)>,
    dt: int,
) -> (PhysicsBody, Seq<PhysicsEvent>) {
    if !b.physics_active {
        (b, Seq::empty())
    } else {
        match b.sim_physics_for_time {
            Some(t) => {
                let t2 = tick_timer_spec(t, dt);
                let b2 = PhysicsBody { sim_physics_for_time: Some(t2), ..b };
                if t2.remaining_millis <= 0 {
                    (b2, seq![PhysicsEvent::MarkAsRemovePhysics(b.entity)])
                } else {
                    step_forces_spec(b2, world, others, dt)
                }
            },
            None => step_forces_spec(b, world, others, dt),
        }
    }
}

/// One tick of one entity. See `step_entity_spec` for the full story.
pub fn step_entity(b: &PhysicsBody, world: &WorldSnapshot, others: &Vec<(u64, Aabb)>, dt: i64) -> (r:
    (PhysicsBody, Vec<PhysicsEvent>))
    requires
        b.wf(),
        world.wf(),
        others_ok(others@),
        0 < dt <= DT_MAX,
    ensures
        (r.0, r.1@) == step_entity_spec(*b, *world, others@, dt as int),
        r.0.wf(),
        r.0.entity == b.entity,
        r.0.physics_active == b.physics_active,
{
    if !b.physics_active {
        let events: Vec<PhysicsEvent> = Vec::new();
        return (*b, events);
    }
    let mut b2 = *b;
    if let Some(t) = b.sim_physics_for_time {
        let rem: i64 = if t.remaining_millis > dt {
            t.remaining_millis - dt
        } else {
            0
        };
        b2.sim_physics_for_time = Some(SimPhysicsForTime { remaining_millis: rem });
        if rem <= 0 {
            let mut events: Vec<PhysicsEvent> = Vec::new();
            events.push(PhysicsEvent::MarkAsRemovePhysics(b.entity));
            return (b2, events);
        }
    }
    step_forces(b2, world, others, dt)
}

fn step_forces(b: PhysicsBody, world: &WorldSnapshot, others: &Vec<(u64, Aabb)>, dt: i64) -> (r: (
    PhysicsBody,
    Vec<PhysicsEvent>,
))
    requires
        b.wf(),
        world.wf(),
        others_ok(others@),
        0 < dt <= DT_MAX,
    ensures
        (r.0, r.1@) == step_forces_spec(b, *world, others@, dt as int),
        r.0.wf(),
        r.0.entity == b.entity,
        r.0.physics_active == b.physics_active,
{
    let v1 = match b.drag {
        Some(d) => apply_drag(b.velocity, d.0, dt),
        None => b.velocity,
    };
    let v2 = match b.gravity {
        Some(g) => apply_gravity(v1, g.0, dt),
        None => v1,
    };
    let v3 = match b.terminal_velocity {
        Some(t) => clamp_terminal(v2, t.0),
        None => v2,
    };
    match b.block_collider {
        Some(c) => {
            let anchored = match c.0 {
                Some(ob) => Some(ob.translate_to(b.position)),
                None => None,
            };
            let cbox = match anchored {
                Some(x) => x,
                None => b.shape.translate(b.position),
            };
            let rp = resolve_passes(
                b.entity,
                v3,
                &cbox,
                world,
                &b.stuck_sides,
                dt,
                b.position,
                v3,
                b.gravity,
            );
            let mut b4 = b;
            b4.position = rp.0;
            b4.velocity = rp.1;
            b4.gravity = rp.2;
            b4.block_collider = Some(CollidesWithBlocks(anchored));
            finish_entity(b4, others, dt, rp.3)
        },
        None => {
            let mut b3 = b;
            b3.velocity = v3;
            let events: Vec<PhysicsEvent> = Vec::new();
            finish_entity(b3, others, dt, events)
        },
    }
}

fn finish_entity(b: PhysicsBody, others: &Vec<(u64, Aabb)>, dt: i64, evs: Vec<PhysicsEvent>) -> (r:
    (PhysicsBody, Vec<PhysicsEvent>))
    requires
        b.wf(),
        others_ok(others@),
        0 < dt <= DT_MAX,
    ensures
        (r.0, r.1@) == finish_entity_spec(b, others@, dt as int, evs@),
        r.0.wf(),
        r.0.entity == b.entity,
        r.0.physics_active == b.physics_active,
{
    let (b2, evs2) = match b.entity_collider {
        Some(c) => {
            let anchored = match c.0 {
                Some(ob) => Some(ob.translate_to(b.position)),
                None => None,
            };
            let ebox = match anchored {
                Some(x) => x,
                None => b.shape.translate(b.position),
            };
            let vd = scale_velocity(b.velocity, dt);
            let ev = entity_events(b.entity, &ebox, vd, others);
            let mut nb = b;
            nb.entity_collider = Some(CollidesWithEntities(anchored));
            let mut all = evs;
            let mut ev2 = ev;
            all.append(&mut ev2);
            (nb, all)
        },
        None => (b, evs),
    };
    let d = scale_velocity(b2.velocity, dt);
    let mut b3 = b2;
    b3.position = integrate_pos(b2.position, d);
    (b3, evs2)
}

/// The compute phase over every entity, in order: each entity stepped
/// independently against the same read-only world snapshot and
/// collidable list, events buffered in entity order.
pub open spec fn step_all_spec(
    bodies: Seq<PhysicsBody>,
    world: WorldSnapshot,
    others: Seq<(u64, Aabb)>,
    dt: int,
) -> (Seq<PhysicsBody>, Seq<PhysicsEvent>)
    decreases bodies.len(),
{
    if bodies.len() == 0 {
        (Seq::empty(), Seq::empty())
    } else {
        let prev = step_all_spec(bodies.drop_last(), world, others, dt);
        let s = step_entity_spec(bodies.last(), world, others, dt);
        (prev.0.push(s.0), prev.1 + s.1)
    }
}

/// Whether the buffered events ask for entity `id` to lose physics.
pub open spec fn has_remove_spec(events: Seq<PhysicsEvent>, id: u64) -> bool
    decreases events.len(),
{
    if events.len() == 0 {
        false
    } else {
        has_remove_spec(events.drop_last(), id) || events.last()
            == PhysicsEvent::MarkAsRemovePhysics(id)
    }
}

/// The flush phase: clear the physics-active flag of every entity the
/// buffered events marked for removal.
pub open spec fn clear_removed_spec(bodies: Seq<PhysicsBody>, events: Seq<PhysicsEvent>) -> Seq<
    PhysicsBody,
> {
    Seq::new(
        bodies.len(),
        |i: int|
            if has_remove_spec(events, bodies[i].entity) {
                PhysicsBody { physics_active: false, ..bodies[i] }
            } else {
                bodies[i]
            },
    )
}

/// One whole tick: the compute phase over every entity, then the flush
/// phase that applies the buffered removals. The returned events are
/// exactly the buffer, in entity order.
pub open spec fn handle_collision_spec(
    bodies: Seq<PhysicsBody>,
    world: WorldSnapshot,
    others: Seq<(u64, Aabb)>,
    dt: int,
) -> (Seq<PhysicsBody>, Seq<PhysicsEvent>) {
    let stepped = step_all_spec(bodies, world, others, dt);
    (clear_removed_spec(stepped.0, stepped.1), stepped.1)
}

/// Distinct entity identifiers, as an entity registry guarantees.
pub open spec fn distinct_entities(bodies: Seq<PhysicsBody>) -> bool {
    forall|i: int, j: int|
        0 <= i < bodies.len() && 0 <= j < bodies.len() && i != j ==> (#[trigger] bodies[i]).entity
            != (#[trigger] bodies[j]).entity
}

/// Clear the physics-active flag of the entity with the given id, if it
/// is present.
fn clear_entity(bodies: &mut Vec<PhysicsBody>, id: u64)
    requires
        distinct_entities(old(bodies)@),
    ensures
        final(bodies)@.len() == old(bodies)@.len(),
        forall|i: int|
            0 <= i < old(bodies)@.len() ==> #[trigger] final(bodies)@[i] == (if old(
                bodies,
            )@[i].entity == id {
                PhysicsBody { physics_active: false, ..old(bodies)@[i] }
            } else {
                old(bodies)@[i]
            }),
{
    let n = bodies.len();
    let mut j: usize = 0;
    while j < n
        invariant
            0 <= j <= n,
            n == bodies@.len(),
            bodies@ == old(bodies)@,
            distinct_entities(old(bodies)@),
            forall|q: int| 0 <= q < j ==> (#[trigger] bodies@[q]).entity != id,
        decreases n - j,
    {
        if bodies[j].entity == id {
            proof {
                let s = old(bodies)@;
                assert(distinct_entities(s));
                assert(s[j as int].entity == id);
                assert forall|i: int|
                    0 <= i < s.len() && i != j as int implies (#[trigger] s[i]).entity != id by {
                    let jj = j as int;
                    assert(0 <= i < s.len() && 0 <= jj < s.len() && i != jj);
                    assert(s[i].entity != s[jj].entity);
                }
            }
            let mut nb = bodies[j];
            nb.physics_active = false;
            bodies.set(j, nb);
            assert(bodies@[j as int] == (PhysicsBody {
                physics_active: false,
                ..old(bodies)@[j as int]
            }));
            return ;
        }
        j = j + 1;
    }
}

/// One full physics tick over every entity.
///
/// The compute phase steps each entity independently (each sees only its
/// own state, the world snapshot, the collidable list and the step
/// duration) and buffers the side effects; the flush phase then applies
/// the buffered physics removals and hands the event buffer out for
/// gameplay systems to consume. Running this twice from the same state
/// gives identical bodies and events: the result equals
/// `handle_collision_spec` of the inputs alone.
pub fn handle_collision(
    bodies: &mut Vec<PhysicsBody>,
    hittable_entities: &Vec<(u64, Aabb)>,
    world: &WorldSnapshot,
    dt: i64,
) -> (events: Vec<PhysicsEvent>)
    requires
        forall|k: int| 0 <= k < old(bodies)@.len() ==> (#[trigger] old(bodies)@[k]).wf(),
        distinct_entities(old(bodies)@),
        world.wf(),
        others_ok(hittable_entities@),
        0 < dt <= DT_MAX,
    ensures
        (final(bodies)@, events@) == handle_collision_spec(
            old(bodies)@,
            *world,
            hittable_entities@,
            dt as int,
        ),
        forall|k: int| 0 <= k < final(bodies)@.len() ==> (#[trigger] final(bodies)@[k]).wf(),
{
    let n = bodies.len();
    let mut events: Vec<PhysicsEvent> = Vec::new();
    proof {
        assert(old(bodies)@.take(0) =~= Seq::<PhysicsBody>::empty());
        assert(bodies@.take(0) =~= step_all_spec(
            old(bodies)@.take(0),
            *world,
            hittable_entities@,
            dt as int,
        ).0);
        assert(events@ =~= step_all_spec(
            old(bodies)@.take(0),
            *world,
            hittable_entities@,
            dt as int,
        ).1);
    }
    let mut i: usize = 0;
    while i < n
        invariant
            0 <= i <= n,
            n == bodies@.len(),
            n == old(bodies)@.len(),
            world.wf(),
            others_ok(hittable_entities@),
            0 < dt <= DT_MAX,
            forall|k: int| 0 <= k < n ==> (#[trigger] old(bodies)@[k]).wf(),
            forall|k: int| i <= k < n ==> #[trigger] bodies@[k] == old(bodies)@[k],
            bodies@.take(i as int) == step_all_spec(
                old(bodies)@.take(i as int),
                *world,
                hittable_entities@,
                dt as int,
            ).0,
            events@ == step_all_spec(
                old(bodies)@.take(i as int),
                *world,
                hittable_entities@,
                dt as int,
            ).1,
            forall|k: int| 0 <= k < i ==> (#[trigger] bodies@[k]).wf(),
            forall|k: int|
                0 <= k < i ==> (#[trigger] bodies@[k]).entity == old(bodies)@[k].entity
                    && bodies@[k].physics_active == old(bodies)@[k].physics_active,
        decreases n - i,
    {
        proof {
            assert(old(bodies)@.take(i as int + 1).drop_last() =~= old(bodies)@.take(i as int));
            assert(old(bodies)@.take(i as int + 1).last() == old(bodies)@[i as int]);
        }
        let body = bodies[i];
        assert(body == old(bodies)@[i as int]);
        let (nb, evs) = step_entity(&body, world, hittable_entities, dt);
        bodies.set(i, nb);
        let mut evs2 = evs;
        events.append(&mut evs2);
        proof {
            assert(bodies@.take(i as int + 1) =~= step_all_spec(
                old(bodies)@.take(i as int + 1),
                *world,
                hittable_entities@,
                dt as int,
            ).0);
        }
        i = i + 1;
    }
    proof {
        assert(old(bodies)@.take(n as int) =~= old(bodies)@);
        assert(bodies@.take(n as int) =~= bodies@);
    }
    let ghost stepped = bodies@;
    let ghost all_events = events@;
    assert(stepped == step_all_spec(old(bodies)@, *world, hittable_entities@, dt as int).0);
    assert(all_events == step_all_spec(old(bodies)@, *world, hittable_entities@, dt as int).1);
    assert(distinct_entities(stepped));

    let m = events.len();
    proof {
        assert(all_events.take(0) =~= Seq::<PhysicsEvent>::empty());
        assert(bodies@ =~= clear_removed_spec(stepped, all_events.take(0)));
    }
    let mut k: usize = 0;
    while k < m
        invariant
            0 <= k <= m,
            m == all_events.len(),
            all_events == events@,
            n == bodies@.len(),
            n == stepped.len(),
            distinct_entities(stepped),
            forall|q: int| 0 <= q < n ==> (#[trigger] stepped[q]).wf(),
            bodies@ == clear_removed_spec(stepped, all_events.take(k as int)),
        decreases m - k,
    {
        proof {
            assert(all_events.take(k as int + 1).drop_last() =~= all_events.take(k as int));
            assert(all_events.take(k as int + 1).last() == all_events[k as int]);
            assert(distinct_entities(bodies@)) by {
                assert forall|i1: int, j1: int|
                    0 <= i1 < bodies@.len() && 0 <= j1 < bodies@.len() && i1 != j1 implies (
                #[trigger] bodies@[i1]).entity != (#[trigger] bodies@[j1]).entity by {
                    assert(bodies@[i1].entity == stepped[i1].entity);
                    assert(bodies@[j1].entity == stepped[j1].entity);
                }
            };
        }
        let ev = events[k];
        match ev {
            PhysicsEvent::MarkAsRemovePhysics(id) => {
                clear_entity(bodies, id);
                proof {
                    assert(bodies@ =~= clear_removed_spec(stepped, all_events.take(k as int + 1)));
                }
            },
            _ => {
                proof {
                    assert(bodies@ =~= clear_removed_spec(stepped, all_events.take(k as int + 1)));
                }
            },
        }
        k = k + 1;
    }
    proof {
        assert(all_events.take(m as int) =~= all_events);
        assert forall|q: int| 0 <= q < bodies@.len() implies (#[trigger] bodies@[q]).wf() by {
            assert(bodies@[q] == clear_removed_spec(stepped, all_events)[q]);
            assert(stepped[q].wf());
        }
    }
    events
}

/// The world-space cube of a block cell.
pub open spec fn cell_box_spec(p: ConfigVec3) -> Aabb {
    Aabb {
        min: cell_origin_spec(p),
        max: Vec3 {
            x: ((p.x + 1) * UNIT) as i64,
            y: ((p.y + 1) * UNIT) as i64,
            z: ((p.z + 1) * UNIT) as i64,
        },
    }
}

proof fn lemma_min_bound(x: int, lo: int, d: int, tn: int, td: int)
    by (nonlinear_arith)
    requires
        td > 0,
        0 <= tn <= td,
        x * td >= lo * td + d * tn,
    ensures
        d >= 0 ==> x >= lo,
        d < 0 ==> x >= lo + d,
{
}

proof fn lemma_max_bound(x: int, hi: int, d: int, tn: int, td: int)
    by (nonlinear_arith)
    requires
        td > 0,
        0 <= tn <= td,
        x * td <= hi * td + d * tn,
    ensures
        d >= 0 ==> x <= hi + d,
        d < 0 ==> x <= hi,
{
}

/// The scan hull of a pass misses no cell the swept box can touch: if
/// the collision box, displaced by any fraction of the step, reaches
/// into a cell's cube, that cell is enumerated. This is what makes the
/// broad phase immune to tunneling: not even a displacement much larger
/// than a block can skip over a cell on the way.
pub proof fn lemma_scan_covers_swept_cells(
    cbox: Aabb,
    delta: Vec3,
    p: ConfigVec3,
    tn: int,
    td: int,
)
    requires
        cbox.wf(),
        cbox.bounded_by(WORLD_BOX_LIMIT as int),
        delta.bounded_by(DELTA_LIMIT as int),
        td > 0,
        0 <= tn <= td,
        contact_at(cbox, delta, cell_box_spec(p), tn, td),
    ensures
        block_cover_spec(scan_box_spec(cbox, delta)).contains(p),
{
    let cell = cell_box_spec(p);
    let sb = scan_box_spec(cbox, delta);
    let u = UNIT as int;

    assert(contact_on_axis(cbox, delta, cell, tn, td, 0));
    assert(contact_on_axis(cbox, delta, cell, tn, td, 1));
    assert(contact_on_axis(cbox, delta, cell, tn, td, 2));

    lemma_min_bound(axis(cell.max, 0), axis(cbox.min, 0), axis(delta, 0), tn, td);
    lemma_min_bound(axis(cell.max, 1), axis(cbox.min, 1), axis(delta, 1), tn, td);
    lemma_min_bound(axis(cell.max, 2), axis(cbox.min, 2), axis(delta, 2), tn, td);
    lemma_max_bound(axis(cell.min, 0), axis(cbox.max, 0), axis(delta, 0), tn, td);
    lemma_max_bound(axis(cell.min, 1), axis(cbox.max, 1), axis(delta, 1), tn, td);
    lemma_max_bound(axis(cell.min, 2), axis(cbox.max, 2), axis(delta, 2), tn, td);

    // Per axis: (p+1) * U >= scan.min + U and p * U <= scan.max - U.
    assert((p.x + 1) * u >= sb.min.x + u && p.x * u <= sb.max.x - u);
    assert((p.y + 1) * u >= sb.min.y + u && p.y * u <= sb.max.y - u);
    assert((p.z + 1) * u >= sb.min.z + u && p.z * u <= sb.max.z - u);

    let x0 = sb.min.x as int / u;
    let x1 = (sb.max.x + u - 1) as int / u;
    let y0 = sb.min.y as int / u;
    let y1 = (sb.max.y + u - 1) as int / u;
    let z0 = sb.min.z as int / u;
    let z1 = (sb.max.z + u - 1) as int / u;
    proof_block_index_between(sb.min.x as int, sb.max.x as int, p.x as int);
    proof_block_index_between(sb.min.y as int, sb.max.y as int, p.y as int);
    proof_block_index_between(sb.min.z as int, sb.max.z as int, p.z as int);
    lemma_cover_box_contains(x0, x1, y0, y1, z0, z1, p);
}

/// From `p * U >= smin` and `(p + 1) * U <= smax` conclude that `p` lies
/// in the floor/ceiling index range of `[smin, smax]`.
proof fn proof_block_index_between(smin: int, smax: int, p: int)
    requires
        p * (UNIT as int) >= smin,
        (p + 1) * (UNIT as int) <= smax,
    ensures
        smin / (UNIT as int) <= p,
        p < (smax + UNIT - 1) as int / (UNIT as int),
        (UNIT as int) * (smin / (UNIT as int)) <= smin,
        smin < (UNIT as int) * (smin / (UNIT as int)) + (UNIT as int),
        smax <= (UNIT as int) * ((smax + UNIT - 1) as int / (UNIT as int)),
        (UNIT as int) * ((smax + UNIT - 1) as int / (UNIT as int)) < smax + (UNIT as int),
{
    let u = UNIT as int;
    vstd::arithmetic::div_mod::lemma_fundamental_div_mod(smin, u);
    vstd::arithmetic::div_mod::lemma_mod_bound(smin, u);
    let q0 = smin / u;
    assert(u * q0 <= smin);
    assert(u * q0 <= p * u);
    assert(q0 <= p) by (nonlinear_arith)
        requires
            u * q0 <= p * u,
            u > 0,
    ;
    vstd::arithmetic::div_mod::lemma_fundamental_div_mod(smax + u - 1, u);
    vstd::arithmetic::div_mod::lemma_mod_bound(smax + u - 1, u);
    let q1 = (smax + u - 1) / u;
    assert(u * q1 >= smax);
    assert((p + 1) * u <= u * q1);
    assert(p + 1 <= q1) by (nonlinear_arith)
        requires
            (p + 1) * u <= u * q1,
            u > 0,
    ;
}

proof fn lemma_shape_candidates_nonempty(
    cbox: Aabb,
    delta: Vec3,
    p: ConfigVec3,
    shapes: Seq<Aabb>,
    k: int,
)
    requires
        0 <= k < shapes.len(),
        sweep_hits(cbox, delta, shapes[k].translate_spec(cell_origin_spec(p))),
    ensures
        shape_candidates_spec(cbox, delta, p, shapes).len() > 0,
    decreases shapes.len(),
{
    if k == shapes.len() - 1 {
        assert(maybe_candidate_spec(cbox, delta, p, shapes.last()).len() == 1);
    } else {
        assert(shapes.drop_last()[k] == shapes[k]);
        lemma_shape_candidates_nonempty(cbox, delta, p, shapes.drop_last(), k);
    }
}

proof fn lemma_cells_candidates_nonempty(
    cbox: Aabb,
    delta: Vec3,
    world: WorldSnapshot,
    cells: Seq<ConfigVec3>,
    i: int,
    k: int,
)
    requires
        0 <= i < cells.len(),
        0 <= k < world.geom(cells[i]).len(),
        sweep_hits(
            cbox,
            delta,
            world.geom(cells[i])[k].translate_spec(cell_origin_spec(cells[i])),
        ),
    ensures
        cells_candidates_spec(cbox, delta, world, cells).len() > 0,
    decreases cells.len(),
{
    if i == cells.len() - 1 {
        lemma_shape_candidates_nonempty(cbox, delta, cells[i], world.geom(cells[i]), k);
    } else {
        assert(cells.drop_last()[i] == cells[i]);
        lemma_cells_candidates_nonempty(cbox, delta, world, cells.drop_last(), i, k);
    }
}

/// Candidate `q` of the enumeration is exactly what the swept test
/// reports against sub-shape `k` of cell `i`.
pub open spec fn candidate_from(
    cbox: Aabb,
    delta: Vec3,
    world: WorldSnapshot,
    cells: Seq<ConfigVec3>,
    q: int,
    i: int,
    k: int,
) -> bool {
    &&& 0 <= i < cells.len()
    &&& 0 <= k < world.geom(cells[i]).len()
    &&& {
        let wb = world.geom(cells[i])[k].translate_spec(cell_origin_spec(cells[i]));
        let r = collide_result_spec(cbox, delta, wb);
        &&& sweep_hits(cbox, delta, wb)
        &&& cells_candidates_spec(cbox, delta, world, cells)[q] == (Candidate {
            time: r.0,
            normals: r.1,
            block_pos: cells[i],
        })
    }
}

proof fn lemma_shape_candidate_provenance(
    cbox: Aabb,
    delta: Vec3,
    p: ConfigVec3,
    shapes: Seq<Aabb>,
    q: int,
)
    requires
        0 <= q < shape_candidates_spec(cbox, delta, p, shapes).len(),
    ensures
        exists|k: int|
            {
                &&& 0 <= k < shapes.len()
                &&& {
                    let wb = (#[trigger] shapes[k]).translate_spec(cell_origin_spec(p));
                    let r = collide_result_spec(cbox, delta, wb);
                    &&& sweep_hits(cbox, delta, wb)
                    &&& shape_candidates_spec(cbox, delta, p, shapes)[q] == (Candidate {
                        time: r.0,
                        normals: r.1,
                        block_pos: p,
                    })
                }
            },
    decreases shapes.len(),
{
    let all = shape_candidates_spec(cbox, delta, p, shapes);
    let prev = shape_candidates_spec(cbox, delta, p, shapes.drop_last());
    if q < prev.len() {
        lemma_shape_candidate_provenance(cbox, delta, p, shapes.drop_last(), q);
        let k = choose|k: int|
            {
                &&& 0 <= k < shapes.drop_last().len()
                &&& {
                    let wb = (#[trigger] shapes.drop_last()[k]).translate_spec(cell_origin_spec(p));
                    let r = collide_result_spec(cbox, delta, wb);
                    &&& sweep_hits(cbox, delta, wb)
                    &&& prev[q] == (Candidate { time: r.0, normals: r.1, block_pos: p })
                }
            };
        assert(shapes.drop_last()[k] == shapes[k]);
        assert(all[q] == prev[q]);
    } else {
        let k = shapes.len() - 1;
        assert(all[q] == maybe_candidate_spec(cbox, delta, p, shapes.last())[q - prev.len()]);
        assert(shapes[k] == shapes.last());
    }
}

/// Every enumerated candidate is genuine: it records exactly the entry
/// time and face signs the swept test reports against some sub-shape of
/// some enumerated cell, translated to that cell, and names that cell.
/// Together with `lemma_tunneling_resisted` (no touchable cell is ever
/// missing), the candidate list of a pass is precisely the set of real
/// first contacts the step could make.
pub proof fn lemma_candidate_provenance(
    cbox: Aabb,
    delta: Vec3,
    world: WorldSnapshot,
    cells: Seq<ConfigVec3>,
    q: int,
)
    requires
        0 <= q < cells_candidates_spec(cbox, delta, world, cells).len(),
    ensures
        exists|i: int, k: int| #[trigger] candidate_from(cbox, delta, world, cells, q, i, k),
    decreases cells.len(),
{
    let all = cells_candidates_spec(cbox, delta, world, cells);
    let prev = cells_candidates_spec(cbox, delta, world, cells.drop_last());
    if q < prev.len() {
        lemma_candidate_provenance(cbox, delta, world, cells.drop_last(), q);
        let (i, k) = choose|i: int, k: int| #[trigger] candidate_from(
            cbox,
            delta,
            world,
            cells.drop_last(),
            q,
            i,
            k,
        );
        assert(cells.drop_last()[i] == cells[i]);
        assert(all[q] == prev[q]);
        assert(candidate_from(cbox, delta, world, cells, q, i, k));
    } else {
        let p = cells.last();
        let inner = q - prev.len();
        lemma_shape_candidate_provenance(cbox, delta, p, world.geom(p), inner);
        let k = choose|k: int|
            {
                &&& 0 <= k < world.geom(p).len()
                &&& {
                    let wb = (#[trigger] world.geom(p)[k]).translate_spec(cell_origin_spec(p));
                    let r = collide_result_spec(cbox, delta, wb);
                    &&& sweep_hits(cbox, delta, wb)
                    &&& shape_candidates_spec(cbox, delta, p, world.geom(p))[inner] == (Candidate {
                        time: r.0,
                        normals: r.1,
                        block_pos: p,
                    })
                }
            };
        assert(all[q] == shape_candidates_spec(cbox, delta, p, world.geom(p))[inner]);
        assert(cells[cells.len() - 1] == p);
        assert(candidate_from(cbox, delta, world, cells, q, cells.len() - 1, k));
    }
}

proof fn lemma_mul_le_mono(a: int, b: int, c: int)
    by (nonlinear_arith)
    requires
        a <= b,
        c > 0,
    ensures
        a * c <= b * c,
{
}

/// Tunneling resistance. If some solid sub-shape of cell `p` — lying
/// within that cell's cube — is touched by the swept collision box at
/// any fraction of the step, and was not already touching at the start,
/// then the pass's candidate enumeration is not empty: however large the
/// displacement, the collision is registered, never skipped.
pub proof fn lemma_tunneling_resisted(
    cbox: Aabb,
    delta: Vec3,
    world: WorldSnapshot,
    p: ConfigVec3,
    k: int,
    tn: int,
    td: int,
)
    requires
        cbox.wf(),
        cbox.bounded_by(WORLD_BOX_LIMIT as int),
        delta.bounded_by(DELTA_LIMIT as int),
        0 <= k < world.geom(p).len(),
        world.geom(p)[k].wf(),
        // the sub-shape lies within the cell cube (cell-local coordinates)
        0 <= world.geom(p)[k].min.x && world.geom(p)[k].max.x <= UNIT,
        0 <= world.geom(p)[k].min.y && world.geom(p)[k].max.y <= UNIT,
        0 <= world.geom(p)[k].min.z && world.geom(p)[k].max.z <= UNIT,
        td > 0,
        0 <= tn <= td,
        contact_at(cbox, delta, world.geom(p)[k].translate_spec(cell_origin_spec(p)), tn, td),
        !contact_at(cbox, delta, world.geom(p)[k].translate_spec(cell_origin_spec(p)), 0, 1),
    ensures
        candidates_spec(cbox, delta, world).len() > 0,
{
    let shape = world.geom(p)[k];
    let wb = shape.translate_spec(cell_origin_spec(p));
    let cell = cell_box_spec(p);

    // The sweep reports this contact.
    lemma_first_contact(cbox, delta, wb, tn, td);

    // Contact with the sub-shape is contact with the surrounding cell
    // cube: each inequality only relaxes.
    assert(contact_at(cbox, delta, cell, tn, td)) by {
        assert(contact_on_axis(cbox, delta, wb, tn, td, 0));
        assert(contact_on_axis(cbox, delta, wb, tn, td, 1));
        assert(contact_on_axis(cbox, delta, wb, tn, td, 2));
        lemma_mul_le_mono(axis(wb.max, 0), axis(cell.max, 0), td);
        lemma_mul_le_mono(axis(wb.max, 1), axis(cell.max, 1), td);
        lemma_mul_le_mono(axis(wb.max, 2), axis(cell.max, 2), td);
        lemma_mul_le_mono(axis(cell.min, 0), axis(wb.min, 0), td);
        lemma_mul_le_mono(axis(cell.min, 1), axis(wb.min, 1), td);
        lemma_mul_le_mono(axis(cell.min, 2), axis(wb.min, 2), td);
    };

    // So the scan enumerates the cell, and the cell contributes the hit.
    lemma_scan_covers_swept_cells(cbox, delta, p, tn, td);
    let cover = block_cover_spec(scan_box_spec(cbox, delta));
    let i = choose|i: int| 0 <= i < cover.len() && cover[i] == p;
    lemma_cells_candidates_nonempty(cbox, delta, world, cover, i, k);
}

/// Every face sign in a merged resolution comes from some candidate
/// tying exactly on the winning time: merging invents no axes.
pub proof fn lemma_merged_normal_provenance(cands: Seq<Candidate>, t: EntryTime)
    ensures
        merged_normals_spec(cands, t).0 is Some ==> exists|j: int|
            0 <= j < cands.len() && time_eq_spec((#[trigger] cands[j]).time, t) && cands[j].normals.0
                == merged_normals_spec(cands, t).0,
        merged_normals_spec(cands, t).1 is Some ==> exists|j: int|
            0 <= j < cands.len() && time_eq_spec((#[trigger] cands[j]).time, t) && cands[j].normals.1
                == merged_normals_spec(cands, t).1,
        merged_normals_spec(cands, t).2 is Some ==> exists|j: int|
            0 <= j < cands.len() && time_eq_spec((#[trigger] cands[j]).time, t) && cands[j].normals.2
                == merged_normals_spec(cands, t).2,
    decreases cands.len(),
{
    if cands.len() > 0 {
        lemma_merged_normal_provenance(cands.drop_last(), t);
        let prev = merged_normals_spec(cands.drop_last(), t);
        let m = merged_normals_spec(cands, t);
        if m.0 is Some {
            if prev.0 is Some {
                let j = choose|j: int|
                    0 <= j < cands.drop_last().len() && time_eq_spec(
                        (#[trigger] cands.drop_last()[j]).time,
                        t,
                    ) && cands.drop_last()[j].normals.0 == prev.0;
                assert(cands[j] == cands.drop_last()[j]);
            } else {
                assert(cands[cands.len() - 1] == cands.last());
            }
        }
        if m.1 is Some {
            if prev.1 is Some {
                let j = choose|j: int|
                    0 <= j < cands.drop_last().len() && time_eq_spec(
                        (#[trigger] cands.drop_last()[j]).time,
                        t,
                    ) && cands.drop_last()[j].normals.1 == prev.1;
                assert(cands[j] == cands.drop_last()[j]);
            } else {
                assert(cands[cands.len() - 1] == cands.last());
            }
        }
        if m.2 is Some {
            if prev.2 is Some {
                let j = choose|j: int|
                    0 <= j < cands.drop_last().len() && time_eq_spec(
                        (#[trigger] cands.drop_last()[j]).time,
                        t,
                    ) && cands.drop_last()[j].normals.2 == prev.2;
                assert(cands[j] == cands.drop_last()[j]);
            } else {
                assert(cands[cands.len() - 1] == cands.last());
            }
        }
    }
}

proof fn lemma_frac_eq_trans(n1: int, d1: int, n2: int, d2: int, n3: int, d3: int)
    by (nonlinear_arith)
    requires
        d1 > 0,
        d2 > 0,
        d3 > 0,
        n1 * d2 == n2 * d1,
        n2 * d3 == n3 * d2,
    ensures
        n1 * d3 == n3 * d1,
{
}

/// Resolution never oversteps. Take any shape the swept test reports a
/// hit against, any axis its result flags, and any step fraction `t`
/// rationally equal to the reported entry time (such as the winning
/// time the flagged axis ties with): cutting the displacement off at
/// `t` advances that axis by exactly the entry gap, so the collision
/// box ends exactly flush with the face it struck — touching it, never
/// inside it.
pub proof fn lemma_flagged_axis_advances_flush(cbox: Aabb, d: Vec3, wb: Aabb, t: EntryTime)
    requires
        cbox.bounded_by(COORD_CEIL as int),
        wb.bounded_by(COORD_CEIL as int),
        d.bounded_by(COORD_CEIL as int),
        sweep_hits(cbox, d, wb),
        t.den > 0,
        time_eq_spec(collide_result_spec(cbox, d, wb).0, t),
    ensures
        collide_result_spec(cbox, d, wb).1.0 is Some ==> advance_spec(d.x as int, t) == (if d.x
            >= 0 {
            wb.min.x - cbox.max.x
        } else {
            -(cbox.min.x - wb.max.x)
        }),
        collide_result_spec(cbox, d, wb).1.1 is Some ==> advance_spec(d.y as int, t) == (if d.y
            >= 0 {
            wb.min.y - cbox.max.y
        } else {
            -(cbox.min.y - wb.max.y)
        }),
        collide_result_spec(cbox, d, wb).1.2 is Some ==> advance_spec(d.z as int, t) == (if d.z
            >= 0 {
            wb.min.z - cbox.max.z
        } else {
            -(cbox.min.z - wb.max.z)
        }),
{
    lemma_flagged_axis_flush_one(cbox, d, wb, t, 0);
    lemma_flagged_axis_flush_one(cbox, d, wb, t, 1);
    lemma_flagged_axis_flush_one(cbox, d, wb, t, 2);
}

proof fn lemma_flagged_axis_flush_one(cbox: Aabb, d: Vec3, wb: Aabb, t: EntryTime, i: int)
    requires
        cbox.bounded_by(COORD_CEIL as int),
        wb.bounded_by(COORD_CEIL as int),
        d.bounded_by(COORD_CEIL as int),
        sweep_hits(cbox, d, wb),
        t.den > 0,
        time_eq_spec(collide_result_spec(cbox, d, wb).0, t),
        0 <= i < 3,
    ensures
        normal_spec(cbox, d, wb, i) is Some ==> advance_spec(axis(d, i), t) == (
        if axis(d, i) >= 0 {
            entry_gap(cbox, d, wb, i)
        } else {
            -entry_gap(cbox, d, wb, i)
        }),
{
    if normal_spec(cbox, d, wb, i) is Some {
        let g = entry_gap(cbox, d, wb, i);
        let m = dmag(d, i);
        let w = winning_axis(cbox, d, wb);
        let gw = entry_gap(cbox, d, wb, w);
        let mw = dmag(d, w);
        assert(m > 0 && mw > 0);
        // The flagged axis and the winning axis dominate each other, so
        // their entry fractions are equal; chain through the reported
        // time to `t`.
        assert(g * mw == gw * m);
        let r0 = collide_result_spec(cbox, d, wb).0;
        assert(r0 == crate::ray_cast::entry_time_spec(cbox, d, wb));
        assert(-0x2000_0000_0000_0000 <= gw <= 0x2000_0000_0000_0000);
        assert(1 <= mw <= 0x2000_0000_0000_0000);
        assert(r0.num == gw && r0.den == mw);
        assert(gw * t.den == t.num * mw);
        lemma_frac_eq_trans(g, m, gw, mw, t.num as int, t.den as int);
        // g >= 0: some moving axis has a non-negative gap and the
        // flagged axis dominates it.
        assert(g >= 0) by {
            if axis_entry_nonneg(cbox, d, wb, 0) {
                lemma_frac_nonneg(
                    entry_gap(cbox, d, wb, 0),
                    dmag(d, 0),
                    g,
                    m,
                );
            } else if axis_entry_nonneg(cbox, d, wb, 1) {
                lemma_frac_nonneg(
                    entry_gap(cbox, d, wb, 1),
                    dmag(d, 1),
                    g,
                    m,
                );
            } else {
                lemma_frac_nonneg(
                    entry_gap(cbox, d, wb, 2),
                    dmag(d, 2),
                    g,
                    m,
                );
            }
        };
        assert(m * t.num == t.num * m) by (nonlinear_arith);
        assert(m * t.num == g * t.den);
        lemma_flush_advance(axis(d, i), g, t);
    }
}

/// Integrator determinism: a tick computes a function of the entity
/// states, the world snapshot, the collidable list and the step duration
/// alone. Two ticks from identical inputs produce identical bodies and
/// identical events; `handle_collision`'s contract equates the
/// executable tick with this same function, so this holds of the
/// executable integrator too.
pub proof fn lemma_tick_deterministic(
    bodies1: Seq<PhysicsBody>,
    bodies2: Seq<PhysicsBody>,
    world1: WorldSnapshot,
    world2: WorldSnapshot,
    others1: Seq<(u64, Aabb)>,
    others2: Seq<(u64, Aabb)>,
    dt1: int,
    dt2: int,
)
    requires
        bodies1 == bodies2,
        world1 == world2,
        others1 == others2,
        dt1 == dt2,
    ensures
        handle_collision_spec(bodies1, world1, others1, dt1) == handle_collision_spec(
            bodies2,
            world2,
            others2,
            dt2,
        ),
{
}

} // verus!
