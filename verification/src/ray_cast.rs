//! Swept AABB collision: given a box moving by a fixed displacement over
//! one simulation step and a static box, the earliest fraction of the step
//! at which the two touch, and the axes (with face signs) on which that
//! first contact happens.
//!
//! The slab method runs one axis at a time. On an axis with displacement,
//! the entry gap (distance still to close) and exit gap (distance until
//! the boxes have passed each other) divided by the displacement magnitude
//! give the entry and exit times as exact fractions. An axis without
//! displacement either already overlaps (closed ranges, touching counts)
//! and constrains nothing, or never will, and there is no collision at
//! all. The overall entry time is the largest per-axis entry time; there
//! is a collision exactly when it lies within the step, is not negative
//! (a pre-existing overlap is a steady state, not a fresh hit), and does
//! not come after some axis has already exited. Every axis whose entry
//! time equals the overall entry time is reported, so a perfect corner
//! graze reports two or three axes at once.

use vstd::prelude::*;
use crate::aabb::Aabb;
use crate::aabb::Vec3;
use crate::aabb::axis;
use crate::aabb::abs_int;
use crate::aabb::COORD_CEIL;
use crate::direction::Direction;
use crate::bedwars_config::ConfigVec3;
use crate::num::FRAC_LIMIT;
use crate::num::UNIT;
use crate::num::div_floor;
use crate::num::div_ceil;
use crate::num::frac_le;
use crate::num::frac_lt;
use crate::num::frac_eq;
use crate::num::lemma_frac_le_trans;
use crate::num::lemma_frac_nonneg;

verus! {

/// Which kinds of collider a query is interested in.
#[derive(Clone, Copy, PartialEq, Eq, Structural, Debug)]
pub enum CollisionType {
    Block,
    Entity,
    Both,
}

/// What a collision was with: a block face at a position, or another
/// entity (by its identifier).
#[derive(Clone, Copy, PartialEq, Eq, Structural, Debug)]
pub enum CollisionObject {
    Block { pos: Vec3, face_normal: Direction },
    Entity(u64),
}

/// A moment within one simulation step, as the exact fraction `num/den`
/// of the step (denominator positive).
#[derive(Clone, Copy, PartialEq, Eq, Structural, Debug)]
pub struct EntryTime {
    pub num: i64,
    pub den: i64,
}

impl EntryTime {
    pub open spec fn wf(self) -> bool {
        &&& 0 < self.den <= FRAC_LIMIT
        &&& -FRAC_LIMIT <= self.num <= FRAC_LIMIT
    }

    /// `self <= o` as rationals, by cross multiplication.
    pub open spec fn le_spec(self, o: EntryTime) -> bool {
        self.num * o.den <= o.num * self.den
    }

    pub open spec fn lt_spec(self, o: EntryTime) -> bool {
        self.num * o.den < o.num * self.den
    }

    pub fn le(&self, o: &EntryTime) -> (r: bool)
        requires
            self.wf(),
            o.wf(),
        ensures
            r == self.le_spec(*o),
    {
        frac_le(self.num, self.den, o.num, o.den)
    }

    pub fn lt(&self, o: &EntryTime) -> (r: bool)
        requires
            self.wf(),
            o.wf(),
        ensures
            r == self.lt_spec(*o),
    {
        frac_lt(self.num, self.den, o.num, o.den)
    }

    /// The end of the step, the time a miss reports.
    pub fn one() -> (r: EntryTime)
        ensures
            r == (EntryTime { num: 1i64, den: 1i64 }),
    {
        EntryTime { num: 1, den: 1 }
    }
}

/// Distance still to close on axis `i` before the moving box reaches the
/// static one, measured along the direction of travel.
pub open spec fn entry_gap(a: Aabb, d: Vec3, b: Aabb, i: int) -> int {
    if axis(d, i) > 0 {
        axis(b.min, i) - axis(a.max, i)
    } else {
        axis(a.min, i) - axis(b.max, i)
    }
}

/// Distance along the direction of travel until the moving box has fully
/// passed the static one on axis `i`.
pub open spec fn exit_gap(a: Aabb, d: Vec3, b: Aabb, i: int) -> int {
    if axis(d, i) > 0 {
        axis(b.max, i) - axis(a.min, i)
    } else {
        axis(a.max, i) - axis(b.min, i)
    }
}

/// Magnitude of the displacement on axis `i`.
pub open spec fn dmag(d: Vec3, i: int) -> int {
    abs_int(axis(d, i))
}

/// Closed-range overlap of the two boxes on axis `i` (touching counts).
pub open spec fn static_touch(a: Aabb, b: Aabb, i: int) -> bool {
    axis(b.min, i) <= axis(a.max, i) && axis(a.min, i) <= axis(b.max, i)
}

/// An axis without displacement rules out any collision unless the boxes
/// already overlap on it.
pub open spec fn axis_zero_ok(a: Aabb, d: Vec3, b: Aabb, i: int) -> bool {
    axis(d, i) == 0 ==> static_touch(a, b, i)
}

/// The entry time of axis `i` is defined (the axis moves) and not in the
/// past.
pub open spec fn axis_entry_nonneg(a: Aabb, d: Vec3, b: Aabb, i: int) -> bool {
    axis(d, i) != 0 && entry_gap(a, d, b, i) >= 0
}

/// The entry time of axis `i`, if defined, is at most one step.
pub open spec fn axis_entry_le_one(a: Aabb, d: Vec3, b: Aabb, i: int) -> bool {
    axis(d, i) != 0 ==> entry_gap(a, d, b, i) <= dmag(d, i)
}

/// Axis `i` enters before (or exactly when) axis `j` exits:
/// `entry_i <= exit_j` by cross multiplication.
pub open spec fn pair_entry_before_exit(a: Aabb, d: Vec3, b: Aabb, i: int, j: int) -> bool {
    (axis(d, i) != 0 && axis(d, j) != 0) ==> entry_gap(a, d, b, i) * dmag(d, j) <= exit_gap(
        a,
        d,
        b,
        j,
    ) * dmag(d, i)
}

/// The sweep of `a` by `d` first touches `b` within the step: no
/// motionless axis is separated, some moving axis still has its contact
/// ahead of it (otherwise the configuration is a steady state), no moving
/// axis meets `b` only after the step ends, and every axis enters before
/// any axis exits (otherwise the boxes pass by on a diagonal without
/// actual contact).
pub open spec fn sweep_hits(a: Aabb, d: Vec3, b: Aabb) -> bool {
    &&& axis_zero_ok(a, d, b, 0)
    &&& axis_zero_ok(a, d, b, 1)
    &&& axis_zero_ok(a, d, b, 2)
    &&& (axis_entry_nonneg(a, d, b, 0) || axis_entry_nonneg(a, d, b, 1) || axis_entry_nonneg(
        a,
        d,
        b,
        2,
    ))
    &&& axis_entry_le_one(a, d, b, 0)
    &&& axis_entry_le_one(a, d, b, 1)
    &&& axis_entry_le_one(a, d, b, 2)
    &&& pair_entry_before_exit(a, d, b, 0, 0)
    &&& pair_entry_before_exit(a, d, b, 0, 1)
    &&& pair_entry_before_exit(a, d, b, 0, 2)
    &&& pair_entry_before_exit(a, d, b, 1, 0)
    &&& pair_entry_before_exit(a, d, b, 1, 1)
    &&& pair_entry_before_exit(a, d, b, 1, 2)
    &&& pair_entry_before_exit(a, d, b, 2, 0)
    &&& pair_entry_before_exit(a, d, b, 2, 1)
    &&& pair_entry_before_exit(a, d, b, 2, 2)
}

/// Axis `i` attains the overall (latest) entry time: its entry time is
/// defined and at least that of every other moving axis.
pub open spec fn hit_axis(a: Aabb, d: Vec3, b: Aabb, i: int) -> bool {
    &&& axis(d, i) != 0
    &&& (axis(d, 0) != 0 ==> entry_gap(a, d, b, 0) * dmag(d, i) <= entry_gap(a, d, b, i) * dmag(
        d,
        0,
    ))
    &&& (axis(d, 1) != 0 ==> entry_gap(a, d, b, 1) * dmag(d, i) <= entry_gap(a, d, b, i) * dmag(
        d,
        1,
    ))
    &&& (axis(d, 2) != 0 ==> entry_gap(a, d, b, 2) * dmag(d, i) <= entry_gap(a, d, b, i) * dmag(
        d,
        2,
    ))
}

/// The first axis attaining the overall entry time; the tie-break that
/// picks which axis's exact fraction represents it (x before y before z).
pub open spec fn winning_axis(a: Aabb, d: Vec3, b: Aabb) -> int {
    if hit_axis(a, d, b, 0) {
        0
    } else if hit_axis(a, d, b, 1) {
        1
    } else {
        2
    }
}

/// The overall entry time as the exact fraction taken from the winning
/// axis.
pub open spec fn entry_time_spec(a: Aabb, d: Vec3, b: Aabb) -> EntryTime {
    EntryTime {
        num: entry_gap(a, d, b, winning_axis(a, d, b)) as i64,
        den: dmag(d, winning_axis(a, d, b)) as i64,
    }
}

/// The reported face sign on axis `i`: against the direction of travel,
/// on exactly the axes that attain the overall entry time.
pub open spec fn normal_spec(a: Aabb, d: Vec3, b: Aabb, i: int) -> Option<i8> {
    if sweep_hits(a, d, b) && hit_axis(a, d, b, i) {
        Some(
            if axis(d, i) > 0 {
                -1i8
            } else {
                1i8
            },
        )
    } else {
        None
    }
}

/// Everything `collide` returns, as a function of its inputs: the entry
/// time (one full step for a miss) and the per-axis face signs.
pub open spec fn collide_result_spec(a: Aabb, d: Vec3, b: Aabb) -> (EntryTime, (
    Option<i8>,
    Option<i8>,
    Option<i8>,
)) {
    if sweep_hits(a, d, b) {
        (
            entry_time_spec(a, d, b),
            (normal_spec(a, d, b, 0), normal_spec(a, d, b, 1), normal_spec(a, d, b, 2)),
        )
    } else {
        (EntryTime { num: 1i64, den: 1i64 }, (None, None, None))
    }
}

/// Some axis always attains the maximum entry time, as soon as any axis
/// moves at all.
proof fn lemma_max_axis_exists(a: Aabb, d: Vec3, b: Aabb)
    requires
        axis(d, 0) != 0 || axis(d, 1) != 0 || axis(d, 2) != 0,
        d.bounded_by(COORD_CEIL as int),
    ensures
        hit_axis(a, d, b, 0) || hit_axis(a, d, b, 1) || hit_axis(a, d, b, 2),
{
    let g0 = entry_gap(a, d, b, 0);
    let g1 = entry_gap(a, d, b, 1);
    let g2 = entry_gap(a, d, b, 2);
    let m0 = dmag(d, 0);
    let m1 = dmag(d, 1);
    let m2 = dmag(d, 2);
    let z0 = axis(d, 0) != 0;
    let z1 = axis(d, 1) != 0;
    let z2 = axis(d, 2) != 0;
    assert(z0 ==> m0 > 0);
    assert(z1 ==> m1 > 0);
    assert(z2 ==> m2 > 0);
    if z0 && z1 && z2 {
        if g0 * m1 <= g1 * m0 {
            if g1 * m2 <= g2 * m1 {
                lemma_frac_le_trans(g0, m0, g1, m1, g2, m2);
                assert(hit_axis(a, d, b, 2));
            } else {
                assert(g2 * m1 <= g1 * m2);
                assert(hit_axis(a, d, b, 1));
            }
        } else {
            assert(g1 * m0 <= g0 * m1);
            if g0 * m2 <= g2 * m0 {
                lemma_frac_le_trans(g1, m1, g0, m0, g2, m2);
                assert(hit_axis(a, d, b, 2));
            } else {
                assert(g2 * m0 <= g0 * m2);
                assert(hit_axis(a, d, b, 0));
            }
        }
    } else if z0 && z1 {
        if g0 * m1 <= g1 * m0 {
            assert(hit_axis(a, d, b, 1));
        } else {
            assert(hit_axis(a, d, b, 0));
        }
    } else if z0 && z2 {
        if g0 * m2 <= g2 * m0 {
            assert(hit_axis(a, d, b, 2));
        } else {
            assert(hit_axis(a, d, b, 0));
        }
    } else if z1 && z2 {
        if g1 * m2 <= g2 * m1 {
            assert(hit_axis(a, d, b, 2));
        } else {
            assert(hit_axis(a, d, b, 1));
        }
    } else if z0 {
        assert(hit_axis(a, d, b, 0));
    } else if z1 {
        assert(hit_axis(a, d, b, 1));
    } else {
        assert(hit_axis(a, d, b, 2));
    }
}

/// Closed-range overlap of the moving box (displaced by `d * tn/td`) and
/// the static box on axis `i`, with the rational time cleared of its
/// denominator: every term is multiplied by `td > 0`.
pub open spec fn contact_on_axis(a: Aabb, d: Vec3, b: Aabb, tn: int, td: int, i: int) -> bool {
    &&& axis(a.min, i) * td + axis(d, i) * tn <= axis(b.max, i) * td
    &&& axis(b.min, i) * td <= axis(a.max, i) * td + axis(d, i) * tn
}

/// The moving box, displaced by `d * tn/td`, touches the static box
/// (closed ranges meeting on all three axes).
pub open spec fn contact_at(a: Aabb, d: Vec3, b: Aabb, tn: int, td: int) -> bool {
    &&& contact_on_axis(a, d, b, tn, td, 0)
    &&& contact_on_axis(a, d, b, tn, td, 1)
    &&& contact_on_axis(a, d, b, tn, td, 2)
}

/// The time `tn/td` lies between the entry and exit times of axis `i`
/// (vacuously between them, for a motionless axis that overlaps).
pub open spec fn between_entry_exit_on_axis(
    a: Aabb,
    d: Vec3,
    b: Aabb,
    tn: int,
    td: int,
    i: int,
) -> bool {
    &&& (axis(d, i) == 0 ==> static_touch(a, b, i))
    &&& (axis(d, i) != 0 ==> entry_gap(a, d, b, i) * td <= tn * dmag(d, i) && tn * dmag(d, i)
        <= exit_gap(a, d, b, i) * td)
}

proof fn lemma_axis_contact_iff(
    lo_a: int,
    hi_a: int,
    lo_b: int,
    hi_b: int,
    dd: int,
    tn: int,
    td: int,
)
    by (nonlinear_arith)
    requires
        td > 0,
        0 <= tn <= td,
    ensures
        (lo_a * td + dd * tn <= hi_b * td && lo_b * td <= hi_a * td + dd * tn) <==> (if dd == 0 {
            lo_b <= hi_a && lo_a <= hi_b
        } else if dd > 0 {
            (lo_b - hi_a) * td <= tn * dd && tn * dd <= (hi_b - lo_a) * td
        } else {
            (lo_a - hi_b) * td <= tn * (-dd) && tn * (-dd) <= (hi_a - lo_b) * td
        }),
{
}

/// The geometric reading of the slab quantities: the swept box touches
/// the static one at time `tn/td` of the step exactly when that time lies
/// between the entry and exit times of every axis.
pub proof fn lemma_contact_iff_between(a: Aabb, d: Vec3, b: Aabb, tn: int, td: int)
    requires
        td > 0,
        0 <= tn <= td,
    ensures
        contact_at(a, d, b, tn, td) <==> (between_entry_exit_on_axis(a, d, b, tn, td, 0)
            && between_entry_exit_on_axis(a, d, b, tn, td, 1) && between_entry_exit_on_axis(
            a,
            d,
            b,
            tn,
            td,
            2,
        )),
{
    lemma_axis_contact_iff(
        axis(a.min, 0),
        axis(a.max, 0),
        axis(b.min, 0),
        axis(b.max, 0),
        axis(d, 0),
        tn,
        td,
    );
    lemma_axis_contact_iff(
        axis(a.min, 1),
        axis(a.max, 1),
        axis(b.min, 1),
        axis(b.max, 1),
        axis(d, 1),
        tn,
        td,
    );
    lemma_axis_contact_iff(
        axis(a.min, 2),
        axis(a.max, 2),
        axis(b.min, 2),
        axis(b.max, 2),
        axis(d, 2),
        tn,
        td,
    );
}

/// A box that is not displaced at all never reports a fresh collision,
/// whether or not it already overlaps the static box: pre-existing
/// overlap is a steady state.
pub proof fn lemma_zero_displacement_misses(a: Aabb, d: Vec3, b: Aabb)
    requires
        d.x == 0,
        d.y == 0,
        d.z == 0,
    ensures
        !sweep_hits(a, d, b),
        collide_result_spec(a, d, b) == (
            EntryTime { num: 1i64, den: 1i64 },
            (None::<i8>, None::<i8>, None::<i8>),
        ),
{
    assert(!axis_entry_nonneg(a, d, b, 0));
    assert(!axis_entry_nonneg(a, d, b, 1));
    assert(!axis_entry_nonneg(a, d, b, 2));
}

proof fn lemma_le_one_step(g: int, m: int, tn: int, td: int)
    by (nonlinear_arith)
    requires
        td > 0,
        0 <= tn <= td,
        m > 0,
        g * td <= tn * m,
    ensures
        g <= m,
{
}

proof fn lemma_pair_step(gi: int, mi: int, hj: int, mj: int, tn: int, td: int)
    by (nonlinear_arith)
    requires
        td > 0,
        tn >= 0,
        mi > 0,
        mj > 0,
        gi * td <= tn * mi,
        tn * mj <= hj * td,
    ensures
        gi * mj <= hj * mi,
{
}

proof fn lemma_mul_sign(tn: int, m: int)
    by (nonlinear_arith)
    requires
        tn >= 0,
        m >= 0,
    ensures
        tn * m >= 0,
{
}

proof fn lemma_frac_pos(n1: int, d1: int, n2: int, d2: int)
    by (nonlinear_arith)
    requires
        d1 > 0,
        d2 > 0,
        n1 > 0,
        n1 * d2 <= n2 * d1,
    ensures
        n2 > 0,
{
}

/// The entry fraction of axis `i` is the first moment of contact for the
/// sweep: it is positive (the contact is fresh), within the step, no
/// later than the contact time `tn/td` at hand, and the boxes do touch at
/// it.
pub open spec fn entry_is_first_contact(a: Aabb, d: Vec3, b: Aabb, tn: int, td: int, i: int) -> bool {
    &&& 0 < entry_gap(a, d, b, i) <= dmag(d, i)
    &&& entry_gap(a, d, b, i) * td <= tn * dmag(d, i)
    &&& contact_at(a, d, b, entry_gap(a, d, b, i), dmag(d, i))
}

proof fn lemma_first_contact_axis(a: Aabb, d: Vec3, b: Aabb, tn: int, td: int, i: int, k: int)
    requires
        td > 0,
        0 <= tn <= td,
        contact_at(a, d, b, tn, td),
        sweep_hits(a, d, b),
        0 <= i < 3,
        0 <= k < 3,
        hit_axis(a, d, b, i),
        axis(d, k) != 0,
        entry_gap(a, d, b, k) > 0,
    ensures
        entry_is_first_contact(a, d, b, tn, td, i),
{
    lemma_contact_iff_between(a, d, b, tn, td);
    let gi = entry_gap(a, d, b, i);
    let mi = dmag(d, i);
    assert(mi > 0);
    assert(entry_gap(a, d, b, k) * dmag(d, i) <= gi * dmag(d, k));
    lemma_frac_pos(entry_gap(a, d, b, k), dmag(d, k), gi, mi);
    assert(between_entry_exit_on_axis(a, d, b, tn, td, i));
    assert(gi <= mi);
    lemma_contact_iff_between(a, d, b, gi, mi);
    assert(between_entry_exit_on_axis(a, d, b, gi, mi, 0)) by {
        if axis(d, 0) != 0 {
            assert(entry_gap(a, d, b, 0) * mi <= gi * dmag(d, 0));
            assert(pair_entry_before_exit(a, d, b, i, 0));
        }
    };
    assert(between_entry_exit_on_axis(a, d, b, gi, mi, 1)) by {
        if axis(d, 1) != 0 {
            assert(entry_gap(a, d, b, 1) * mi <= gi * dmag(d, 1));
            assert(pair_entry_before_exit(a, d, b, i, 1));
        }
    };
    assert(between_entry_exit_on_axis(a, d, b, gi, mi, 2)) by {
        if axis(d, 2) != 0 {
            assert(entry_gap(a, d, b, 2) * mi <= gi * dmag(d, 2));
            assert(pair_entry_before_exit(a, d, b, i, 2));
        }
    };
}

/// If the swept box touches the static one within the step but not at
/// its start, the sweep reports a collision, and on every axis attaining
/// the overall entry time that entry fraction is exactly the first
/// moment of contact: positive, no later than the given contact time,
/// and itself a time at which the boxes touch.
pub proof fn lemma_first_contact(a: Aabb, d: Vec3, b: Aabb, tn: int, td: int)
    requires
        td > 0,
        0 <= tn <= td,
        contact_at(a, d, b, tn, td),
        !contact_at(a, d, b, 0, 1),
    ensures
        sweep_hits(a, d, b),
        hit_axis(a, d, b, 0) ==> entry_is_first_contact(a, d, b, tn, td, 0),
        hit_axis(a, d, b, 1) ==> entry_is_first_contact(a, d, b, tn, td, 1),
        hit_axis(a, d, b, 2) ==> entry_is_first_contact(a, d, b, tn, td, 2),
{
    lemma_contact_iff_between(a, d, b, tn, td);
    lemma_contact_iff_between(a, d, b, 0, 1);
    let g0 = entry_gap(a, d, b, 0);
    let g1 = entry_gap(a, d, b, 1);
    let g2 = entry_gap(a, d, b, 2);
    let m0 = dmag(d, 0);
    let m1 = dmag(d, 1);
    let m2 = dmag(d, 2);
    let h0 = exit_gap(a, d, b, 0);
    let h1 = exit_gap(a, d, b, 1);
    let h2 = exit_gap(a, d, b, 2);
    let z0 = axis(d, 0) != 0;
    let z1 = axis(d, 1) != 0;
    let z2 = axis(d, 2) != 0;

    // Exit gaps of moving axes are non-negative: the contact time has
    // not passed them.
    if z0 {
        lemma_mul_sign(tn, m0);
        assert(h0 >= 0) by (nonlinear_arith)
            requires
                h0 * td >= 0,
                td > 0,
        ;
    }
    if z1 {
        lemma_mul_sign(tn, m1);
        assert(h1 >= 0) by (nonlinear_arith)
            requires
                h1 * td >= 0,
                td > 0,
        ;
    }
    if z2 {
        lemma_mul_sign(tn, m2);
        assert(h2 >= 0) by (nonlinear_arith)
            requires
                h2 * td >= 0,
                td > 0,
        ;
    }

    // Some moving axis has a strictly positive entry gap: otherwise the
    // boxes would already touch at the start of the step.
    let fresh = (z0 && g0 > 0) || (z1 && g1 > 0) || (z2 && g2 > 0);
    if !fresh {
        assert(between_entry_exit_on_axis(a, d, b, 0, 1, 0));
        assert(between_entry_exit_on_axis(a, d, b, 0, 1, 1));
        assert(between_entry_exit_on_axis(a, d, b, 0, 1, 2));
        assert(contact_at(a, d, b, 0, 1));
        assert(false);
    }

    // The per-axis entry times are at most one step.
    if z0 {
        lemma_le_one_step(g0, m0, tn, td);
    }
    if z1 {
        lemma_le_one_step(g1, m1, tn, td);
    }
    if z2 {
        lemma_le_one_step(g2, m2, tn, td);
    }

    // Every moving axis enters before any moving axis exits.
    if z0 {
        if z0 {
            lemma_pair_step(g0, m0, h0, m0, tn, td);
        }
        if z1 {
            lemma_pair_step(g0, m0, h1, m1, tn, td);
        }
        if z2 {
            lemma_pair_step(g0, m0, h2, m2, tn, td);
        }
    }
    if z1 {
        if z0 {
            lemma_pair_step(g1, m1, h0, m0, tn, td);
        }
        if z1 {
            lemma_pair_step(g1, m1, h1, m1, tn, td);
        }
        if z2 {
            lemma_pair_step(g1, m1, h2, m2, tn, td);
        }
    }
    if z2 {
        if z0 {
            lemma_pair_step(g2, m2, h0, m0, tn, td);
        }
        if z1 {
            lemma_pair_step(g2, m2, h1, m1, tn, td);
        }
        if z2 {
            lemma_pair_step(g2, m2, h2, m2, tn, td);
        }
    }
    assert(sweep_hits(a, d, b));

    let k: int = if z0 && g0 > 0 {
        0
    } else if z1 && g1 > 0 {
        1
    } else {
        2
    };
    if hit_axis(a, d, b, 0) {
        lemma_first_contact_axis(a, d, b, tn, td, 0, k);
    }
    if hit_axis(a, d, b, 1) {
        lemma_first_contact_axis(a, d, b, tn, td, 1, k);
    }
    if hit_axis(a, d, b, 2) {
        lemma_first_contact_axis(a, d, b, tn, td, 2, k);
    }
}

/// Every axis attaining the overall entry time is reported, and no
/// other: on an exact tie — a corner graze — two or three axes carry a
/// face sign at the same entry time, not just one.
pub proof fn lemma_all_tying_axes_reported(a: Aabb, d: Vec3, b: Aabb)
    requires
        sweep_hits(a, d, b),
    ensures
        forall|i: int|
            0 <= i < 3 ==> ((normal_spec(a, d, b, i) is Some) <==> hit_axis(a, d, b, i)),
{
}

/// A reported collision is genuine: at the reported entry fraction the
/// two boxes really touch. Together with `lemma_first_contact` (no
/// earlier contact time exists past a clean start), the reported time is
/// exactly the first moment of contact.
pub proof fn lemma_hit_entry_is_contact(a: Aabb, d: Vec3, b: Aabb)
    requires
        sweep_hits(a, d, b),
    ensures
        hit_axis(a, d, b, 0) ==> contact_at(a, d, b, entry_gap(a, d, b, 0), dmag(d, 0)),
        hit_axis(a, d, b, 1) ==> contact_at(a, d, b, entry_gap(a, d, b, 1), dmag(d, 1)),
        hit_axis(a, d, b, 2) ==> contact_at(a, d, b, entry_gap(a, d, b, 2), dmag(d, 2)),
{
    lemma_hit_entry_is_contact_axis(a, d, b, 0);
    lemma_hit_entry_is_contact_axis(a, d, b, 1);
    lemma_hit_entry_is_contact_axis(a, d, b, 2);
}

proof fn lemma_hit_entry_is_contact_axis(a: Aabb, d: Vec3, b: Aabb, i: int)
    requires
        sweep_hits(a, d, b),
        0 <= i < 3,
    ensures
        hit_axis(a, d, b, i) ==> contact_at(a, d, b, entry_gap(a, d, b, i), dmag(d, i)),
{
    if hit_axis(a, d, b, i) {
        let gi = entry_gap(a, d, b, i);
        let mi = dmag(d, i);
        assert(mi > 0);
        // The entry gap of the attaining axis is non-negative: some
        // moving axis has a non-negative gap, and this axis dominates.
        assert(gi >= 0) by {
            if axis_entry_nonneg(a, d, b, 0) {
                lemma_frac_nonneg(entry_gap(a, d, b, 0), dmag(d, 0), gi, mi);
            } else if axis_entry_nonneg(a, d, b, 1) {
                lemma_frac_nonneg(entry_gap(a, d, b, 1), dmag(d, 1), gi, mi);
            } else {
                lemma_frac_nonneg(entry_gap(a, d, b, 2), dmag(d, 2), gi, mi);
            }
        };
        assert(gi <= mi);
        lemma_contact_iff_between(a, d, b, gi, mi);
        assert(between_entry_exit_on_axis(a, d, b, gi, mi, 0)) by {
            if axis(d, 0) != 0 {
                assert(pair_entry_before_exit(a, d, b, i, 0));
            }
        };
        assert(between_entry_exit_on_axis(a, d, b, gi, mi, 1)) by {
            if axis(d, 1) != 0 {
                assert(pair_entry_before_exit(a, d, b, i, 1));
            }
        };
        assert(between_entry_exit_on_axis(a, d, b, gi, mi, 2)) by {
            if axis(d, 2) != 0 {
                assert(pair_entry_before_exit(a, d, b, i, 2));
            }
        };
    }
}

/// Swept AABB collision between a moving and a static box.
///
/// `hb1` is the moving box, `velocity` its displacement over the whole
/// step (already scaled by the step duration), `hb2` the static box. The
/// result is the fraction of the step at which the boxes first touch and
/// one signed unit per axis on which that first contact happens (`None`
/// on the others); a miss reports the end of the step and no axes.
pub fn collide(hb1: &Aabb, velocity: Vec3, hb2: &Aabb) -> (r: (EntryTime, (
    Option<i8>,
    Option<i8>,
    Option<i8>,
)))
    requires
        hb1.wf(),
        hb2.wf(),
        hb1.bounded_by(COORD_CEIL as int),
        hb2.bounded_by(COORD_CEIL as int),
        velocity.bounded_by(COORD_CEIL as int),
    ensures
        r == collide_result_spec(*hb1, velocity, *hb2),
        r.0.wf(),
        sweep_hits(*hb1, velocity, *hb2) ==> 0 <= r.0.num <= r.0.den,
        (r.1.0 is Some || r.1.1 is Some || r.1.2 is Some) == sweep_hits(*hb1, velocity, *hb2),
{
    let a = *hb1;
    let b = *hb2;
    let d = velocity;
    let ghost ga = a;
    let ghost gb = b;
    let miss: (EntryTime, (Option<i8>, Option<i8>, Option<i8>)) = (
        EntryTime { num: 1, den: 1 },
        (None, None, None),
    );

    let z0 = d.x != 0;
    let z1 = d.y != 0;
    let z2 = d.z != 0;

    if !z0 && (a.max.x < b.min.x || a.min.x > b.max.x) {
        assert(!sweep_hits(ga, d, gb)) by {
            assert(!static_touch(ga, gb, 0));
        };
        return miss;
    }
    if !z1 && (a.max.y < b.min.y || a.min.y > b.max.y) {
        assert(!sweep_hits(ga, d, gb)) by {
            assert(!static_touch(ga, gb, 1));
        };
        return miss;
    }
    if !z2 && (a.max.z < b.min.z || a.min.z > b.max.z) {
        assert(!sweep_hits(ga, d, gb)) by {
            assert(!static_touch(ga, gb, 2));
        };
        return miss;
    }
    if !z0 && !z1 && !z2 {
        assert(!sweep_hits(ga, d, gb));
        return miss;
    }

    let g0 = if d.x > 0 {
        b.min.x - a.max.x
    } else {
        a.min.x - b.max.x
    };
    let h0 = if d.x > 0 {
        b.max.x - a.min.x
    } else {
        a.max.x - b.min.x
    };
    let m0 = if d.x >= 0 {
        d.x
    } else {
        -d.x
    };
    let g1 = if d.y > 0 {
        b.min.y - a.max.y
    } else {
        a.min.y - b.max.y
    };
    let h1 = if d.y > 0 {
        b.max.y - a.min.y
    } else {
        a.max.y - b.min.y
    };
    let m1 = if d.y >= 0 {
        d.y
    } else {
        -d.y
    };
    let g2 = if d.z > 0 {
        b.min.z - a.max.z
    } else {
        a.min.z - b.max.z
    };
    let h2 = if d.z > 0 {
        b.max.z - a.min.z
    } else {
        a.max.z - b.min.z
    };
    let m2 = if d.z >= 0 {
        d.z
    } else {
        -d.z
    };

    assert(g0 == entry_gap(ga, d, gb, 0) && h0 == exit_gap(ga, d, gb, 0) && m0 == dmag(d, 0));
    assert(g1 == entry_gap(ga, d, gb, 1) && h1 == exit_gap(ga, d, gb, 1) && m1 == dmag(d, 1));
    assert(g2 == entry_gap(ga, d, gb, 2) && h2 == exit_gap(ga, d, gb, 2) && m2 == dmag(d, 2));

    // Which axes attain the overall (maximum) entry time.
    let hit0 = z0 && (!z1 || frac_le(g1, m1, g0, m0)) && (!z2 || frac_le(g2, m2, g0, m0));
    let hit1 = z1 && (!z0 || frac_le(g0, m0, g1, m1)) && (!z2 || frac_le(g2, m2, g1, m1));
    let hit2 = z2 && (!z0 || frac_le(g0, m0, g2, m2)) && (!z1 || frac_le(g1, m1, g2, m2));

    assert(hit0 == hit_axis(ga, d, gb, 0));
    assert(hit1 == hit_axis(ga, d, gb, 1));
    assert(hit2 == hit_axis(ga, d, gb, 2));
    proof {
        lemma_max_axis_exists(ga, d, gb);
    }

    let (bg, bm): (i64, i64) = if hit0 {
        (g0, m0)
    } else if hit1 {
        (g1, m1)
    } else {
        (g2, m2)
    };
    let ghost wi = winning_axis(ga, d, gb);
    assert(bg == entry_gap(ga, d, gb, wi) && bm == dmag(d, wi) && hit_axis(ga, d, gb, wi));

    // All entry times in the past: a steady state, no fresh hit.
    if bg < 0 {
        assert(!sweep_hits(ga, d, gb)) by {
            if axis_entry_nonneg(ga, d, gb, 0) {
                lemma_frac_nonneg(g0 as int, m0 as int, bg as int, bm as int);
            }
            if axis_entry_nonneg(ga, d, gb, 1) {
                lemma_frac_nonneg(g1 as int, m1 as int, bg as int, bm as int);
            }
            if axis_entry_nonneg(ga, d, gb, 2) {
                lemma_frac_nonneg(g2 as int, m2 as int, bg as int, bm as int);
            }
        };
        return miss;
    }

    // Some axis only reaches the target after the step ends.
    if z0 && g0 > m0 {
        assert(!axis_entry_le_one(ga, d, gb, 0));
        return miss;
    }
    if z1 && g1 > m1 {
        assert(!axis_entry_le_one(ga, d, gb, 1));
        return miss;
    }
    if z2 && g2 > m2 {
        assert(!axis_entry_le_one(ga, d, gb, 2));
        return miss;
    }

    // The overall entry comes after some axis has already exited: the
    // boxes pass on a diagonal without true simultaneous contact.
    if z0 && frac_lt(h0, m0, bg, bm) {
        assert(!pair_entry_before_exit(ga, d, gb, wi, 0));
        return miss;
    }
    if z1 && frac_lt(h1, m1, bg, bm) {
        assert(!pair_entry_before_exit(ga, d, gb, wi, 1));
        return miss;
    }
    if z2 && frac_lt(h2, m2, bg, bm) {
        assert(!pair_entry_before_exit(ga, d, gb, wi, 2));
        return miss;
    }

    proof {
        // entry_i <= entry_win <= exit_j for every moving pair (i, j).
        if z0 {
            if z0 {
                lemma_frac_le_trans(g0 as int, m0 as int, bg as int, bm as int, h0 as int, m0 as int);
            }
            if z1 {
                lemma_frac_le_trans(g0 as int, m0 as int, bg as int, bm as int, h1 as int, m1 as int);
            }
            if z2 {
                lemma_frac_le_trans(g0 as int, m0 as int, bg as int, bm as int, h2 as int, m2 as int);
            }
        }
        if z1 {
            if z0 {
                lemma_frac_le_trans(g1 as int, m1 as int, bg as int, bm as int, h0 as int, m0 as int);
            }
            if z1 {
                lemma_frac_le_trans(g1 as int, m1 as int, bg as int, bm as int, h1 as int, m1 as int);
            }
            if z2 {
                lemma_frac_le_trans(g1 as int, m1 as int, bg as int, bm as int, h2 as int, m2 as int);
            }
        }
        if z2 {
            if z0 {
                lemma_frac_le_trans(g2 as int, m2 as int, bg as int, bm as int, h0 as int, m0 as int);
            }
            if z1 {
                lemma_frac_le_trans(g2 as int, m2 as int, bg as int, bm as int, h1 as int, m1 as int);
            }
            if z2 {
                lemma_frac_le_trans(g2 as int, m2 as int, bg as int, bm as int, h2 as int, m2 as int);
            }
        }
        assert(sweep_hits(ga, d, gb));
    }

    let n0: Option<i8> = if z0 && frac_eq(g0, m0, bg, bm) {
        Some(
            if d.x > 0 {
                -1
            } else {
                1
            },
        )
    } else {
        None
    };
    let n1: Option<i8> = if z1 && frac_eq(g1, m1, bg, bm) {
        Some(
            if d.y > 0 {
                -1
            } else {
                1
            },
        )
    } else {
        None
    };
    let n2: Option<i8> = if z2 && frac_eq(g2, m2, bg, bm) {
        Some(
            if d.z > 0 {
                -1
            } else {
                1
            },
        )
    } else {
        None
    };

    proof {
        // An axis whose entry fraction equals the winner's attains the
        // maximum, and conversely.
        if z0 {
            if g0 * bm == bg * m0 {
                if z1 {
                    lemma_frac_le_trans(g1 as int, m1 as int, bg as int, bm as int, g0 as int, m0 as int);
                }
                if z2 {
                    lemma_frac_le_trans(g2 as int, m2 as int, bg as int, bm as int, g0 as int, m0 as int);
                }
            }
            if hit_axis(ga, d, gb, 0) {
                lemma_frac_le_trans(bg as int, bm as int, g0 as int, m0 as int, g0 as int, m0 as int);
            }
        }
        if z1 {
            if g1 * bm == bg * m1 {
                if z0 {
                    lemma_frac_le_trans(g0 as int, m0 as int, bg as int, bm as int, g1 as int, m1 as int);
                }
                if z2 {
                    lemma_frac_le_trans(g2 as int, m2 as int, bg as int, bm as int, g1 as int, m1 as int);
                }
            }
            if hit_axis(ga, d, gb, 1) {
                lemma_frac_le_trans(bg as int, bm as int, g1 as int, m1 as int, g1 as int, m1 as int);
            }
        }
        if z2 {
            if g2 * bm == bg * m2 {
                if z0 {
                    lemma_frac_le_trans(g0 as int, m0 as int, bg as int, bm as int, g2 as int, m2 as int);
                }
                if z1 {
                    lemma_frac_le_trans(g1 as int, m1 as int, bg as int, bm as int, g2 as int, m2 as int);
                }
            }
            if hit_axis(ga, d, gb, 2) {
                lemma_frac_le_trans(bg as int, bm as int, g2 as int, m2 as int, g2 as int, m2 as int);
            }
        }
    }

    (EntryTime { num: bg, den: bm }, (n0, n1, n2))
}

/// Bound on boxes handed to the block-cover enumeration, loose enough
/// for any box the integrator builds and tight enough that every block
/// index fits in an `i32`.
pub const SCAN_LIMIT: i64 = 2_000_000_000_000;

/// The single run of cells `{x} * {y} * [z0, z1)`, in ascending z order.
pub open spec fn cover_z(x: int, y: int, z0: int, z1: int) -> Seq<ConfigVec3>
    decreases z1 - z0,
{
    if z1 <= z0 {
        Seq::empty()
    } else {
        cover_z(x, y, z0, z1 - 1).push(
            ConfigVec3 { x: x as i32, y: y as i32, z: (z1 - 1) as i32 },
        )
    }
}

/// The plane of cells `{x} * [y0, y1) * [z0, z1)`, y-major.
pub open spec fn cover_y(x: int, y0: int, y1: int, z0: int, z1: int) -> Seq<ConfigVec3>
    decreases y1 - y0,
{
    if y1 <= y0 {
        Seq::empty()
    } else {
        cover_y(x, y0, y1 - 1, z0, z1) + cover_z(x, y1 - 1, z0, z1)
    }
}

/// The block of cells `[x0, x1) * [y0, y1) * [z0, z1)`, x-major.
pub open spec fn cover_box(x0: int, x1: int, y0: int, y1: int, z0: int, z1: int) -> Seq<ConfigVec3>
    decreases x1 - x0,
{
    if x1 <= x0 {
        Seq::empty()
    } else {
        cover_box(x0, x1 - 1, y0, y1, z0, z1) + cover_y(x1 - 1, y0, y1, z0, z1)
    }
}

/// Every integer cell whose unit cube the box reaches into: per axis,
/// from the cell containing the box's minimum corner up to (excluding)
/// the first cell boundary at or past its maximum corner.
pub open spec fn block_cover_spec(a: Aabb) -> Seq<ConfigVec3> {
    cover_box(
        a.min.x as int / (UNIT as int),
        (a.max.x + UNIT - 1) as int / (UNIT as int),
        a.min.y as int / (UNIT as int),
        (a.max.y + UNIT - 1) as int / (UNIT as int),
        a.min.z as int / (UNIT as int),
        (a.max.z + UNIT - 1) as int / (UNIT as int),
    )
}

pub proof fn lemma_cover_z_contains(x: int, y: int, z0: int, z1: int, p: ConfigVec3)
    requires
        -0x8000_0000 <= x < 0x8000_0000,
        -0x8000_0000 <= y < 0x8000_0000,
        -0x8000_0000 <= z0,
        z1 <= 0x8000_0000,
    ensures
        cover_z(x, y, z0, z1).contains(p) <==> (p.x == x && p.y == y && z0 <= p.z < z1),
    decreases z1 - z0,
{
    if z1 <= z0 {
    } else {
        lemma_cover_z_contains(x, y, z0, z1 - 1, p);
        let s = cover_z(x, y, z0, z1 - 1);
        let e = ConfigVec3 { x: x as i32, y: y as i32, z: (z1 - 1) as i32 };
        assert(s.push(e)[s.len() as int] == e);
        if s.contains(p) {
            let i = choose|i: int| 0 <= i < s.len() && s[i] == p;
            assert(s.push(e)[i] == p);
        }
        if s.push(e).contains(p) {
            let i = choose|i: int| 0 <= i < s.push(e).len() && s.push(e)[i] == p;
            if i < s.len() {
                assert(s[i] == p);
            } else {
                assert(p == e);
            }
        }
    }
}

pub proof fn lemma_cover_y_contains(x: int, y0: int, y1: int, z0: int, z1: int, p: ConfigVec3)
    requires
        -0x8000_0000 <= x < 0x8000_0000,
        -0x8000_0000 <= y0,
        y1 <= 0x8000_0000,
        -0x8000_0000 <= z0,
        z1 <= 0x8000_0000,
    ensures
        cover_y(x, y0, y1, z0, z1).contains(p) <==> (p.x == x && y0 <= p.y < y1 && z0 <= p.z
            < z1),
    decreases y1 - y0,
{
    if y1 <= y0 {
    } else {
        lemma_cover_y_contains(x, y0, y1 - 1, z0, z1, p);
        lemma_cover_z_contains(x, y1 - 1, z0, z1, p);
        let s = cover_y(x, y0, y1 - 1, z0, z1);
        let t = cover_z(x, y1 - 1, z0, z1);
        assert((s + t).contains(p) <==> (s.contains(p) || t.contains(p))) by {
            if s.contains(p) {
                let i = choose|i: int| 0 <= i < s.len() && s[i] == p;
                assert((s + t)[i] == p);
            }
            if t.contains(p) {
                let i = choose|i: int| 0 <= i < t.len() && t[i] == p;
                assert((s + t)[s.len() + i] == p);
            }
            if (s + t).contains(p) {
                let i = choose|i: int| 0 <= i < (s + t).len() && (s + t)[i] == p;
                if i < s.len() {
                    assert(s[i] == p);
                } else {
                    assert(t[i - s.len()] == p);
                }
            }
        };
    }
}

pub proof fn lemma_cover_box_contains(
    x0: int,
    x1: int,
    y0: int,
    y1: int,
    z0: int,
    z1: int,
    p: ConfigVec3,
)
    requires
        -0x8000_0000 <= x0,
        x1 <= 0x8000_0000,
        -0x8000_0000 <= y0,
        y1 <= 0x8000_0000,
        -0x8000_0000 <= z0,
        z1 <= 0x8000_0000,
    ensures
        cover_box(x0, x1, y0, y1, z0, z1).contains(p) <==> (x0 <= p.x < x1 && y0 <= p.y < y1
            && z0 <= p.z < z1),
    decreases x1 - x0,
{
    if x1 <= x0 {
    } else {
        lemma_cover_box_contains(x0, x1 - 1, y0, y1, z0, z1, p);
        lemma_cover_y_contains(x1 - 1, y0, y1, z0, z1, p);
        let s = cover_box(x0, x1 - 1, y0, y1, z0, z1);
        let t = cover_y(x1 - 1, y0, y1, z0, z1);
        assert((s + t).contains(p) <==> (s.contains(p) || t.contains(p))) by {
            if s.contains(p) {
                let i = choose|i: int| 0 <= i < s.len() && s[i] == p;
                assert((s + t)[i] == p);
            }
            if t.contains(p) {
                let i = choose|i: int| 0 <= i < t.len() && t[i] == p;
                assert((s + t)[s.len() + i] == p);
            }
            if (s + t).contains(p) {
                let i = choose|i: int| 0 <= i < (s + t).len() && (s + t)[i] == p;
                if i < s.len() {
                    assert(s[i] == p);
                } else {
                    assert(t[i - s.len()] == p);
                }
            }
        };
    }
}

/// Every block cell whose unit cube the given box reaches into (the
/// box's footprint rounded outward to whole cells), in ascending
/// x-major, then y, then z order.
pub fn aabb_full_block_intersections(aabb: &Aabb) -> (r: Vec<ConfigVec3>)
    requires
        aabb.wf(),
        aabb.bounded_by(SCAN_LIMIT as int),
    ensures
        r@ == block_cover_spec(*aabb),
{
    let x0 = div_floor(aabb.min.x, UNIT);
    let x1 = div_ceil(aabb.max.x, UNIT);
    let y0 = div_floor(aabb.min.y, UNIT);
    let y1 = div_ceil(aabb.max.y, UNIT);
    let z0 = div_floor(aabb.min.z, UNIT);
    let z1 = div_ceil(aabb.max.z, UNIT);
    assert(x0 <= x1 && y0 <= y1 && z0 <= z1);
    assert(-0x7735_9400 <= x0 && x1 <= 0x7735_9401);
    assert(-0x7735_9400 <= y0 && y1 <= 0x7735_9401);
    assert(-0x7735_9400 <= z0 && z1 <= 0x7735_9401);

    let mut blocks: Vec<ConfigVec3> = Vec::new();
    proof {
        assert(blocks@ =~= cover_box(
            x0 as int,
            x0 as int,
            y0 as int,
            y1 as int,
            z0 as int,
            z1 as int,
        ));
    }
    let mut i: i64 = x0;
    while i < x1
        invariant
            x0 <= i <= x1,
            x1 <= 0x7735_9401,
            -0x7735_9400 <= x0,
            -0x7735_9400 <= y0 <= y1 <= 0x7735_9401,
            -0x7735_9400 <= z0 <= z1 <= 0x7735_9401,
            blocks@ == cover_box(x0 as int, i as int, y0 as int, y1 as int, z0 as int, z1 as int),
        decreases x1 - i,
    {
        proof {
            assert(blocks@ =~= cover_box(
                x0 as int,
                i as int,
                y0 as int,
                y1 as int,
                z0 as int,
                z1 as int,
            ) + cover_y(i as int, y0 as int, y0 as int, z0 as int, z1 as int));
        }
        let mut j: i64 = y0;
        while j < y1
            invariant
                x0 <= i < x1,
                x1 <= 0x7735_9401,
                -0x7735_9400 <= x0,
                y0 <= j <= y1,
                -0x7735_9400 <= y0 <= y1 <= 0x7735_9401,
                -0x7735_9400 <= z0 <= z1 <= 0x7735_9401,
                blocks@ == cover_box(
                    x0 as int,
                    i as int,
                    y0 as int,
                    y1 as int,
                    z0 as int,
                    z1 as int,
                ) + cover_y(i as int, y0 as int, j as int, z0 as int, z1 as int),
            decreases y1 - j,
        {
            proof {
                assert(blocks@ =~= cover_box(
                    x0 as int,
                    i as int,
                    y0 as int,
                    y1 as int,
                    z0 as int,
                    z1 as int,
                ) + cover_y(i as int, y0 as int, j as int, z0 as int, z1 as int) + cover_z(
                    i as int,
                    j as int,
                    z0 as int,
                    z0 as int,
                ));
            }
            let mut k: i64 = z0;
            while k < z1
                invariant
                    x0 <= i < x1,
                    x1 <= 0x7735_9401,
                    -0x7735_9400 <= x0,
                    y0 <= j < y1,
                    -0x7735_9400 <= y0 <= y1 <= 0x7735_9401,
                    z0 <= k <= z1,
                    -0x7735_9400 <= z0 <= z1 <= 0x7735_9401,
                    blocks@ == cover_box(
                        x0 as int,
                        i as int,
                        y0 as int,
                        y1 as int,
                        z0 as int,
                        z1 as int,
                    ) + cover_y(i as int, y0 as int, j as int, z0 as int, z1 as int) + cover_z(
                        i as int,
                        j as int,
                        z0 as int,
                        k as int,
                    ),
                decreases z1 - k,
            {
                let ghost old_blocks = blocks@;
                blocks.push(ConfigVec3 { x: i as i32, y: j as i32, z: k as i32 });
                proof {
                    let cb = cover_box(
                        x0 as int,
                        i as int,
                        y0 as int,
                        y1 as int,
                        z0 as int,
                        z1 as int,
                    );
                    let cy = cover_y(i as int, y0 as int, j as int, z0 as int, z1 as int);
                    let cz = cover_z(i as int, j as int, z0 as int, k as int);
                    let e = ConfigVec3 { x: i as i32, y: j as i32, z: k as i32 };
                    assert(cover_z(i as int, j as int, z0 as int, k as int + 1) == cz.push(e));
                    assert(blocks@ =~= cb + cy + cz.push(e));
                }
                k = k + 1;
            }
            proof {
                assert(cover_y(i as int, y0 as int, j as int + 1, z0 as int, z1 as int)
                    == cover_y(i as int, y0 as int, j as int, z0 as int, z1 as int) + cover_z(
                    i as int,
                    j as int,
                    z0 as int,
                    z1 as int,
                ));
                assert(blocks@ =~= cover_box(
                    x0 as int,
                    i as int,
                    y0 as int,
                    y1 as int,
                    z0 as int,
                    z1 as int,
                ) + cover_y(i as int, y0 as int, j as int + 1, z0 as int, z1 as int));
            }
            j = j + 1;
        }
        proof {
            assert(cover_box(x0 as int, i as int + 1, y0 as int, y1 as int, z0 as int, z1 as int)
                == cover_box(x0 as int, i as int, y0 as int, y1 as int, z0 as int, z1 as int)
                + cover_y(i as int, y0 as int, y1 as int, z0 as int, z1 as int));
            assert(blocks@ =~= cover_box(
                x0 as int,
                i as int + 1,
                y0 as int,
                y1 as int,
                z0 as int,
                z1 as int,
            ));
        }
        i = i + 1;
    }
    blocks
}

} // verus!
