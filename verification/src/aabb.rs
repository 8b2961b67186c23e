//! Axis-aligned bounding boxes over fixed-point world coordinates, and the
//! fixed-point 3-vector they are built from.
//!
//! A box is described by its minimum and maximum corner and always keeps
//! `min <= max` on every axis: the constructor normalizes the two given
//! corners componentwise rather than rejecting them, and every derived box
//! (translation, re-anchoring) preserves the invariant. Boxes are value
//! types; moving a box produces a new one.

use vstd::prelude::*;
use crate::num::div_trunc;
use crate::num::tdiv;
use crate::direction::Direction;

verus! {

/// Loose machine limit under which componentwise sums cannot overflow.
pub const COORD_CEIL: i64 = 0x1000_0000_0000_0000;

/// A 3-vector of fixed-point world coordinates (milli-units).
#[derive(Clone, Copy, PartialEq, Eq, Structural, Debug, Hash)]
pub struct Vec3 {
    pub x: i64,
    pub y: i64,
    pub z: i64,
}

/// Component of `v` on axis `i` (0 = x, 1 = y, 2 = z).
pub open spec fn axis(v: Vec3, i: int) -> int {
    if i == 0 {
        v.x as int
    } else if i == 1 {
        v.y as int
    } else {
        v.z as int
    }
}

impl Vec3 {
    pub open spec fn bounded_by(self, l: int) -> bool {
        &&& -l <= self.x <= l
        &&& -l <= self.y <= l
        &&& -l <= self.z <= l
    }

    pub fn new(x: i64, y: i64, z: i64) -> (r: Vec3)
        ensures
            r == (Vec3 { x, y, z }),
    {
        Vec3 { x, y, z }
    }

    pub fn zero() -> (r: Vec3)
        ensures
            r == (Vec3 { x: 0i64, y: 0i64, z: 0i64 }),
    {
        Vec3 { x: 0, y: 0, z: 0 }
    }

    /// Componentwise sum.
    pub fn add_to(&self, o: &Vec3) -> (r: Vec3)
        requires
            self.bounded_by(COORD_CEIL as int),
            o.bounded_by(COORD_CEIL as int),
        ensures
            r.x == self.x + o.x,
            r.y == self.y + o.y,
            r.z == self.z + o.z,
    {
        Vec3 { x: self.x + o.x, y: self.y + o.y, z: self.z + o.z }
    }
}

/// An axis-aligned box given by its two extreme corners.
#[derive(Clone, Copy, PartialEq, Eq, Structural, Debug, Hash)]
pub struct Aabb {
    pub min: Vec3,
    pub max: Vec3,
}

impl Aabb {
    /// The box invariant: the corners are ordered on every axis.
    pub open spec fn wf(self) -> bool {
        &&& self.min.x <= self.max.x
        &&& self.min.y <= self.max.y
        &&& self.min.z <= self.max.z
    }

    pub open spec fn bounded_by(self, l: int) -> bool {
        self.min.bounded_by(l) && self.max.bounded_by(l)
    }

    /// Build a box from two corners. The corners are normalized
    /// componentwise (minimum and maximum taken per axis), so the result
    /// is well-formed whatever order the caller passes them in.
    pub fn new(p0: Vec3, p1: Vec3) -> (r: Aabb)
        ensures
            r.wf(),
            r.min.x == if p0.x <= p1.x { p0.x } else { p1.x },
            r.min.y == if p0.y <= p1.y { p0.y } else { p1.y },
            r.min.z == if p0.z <= p1.z { p0.z } else { p1.z },
            r.max.x == if p0.x <= p1.x { p1.x } else { p0.x },
            r.max.y == if p0.y <= p1.y { p1.y } else { p0.y },
            r.max.z == if p0.z <= p1.z { p1.z } else { p0.z },
    {
        let min = Vec3 {
            x: if p0.x <= p1.x { p0.x } else { p1.x },
            y: if p0.y <= p1.y { p0.y } else { p1.y },
            z: if p0.z <= p1.z { p0.z } else { p1.z },
        };
        let max = Vec3 {
            x: if p0.x <= p1.x { p1.x } else { p0.x },
            y: if p0.y <= p1.y { p1.y } else { p0.y },
            z: if p0.z <= p1.z { p1.z } else { p0.z },
        };
        Aabb { min, max }
    }

    /// Center of the box, each component rounded toward zero.
    pub open spec fn center_spec(self) -> Vec3 {
        Vec3 {
            x: tdiv(self.min.x + self.max.x, 2) as i64,
            y: tdiv(self.min.y + self.max.y, 2) as i64,
            z: tdiv(self.min.z + self.max.z, 2) as i64,
        }
    }

    pub fn center(&self) -> (r: Vec3)
        requires
            self.bounded_by(COORD_CEIL as int),
        ensures
            r == self.center_spec(),
    {
        Vec3 {
            x: div_trunc(self.min.x + self.max.x, 2),
            y: div_trunc(self.min.y + self.max.y, 2),
            z: div_trunc(self.min.z + self.max.z, 2),
        }
    }

    /// Extent of the box along the y axis.
    pub fn height(&self) -> (r: i64)
        requires
            self.wf(),
            self.bounded_by(COORD_CEIL as int),
        ensures
            r == self.max.y - self.min.y,
    {
        self.max.y - self.min.y
    }

    /// Extent of the box along the x axis.
    pub fn width_x(&self) -> (r: i64)
        requires
            self.wf(),
            self.bounded_by(COORD_CEIL as int),
        ensures
            r == self.max.x - self.min.x,
    {
        self.max.x - self.min.x
    }

    /// Extent of the box along the z axis.
    pub fn width_z(&self) -> (r: i64)
        requires
            self.wf(),
            self.bounded_by(COORD_CEIL as int),
        ensures
            r == self.max.z - self.min.z,
    {
        self.max.z - self.min.z
    }

    /// The box moved by `v`.
    pub open spec fn translate_spec(self, v: Vec3) -> Aabb {
        Aabb {
            min: Vec3 {
                x: (self.min.x + v.x) as i64,
                y: (self.min.y + v.y) as i64,
                z: (self.min.z + v.z) as i64,
            },
            max: Vec3 {
                x: (self.max.x + v.x) as i64,
                y: (self.max.y + v.y) as i64,
                z: (self.max.z + v.z) as i64,
            },
        }
    }

    pub fn translate(&self, v: Vec3) -> (r: Aabb)
        requires
            self.bounded_by(COORD_CEIL as int),
            v.bounded_by(COORD_CEIL as int),
        ensures
            r == self.translate_spec(v),
            self.wf() ==> r.wf(),
    {
        Aabb { min: self.min.add_to(&v), max: self.max.add_to(&v) }
    }

    /// The box of the same size re-anchored so that its minimum corner is
    /// exactly `position`.
    pub open spec fn translate_to_spec(self, position: Vec3) -> Aabb {
        Aabb {
            min: position,
            max: Vec3 {
                x: (position.x + (self.max.x - self.min.x)) as i64,
                y: (position.y + (self.max.y - self.min.y)) as i64,
                z: (position.z + (self.max.z - self.min.z)) as i64,
            },
        }
    }

    pub fn translate_to(&self, position: Vec3) -> (r: Aabb)
        requires
            self.bounded_by(COORD_CEIL as int),
            position.bounded_by(COORD_CEIL as int),
        ensures
            r == self.translate_to_spec(position),
            self.wf() ==> r.wf(),
    {
        Aabb {
            min: position,
            max: Vec3 {
                x: position.x + (self.max.x - self.min.x),
                y: position.y + (self.max.y - self.min.y),
                z: position.z + (self.max.z - self.min.z),
            },
        }
    }

    /// Closed overlap test: two boxes intersect when their coordinate
    /// ranges meet on every axis, and faces that exactly touch count as
    /// intersecting. This is the same closed convention the swept test
    /// applies to axes with no displacement.
    pub open spec fn intersects_spec(self, o: Aabb) -> bool {
        &&& self.min.x <= o.max.x && o.min.x <= self.max.x
        &&& self.min.y <= o.max.y && o.min.y <= self.max.y
        &&& self.min.z <= o.max.z && o.min.z <= self.max.z
    }

    pub fn intersects(&self, o: &Aabb) -> (r: bool)
        ensures
            r == self.intersects_spec(*o),
    {
        self.min.x <= o.max.x && o.min.x <= self.max.x && self.min.y <= o.max.y && o.min.y
            <= self.max.y && self.min.z <= o.max.z && o.min.z <= self.max.z
    }

    /// Face of the box that a point projects onto: the axis on which the
    /// point sticks out strictly farthest from the center wins, so on an
    /// exact tie the later axis prevails (x yields to y, y to z), and the
    /// sign of the offset picks the face.
    pub open spec fn projected_point_direction_spec(self, p: Vec3) -> Direction {
        let c = self.center_spec();
        let dx = p.x - c.x;
        let dy = p.y - c.y;
        let dz = p.z - c.z;
        if abs_int(dx) > abs_int(dy) && abs_int(dx) > abs_int(dz) {
            if dx > 0 {
                Direction::East
            } else {
                Direction::West
            }
        } else if abs_int(dy) > abs_int(dz) {
            if dy > 0 {
                Direction::Up
            } else {
                Direction::Down
            }
        } else if dz > 0 {
            Direction::South
        } else {
            Direction::North
        }
    }

    pub fn projected_point_direction(&self, p: Vec3) -> (r: Direction)
        requires
            self.bounded_by(COORD_CEIL as int),
            p.bounded_by(COORD_CEIL as int),
        ensures
            r == self.projected_point_direction_spec(p),
    {
        let c = self.center();
        let dx = p.x - c.x;
        let dy = p.y - c.y;
        let dz = p.z - c.z;
        let ax = abs64(dx);
        let ay = abs64(dy);
        let az = abs64(dz);
        if ax > ay && ax > az {
            if dx > 0 {
                Direction::East
            } else {
                Direction::West
            }
        } else if ay > az {
            if dy > 0 {
                Direction::Up
            } else {
                Direction::Down
            }
        } else if dz > 0 {
            Direction::South
        } else {
            Direction::North
        }
    }
}

pub open spec fn abs_int(a: int) -> int {
    if a >= 0 {
        a
    } else {
        -a
    }
}

pub fn abs64(a: i64) -> (r: i64)
    requires
        a > i64::MIN,
    ensures
        r == abs_int(a as int),
{
    if a >= 0 {
        a
    } else {
        -a
    }
}

/// Re-anchoring is idempotent: re-anchoring a box to a position it is
/// already anchored to leaves it bit-for-bit unchanged.
pub proof fn lemma_translate_to_idempotent(a: Aabb, p: Vec3)
    requires
        a.bounded_by(COORD_CEIL as int),
        p.bounded_by(COORD_CEIL as int),
    ensures
        a.translate_to_spec(p).translate_to_spec(p) == a.translate_to_spec(p),
{
}

} // verus!
