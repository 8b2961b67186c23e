//! The read-only snapshot of world block geometry that one simulation
//! tick works against. The world store itself is owned elsewhere and may
//! change between ticks; the integrator only ever queries a snapshot of
//! it, one cell at a time, and treats a cell it knows nothing about as
//! empty space.
//!
//! Each cell contributes zero or more convex solid boxes in cell-local
//! coordinates (a full cube is `[0, UNIT]` on every axis); a cell with no
//! boxes contributes no geometry at all.

use vstd::prelude::*;
use crate::aabb::Aabb;
use crate::aabb::Vec3;
use crate::bedwars_config::ConfigVec3;
use crate::num::UNIT;
use crate::num::POS_LIMIT;
use crate::ray_cast::SCAN_LIMIT;
use crate::ray_cast::aabb_full_block_intersections;
use crate::ray_cast::block_cover_spec;

verus! {

/// One voxel cell: its integer coordinate and its solid sub-boxes in
/// cell-local milli-unit coordinates.
pub struct WorldCell {
    pub pos: ConfigVec3,
    pub shapes: Vec<Aabb>,
}

/// A queryable snapshot of block geometry for the duration of one tick.
pub struct WorldSnapshot {
    pub cells: Vec<WorldCell>,
}

/// First-match lookup of a cell's geometry in a run of cells.
pub open spec fn geom_lookup(cells: Seq<WorldCell>, p: ConfigVec3) -> Seq<Aabb>
    decreases cells.len(),
{
    if cells.len() == 0 {
        Seq::empty()
    } else if cells[0].pos == p {
        cells[0].shapes@
    } else {
        geom_lookup(cells.drop_first(), p)
    }
}

impl WorldSnapshot {
    /// The geometry this snapshot holds at cell `p` (empty for a cell it
    /// knows nothing about).
    pub open spec fn geom(self, p: ConfigVec3) -> Seq<Aabb> {
        geom_lookup(self.cells@, p)
    }

    /// Every stored shape is an ordered box of bounded size.
    pub open spec fn wf(self) -> bool {
        forall|p: ConfigVec3, k: int|
            0 <= k < self.geom(p).len() ==> (#[trigger] self.geom(p)[k]).wf() && self.geom(
                p,
            )[k].bounded_by(POS_LIMIT as int)
    }

    pub fn new() -> (r: WorldSnapshot)
        ensures
            r.wf(),
            forall|p: ConfigVec3| (#[trigger] r.geom(p)).len() == 0,
    {
        WorldSnapshot { cells: Vec::new() }
    }

    /// Record the geometry of cell `pos`, replacing whatever the
    /// snapshot held for it.
    pub fn set_block(&mut self, pos: ConfigVec3, shapes: Vec<Aabb>)
        requires
            old(self).wf(),
            forall|k: int|
                0 <= k < shapes@.len() ==> (#[trigger] shapes@[k]).wf() && shapes@[k].bounded_by(
                    POS_LIMIT as int,
                ),
        ensures
            final(self).wf(),
            final(self).geom(pos) == shapes@,
            forall|q: ConfigVec3| q != pos ==> #[trigger] final(self).geom(q) == old(self).geom(q),
    {
        let ghost old_cells = self.cells@;
        let cell = WorldCell { pos, shapes };
        self.cells.insert(0, cell);
        proof {
            assert(self.cells@.drop_first() =~= old_cells);
            assert forall|q: ConfigVec3| q != pos implies #[trigger] self.geom(q) == geom_lookup(
                old_cells,
                q,
            ) by {}
            assert forall|p: ConfigVec3, k: int|
                0 <= k < self.geom(p).len() implies (#[trigger] self.geom(p)[k]).wf() && self.geom(
                p,
            )[k].bounded_by(POS_LIMIT as int) by {
                if p == pos {
                    assert(self.geom(p) == shapes@);
                } else {
                    assert(self.geom(p) == old(self).geom(p));
                    assert((old(self).geom(p)[k]).wf() && old(self).geom(p)[k].bounded_by(
                        POS_LIMIT as int,
                    ));
                }
            }
        }
    }

    /// The world-geometry query of one candidate cell: the solid boxes
    /// the snapshot holds there, or nothing for an unknown cell.
    pub fn block_at(&self, pos: &ConfigVec3) -> (r: Option<&Vec<Aabb>>)
        ensures
            match r {
                Some(v) => v@ == self.geom(*pos) && v@.len() > 0,
                None => self.geom(*pos).len() == 0,
            },
    {
        let n = self.cells.len();
        proof {
            assert(self.cells@.skip(0) =~= self.cells@);
        }
        let mut i: usize = 0;
        while i < n
            invariant
                0 <= i <= n,
                n == self.cells@.len(),
                geom_lookup(self.cells@.skip(i as int), *pos) == self.geom(*pos),
            decreases n - i,
        {
            proof {
                assert(self.cells@.skip(i as int)[0] == self.cells@[i as int]);
                assert(self.cells@.skip(i as int).drop_first() =~= self.cells@.skip(i as int + 1));
            }
            if self.cells[i].pos.x == pos.x && self.cells[i].pos.y == pos.y && self.cells[i].pos.z
                == pos.z {
                let shapes = &self.cells[i].shapes;
                if shapes.len() > 0 {
                    return Some(shapes);
                } else {
                    return None;
                }
            }
            i = i + 1;
        }
        proof {
            assert(self.cells@.skip(n as int) =~= Seq::<WorldCell>::empty());
        }
        None
    }
}

/// The center of a block cell, in world milli-unit coordinates.
pub fn get_block_center(pos: &ConfigVec3) -> (r: Vec3)
    ensures
        r.x == pos.x * UNIT + UNIT / 2,
        r.y == pos.y * UNIT + UNIT / 2,
        r.z == pos.z * UNIT + UNIT / 2,
{
    Vec3 {
        x: (pos.x as i64) * UNIT + UNIT / 2,
        y: (pos.y as i64) * UNIT + UNIT / 2,
        z: (pos.z as i64) * UNIT + UNIT / 2,
    }
}

/// A hitbox stands on ground when the box, stretched one milli-unit
/// downward, reaches into some cell that contributes solid geometry.
pub open spec fn supported_spec(world: WorldSnapshot, hitbox: Aabb) -> bool {
    exists|p: ConfigVec3|
        (#[trigger] world.geom(p)).len() > 0 && block_cover_spec(
            Aabb {
                min: Vec3 { x: hitbox.min.x, y: (hitbox.min.y - 1) as i64, z: hitbox.min.z },
                max: hitbox.max,
            },
        ).contains(p)
}

/// Whether the hitbox rests on solid geometry: its footprint, stretched
/// one milli-unit downward, touches a cell that contributes a solid box.
pub fn is_on_ground(hitbox: &Aabb, world: &WorldSnapshot) -> (r: bool)
    requires
        hitbox.wf(),
        hitbox.bounded_by((SCAN_LIMIT - 1) as int),
    ensures
        r == supported_spec(*world, *hitbox),
{
    let extended = Aabb {
        min: Vec3 { x: hitbox.min.x, y: hitbox.min.y - 1, z: hitbox.min.z },
        max: hitbox.max,
    };
    let blocks = aabb_full_block_intersections(&extended);
    let n = blocks.len();
    let mut i: usize = 0;
    while i < n
        invariant
            0 <= i <= n,
            n == blocks@.len(),
            blocks@ == block_cover_spec(extended),
            extended.min.x == hitbox.min.x && extended.min.y == hitbox.min.y - 1
                && extended.min.z == hitbox.min.z && extended.max == hitbox.max,
            forall|j: int| 0 <= j < i ==> (#[trigger] world.geom(blocks@[j])).len() == 0,
        decreases n - i,
    {
        let cell = blocks[i];
        if world.block_at(&cell).is_some() {
            return true;
        }
        i = i + 1;
    }
    proof {
        if supported_spec(*world, *hitbox) {
            let p = choose|p: ConfigVec3|
                (#[trigger] world.geom(p)).len() > 0 && block_cover_spec(extended).contains(p);
            let j = choose|j: int| 0 <= j < blocks@.len() && blocks@[j] == p;
        }
    }
    false
}

} // verus!
