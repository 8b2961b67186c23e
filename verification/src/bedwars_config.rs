//! Plain configuration data shared with the game rules around the core:
//! integer block positions as they appear in the world configuration, and
//! the price tag of a shop offer.

use vstd::prelude::*;

verus! {

/// An integer 3-vector: a block coordinate or block-grid offset.
#[derive(Clone, Copy, PartialEq, Eq, Structural, Debug, Hash)]
pub struct ConfigVec3 {
    pub x: i32,
    pub y: i32,
    pub z: i32,
}

impl ConfigVec3 {
    pub fn new(x: i32, y: i32, z: i32) -> (r: ConfigVec3)
        ensures
            r == (ConfigVec3 { x, y, z }),
    {
        ConfigVec3 { x, y, z }
    }

    /// The unit step one block upward.
    pub fn up() -> (r: ConfigVec3)
        ensures
            r == (ConfigVec3 { x: 0i32, y: 1i32, z: 0i32 }),
    {
        ConfigVec3::new(0, 1, 0)
    }

    /// Componentwise sum of two block offsets.
    pub fn add_to(&self, rhs: &ConfigVec3) -> (r: ConfigVec3)
        requires
            -0x4000_0000 <= self.x + rhs.x <= 0x4000_0000,
            -0x4000_0000 <= self.y + rhs.y <= 0x4000_0000,
            -0x4000_0000 <= self.z + rhs.z <= 0x4000_0000,
        ensures
            r.x == self.x + rhs.x,
            r.y == self.y + rhs.y,
            r.z == self.z + rhs.z,
    {
        ConfigVec3 { x: self.x + rhs.x, y: self.y + rhs.y, z: self.z + rhs.z }
    }
}

/// The price of a shop offer: an item identifier and how many of it one
/// purchase costs.
#[derive(Clone, PartialEq, Eq, Debug)]
pub struct ShopPrice {
    pub item_id: String,
    pub stack_size: i8,
}

impl ShopPrice {
    pub fn new(item_id: String, stack_size: i8) -> (r: ShopPrice)
        ensures
            r.item_id == item_id,
            r.stack_size == stack_size,
    {
        ShopPrice { item_id, stack_size }
    }
}

} // verus!
