//! The enchantments the game rules care about, and the parsing of their
//! namespaced identifiers.

use vstd::prelude::*;
use vstd::string::StringSliceAdditionalSpecFns;
use crate::num::bytes_eq;

verus! {

#[derive(Clone, Copy, PartialEq, Eq, Structural, Debug, Hash)]
pub enum Enchantment {
    Sharpness,
    Knockback,
    Protection,
    Power,
    Punch,
    Infinity,
    FireAspect,
    Flame,
}

impl Enchantment {
    /// Which enchantment a namespaced identifier denotes, if any.
    pub open spec fn from_str_spec(bytes: Seq<u8>) -> Option<Enchantment> {
        if bytes == "minecraft:sharpness".spec_bytes() {
            Some(Enchantment::Sharpness)
        } else if bytes == "minecraft:knockback".spec_bytes() {
            Some(Enchantment::Knockback)
        } else if bytes == "minecraft:protection".spec_bytes() {
            Some(Enchantment::Protection)
        } else if bytes == "minecraft:power".spec_bytes() {
            Some(Enchantment::Power)
        } else if bytes == "minecraft:punch".spec_bytes() {
            Some(Enchantment::Punch)
        } else if bytes == "minecraft:infinity".spec_bytes() {
            Some(Enchantment::Infinity)
        } else if bytes == "minecraft:fire_aspect".spec_bytes() {
            Some(Enchantment::FireAspect)
        } else if bytes == "minecraft:flame".spec_bytes() {
            Some(Enchantment::Flame)
        } else {
            None
        }
    }

    /// Parse a namespaced enchantment identifier.
    pub fn from_str(string_id: &str) -> (r: Option<Enchantment>)
        ensures
            r == Enchantment::from_str_spec(string_id.spec_bytes()),
    {
        let b = string_id.as_bytes();
        if bytes_eq(b, "minecraft:sharpness".as_bytes()) {
            Some(Enchantment::Sharpness)
        } else if bytes_eq(b, "minecraft:knockback".as_bytes()) {
            Some(Enchantment::Knockback)
        } else if bytes_eq(b, "minecraft:protection".as_bytes()) {
            Some(Enchantment::Protection)
        } else if bytes_eq(b, "minecraft:power".as_bytes()) {
            Some(Enchantment::Power)
        } else if bytes_eq(b, "minecraft:punch".as_bytes()) {
            Some(Enchantment::Punch)
        } else if bytes_eq(b, "minecraft:infinity".as_bytes()) {
            Some(Enchantment::Infinity)
        } else if bytes_eq(b, "minecraft:fire_aspect".as_bytes()) {
            Some(Enchantment::FireAspect)
        } else if bytes_eq(b, "minecraft:flame".as_bytes()) {
            Some(Enchantment::Flame)
        } else {
            None
        }
    }
}

} // verus!
