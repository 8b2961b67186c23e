//! Simulation core of a tick-based multiplayer game server: swept-AABB
//! collision against a voxel world, per-tick physics integration (drag,
//! gravity, terminal velocity), entity-vs-entity overlap events, and the
//! small data types the surrounding game rules share with the core.
//!
//! All world coordinates are fixed-point integers in milli-units: one block
//! is `UNIT` (1000) milli-units wide. Times within a step are exact
//! rational fractions, so the time-of-impact arithmetic is free of rounding
//! on the colliding axis and an entity stopped by a wall ends up exactly
//! flush with it.

pub mod num;
pub mod direction;
pub mod aabb;
pub mod bedwars_config;
pub mod ray_cast;
pub mod world;
pub mod physics;
pub mod colors;
pub mod enchantments;
pub mod match_state;
pub mod lobby;
pub mod shop;
pub mod commands;

use vstd::prelude::*;

verus! {

} // verus!
