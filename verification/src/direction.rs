//! The six axis-aligned face directions of the voxel world and their
//! compact one-byte encoding, used by the stuck-side bitmask and by the
//! block-collision events.

use vstd::prelude::*;

verus! {

#[derive(Clone, Copy, PartialEq, Eq, Structural, Debug, Hash)]
pub enum Direction {
    Down,
    Up,
    North,
    South,
    West,
    East,
}

pub open spec fn direction_index(d: Direction) -> int {
    match d {
        Direction::Down => 0,
        Direction::Up => 1,
        Direction::North => 2,
        Direction::South => 3,
        Direction::West => 4,
        Direction::East => 5,
    }
}

impl Direction {
    /// The compact encoding used by the stuck-side bitmask.
    pub fn as_u8(&self) -> (r: u8)
        ensures
            r == direction_index(*self),
    {
        match self {
            Direction::Down => 0,
            Direction::Up => 1,
            Direction::North => 2,
            Direction::South => 3,
            Direction::West => 4,
            Direction::East => 5,
        }
    }

    /// Inverse of `as_u8`; values above five encode no direction.
    pub fn from_u8(value: u8) -> (r: Direction)
        requires
            value < 6,
        ensures
            direction_index(r) == value,
    {
        if value == 0 {
            Direction::Down
        } else if value == 1 {
            Direction::Up
        } else if value == 2 {
            Direction::North
        } else if value == 3 {
            Direction::South
        } else if value == 4 {
            Direction::West
        } else {
            Direction::East
        }
    }
}

} // verus!
