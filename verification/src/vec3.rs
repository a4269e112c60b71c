//! Points and directions of space.

use vstd::prelude::*;

verus! {

/// A point of space, by the keys of its three coordinates.
#[derive(Clone, Copy, Debug, PartialEq, Eq, Structural)]
pub struct Vec3 {
    pub x: i64,
    pub y: i64,
    pub z: i64,
}

impl Vec3 {
    pub fn new(x: i64, y: i64, z: i64) -> (res: Self)
        ensures
            res.x == x,
            res.y == y,
            res.z == z,
    {
        Self { x, y, z }
    }
}

pub fn v3(x: i64, y: i64, z: i64) -> (res: Vec3)
    ensures
        res.x == x,
        res.y == y,
        res.z == z,
{
    Vec3::new(x, y, z)
}

} // verus!
