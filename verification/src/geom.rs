//! Plain integer geometry. Node positions come in on a fixed integer grid;
//! orientations are carried through unchanged as plain payloads. Socket
//! offsets are differences of grid positions and therefore need the wider
//! type.

use vstd::prelude::*;

verus! {

/// A position on the integer grid of the imported scene.
#[derive(Clone, Copy, Debug, PartialEq, Eq, Structural)]
pub struct Vec3 {
    pub x: i32,
    pub y: i32,
    pub z: i32,
}

/// An orientation, carried through the pipeline unchanged.
#[derive(Clone, Copy, Debug, PartialEq, Eq, Structural)]
pub struct Quat {
    pub x: i32,
    pub y: i32,
    pub z: i32,
    pub w: i32,
}

/// A node's placement: where it sits and how it is turned.
#[derive(Clone, Copy, Debug, PartialEq, Eq, Structural)]
pub struct Transform {
    pub translation: Vec3,
    pub rotation: Quat,
}

/// The difference of two grid positions. Wide enough that no pair of
/// positions can overflow it.
#[derive(Clone, Copy, Debug, PartialEq, Eq, Structural)]
pub struct Delta3 {
    pub x: i64,
    pub y: i64,
    pub z: i64,
}

/// The componentwise difference `a - b`.
pub open spec fn delta_of(a: Vec3, b: Vec3) -> Delta3 {
    Delta3 { x: (a.x - b.x) as i64, y: (a.y - b.y) as i64, z: (a.z - b.z) as i64 }
}

impl Delta3 {
    /// Computes `a - b`, componentwise.
    pub fn of_difference(a: Vec3, b: Vec3) -> (r: Delta3)
        ensures
            r == delta_of(a, b),
    {
        Delta3 {
            x: a.x as i64 - b.x as i64,
            y: a.y as i64 - b.y as i64,
            z: a.z as i64 - b.z as i64,
        }
    }
}

impl Vec3 {
    /// The origin.
    pub fn zero() -> (r: Vec3)
        ensures
            r == (Vec3 { x: 0, y: 0, z: 0 }),
    {
        Vec3 { x: 0, y: 0, z: 0 }
    }
}

impl Default for Transform {
    /// The identity placement.
    fn default() -> (r: Transform)
        ensures
            r == (Transform {
                translation: Vec3 { x: 0, y: 0, z: 0 },
                rotation: Quat { x: 0, y: 0, z: 0, w: 1 },
            }),
    {
        Transform {
            translation: Vec3 { x: 0, y: 0, z: 0 },
            rotation: Quat { x: 0, y: 0, z: 0, w: 1 },
        }
    }
}

} // verus!
