//! Positions and orientations as the library sees them.
//!
//! Positions are fixed-point: each coordinate is an integer number of units,
//! where a unit is chosen by the caller (the server uses a thousandth of a
//! world unit). All distance arithmetic is exact, so the aura threshold has no
//! rounding at its boundary.
use vstd::prelude::*;

verus! {

/// A point in world space, in fixed-point units.
#[derive(Clone, Copy, Debug, PartialEq, Eq, Structural)]
pub struct Vec3 {
    pub x: i32,
    pub y: i32,
    pub z: i32,
}

/// A reported position: the fixed-point point that distances are computed
/// on, and the bit patterns of the three single-precision coordinates the
/// client sent, which are relayed and read back unchanged.
#[derive(Clone, Copy, Debug)]
pub struct Position {
    pub at: Vec3,
    pub bits: [u32; 3],
}

/// An orientation matrix, row-major, each entry the IEEE-754 bit pattern of a
/// single-precision number. The library stores and relays it without
/// computing with it.
#[derive(Clone, Copy, Debug)]
pub struct Mat3 {
    pub data: [u32; 9],
}

/// The square of the Euclidean distance between two points.
pub open spec fn dist_sqr(a: Vec3, b: Vec3) -> int {
    (a.x - b.x) * (a.x - b.x) + (a.y - b.y) * (a.y - b.y) + (a.z - b.z) * (a.z - b.z)
}

/// Whether two points are within `radius` of each other (boundary included).
pub open spec fn within_radius(a: Vec3, b: Vec3, radius: u32) -> bool {
    dist_sqr(a, b) <= radius * radius
}

/// The square of one coordinate difference, computed exactly.
fn diff_sqr(a: i32, b: i32) -> (r: u128)
    ensures
        r == (a - b) * (a - b),
        r <= 0x1_0000_0000_0000_0000u128,
{
    let d: i64 = a as i64 - b as i64;
    let m: u64 = if d < 0 { (-d) as u64 } else { d as u64 };
    assert(m <= 0x1_0000_0000u64);
    proof {
        assert(m * m <= 0x1_0000_0000u64 * 0x1_0000_0000u64) by (nonlinear_arith)
            requires m <= 0x1_0000_0000u64;
        assert((a - b) * (a - b) == m * m) by (nonlinear_arith)
            requires m == a - b || m == b - a;
    }
    (m as u128) * (m as u128)
}

impl Vec3 {
    pub fn new(x: i32, y: i32, z: i32) -> (r: Vec3)
        ensures
            r == (Vec3 { x, y, z }),
    {
        Vec3 { x, y, z }
    }

    /// The origin, where a session stands until it first reports a position.
    pub fn origin() -> (r: Vec3)
        ensures
            r == (Vec3 { x: 0, y: 0, z: 0 }),
    {
        Vec3 { x: 0, y: 0, z: 0 }
    }

    /// The square of the distance to `other`, exact.
    pub fn distance_sqr(&self, other: &Vec3) -> (r: u128)
        ensures
            r == dist_sqr(*self, *other),
    {
        let dx = diff_sqr(self.x, other.x);
        let dy = diff_sqr(self.y, other.y);
        let dz = diff_sqr(self.z, other.z);
        dx + dy + dz
    }

    /// Whether `other` lies within `radius` of this point.
    pub fn is_within(&self, other: &Vec3, radius: u32) -> (r: bool)
        ensures
            r == within_radius(*self, *other, radius),
    {
        proof {
            assert(radius * radius <= 0xffff_ffffu32 * 0xffff_ffffu32) by (nonlinear_arith)
                requires radius <= 0xffff_ffffu32;
        }
        let r2: u128 = (radius as u128) * (radius as u128);
        self.distance_sqr(other) <= r2
    }
}

impl Position {
    pub fn new(at: Vec3, bits: [u32; 3]) -> (r: Position)
        ensures
            r.at == at,
            r.bits == bits,
    {
        Position { at, bits }
    }

    /// The origin, where a session stands until it first reports a position.
    pub fn origin() -> (r: Position)
        ensures
            r.at == (Vec3 { x: 0, y: 0, z: 0 }),
            r.bits@ == seq![0u32, 0, 0],
    {
        Position { at: Vec3::origin(), bits: [0u32; 3] }
    }
}

impl Mat3 {
    /// The all-zero matrix, held until a session first reports a transform.
    pub fn new() -> (r: Mat3)
        ensures
            r.data@ == seq![0u32, 0, 0, 0, 0, 0, 0, 0, 0],
    {
        Mat3 { data: [0u32; 9] }
    }
}

} // verus!
