//! Points and directions in space, with fixed-point components.
use crate::fixed::{
    clamp, divide, floor_sqrt, is_floor_sqrt, isqrt, lemma_floor_sqrt_exists, magnitude, quotient,
    saturate, Fixed, SCALE,
};
use vstd::prelude::*;

verus! {

/// A vector of three fixed-point components.
#[derive(Clone, Copy, PartialEq, Eq, Debug, Structural)]
pub struct Vec3 {
    pub x: Fixed,
    pub y: Fixed,
    pub z: Fixed,
}

/// The gap between two raw coordinates.
pub fn gap(a: i64, b: i64) -> (r: u64)
    ensures
        r == magnitude(a - b),
{
    let d: i128 = a as i128 - b as i128;
    if d < 0 {
        (-d) as u64
    } else {
        d as u64
    }
}

/// The square of a gap.
fn squared(d: u64) -> (r: u128)
    ensures
        r == d * d,
{
    assert(d * d <= 0xffff_ffff_ffff_ffff * 0xffff_ffff_ffff_ffff) by (nonlinear_arith)
        requires
            0 <= d <= 0xffff_ffff_ffff_ffff,
    ;
    (d as u128) * (d as u128)
}

/// Whether three gaps span a distance whose square is at most `bound`.
fn squares_within(dx: u64, dy: u64, dz: u64, bound: u128) -> (r: bool)
    ensures
        r == (dx * dx + dy * dy + dz * dz <= bound),
{
    let sx: u128 = squared(dx);
    if sx > bound {
        return false;
    }
    let left: u128 = bound - sx;
    let sy: u128 = squared(dy);
    if sy > left {
        return false;
    }
    squared(dz) <= left - sy
}

impl Vec3 {
    /// The vector with the given components.
    pub fn new(x: Fixed, y: Fixed, z: Fixed) -> (r: Vec3)
        ensures
            r == (Vec3 { x, y, z }),
    {
        Vec3 { x, y, z }
    }

    /// The vector whose components are whole numbers.
    pub fn from_ints(x: i32, y: i32, z: i32) -> (r: Vec3)
        ensures
            r.x.raw == x * SCALE,
            r.y.raw == y * SCALE,
            r.z.raw == z * SCALE,
    {
        Vec3 { x: Fixed::from_int(x), y: Fixed::from_int(y), z: Fixed::from_int(z) }
    }

    /// The vector of length zero.
    pub open spec fn spec_zero() -> Vec3 {
        Vec3 { x: Fixed::zero(), y: Fixed::zero(), z: Fixed::zero() }
    }

    /// The vector of length zero.
    #[verifier::when_used_as_spec(spec_zero)]
    pub fn zero() -> (r: Vec3)
        ensures
            r == Vec3::spec_zero(),
    {
        Vec3 { x: Fixed::zero(), y: Fixed::zero(), z: Fixed::zero() }
    }

    /// The vector whose components are all one.
    pub open spec fn spec_one() -> Vec3 {
        Vec3 { x: Fixed::one(), y: Fixed::one(), z: Fixed::one() }
    }

    /// The vector whose components are all one.
    #[verifier::when_used_as_spec(spec_one)]
    pub fn one() -> (r: Vec3)
        ensures
            r == Vec3::spec_one(),
    {
        Vec3 { x: Fixed::one(), y: Fixed::one(), z: Fixed::one() }
    }

    /// The sum, component by component.
    pub open spec fn spec_plus(self, rhs: Vec3) -> Vec3 {
        Vec3 { x: self.x.plus(rhs.x), y: self.y.plus(rhs.y), z: self.z.plus(rhs.z) }
    }

    /// Adds two vectors component by component.
    #[verifier::when_used_as_spec(spec_plus)]
    pub fn plus(self, rhs: Vec3) -> (r: Vec3)
        ensures
            r == self.spec_plus(rhs),
    {
        Vec3 { x: self.x.plus(rhs.x), y: self.y.plus(rhs.y), z: self.z.plus(rhs.z) }
    }

    /// The difference, component by component.
    pub open spec fn spec_minus(self, rhs: Vec3) -> Vec3 {
        Vec3 { x: self.x.minus(rhs.x), y: self.y.minus(rhs.y), z: self.z.minus(rhs.z) }
    }

    /// Subtracts `rhs` component by component.
    #[verifier::when_used_as_spec(spec_minus)]
    pub fn minus(self, rhs: Vec3) -> (r: Vec3)
        ensures
            r == self.spec_minus(rhs),
    {
        Vec3 { x: self.x.minus(rhs.x), y: self.y.minus(rhs.y), z: self.z.minus(rhs.z) }
    }

    /// Each component multiplied by `k`.
    pub open spec fn spec_scaled(self, k: Fixed) -> Vec3 {
        Vec3 { x: self.x.times(k), y: self.y.times(k), z: self.z.times(k) }
    }

    /// Multiplies each component by `k`.
    #[verifier::when_used_as_spec(spec_scaled)]
    pub fn scaled(self, k: Fixed) -> (r: Vec3)
        ensures
            r == self.spec_scaled(k),
    {
        Vec3 { x: self.x.times(k), y: self.y.times(k), z: self.z.times(k) }
    }

    /// Each component divided by a nonzero `k`.
    pub open spec fn spec_over(self, k: Fixed) -> Vec3 {
        Vec3 { x: self.x.over(k), y: self.y.over(k), z: self.z.over(k) }
    }

    /// Divides each component by a nonzero `k`.
    #[verifier::when_used_as_spec(spec_over)]
    pub fn over(self, k: Fixed) -> (r: Vec3)
        requires
            k.raw != 0,
        ensures
            r == self.spec_over(k),
    {
        Vec3 { x: self.x.over(k), y: self.y.over(k), z: self.z.over(k) }
    }

    /// The squared length, in squared raw units, without rounding.
    pub open spec fn spec_square_sum(self) -> int {
        self.x.raw * self.x.raw + self.y.raw * self.y.raw + self.z.raw * self.z.raw
    }

    /// Computes the squared length in squared raw units, without rounding.
    pub fn square_sum(self) -> (r: u128)
        ensures
            r == self.spec_square_sum(),
    {
        let sx: u128 = squared(gap(self.x.raw, 0));
        let sy: u128 = squared(gap(self.y.raw, 0));
        let sz: u128 = squared(gap(self.z.raw, 0));
        proof {
            lemma_gap_square(self.x.raw as int, 0);
            lemma_gap_square(self.y.raw as int, 0);
            lemma_gap_square(self.z.raw as int, 0);
        }
        assert(sx <= 0x4000_0000_0000_0000_0000_0000_0000_0000) by (nonlinear_arith)
            requires
                sx == self.x.raw * self.x.raw,
                -0x8000_0000_0000_0000 <= self.x.raw <= 0x8000_0000_0000_0000,
        ;
        assert(sy <= 0x4000_0000_0000_0000_0000_0000_0000_0000) by (nonlinear_arith)
            requires
                sy == self.y.raw * self.y.raw,
                -0x8000_0000_0000_0000 <= self.y.raw <= 0x8000_0000_0000_0000,
        ;
        assert(sz <= 0x4000_0000_0000_0000_0000_0000_0000_0000) by (nonlinear_arith)
            requires
                sz == self.z.raw * self.z.raw,
                -0x8000_0000_0000_0000 <= self.z.raw <= 0x8000_0000_0000_0000,
        ;
        sx + sy + sz
    }

    /// Whether every component is zero.
    pub fn is_zero(self) -> (r: bool)
        ensures
            r == (self == Vec3::zero()),
            r == (self.spec_square_sum() == 0),
    {
        proof {
            lemma_square_sum_zero(self);
        }
        self.x.raw == 0 && self.y.raw == 0 && self.z.raw == 0
    }

    /// The length in raw units, rounded down.
    pub open spec fn spec_length(self) -> int {
        floor_sqrt(self.spec_square_sum())
    }

    /// Computes the length in raw units, rounded down.
    pub fn length(self) -> (r: u64)
        ensures
            r == self.spec_length(),
    {
        isqrt(self.square_sum())
    }

    /// One component of the direction of a vector of the given length.
    pub open spec fn unit_component(c: Fixed, len: int) -> Fixed {
        Fixed { raw: clamp(quotient(c.raw * SCALE, len)) as i64 }
    }

    /// The vector of length one that points the same way; the zero vector
    /// stays as it is. Each component is rounded toward zero.
    pub open spec fn spec_normalized(self) -> Vec3 {
        let len = self.spec_length();
        if len == 0 {
            Vec3::zero()
        } else {
            Vec3 {
                x: Vec3::unit_component(self.x, len),
                y: Vec3::unit_component(self.y, len),
                z: Vec3::unit_component(self.z, len),
            }
        }
    }

    /// Scales the vector to length one, rounding each component toward zero;
    /// the zero vector stays as it is.
    #[verifier::when_used_as_spec(spec_normalized)]
    pub fn normalized(self) -> (r: Vec3)
        ensures
            r == self.spec_normalized(),
    {
        let len: u64 = self.length();
        if len == 0 {
            Vec3::zero()
        } else {
            Vec3 {
                x: unit(self.x, len),
                y: unit(self.y, len),
                z: unit(self.z, len),
            }
        }
    }

    /// The squared distance to `other`, in squared raw units, without rounding.
    pub open spec fn distance_squared(self, other: Vec3) -> int {
        (self.x.raw - other.x.raw) * (self.x.raw - other.x.raw) + (self.y.raw - other.y.raw) * (
        self.y.raw - other.y.raw) + (self.z.raw - other.z.raw) * (self.z.raw - other.z.raw)
    }

    /// Whether `other` lies at most `a + b` away, decided without rounding.
    pub open spec fn spec_within(self, other: Vec3, a: Fixed, b: Fixed) -> bool {
        a.raw + b.raw >= 0 && self.distance_squared(other) <= (a.raw + b.raw) * (a.raw + b.raw)
    }

    /// Decides whether `other` lies at most `a + b` away. Nothing is rounded
    /// and nothing saturates.
    #[verifier::when_used_as_spec(spec_within)]
    pub fn within(self, other: Vec3, a: Fixed, b: Fixed) -> (r: bool)
        ensures
            r == self.spec_within(other, a, b),
    {
        let reach: i128 = a.raw as i128 + b.raw as i128;
        if reach < 0 {
            return false;
        }
        let bound: u128 = squared(reach as u64);
        let dx: u64 = gap(self.x.raw, other.x.raw);
        let dy: u64 = gap(self.y.raw, other.y.raw);
        let dz: u64 = gap(self.z.raw, other.z.raw);
        proof {
            lemma_gap_square(self.x.raw as int, other.x.raw as int);
            lemma_gap_square(self.y.raw as int, other.y.raw as int);
            lemma_gap_square(self.z.raw as int, other.z.raw as int);
        }
        squares_within(dx, dy, dz, bound)
    }

    /// Whether `other` lies less than `a + b` away, decided without rounding.
    pub open spec fn spec_closer_than(self, other: Vec3, a: Fixed, b: Fixed) -> bool {
        a.raw + b.raw > 0 && self.distance_squared(other) < (a.raw + b.raw) * (a.raw + b.raw)
    }

    /// Decides whether `other` lies less than `a + b` away. Nothing is
    /// rounded and nothing saturates.
    #[verifier::when_used_as_spec(spec_closer_than)]
    pub fn closer_than(self, other: Vec3, a: Fixed, b: Fixed) -> (r: bool)
        ensures
            r == self.spec_closer_than(other, a, b),
    {
        let reach: i128 = a.raw as i128 + b.raw as i128;
        if reach <= 0 {
            return false;
        }
        let bound: u128 = squared(reach as u64);
        assert(bound >= 1) by (nonlinear_arith)
            requires
                bound == reach * reach,
                reach >= 1,
        ;
        let dx: u64 = gap(self.x.raw, other.x.raw);
        let dy: u64 = gap(self.y.raw, other.y.raw);
        let dz: u64 = gap(self.z.raw, other.z.raw);
        proof {
            lemma_gap_square(self.x.raw as int, other.x.raw as int);
            lemma_gap_square(self.y.raw as int, other.y.raw as int);
            lemma_gap_square(self.z.raw as int, other.z.raw as int);
        }
        squares_within(dx, dy, dz, bound - 1)
    }
}

/// Computes one component of a direction.
fn unit(c: Fixed, len: u64) -> (r: Fixed)
    requires
        len > 0,
    ensures
        r == Vec3::unit_component(c, len as int),
{
    let a: i128 = c.raw as i128;
    assert(-0x4000_0000_0000_0000_0000_0000_0000_0000 <= a * (SCALE as i128)
        <= 0x4000_0000_0000_0000_0000_0000_0000_0000) by (nonlinear_arith)
        requires
            -0x8000_0000_0000_0000 <= a <= 0x8000_0000_0000_0000,
            SCALE == 1_000_000_000,
    ;
    Fixed { raw: saturate(divide(a * (SCALE as i128), len as i128)) }
}

/// The square of a gap is the square of the difference.
pub proof fn lemma_gap_square(a: int, b: int)
    ensures
        magnitude(a - b) * magnitude(a - b) == (a - b) * (a - b),
{
    assert(magnitude(a - b) * magnitude(a - b) == (a - b) * (a - b))
        by (nonlinear_arith);
}

/// The length of a vector is the square root of its squared length, rounded
/// down.
pub proof fn lemma_length(v: Vec3)
    ensures
        is_floor_sqrt(v.spec_square_sum(), v.spec_length()),
{
    let n = v.spec_square_sum();
    let x = v.x.raw as int;
    let y = v.y.raw as int;
    let z = v.z.raw as int;
    assert(x * x >= 0 && y * y >= 0 && z * z >= 0) by (nonlinear_arith);
    lemma_floor_sqrt_exists(n);
}

/// Only the zero vector has squared length zero.
pub proof fn lemma_square_sum_zero(v: Vec3)
    ensures
        (v.spec_square_sum() == 0) == (v == Vec3::zero()),
{
    let x = v.x.raw as int;
    let y = v.y.raw as int;
    let z = v.z.raw as int;
    assert(x * x >= 0 && (x * x == 0 ==> x == 0)) by (nonlinear_arith);
    assert(y * y >= 0 && (y * y == 0 ==> y == 0)) by (nonlinear_arith);
    assert(z * z >= 0 && (z * z == 0 ==> z == 0)) by (nonlinear_arith);
}

} // verus!
