//! A two-component integer vector.
use vstd::prelude::*;
use crate::engine::scalar::{divide, isqrt, narrow, quotient, saturate, square};

verus! {

/// A 2d vector on the integer lattice, which supports all basic operations.
///
/// The operations saturate: a component that would leave the `i64` range
/// takes the nearest value of the range. Two vectors are equal when their
/// components are; on the lattice there is no tolerance below one unit.
#[derive(Clone, Copy, Debug, PartialEq, Eq, Structural)]
pub struct Vec2d {
    pub x: i64,
    pub y: i64,
}

impl Vec2d {
    /// Creates a new Vec2d
    pub fn new(x: i64, y: i64) -> (v: Vec2d)
        ensures
            v.x == x,
            v.y == y,
    {
        Vec2d { x, y }
    }

    /// The squared Euclidean length.
    pub open spec fn norm_squared(self) -> int {
        self.x * self.x + self.y * self.y
    }

    /// Calculates the length of a Vec2d, rounded down to a whole unit
    pub fn len(&self) -> (r: u64)
        ensures
            r * r <= self.norm_squared(),
            self.norm_squared() < (r + 1) * (r + 1),
            r == 0 <==> (self.x == 0 && self.y == 0),
    {
        let sx: u128 = square(self.x);
        let sy: u128 = square(self.y);
        let r: u64 = isqrt(sx + sy);
        proof {
            if r == 0 {
                assert((r + 1) * (r + 1) == 1) by (nonlinear_arith)
                    requires
                        r == 0,
                ;
                assert(self.x * self.x >= 0 && self.y * self.y >= 0) by (nonlinear_arith);
                assert(self.x == 0) by (nonlinear_arith)
                    requires
                        self.x * self.x <= 0,
                ;
                assert(self.y == 0) by (nonlinear_arith)
                    requires
                        self.y * self.y <= 0,
                ;
            } else {
                assert(r * r >= 1) by (nonlinear_arith)
                    requires
                        r >= 1,
                ;
            }
        }
        r
    }

    /// The componentwise sum, saturated.
    pub open spec fn plus(self, rhs: Vec2d) -> Vec2d {
        Vec2d { x: saturate(self.x + rhs.x) as i64, y: saturate(self.y + rhs.y) as i64 }
    }

    /// The vector that points the other way, saturated.
    pub open spec fn negated(self) -> Vec2d {
        Vec2d { x: saturate(-self.x) as i64, y: saturate(-self.y) as i64 }
    }

    /// The componentwise difference, saturated.
    pub open spec fn minus(self, rhs: Vec2d) -> Vec2d {
        Vec2d { x: saturate(self.x - rhs.x) as i64, y: saturate(self.y - rhs.y) as i64 }
    }

    /// Both components multiplied by `k`, saturated.
    pub open spec fn scaled(self, k: int) -> Vec2d {
        Vec2d { x: saturate(self.x * k) as i64, y: saturate(self.y * k) as i64 }
    }

    /// Both components divided by `k`, rounded toward zero and saturated.
    pub open spec fn shrunk(self, k: int) -> Vec2d {
        Vec2d { x: saturate(quotient(self.x as int, k)) as i64, y: saturate(quotient(self.y as int, k)) as i64 }
    }
}

impl core::ops::Add for Vec2d {
    type Output = Vec2d;

    fn add(self, rhs: Vec2d) -> (sum: Vec2d) {
        Vec2d::new(narrow(self.x as i128 + rhs.x as i128), narrow(self.y as i128 + rhs.y as i128))
    }
}

impl vstd::std_specs::ops::AddSpecImpl for Vec2d {
    open spec fn obeys_add_spec() -> bool {
        true
    }

    open spec fn add_req(self, rhs: Vec2d) -> bool {
        true
    }

    open spec fn add_spec(self, rhs: Vec2d) -> Vec2d {
        self.plus(rhs)
    }
}

impl core::ops::AddAssign for Vec2d {
    fn add_assign(&mut self, rhs: Vec2d)
        ensures
            *final(self) == old(self).plus(rhs),
    {
        self.x = narrow(self.x as i128 + rhs.x as i128);
        self.y = narrow(self.y as i128 + rhs.y as i128);
    }
}

impl core::ops::Neg for Vec2d {
    type Output = Vec2d;

    fn neg(self) -> (opposite: Vec2d) {
        Vec2d::new(narrow(-(self.x as i128)), narrow(-(self.y as i128)))
    }
}

impl vstd::std_specs::ops::NegSpecImpl for Vec2d {
    open spec fn obeys_neg_spec() -> bool {
        true
    }

    open spec fn neg_req(self) -> bool {
        true
    }

    open spec fn neg_spec(self) -> Vec2d {
        self.negated()
    }
}

impl core::ops::Sub for Vec2d {
    type Output = Vec2d;

    fn sub(self, rhs: Vec2d) -> (difference: Vec2d) {
        Vec2d::new(narrow(self.x as i128 - rhs.x as i128), narrow(self.y as i128 - rhs.y as i128))
    }
}

impl vstd::std_specs::ops::SubSpecImpl for Vec2d {
    open spec fn obeys_sub_spec() -> bool {
        true
    }

    open spec fn sub_req(self, rhs: Vec2d) -> bool {
        true
    }

    open spec fn sub_spec(self, rhs: Vec2d) -> Vec2d {
        self.minus(rhs)
    }
}

impl core::ops::SubAssign for Vec2d {
    fn sub_assign(&mut self, rhs: Vec2d)
        ensures
            *final(self) == old(self).minus(rhs),
    {
        self.x = narrow(self.x as i128 - rhs.x as i128);
        self.y = narrow(self.y as i128 - rhs.y as i128);
    }
}

/// The product of two `i64` values, which always fits in 128 bits.
fn wide_product(a: i64, b: i64) -> (p: i128)
    ensures
        p == a * b,
{
    assert(-0x4000_0000_0000_0000_0000_0000_0000_0000 <= a * b <= 0x4000_0000_0000_0000_0000_0000_0000_0000)
        by (nonlinear_arith)
        requires
            -0x8000_0000_0000_0000 <= a <= 0x8000_0000_0000_0000,
            -0x8000_0000_0000_0000 <= b <= 0x8000_0000_0000_0000,
    ;
    a as i128 * b as i128
}

impl core::ops::Mul<i64> for Vec2d {
    type Output = Vec2d;

    fn mul(self, rhs: i64) -> (product: Vec2d) {
        Vec2d::new(narrow(wide_product(self.x, rhs)), narrow(wide_product(self.y, rhs)))
    }
}

impl vstd::std_specs::ops::MulSpecImpl<i64> for Vec2d {
    open spec fn obeys_mul_spec() -> bool {
        true
    }

    open spec fn mul_req(self, rhs: i64) -> bool {
        true
    }

    open spec fn mul_spec(self, rhs: i64) -> Vec2d {
        self.scaled(rhs as int)
    }
}

impl core::ops::Mul<Vec2d> for i64 {
    type Output = Vec2d;

    fn mul(self, rhs: Vec2d) -> (product: Vec2d) {
        rhs * self
    }
}

impl vstd::std_specs::ops::MulSpecImpl<Vec2d> for i64 {
    open spec fn obeys_mul_spec() -> bool {
        true
    }

    open spec fn mul_req(self, rhs: Vec2d) -> bool {
        true
    }

    open spec fn mul_spec(self, rhs: Vec2d) -> Vec2d {
        rhs.scaled(self as int)
    }
}

impl core::ops::Div<i64> for Vec2d {
    type Output = Vec2d;

    fn div(self, rhs: i64) -> (ratio: Vec2d) {
        Vec2d::new(narrow(divide(self.x, rhs)), narrow(divide(self.y, rhs)))
    }
}

impl vstd::std_specs::ops::DivSpecImpl<i64> for Vec2d {
    open spec fn obeys_div_spec() -> bool {
        true
    }

    open spec fn div_req(self, rhs: i64) -> bool {
        rhs != 0
    }

    open spec fn div_spec(self, rhs: i64) -> Vec2d {
        self.shrunk(rhs as int)
    }
}

impl From<[i64; 2]> for Vec2d {
    fn from(pair: [i64; 2]) -> (v: Vec2d) {
        Vec2d::new(pair[0], pair[1])
    }
}

impl vstd::std_specs::convert::FromSpecImpl<[i64; 2]> for Vec2d {
    open spec fn obeys_from_spec() -> bool {
        true
    }

    open spec fn from_spec(pair: [i64; 2]) -> Vec2d {
        Vec2d { x: pair[0], y: pair[1] }
    }
}

impl From<Vec2d> for [i64; 2] {
    fn from(v: Vec2d) -> (pair: [i64; 2]) {
        [v.x, v.y]
    }
}

impl vstd::std_specs::convert::FromSpecImpl<Vec2d> for [i64; 2] {
    open spec fn obeys_from_spec() -> bool {
        true
    }

    open spec fn from_spec(v: Vec2d) -> [i64; 2] {
        [v.x, v.y]
    }
}

} // verus!
