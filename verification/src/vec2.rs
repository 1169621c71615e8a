//! Two-dimensional vectors of fixed-point components.

use vstd::prelude::*;
use crate::fixed::{
    add_spec, fx_add, fx_mul, isqrt, mul_spec, sat, saturate, sqrt_spec, LIMIT,
};

verus! {

/// A vector in the plane. Its components are fixed-point numbers.
#[derive(Debug, PartialEq, Eq, Structural, Clone, Copy)]
pub struct Vec2 {
    pub x: i64,
    pub y: i64,
}

impl Vec2 {
    /// The vector of length zero.
    pub open spec fn zero() -> Vec2 {
        Vec2 { x: 0, y: 0 }
    }

    /// Componentwise saturating sum.
    pub open spec fn plus(self, other: Vec2) -> Vec2 {
        Vec2 {
            x: add_spec(self.x as int, other.x as int) as i64,
            y: add_spec(self.y as int, other.y as int) as i64,
        }
    }

    /// Componentwise saturating difference.
    pub open spec fn minus(self, other: Vec2) -> Vec2 {
        Vec2 {
            x: sat(self.x - other.x) as i64,
            y: sat(self.y - other.y) as i64,
        }
    }

    /// Both components multiplied by the fixed-point factor `k`.
    pub open spec fn scaled(self, k: int) -> Vec2 {
        Vec2 { x: mul_spec(self.x as int, k) as i64, y: mul_spec(self.y as int, k) as i64 }
    }

    /// Euclidean length, rounded down, of the vector with saturated components.
    pub open spec fn length_spec(self) -> int {
        sqrt_spec(sat(self.x as int) * sat(self.x as int) + sat(self.y as int) * sat(self.y as int))
    }

    /// Whether both components lie in the stored range.
    pub open spec fn bounded(self) -> bool {
        -LIMIT <= self.x <= LIMIT && -LIMIT <= self.y <= LIMIT
    }

    pub fn new(x: i64, y: i64) -> (r: Self)
        ensures
            r == (Vec2 { x, y }),
    {
        Vec2 { x, y }
    }

    /// Applies `f` to the first component, then to the second.
    pub fn map<F: FnMut(i64) -> i64>(self, mut f: F) -> (r: Self)
        requires
            f.requires((self.x,)),
            f.requires((self.y,)),
        ensures
            f.ensures((self.x,), r.x),
            f.ensures((self.y,), r.y),
    {
        let x: i64 = f(self.x);
        let y: i64 = f(self.y);
        Vec2 { x, y }
    }

    /// Multiplies both components by the fixed-point factor `rhs`.
    pub fn mul_assign(&mut self, rhs: i64)
        ensures
            *final(self) == old(self).scaled(rhs as int),
            final(self).bounded(),
    {
        self.x = fx_mul(self.x, rhs);
        self.y = fx_mul(self.y, rhs);
    }

    pub fn add(self, other: Vec2) -> (r: Vec2)
        ensures
            r == self.plus(other),
            r.bounded(),
    {
        Vec2 { x: fx_add(self.x, other.x), y: fx_add(self.y, other.y) }
    }

    pub fn sub(self, other: Vec2) -> (r: Vec2)
        ensures
            r == self.minus(other),
            r.bounded(),
    {
        Vec2 {
            x: saturate(self.x as i128 - other.x as i128),
            y: saturate(self.y as i128 - other.y as i128),
        }
    }

    /// Euclidean length, rounded down.
    pub fn length(self) -> (r: i64)
        ensures
            r == self.length_spec(),
            0 <= r <= 2 * LIMIT,
    {
        let x: i64 = saturate(self.x as i128);
        let y: i64 = saturate(self.y as i128);
        assert(x * x <= 1099511627776 * 1099511627776 && x * x >= 0) by (nonlinear_arith)
            requires
                -1099511627776 <= x <= 1099511627776,
        ;
        assert(y * y <= 1099511627776 * 1099511627776 && y * y >= 0) by (nonlinear_arith)
            requires
                -1099511627776 <= y <= 1099511627776,
        ;
        let xx: u128 = ((x as i128) * (x as i128)) as u128;
        let yy: u128 = ((y as i128) * (y as i128)) as u128;
        let root: u64 = isqrt(xx + yy);
        proof {
            let rr = root as int;
            if rr > 2 * LIMIT {
                assert(rr * rr > 2 * (1099511627776 * 1099511627776)) by (nonlinear_arith)
                    requires
                        rr > 2 * 1099511627776,
                ;
            }
        }
        root as i64
    }
}

} // verus!
