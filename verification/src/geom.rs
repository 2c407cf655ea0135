//! Three-component integer vectors, the crate's model of translations and
//! velocities. Components are fixed-point values in thousandths of a unit.

use vstd::prelude::*;

use crate::MAGNITUDE_LIMIT;

verus! {

/// A translation or velocity, each component in thousandths of a unit.
#[derive(Clone, Copy, Debug, PartialEq, Eq, Structural)]
pub struct Vec3 {
    pub x: i64,
    pub y: i64,
    pub z: i64,
}

impl Vec3 {
    /// The squared Euclidean norm, exact over unbounded integers.
    pub open spec fn norm_sq(self) -> int {
        self.x * self.x + self.y * self.y + self.z * self.z
    }

    /// Every component within `limit` in magnitude.
    pub open spec fn within(self, limit: int) -> bool {
        &&& -limit <= self.x <= limit
        &&& -limit <= self.y <= limit
        &&& -limit <= self.z <= limit
    }

    /// Componentwise sum, as a specification value.
    pub open spec fn spec_plus(self, other: Vec3) -> Vec3 {
        Vec3 {
            x: (self.x + other.x) as i64,
            y: (self.y + other.y) as i64,
            z: (self.z + other.z) as i64,
        }
    }

    /// Componentwise difference, as a specification value.
    pub open spec fn spec_minus(self, other: Vec3) -> Vec3 {
        Vec3 {
            x: (self.x - other.x) as i64,
            y: (self.y - other.y) as i64,
            z: (self.z - other.z) as i64,
        }
    }

    /// Componentwise scaling, as a specification value.
    pub open spec fn spec_scaled(self, factor: int) -> Vec3 {
        Vec3 {
            x: (self.x * factor) as i64,
            y: (self.y * factor) as i64,
            z: (self.z * factor) as i64,
        }
    }

    pub fn zero() -> (r: Vec3)
        ensures
            r == (Vec3 { x: 0i64, y: 0i64, z: 0i64 }),
    {
        Vec3 { x: 0, y: 0, z: 0 }
    }

    pub fn plus(self, other: Vec3) -> (r: Vec3)
        requires
            self.within(100 * MAGNITUDE_LIMIT),
            other.within(100 * MAGNITUDE_LIMIT),
        ensures
            r == self.spec_plus(other),
    {
        Vec3 { x: self.x + other.x, y: self.y + other.y, z: self.z + other.z }
    }

    pub fn minus(self, other: Vec3) -> (r: Vec3)
        requires
            self.within(100 * MAGNITUDE_LIMIT),
            other.within(100 * MAGNITUDE_LIMIT),
        ensures
            r == self.spec_minus(other),
    {
        Vec3 { x: self.x - other.x, y: self.y - other.y, z: self.z - other.z }
    }

    pub fn scaled(self, factor: i64) -> (r: Vec3)
        requires
            self.within(4 * MAGNITUDE_LIMIT),
            0 <= factor <= 1000,
        ensures
            r == self.spec_scaled(factor as int),
    {
        proof {
            assert((-4 * MAGNITUDE_LIMIT) * 1000 <= self.x * factor <= 4 * MAGNITUDE_LIMIT * 1000)
                by (nonlinear_arith)
                requires
                    -4 * MAGNITUDE_LIMIT <= self.x <= 4 * MAGNITUDE_LIMIT,
                    0 <= factor <= 1000,
            ;
            assert((-4 * MAGNITUDE_LIMIT) * 1000 <= self.y * factor <= 4 * MAGNITUDE_LIMIT * 1000)
                by (nonlinear_arith)
                requires
                    -4 * MAGNITUDE_LIMIT <= self.y <= 4 * MAGNITUDE_LIMIT,
                    0 <= factor <= 1000,
            ;
            assert((-4 * MAGNITUDE_LIMIT) * 1000 <= self.z * factor <= 4 * MAGNITUDE_LIMIT * 1000)
                by (nonlinear_arith)
                requires
                    -4 * MAGNITUDE_LIMIT <= self.z <= 4 * MAGNITUDE_LIMIT,
                    0 <= factor <= 1000,
            ;
        }
        Vec3 { x: self.x * factor, y: self.y * factor, z: self.z * factor }
    }

    /// The squared norm, computed in `i128` so that no intermediate
    /// product can overflow for any components within four times the
    /// magnitude limit.
    pub fn norm_sq_exec(self) -> (r: i128)
        requires
            self.within(4 * MAGNITUDE_LIMIT),
        ensures
            r == self.norm_sq(),
    {
        proof {
            lemma_square_bound(self.x as int, 4 * MAGNITUDE_LIMIT);
            lemma_square_bound(self.y as int, 4 * MAGNITUDE_LIMIT);
            lemma_square_bound(self.z as int, 4 * MAGNITUDE_LIMIT);
            assert((4 * MAGNITUDE_LIMIT) * (4 * MAGNITUDE_LIMIT) == 16_000_000_000_000_000_000int)
                by (nonlinear_arith);
        }
        let x = self.x as i128;
        let y = self.y as i128;
        let z = self.z as i128;
        x * x + y * y + z * z
    }
}

/// A square of a bounded value is bounded by the square of the bound.
pub proof fn lemma_square_bound(v: int, limit: int)
    by (nonlinear_arith)
    requires
        -limit <= v <= limit,
    ensures
        0 <= v * v <= limit * limit,
{
}

} // verus!
