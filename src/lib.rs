//! A two-dimensional spatial index over integer points.
//!
//! Points live in the grid `[0, 2^15)²`. The core structure is a linear
//! Z-order table: three columnar arrays sorted by the Morton (Z-order) key
//! of each point, a small skip index that narrows lookups, and a range query
//! that splits the Z-order interval with LITMAX/BIGMIN.
use vstd::prelude::*;

pub mod litmax_bigmin;
pub mod morton_key;
pub mod morton_table;
pub mod quadtree;
pub mod sorting;

verus! {

broadcast use vstd::array::group_array_axioms;

use crate::morton_key::morton_code;

/// Exclusive upper bound of each coordinate of a stored point.
pub const DOMAIN: u32 = 0x8000;

/// A point of the grid, `[x, y]`.
#[derive(Debug, Clone, Copy, Eq, PartialEq, Hash)]
pub struct Point(pub [u32; 2]);

/// The value stored with a point.
#[derive(Debug, Clone, Copy, Eq, PartialEq, Hash, Structural)]
pub struct Value(pub u32);

/// The squared Euclidean distance between two points.
pub open spec fn sq_dist(a: Point, b: Point) -> int {
    (a.x() - b.x()) * (a.x() - b.x()) + (a.y() - b.y()) * (a.y() - b.y())
}

impl Point {
    /// The x coordinate.
    pub open spec fn x(self) -> u32 {
        self.0[0]
    }

    /// The y coordinate.
    pub open spec fn y(self) -> u32 {
        self.0[1]
    }

    /// Both coordinates lie in `[0, 2^15)`.
    pub open spec fn in_domain(self) -> bool {
        self.x() < DOMAIN && self.y() < DOMAIN
    }

    /// The Morton key of this point.
    pub open spec fn key(self) -> u32 {
        morton_code(self.x(), self.y())
    }

    /// The point `(x, y)`.
    pub fn new(x: u32, y: u32) -> (r: Self)
        ensures
            r.x() == x,
            r.y() == y,
            r == Point([x, y]),
    {
        Self([x, y])
    }

    /// Whether both points have the same coordinates.
    pub(crate) fn same(&self, rhs: &Self) -> (r: bool)
        ensures
            r == (*self == *rhs),
    {
        let r = self.0[0] == rhs.0[0] && self.0[1] == rhs.0[1];
        proof {
            if r {
                assert(self.0 =~= rhs.0);
            }
        }
        r
    }

    /// The Euclidean distance to `rhs`, rounded down.
    pub fn dist(&self, rhs: &Self) -> (r: u32)
        requires
            sq_dist(*self, *rhs) < 0x8000_0000,
        ensures
            r * r <= sq_dist(*self, *rhs) < (r + 1) * (r + 1),
    {
        let dx: u64 = if self.0[0] >= rhs.0[0] {
            (self.0[0] - rhs.0[0]) as u64
        } else {
            (rhs.0[0] - self.0[0]) as u64
        };
        let dy: u64 = if self.0[1] >= rhs.0[1] {
            (self.0[1] - rhs.0[1]) as u64
        } else {
            (rhs.0[1] - self.0[1]) as u64
        };
        assert(dx * dx + dy * dy == sq_dist(*self, *rhs)) by (nonlinear_arith)
            requires
                dx == self.x() - rhs.x() || dx == rhs.x() - self.x(),
                dy == self.y() - rhs.y() || dy == rhs.y() - self.y(),
        ;
        assert(dx * dx <= dx * dx + dy * dy && dy * dy <= dx * dx + dy * dy) by (nonlinear_arith);
        assert(dx < 0x10000 && dy < 0x10000) by (nonlinear_arith)
            requires
                dx * dx < 0x8000_0000,
                dy * dy < 0x8000_0000,
        ;
        let squared: u64 = dx * dx + dy * dy;
        // integer square root by bisection: lo * lo <= squared < hi * hi
        let mut lo: u64 = 0;
        let mut hi: u64 = 46341;
        while hi - lo > 1
            invariant
                lo < hi <= 46341,
                lo * lo <= squared < hi * hi,
            decreases hi - lo,
        {
            let mid = lo + (hi - lo) / 2;
            assert(mid * mid <= 46341 * 46341) by (nonlinear_arith)
                requires
                    mid < 46341,
            ;
            if mid * mid <= squared {
                lo = mid;
            } else {
                hi = mid;
            }
        }
        lo as u32
    }
}

} // verus!
