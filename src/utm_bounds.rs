use vstd::prelude::*;
use crate::utm_point::UtmCoord;

verus! {

/// An axis-aligned box in planar units. A box is a real extent when every `max`
/// is at least its `min`; `default()` gives the identity of `add`.
#[derive(Debug, Clone, Copy, PartialEq, Eq, Structural)]
pub struct UtmBoundingBox {
    pub min_x: i64,
    pub max_x: i64,
    pub min_y: i64,
    pub max_y: i64,
    pub min_z: i64,
    pub max_z: i64,
}

pub open spec fn min_spec(a: i64, b: i64) -> i64 {
    if a > b { b } else { a }
}

pub open spec fn max_spec(a: i64, b: i64) -> i64 {
    if a < b { b } else { a }
}

impl UtmBoundingBox {
    /// A box with positive horizontal ranges, over which a grid can be laid.
    pub open spec fn is_planar_extent(&self) -> bool {
        self.min_x < self.max_x && self.min_y < self.max_y
    }

    /// The smallest box holding both `self` and `other`.
    pub open spec fn union_spec(self, other: UtmBoundingBox) -> UtmBoundingBox {
        UtmBoundingBox {
            min_x: min_spec(self.min_x, other.min_x),
            max_x: max_spec(self.max_x, other.max_x),
            min_y: min_spec(self.min_y, other.min_y),
            max_y: max_spec(self.max_y, other.max_y),
            min_z: min_spec(self.min_z, other.min_z),
            max_z: max_spec(self.max_z, other.max_z),
        }
    }

    pub open spec fn empty_spec() -> UtmBoundingBox {
        UtmBoundingBox {
            min_x: i64::MAX,
            max_x: i64::MIN,
            min_y: i64::MAX,
            max_y: i64::MIN,
            min_z: i64::MAX,
            max_z: i64::MIN,
        }
    }

    pub fn new(min_x: i64, max_x: i64, min_y: i64, max_y: i64, min_z: i64, max_z: i64) -> (r: Self)
        ensures
            r == (UtmBoundingBox { min_x, max_x, min_y, max_y, min_z, max_z }),
    {
        UtmBoundingBox { min_x, max_x, min_y, max_y, min_z, max_z }
    }

    /// Grows `self` to hold every point of `other` as well.
    pub fn add(&mut self, other: UtmBoundingBox)
        ensures
            *final(self) == old(self).union_spec(other),
    {
        if self.min_x > other.min_x {
            self.min_x = other.min_x;
        }
        if self.max_x < other.max_x {
            self.max_x = other.max_x;
        }
        if self.min_y > other.min_y {
            self.min_y = other.min_y;
        }
        if self.max_y < other.max_y {
            self.max_y = other.max_y;
        }
        if self.min_z > other.min_z {
            self.min_z = other.min_z;
        }
        if self.max_z < other.max_z {
            self.max_z = other.max_z;
        }
    }

    /// Grows the horizontal extent of `self` to hold `utm_coord`.
    pub fn add_utm(&mut self, utm_coord: UtmCoord)
        ensures
            final(self).min_x == min_spec(old(self).min_x, utm_coord.easting),
            final(self).max_x == max_spec(old(self).max_x, utm_coord.easting),
            final(self).min_y == min_spec(old(self).min_y, utm_coord.northing),
            final(self).max_y == max_spec(old(self).max_y, utm_coord.northing),
            final(self).min_z == old(self).min_z,
            final(self).max_z == old(self).max_z,
    {
        if self.min_x > utm_coord.easting {
            self.min_x = utm_coord.easting;
        }
        if self.max_x < utm_coord.easting {
            self.max_x = utm_coord.easting;
        }
        if self.min_y > utm_coord.northing {
            self.min_y = utm_coord.northing;
        }
        if self.max_y < utm_coord.northing {
            self.max_y = utm_coord.northing;
        }
    }

    /// `max_x - min_x`.
    pub fn x_range(&self) -> (r: i128)
        ensures
            r == self.max_x - self.min_x,
    {
        self.max_x as i128 - self.min_x as i128
    }

    /// `max_y - min_y`.
    pub fn y_range(&self) -> (r: i128)
        ensures
            r == self.max_y - self.min_y,
    {
        self.max_y as i128 - self.min_y as i128
    }

    /// `max_z - min_z`.
    pub fn z_range(&self) -> (r: i128)
        ensures
            r == self.max_z - self.min_z,
    {
        self.max_z as i128 - self.min_z as i128
    }
}

impl Default for UtmBoundingBox {
    /// The empty box: every minimum at the largest value and every maximum at the
    /// smallest, so that adding any box to it gives that box.
    fn default() -> (r: Self)
        ensures
            r == UtmBoundingBox::empty_spec(),
    {
        UtmBoundingBox {
            min_x: i64::MAX,
            max_x: i64::MIN,
            min_y: i64::MAX,
            max_y: i64::MIN,
            min_z: i64::MAX,
            max_z: i64::MIN,
        }
    }
}

/// The cell along one axis that holds planar value `v`, for an axis that starts at
/// `min`, spans `range` and is cut into `res` samples spaced `range / (res - 1)`
/// apart: `floor((v - min) / tick)`, with values below `min` put in cell `0`.
pub open spec fn cell_floor(v: int, min: int, range: int, res: int) -> int {
    if v <= min {
        0
    } else {
        (v - min) * (res - 1) / range
    }
}

/// `cell_floor`, saturated at the largest `i64`.
pub open spec fn cell_floor_sat(v: int, min: int, range: int, res: int) -> int {
    if cell_floor(v, min, range, res) > i64::MAX {
        i64::MAX as int
    } else {
        cell_floor(v, min, range, res)
    }
}

/// The grid column of planar x value `e`.
pub open spec fn column_of(b: UtmBoundingBox, x_res: int, e: int) -> int {
    cell_floor_sat(e, b.min_x as int, b.max_x - b.min_x, x_res)
}

/// The grid row of planar y value `n`. Rows count from the north edge: increasing
/// y maps to decreasing row.
pub open spec fn row_of(b: UtmBoundingBox, y_res: int, n: int) -> int {
    (y_res - 1) - cell_floor_sat(n, b.min_y as int, b.max_y - b.min_y, y_res)
}

/// The planar x value of grid column `x`.
pub open spec fn easting_of(b: UtmBoundingBox, x_res: int, x: int) -> int {
    b.min_x + x * (b.max_x - b.min_x) / (x_res - 1)
}

/// The planar y value of grid row `y` (row `0` is the north edge).
pub open spec fn northing_of(b: UtmBoundingBox, y_res: int, y: int) -> int {
    b.min_y + (y_res - 1 - y) * (b.max_y - b.min_y) / (y_res - 1)
}

/// A grid of `x_res` by `y_res` samples over `b`, with positive sample spacing,
/// whose cells can be numbered in a `usize`.
pub open spec fn grid_geometry_ok(b: UtmBoundingBox, x_res: int, y_res: int) -> bool {
    &&& b.is_planar_extent()
    &&& 2 <= x_res
    &&& 2 <= y_res
    &&& x_res * y_res <= usize::MAX
}

pub proof fn lemma_res_small(x_res: int, y_res: int)
    requires
        2 <= x_res,
        2 <= y_res,
        x_res * y_res <= usize::MAX,
    ensures
        x_res < 0x8000_0000_0000_0000,
        y_res < 0x8000_0000_0000_0000,
{
    assert(x_res * 2 <= x_res * y_res && y_res * 2 <= x_res * y_res) by (nonlinear_arith)
        requires 2 <= x_res, 2 <= y_res;
}

/// `cell_floor_sat(v, min, range, res)` computed exactly.
pub fn cell_floor_exec(v: i64, min: i64, range: i128, res: usize) -> (r: i64)
    requires
        0 < range,
        2 <= res < 0x8000_0000_0000_0000,
    ensures
        r == cell_floor_sat(v as int, min as int, range as int, res as int),
        r >= 0,
{
    if v <= min {
        0
    } else {
        let d: i128 = v as i128 - min as i128;
        let m: i128 = (res - 1) as i128;
        proof {
            assert(0 < d * m < 0x8000_0000_0000_0000_0000_0000_0000_0000) by (nonlinear_arith)
                requires 0 < d < 0x1_0000_0000_0000_0000, 0 < m < 0x8000_0000_0000_0000;
        }
        let q: i128 = d * m / range;
        if q > i64::MAX as i128 {
            i64::MAX
        } else {
            q as i64
        }
    }
}

/// The planar value of sample `c` along an axis starting at `min` and spanning
/// `range` in `res` samples: `min + c * range / (res - 1)`.
pub fn planar_exec(min: i64, range: i128, res: usize, c: usize) -> (r: i64)
    requires
        0 < range,
        min + range <= i64::MAX,
        2 <= res < 0x8000_0000_0000_0000,
        c < res,
    ensures
        r == min + c * range / (res - 1),
        min <= r <= min + range,
{
    let m: i128 = (res - 1) as i128;
    proof {
        let (ci, ri, mi) = (c as int, range as int, m as int);
        assert(0 <= ci * ri <= mi * ri) by (nonlinear_arith)
            requires 0 <= ci <= mi, 0 < ri;
        assert(mi * ri < 0x8000_0000_0000_0000_0000_0000_0000_0000) by (nonlinear_arith)
            requires 0 < mi < 0x8000_0000_0000_0000, 0 < ri < 0x1_0000_0000_0000_0000;
        assert(0 <= (ci * ri) / mi <= ri) by (nonlinear_arith)
            requires 0 <= ci * ri <= mi * ri, 0 < mi, 0 < ri;
    }
    let off: i128 = (c as i128) * range / m;
    (min as i128 + off) as i64
}

/// The empty box is a neutral element of `add`: adding any box to it gives that box.
pub proof fn lemma_empty_is_identity(b: UtmBoundingBox)
    ensures
        UtmBoundingBox::empty_spec().union_spec(b) == b,
{
}

} // verus!
