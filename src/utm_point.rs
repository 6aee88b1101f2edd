use vstd::prelude::*;
use crate::utm_bounds::{UtmBoundingBox, grid_geometry_ok, column_of, row_of, cell_floor_exec, lemma_res_small};

verus! {

/// A point in planar units: `easting` along x, `northing` along y.
#[derive(Debug, Clone, Copy, PartialEq, Eq, Structural)]
pub struct UtmCoord {
    pub northing: i64,
    pub easting: i64,
}

impl UtmCoord {
    /// Builds a point from `(x, y)`, that is `(easting, northing)`.
    pub fn new(coords: (i64, i64)) -> (r: Self)
        ensures
            r.easting == coords.0,
            r.northing == coords.1,
    {
        UtmCoord { northing: coords.1, easting: coords.0 }
    }

    /// The grid cell `(column, row)` of this point on an `x_res` by `y_res` grid
    /// over `bounds`. Row `0` is the north edge. The result may lie off the grid.
    pub fn get_x_y_coords(&self, bounds: &UtmBoundingBox, x_res: usize, y_res: usize) -> (r: (i64, i64))
        requires
            grid_geometry_ok(*bounds, x_res as int, y_res as int),
        ensures
            r.0 == column_of(*bounds, x_res as int, self.easting as int),
            r.1 == row_of(*bounds, y_res as int, self.northing as int),
    {
        proof {
            lemma_res_small(x_res as int, y_res as int);
        }
        let cx = cell_floor_exec(self.easting, bounds.min_x, bounds.x_range(), x_res);
        let cy = cell_floor_exec(self.northing, bounds.min_y, bounds.y_range(), y_res);
        (cx, (y_res - 1) as i64 - cy)
    }

    /// `(easting, northing)`.
    pub fn x_y(&self) -> (r: (i64, i64))
        ensures
            r == (self.easting, self.northing),
    {
        (self.easting, self.northing)
    }
}

} // verus!
