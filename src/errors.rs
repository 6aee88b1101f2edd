use vstd::prelude::*;
use crate::utm_bounds::UtmBoundingBox;

verus! {

/// Everything a grid, mask or mesh operation of this library can fail with.
#[allow(inconsistent_fields)]
#[derive(Debug, Clone, Copy, PartialEq, Eq, Structural)]
pub enum LasToStlError {
    /// A trail with no points was given.
    EmptyTrailError,
    /// A region was given as a ring whose last point is not its first.
    OpenLineStringError,
    /// A polygon without any exterior point has no bounding rectangle.
    NoBoundingRectError,
    /// A ring or polygon with no points at all.
    EmptyPolygonError,
    /// Neither grid resolution was given.
    NoResolutionError,
    /// Side-wall generation met a missing vertex; this signals a logic defect.
    StlSideFaceGenerationError,
    /// `(x, y)` is not a cell of an `x_res` by `y_res` grid.
    BadIndexError { x_res: usize, y_res: usize, x: usize, y: usize },
    /// No cell of a stamped shape centred at `(x, y)` lies on the grid.
    SetWithDeltaError { x_res: usize, y_res: usize, x: i64, y: i64 },
    /// A signed lookup outside the grid.
    GetByXyCheckedError { x_res: usize, y_res: usize, x: isize, y: isize },
    /// The bounding rectangle of a polygon reaches past the grid: `x` is its last
    /// column and `y` its first row, counted from the north edge.
    PolygonOutOfBoundsError { x_res: usize, y_res: usize, x: i64, y: i64 },
    /// Two grids of different resolution or extent were combined.
    MaskBoundMismatchError {
        other_x_res: usize,
        other_y_res: usize,
        mask_x_res: usize,
        mask_y_res: usize,
        other_bounds: UtmBoundingBox,
        mask_bounds: UtmBoundingBox,
    },
}

} // verus!
