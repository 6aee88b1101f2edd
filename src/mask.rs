use vstd::prelude::*;
use crate::errors::LasToStlError;
use crate::utils::{index_of, in_disk, get_point_deltas_within_radius};
use crate::utm_bounds::{
    min_spec, max_spec,
    UtmBoundingBox, grid_geometry_ok, column_of, row_of, easting_of, northing_of, planar_exec,
    lemma_res_small,
};
use crate::utm_point::UtmCoord;

verus! {

/// A boolean grid over the same geometry (resolution and extent) as a height map,
/// stored row-major: cell `(x, y)` is `data[y * x_res + x]`.
pub struct Mask {
    pub data: Vec<bool>,
    pub x_res: usize,
    pub y_res: usize,
    pub bounds: UtmBoundingBox,
}

/// Whether cell `(x, y)` lies on an `x_res` by `y_res` grid.
pub open spec fn on_grid(x_res: int, y_res: int, x: int, y: int) -> bool {
    0 <= x < x_res && 0 <= y < y_res
}

/// Whether offset `d` from centre `(cx, cy)` lands on the grid.
pub open spec fn lands(x_res: int, y_res: int, cx: int, cy: int, d: (i16, i16)) -> bool {
    on_grid(x_res, y_res, cx + d.0, cy + d.1)
}

/// Whether the shape `deltas` centred at `(cx, cy)` covers the cell with flat index `i`.
pub open spec fn stamp_covers(x_res: int, y_res: int, cx: int, cy: int, deltas: Seq<(i16, i16)>, i: int) -> bool {
    exists|d: (i16, i16)|
        deltas.contains(d) && #[trigger] lands(x_res, y_res, cx, cy, d)
            && index_of(x_res, cx + d.0, cy + d.1) == i
}

/// Whether some offset of `deltas` centred at `(cx, cy)` lands on the grid.
pub open spec fn stamp_lands(x_res: int, y_res: int, cx: int, cy: int, deltas: Seq<(i16, i16)>) -> bool {
    exists|d: (i16, i16)| deltas.contains(d) && #[trigger] lands(x_res, y_res, cx, cy, d)
}

/// Whether the disk of radius `r` centred at `(cx, cy)` covers the cell with flat index `i`.
pub open spec fn disk_covers(x_res: int, y_res: int, cx: int, cy: int, r: int, i: int) -> bool {
    exists|d: (i16, i16)|
        in_disk(r, d.0 as int, d.1 as int) && #[trigger] lands(x_res, y_res, cx, cy, d)
            && index_of(x_res, cx + d.0, cy + d.1) == i
}

/// Whether some cell of the disk of radius `r` centred at `(cx, cy)` is on the grid.
pub open spec fn disk_lands(x_res: int, y_res: int, cx: int, cy: int, r: int) -> bool {
    exists|d: (i16, i16)| in_disk(r, d.0 as int, d.1 as int) && #[trigger] lands(x_res, y_res, cx, cy, d)
}

/// A polygon in planar units: an outer ring and any number of holes. Rings need
/// not repeat their first point at the end.
#[derive(Debug)]
pub struct UtmPolygon {
    pub exterior: Vec<UtmCoord>,
    pub interiors: Vec<Vec<UtmCoord>>,
}

/// A ring as a sequence of `(x, y)` pairs.
pub open spec fn ring_view(ring: Seq<UtmCoord>) -> Seq<(i64, i64)> {
    ring.map_values(|c: UtmCoord| (c.easting, c.northing))
}

/// The holes of a polygon as sequences of `(x, y)` pairs.
pub open spec fn holes_view(holes: Seq<Vec<UtmCoord>>) -> Seq<Seq<(i64, i64)>> {
    holes.map_values(|h: Vec<UtmCoord>| ring_view(h@))
}

/// Largest magnitude of a coordinate that polygon containment handles: the exact
/// integer orientation test multiplies two coordinate differences in `i64`.
pub const POLYGON_COORD_LIMIT: i64 = 0x3fff_ffff;

pub open spec fn coord_in_limit(v: i64) -> bool {
    -POLYGON_COORD_LIMIT <= v <= POLYGON_COORD_LIMIT
}

pub open spec fn ring_in_limit(ring: Seq<UtmCoord>) -> bool {
    forall|k: int| 0 <= k < ring.len() ==>
        coord_in_limit(#[trigger] ring[k].easting) && coord_in_limit(ring[k].northing)
}

impl UtmPolygon {
    /// Every coordinate of every ring is within `POLYGON_COORD_LIMIT`.
    pub open spec fn in_limit(&self) -> bool {
        &&& ring_in_limit(self.exterior@)
        &&& forall|h: int| 0 <= h < self.interiors@.len() ==> ring_in_limit(#[trigger] self.interiors@[h]@)
    }
}

/// Whether a point is strictly inside a polygon (inside the outer ring, not in a
/// hole, not on a boundary), as decided by geo's winding-number test.
pub uninterp spec fn polygon_contains(exterior: Seq<(i64, i64)>, interiors: Seq<Seq<(i64, i64)>>, x: i64, y: i64) -> bool;

/// Relies on geo's `Contains<Coord<i64>>` for `Polygon<i64>`: the answer depends on
/// the rings and the point alone. With every coordinate within
/// `POLYGON_COORD_LIMIT` its integer orientation test cannot overflow.
#[verifier::external_body]
fn region_contains(region: &UtmPolygon, x: i64, y: i64) -> (r: bool)
    requires
        region.in_limit(),
        coord_in_limit(x),
        coord_in_limit(y),
    ensures
        r == polygon_contains(ring_view(region.exterior@), holes_view(region.interiors@), x, y),
{
    let ring = |v: &Vec<UtmCoord>| v.iter().map(|c| (c.easting, c.northing)).collect::<Vec<_>>();
    let holes = region.interiors.iter().map(|h| ring(h).into()).collect();
    let polygon = geo::Polygon::<i64>::new(ring(&region.exterior).into(), holes);
    geo::Contains::contains(&polygon, &geo::Coord { x, y })
}

/// The bounding rectangle `(min_x, max_x, min_y, max_y)` of a non-empty ring.
pub open spec fn ring_rect(ring: Seq<UtmCoord>) -> (i64, i64, i64, i64)
    decreases ring.len(),
{
    if ring.len() <= 1 {
        (ring[0].easting, ring[0].easting, ring[0].northing, ring[0].northing)
    } else {
        let r = ring_rect(ring.drop_last());
        let c = ring.last();
        (min_spec(r.0, c.easting), max_spec(r.1, c.easting), min_spec(r.2, c.northing), max_spec(r.3, c.northing))
    }
}

/// The cells `(first column, last column, first row, last row)` spanned by the
/// bounding rectangle of a non-empty ring. Rows count from the north edge, so the
/// first row holds the rectangle's largest y.
pub open spec fn ring_cell_rect(b: UtmBoundingBox, x_res: int, y_res: int, ring: Seq<UtmCoord>) -> (int, int, int, int) {
    let r = ring_rect(ring);
    (column_of(b, x_res, r.0 as int), column_of(b, x_res, r.1 as int), row_of(b, y_res, r.3 as int), row_of(b, y_res, r.2 as int))
}

/// The bounding rectangle of a non-empty ring.
fn ring_bounding_rect(ring: &Vec<UtmCoord>) -> (r: (i64, i64, i64, i64))
    requires
        ring@.len() > 0,
    ensures
        r == ring_rect(ring@),
{
    let c0 = ring[0];
    let mut r = (c0.easting, c0.easting, c0.northing, c0.northing);
    let mut k: usize = 1;
    proof {
        assert(ring@.take(1).len() == 1);
    }
    while k < ring.len()
        invariant
            1 <= k <= ring@.len(),
            r == ring_rect(ring@.take(k as int)),
        decreases ring@.len() - k,
    {
        let c = ring[k];
        proof {
            assert(ring@.take(k + 1).drop_last() =~= ring@.take(k as int));
        }
        r = (
            if r.0 > c.easting { c.easting } else { r.0 },
            if r.1 < c.easting { c.easting } else { r.1 },
            if r.2 > c.northing { c.northing } else { r.2 },
            if r.3 < c.northing { c.northing } else { r.3 },
        );
        k = k + 1;
    }
    proof {
        assert(ring@.take(ring@.len() as int) =~= ring@);
    }
    r
}

/// The cell-wise combinations of two masks, and the complement of one.
#[derive(Debug, Clone, Copy, PartialEq, Eq, Structural)]
pub enum MaskOp {
    Union,
    Intersection,
    SymmetricDifference,
    Difference,
}

pub open spec fn apply_op(op: MaskOp, a: bool, b: bool) -> bool {
    match op {
        MaskOp::Union => a || b,
        MaskOp::Intersection => a && b,
        MaskOp::SymmetricDifference => a != b,
        MaskOp::Difference => a && !b,
    }
}

/// `op` applied cell by cell to `a` and `b`.
pub open spec fn combine(op: MaskOp, a: Seq<bool>, b: Seq<bool>) -> Seq<bool> {
    Seq::new(a.len(), |i: int| apply_op(op, a[i], b[i]))
}

/// Every cell flipped.
pub open spec fn inverse_of(a: Seq<bool>) -> Seq<bool> {
    Seq::new(a.len(), |i: int| !a[i])
}

/// A mask with no cell set.
pub open spec fn all_false(a: Seq<bool>) -> bool {
    forall|i: int| 0 <= i < a.len() ==> !#[trigger] a[i]
}

/// The number of set cells.
pub open spec fn count_true(a: Seq<bool>) -> nat
    decreases a.len(),
{
    if a.len() == 0 {
        0
    } else {
        count_true(a.drop_last()) + if a.last() { 1nat } else { 0nat }
    }
}

/// The set algebra of masks over one geometry: the union of a mask with itself is
/// that mask; a mask meets its inverse nowhere; the symmetric difference and the
/// difference of a mask with itself are empty.
pub proof fn lemma_mask_algebra(a: Mask)
    requires
        a.wf(),
    ensures
        combine(MaskOp::Union, a.data@, a.data@) == a.data@,
        all_false(combine(MaskOp::Intersection, a.data@, inverse_of(a.data@))),
        all_false(combine(MaskOp::SymmetricDifference, a.data@, a.data@)),
        all_false(combine(MaskOp::Difference, a.data@, a.data@)),
{
    assert(combine(MaskOp::Union, a.data@, a.data@) =~= a.data@);
}

/// What the first `k + 1` items of a sequence hold: what the first `k` hold, and item `k`.
pub proof fn lemma_take_contains<T>(s: Seq<T>, k: int, d: T)
    requires
        0 <= k < s.len(),
    ensures
        s.take(k + 1).contains(d) <==> (s.take(k).contains(d) || d == s[k]),
{
    if s.take(k + 1).contains(d) {
        let j = choose|j: int| 0 <= j < k + 1 && #[trigger] s.take(k + 1)[j] == d;
        if j < k {
            assert(s.take(k)[j] == d);
        }
    }
    if s.take(k).contains(d) {
        let j = choose|j: int| 0 <= j < k && #[trigger] s.take(k)[j] == d;
        assert(s.take(k + 1)[j] == d);
    }
    if d == s[k] {
        assert(s.take(k + 1)[k] == d);
    }
}

impl Mask {
    /// The mask's resolution is at least two samples per axis, its extent has
    /// positive horizontal ranges, and it stores one value per cell.
    pub open spec fn wf(&self) -> bool {
        &&& grid_geometry_ok(self.bounds, self.x_res as int, self.y_res as int)
        &&& self.data@.len() == self.x_res * self.y_res
    }

    /// The number of cells.
    pub open spec fn size(&self) -> int {
        self.x_res * self.y_res
    }

    /// The value of cell `(x, y)`.
    pub open spec fn cell(&self, x: int, y: int) -> bool {
        self.data@[index_of(self.x_res as int, x, y)]
    }

    /// Same resolution and extent: the masks can be combined.
    pub open spec fn same_geometry(&self, other: &Mask) -> bool {
        self.x_res == other.x_res && self.y_res == other.y_res && self.bounds == other.bounds
    }

    /// The error that reports a geometry mismatch between `self` and `other`.
    pub open spec fn mismatch_error(&self, other: &Mask) -> LasToStlError {
        LasToStlError::MaskBoundMismatchError {
            other_x_res: other.x_res,
            other_y_res: other.y_res,
            mask_x_res: self.x_res,
            mask_y_res: self.y_res,
            other_bounds: other.bounds,
            mask_bounds: self.bounds,
        }
    }

    /// An all-false mask of `x_res` by `y_res` cells over `bounds`.
    pub fn new_with_dims(x_res: usize, y_res: usize, bounds: UtmBoundingBox) -> (r: Mask)
        requires
            grid_geometry_ok(bounds, x_res as int, y_res as int),
        ensures
            r.wf(),
            r.x_res == x_res,
            r.y_res == y_res,
            r.bounds == bounds,
            forall|i: int| 0 <= i < r.data@.len() ==> !r.data@[i],
    {
        let n: usize = x_res * y_res;
        let mut data: Vec<bool> = Vec::new();
        let mut i: usize = 0;
        while i < n
            invariant
                i <= n,
                data@.len() == i,
                forall|k: int| 0 <= k < i ==> !data@[k],
            decreases n - i,
        {
            data.push(false);
            i = i + 1;
        }
        Mask { data, x_res, y_res, bounds }
    }

    /// The value of cell `(x, y)`, which must be on the grid.
    pub fn get_by_xy_unchecked(&self, x: usize, y: usize) -> (r: bool)
        requires
            self.wf(),
            x < self.x_res,
            y < self.y_res,
        ensures
            r == self.cell(x as int, y as int),
    {
        proof {
            assert(y * self.x_res + x < self.x_res * self.y_res) by (nonlinear_arith)
                requires x < self.x_res, y < self.y_res;
        }
        self.data[y * self.x_res + x]
    }

    /// A mutable reference to cell `(x, y)`, which must be on the grid.
    pub fn get_mut_ref_by_xy_unchecked(&mut self, x: usize, y: usize) -> (r: &mut bool)
        requires
            old(self).wf(),
            x < old(self).x_res,
            y < old(self).y_res,
        ensures
            *r == old(self).cell(x as int, y as int),
            final(self).x_res == old(self).x_res,
            final(self).y_res == old(self).y_res,
            final(self).bounds == old(self).bounds,
            final(self).data@ == old(self).data@.update(
                index_of(old(self).x_res as int, x as int, y as int),
                *final(r),
            ),
            final(self).wf(),
    {
        proof {
            assert(y * self.x_res + x < self.x_res * self.y_res) by (nonlinear_arith)
                requires x < self.x_res, y < self.y_res;
        }
        let i = y * self.x_res + x;
        &mut self.data[i]
    }

    /// The value of cell `(x, y)`; fails when it is off the grid.
    pub fn get_by_xy_checked(&self, x: isize, y: isize) -> (r: Result<bool, LasToStlError>)
        requires
            self.wf(),
        ensures
            match r {
                Ok(b) => on_grid(self.x_res as int, self.y_res as int, x as int, y as int)
                    && b == self.cell(x as int, y as int),
                Err(e) => !on_grid(self.x_res as int, self.y_res as int, x as int, y as int)
                    && e == (LasToStlError::GetByXyCheckedError { x_res: self.x_res, y_res: self.y_res, x, y }),
            },
    {
        if 0 <= x && 0 <= y && (x as usize) < self.x_res && (y as usize) < self.y_res {
            Ok(self.get_by_xy_unchecked(x as usize, y as usize))
        } else {
            Err(LasToStlError::GetByXyCheckedError { x_res: self.x_res, y_res: self.y_res, x, y })
        }
    }

    /// Sets cell `(x, y)` to `new_state`; fails, changing nothing, when it is off the grid.
    pub fn set_x_y(&mut self, x: usize, y: usize, new_state: bool) -> (r: Result<(), LasToStlError>)
        requires
            old(self).wf(),
        ensures
            final(self).wf(),
            final(self).x_res == old(self).x_res,
            final(self).y_res == old(self).y_res,
            final(self).bounds == old(self).bounds,
            match r {
                Ok(_) => x < old(self).x_res && y < old(self).y_res
                    && final(self).data@ == old(self).data@.update(
                        index_of(old(self).x_res as int, x as int, y as int), new_state),
                Err(e) => !(x < old(self).x_res && y < old(self).y_res)
                    && final(self).data@ == old(self).data@
                    && e == (LasToStlError::BadIndexError { x_res: old(self).x_res, y_res: old(self).y_res, x, y }),
            },
    {
        if x < self.x_res && y < self.y_res {
            proof {
                assert(y * self.x_res + x < self.x_res * self.y_res) by (nonlinear_arith)
                    requires x < self.x_res, y < self.y_res;
            }
            let i = y * self.x_res + x;
            self.data.set(i, new_state);
            Ok(())
        } else {
            Err(LasToStlError::BadIndexError { x_res: self.x_res, y_res: self.y_res, x, y })
        }
    }
}

/// Whether some disk of radius `r` centred on one of `pts` covers cell index `i`.
pub open spec fn points_cover(b: UtmBoundingBox, x_res: int, y_res: int, pts: Seq<UtmCoord>, r: int, i: int) -> bool {
    exists|k: int| 0 <= k < pts.len() && #[trigger] disk_covers(
        x_res, y_res, column_of(b, x_res, pts[k].easting as int), row_of(b, y_res, pts[k].northing as int), r, i)
}

/// Whether the disk of radius `r` around point `p` has a cell on the grid.
pub open spec fn point_lands(b: UtmBoundingBox, x_res: int, y_res: int, p: UtmCoord, r: int) -> bool {
    disk_lands(x_res, y_res, column_of(b, x_res, p.easting as int), row_of(b, y_res, p.northing as int), r)
}

/// A stamp with exactly the offsets of a disk covers what the disk covers.
pub proof fn lemma_stamp_is_disk(x_res: int, y_res: int, cx: int, cy: int, deltas: Seq<(i16, i16)>, r: int)
    requires
        forall|d: (i16, i16)| deltas.contains(d) <==> in_disk(r, d.0 as int, d.1 as int),
    ensures
        stamp_lands(x_res, y_res, cx, cy, deltas) == disk_lands(x_res, y_res, cx, cy, r),
        forall|i: int| stamp_covers(x_res, y_res, cx, cy, deltas, i) == disk_covers(x_res, y_res, cx, cy, r, i),
{
    if stamp_lands(x_res, y_res, cx, cy, deltas) {
        let d = choose|d: (i16, i16)| deltas.contains(d) && #[trigger] lands(x_res, y_res, cx, cy, d);
        assert(in_disk(r, d.0 as int, d.1 as int));
    }
    if disk_lands(x_res, y_res, cx, cy, r) {
        let d = choose|d: (i16, i16)| in_disk(r, d.0 as int, d.1 as int) && #[trigger] lands(x_res, y_res, cx, cy, d);
        assert(deltas.contains(d));
    }
    assert forall|i: int| stamp_covers(x_res, y_res, cx, cy, deltas, i) == disk_covers(x_res, y_res, cx, cy, r, i) by {
        if stamp_covers(x_res, y_res, cx, cy, deltas, i) {
            let d = choose|d: (i16, i16)| deltas.contains(d) && #[trigger] lands(x_res, y_res, cx, cy, d)
                && index_of(x_res, cx + d.0, cy + d.1) == i;
            assert(in_disk(r, d.0 as int, d.1 as int));
        }
        if disk_covers(x_res, y_res, cx, cy, r, i) {
            let d = choose|d: (i16, i16)| in_disk(r, d.0 as int, d.1 as int) && #[trigger] lands(x_res, y_res, cx, cy, d)
                && index_of(x_res, cx + d.0, cy + d.1) == i;
            assert(deltas.contains(d));
        }
    }
}

impl Mask {
    /// Sets to `state` every cell of the shape `deltas` centred at cell `(x, y)`,
    /// skipping the offsets that land off the grid. Fails, after changing nothing,
    /// when no offset lands on the grid.
    pub fn set_with_deltas(&mut self, x: i64, y: i64, state: bool, deltas: &Vec<(i16, i16)>) -> (r: Result<(), LasToStlError>)
        requires
            old(self).wf(),
        ensures
            final(self).wf(),
            final(self).x_res == old(self).x_res,
            final(self).y_res == old(self).y_res,
            final(self).bounds == old(self).bounds,
            forall|i: int| 0 <= i < old(self).size() ==> #[trigger] final(self).data@[i] == (
                if stamp_covers(old(self).x_res as int, old(self).y_res as int, x as int, y as int, deltas@, i) {
                    state
                } else {
                    old(self).data@[i]
                }),
            r is Ok <==> stamp_lands(old(self).x_res as int, old(self).y_res as int, x as int, y as int, deltas@),
            r is Err ==> r == Err::<(), LasToStlError>(
                LasToStlError::SetWithDeltaError { x_res: old(self).x_res, y_res: old(self).y_res, x, y }),
    {
        let ghost xr = self.x_res as int;
        let ghost yr = self.y_res as int;
        let ghost old_data = self.data@;
        let mut landed = false;
        let mut k: usize = 0;
        proof {
            assert(deltas@.take(0) =~= Seq::<(i16, i16)>::empty());
        }
        while k < deltas.len()
            invariant
                k <= deltas@.len(),
                self.wf(),
                self.x_res == xr,
                self.y_res == yr,
                self.bounds == old(self).bounds,
                old_data == old(self).data@,
                old_data.len() == xr * yr,
                xr == old(self).x_res,
                yr == old(self).y_res,
                forall|i: int| 0 <= i < xr * yr ==> #[trigger] self.data@[i] == (
                    if stamp_covers(xr, yr, x as int, y as int, deltas@.take(k as int), i) {
                        state
                    } else {
                        old_data[i]
                    }),
                landed <==> stamp_lands(xr, yr, x as int, y as int, deltas@.take(k as int)),
            decreases deltas@.len() - k,
        {
            let (dx, dy) = deltas[k];
            let nx: i128 = x as i128 + dx as i128;
            let ny: i128 = y as i128 + dy as i128;
            let ghost d = (dx, dy);
            let ghost prev = self.data@;
            if 0 <= nx && nx < self.x_res as i128 && 0 <= ny && ny < self.y_res as i128 {
                let res = self.set_x_y(nx as usize, ny as usize, state);
                assert(lands(xr, yr, x as int, y as int, d));
                landed = true;
            }
            proof {
                let tk = deltas@.take(k as int);
                let tk1 = deltas@.take(k + 1);
                assert(d == deltas@[k as int]);
                assert forall|e: (i16, i16)| tk1.contains(e) <==> (tk.contains(e) || e == d) by {
                    lemma_take_contains(deltas@, k as int, e);
                }
                let j = index_of(xr, nx as int, ny as int);
                assert forall|i: int| 0 <= i < xr * yr implies
                    stamp_covers(xr, yr, x as int, y as int, tk1, i) == (
                        stamp_covers(xr, yr, x as int, y as int, tk, i)
                        || (lands(xr, yr, x as int, y as int, d) && j == i)) by {
                    if stamp_covers(xr, yr, x as int, y as int, tk1, i) {
                        let e = choose|e: (i16, i16)| tk1.contains(e) && #[trigger] lands(xr, yr, x as int, y as int, e)
                            && index_of(xr, x + e.0, y + e.1) == i;
                        if e != d {
                            assert(tk.contains(e));
                        }
                    }
                    if stamp_covers(xr, yr, x as int, y as int, tk, i) {
                        let e = choose|e: (i16, i16)| tk.contains(e) && #[trigger] lands(xr, yr, x as int, y as int, e)
                            && index_of(xr, x + e.0, y + e.1) == i;
                        assert(tk1.contains(e));
                    }
                    if lands(xr, yr, x as int, y as int, d) && j == i {
                        assert(tk1.contains(d));
                    }
                }
                if stamp_lands(xr, yr, x as int, y as int, tk1) {
                    let e = choose|e: (i16, i16)| tk1.contains(e) && #[trigger] lands(xr, yr, x as int, y as int, e);
                    if e != d {
                        assert(tk.contains(e));
                    }
                }
                if stamp_lands(xr, yr, x as int, y as int, tk) {
                    let e = choose|e: (i16, i16)| tk.contains(e) && #[trigger] lands(xr, yr, x as int, y as int, e);
                    assert(tk1.contains(e));
                }
                if lands(xr, yr, x as int, y as int, d) {
                    assert(tk1.contains(d));
                }
                if lands(xr, yr, x as int, y as int, d) {
                    assert(0 <= j < xr * yr) by (nonlinear_arith)
                        requires 0 <= nx < xr, 0 <= ny < yr, j == ny * xr + nx;
                    assert(self.data@ == prev.update(j, state));
                } else {
                    assert(self.data@ == prev);
                }
            }
            k = k + 1;
        }
        proof {
            assert(deltas@.take(deltas@.len() as int) =~= deltas@);
        }
        if landed {
            Ok(())
        } else {
            Err(LasToStlError::SetWithDeltaError { x_res: self.x_res, y_res: self.y_res, x, y })
        }
    }
}

impl Mask {
    /// Sets every cell whose offset from `(x, y)` is in `deltas` to true; the
    /// error of `set_with_deltas` when none of them is on the grid.
    fn stamp_point(&mut self, utm_coord: UtmCoord, radius: u16, deltas: &Vec<(i16, i16)>) -> (r: Result<(), LasToStlError>)
        requires
            old(self).wf(),
            forall|d: (i16, i16)| deltas@.contains(d) <==> in_disk(radius as int, d.0 as int, d.1 as int),
        ensures
            final(self).wf(),
            final(self).x_res == old(self).x_res,
            final(self).y_res == old(self).y_res,
            final(self).bounds == old(self).bounds,
            forall|i: int| 0 <= i < old(self).size() ==> #[trigger] final(self).data@[i] == (
                old(self).data@[i] || disk_covers(old(self).x_res as int, old(self).y_res as int,
                    column_of(old(self).bounds, old(self).x_res as int, utm_coord.easting as int),
                    row_of(old(self).bounds, old(self).y_res as int, utm_coord.northing as int),
                    radius as int, i)),
            r is Ok <==> point_lands(old(self).bounds, old(self).x_res as int, old(self).y_res as int, utm_coord, radius as int),
            r is Err ==> r == Err::<(), LasToStlError>(LasToStlError::SetWithDeltaError {
                x_res: old(self).x_res,
                y_res: old(self).y_res,
                x: column_of(old(self).bounds, old(self).x_res as int, utm_coord.easting as int) as i64,
                y: row_of(old(self).bounds, old(self).y_res as int, utm_coord.northing as int) as i64,
            }),
    {
        let (x, y) = utm_coord.get_x_y_coords(&self.bounds, self.x_res, self.y_res);
        proof {
            lemma_stamp_is_disk(self.x_res as int, self.y_res as int, x as int, y as int, deltas@, radius as int);
        }
        self.set_with_deltas(x, y, true, deltas)
    }

    /// Stamps a disk of `radius` cells around the planar point `utm_coord`. Fails,
    /// changing nothing, when no cell of the disk is on the grid.
    pub fn add_utm_point(&mut self, utm_coord: UtmCoord, radius: u16) -> (r: Result<(), LasToStlError>)
        requires
            old(self).wf(),
            radius <= i16::MAX,
        ensures
            final(self).wf(),
            final(self).x_res == old(self).x_res,
            final(self).y_res == old(self).y_res,
            final(self).bounds == old(self).bounds,
            forall|i: int| 0 <= i < old(self).size() ==> #[trigger] final(self).data@[i] == (
                old(self).data@[i] || disk_covers(old(self).x_res as int, old(self).y_res as int,
                    column_of(old(self).bounds, old(self).x_res as int, utm_coord.easting as int),
                    row_of(old(self).bounds, old(self).y_res as int, utm_coord.northing as int),
                    radius as int, i)),
            r is Ok <==> point_lands(old(self).bounds, old(self).x_res as int, old(self).y_res as int, utm_coord, radius as int),
            r is Err ==> r == Err::<(), LasToStlError>(LasToStlError::SetWithDeltaError {
                x_res: old(self).x_res,
                y_res: old(self).y_res,
                x: column_of(old(self).bounds, old(self).x_res as int, utm_coord.easting as int) as i64,
                y: row_of(old(self).bounds, old(self).y_res as int, utm_coord.northing as int) as i64,
            }),
    {
        let deltas = get_point_deltas_within_radius(radius);
        self.stamp_point(utm_coord, radius, &deltas)
    }

    /// Stamps a disk of `dot_radius` cells around each point in turn. Stops at the
    /// first point whose disk has no cell on the grid and fails with its error;
    /// the points before it stay stamped.
    pub fn add_utm_points(&mut self, utm_coords: Vec<UtmCoord>, dot_radius: u16) -> (r: Result<(), LasToStlError>)
        requires
            old(self).wf(),
            dot_radius <= i16::MAX,
        ensures
            final(self).wf(),
            final(self).x_res == old(self).x_res,
            final(self).y_res == old(self).y_res,
            final(self).bounds == old(self).bounds,
            r is Ok <==> forall|k: int| 0 <= k < utm_coords@.len() ==>
                #[trigger] point_lands(old(self).bounds, old(self).x_res as int, old(self).y_res as int, utm_coords@[k], dot_radius as int),
            r is Ok ==> forall|i: int| 0 <= i < old(self).size() ==> #[trigger] final(self).data@[i] == (
                old(self).data@[i] || points_cover(old(self).bounds, old(self).x_res as int, old(self).y_res as int,
                    utm_coords@, dot_radius as int, i)),
            r is Err ==> exists|j: int| 0 <= j < utm_coords@.len() && {
                let p = #[trigger] utm_coords@[j];
                &&& forall|k: int| 0 <= k < j ==>
                    #[trigger] point_lands(old(self).bounds, old(self).x_res as int, old(self).y_res as int, utm_coords@[k], dot_radius as int)
                &&& !point_lands(old(self).bounds, old(self).x_res as int, old(self).y_res as int, p, dot_radius as int)
                &&& r == Err::<(), LasToStlError>(LasToStlError::SetWithDeltaError {
                    x_res: old(self).x_res,
                    y_res: old(self).y_res,
                    x: column_of(old(self).bounds, old(self).x_res as int, p.easting as int) as i64,
                    y: row_of(old(self).bounds, old(self).y_res as int, p.northing as int) as i64,
                })
                &&& forall|i: int| 0 <= i < old(self).size() ==> #[trigger] final(self).data@[i] == (
                    old(self).data@[i] || points_cover(old(self).bounds, old(self).x_res as int, old(self).y_res as int,
                        utm_coords@.take(j), dot_radius as int, i))
            },
    {
        let deltas = get_point_deltas_within_radius(dot_radius);
        let ghost b = self.bounds;
        let ghost xr = self.x_res as int;
        let ghost yr = self.y_res as int;
        let ghost r = dot_radius as int;
        let ghost old_data = self.data@;
        let ghost pts = utm_coords@;
        let mut k: usize = 0;
        while k < utm_coords.len()
            invariant
                k <= pts.len(),
                pts == utm_coords@,
                self.wf(),
                self.x_res == xr,
                self.y_res == yr,
                self.bounds == b,
                b == old(self).bounds,
                xr == old(self).x_res,
                yr == old(self).y_res,
                r == dot_radius,
                old_data == old(self).data@,
                old_data.len() == xr * yr,
                forall|d: (i16, i16)| deltas@.contains(d) <==> in_disk(r, d.0 as int, d.1 as int),
                forall|j: int| 0 <= j < k ==> #[trigger] point_lands(b, xr, yr, pts[j], r),
                forall|i: int| 0 <= i < xr * yr ==> #[trigger] self.data@[i] == (
                    old_data[i] || points_cover(b, xr, yr, pts.take(k as int), r, i)),
            decreases pts.len() - k,
        {
            let p = utm_coords[k];
            let ghost prev = self.data@;
            let res = self.stamp_point(p, dot_radius, &deltas);
            proof {
                let tk = pts.take(k as int);
                let tk1 = pts.take(k + 1);
                let cx = column_of(b, xr, p.easting as int);
                let cy = row_of(b, yr, p.northing as int);
                assert forall|i: int| 0 <= i < xr * yr implies
                    points_cover(b, xr, yr, tk1, r, i) == (points_cover(b, xr, yr, tk, r, i)
                        || disk_covers(xr, yr, cx, cy, r, i)) by {
                    if points_cover(b, xr, yr, tk1, r, i) {
                        let m = choose|m: int| 0 <= m < tk1.len() && #[trigger] disk_covers(
                            xr, yr, column_of(b, xr, tk1[m].easting as int), row_of(b, yr, tk1[m].northing as int), r, i);
                        if m < k {
                            assert(tk[m] == tk1[m]);
                        }
                    }
                    if points_cover(b, xr, yr, tk, r, i) {
                        let m = choose|m: int| 0 <= m < tk.len() && #[trigger] disk_covers(
                            xr, yr, column_of(b, xr, tk[m].easting as int), row_of(b, yr, tk[m].northing as int), r, i);
                        assert(tk[m] == tk1[m]);
                    }
                    if disk_covers(xr, yr, cx, cy, r, i) {
                        assert(tk1[k as int] == p);
                    }
                }
            }
            if res.is_err() {
                return res;
            }
            k = k + 1;
        }
        proof {
            assert(pts.take(pts.len() as int) =~= pts);
        }
        Ok(())
    }

    /// Stamps a disk of `dot_radius` cells around every vertex of a trail given in
    /// planar units, with the outcome of `add_utm_points`.
    pub fn add_trail_raw(&mut self, trail: &Vec<UtmCoord>, dot_radius: u16) -> (r: Result<(), LasToStlError>)
        requires
            old(self).wf(),
            dot_radius <= i16::MAX,
        ensures
            final(self).wf(),
            final(self).x_res == old(self).x_res,
            final(self).y_res == old(self).y_res,
            final(self).bounds == old(self).bounds,
            r is Ok <==> forall|k: int| 0 <= k < trail@.len() ==>
                #[trigger] point_lands(old(self).bounds, old(self).x_res as int, old(self).y_res as int, trail@[k], dot_radius as int),
            r is Ok ==> forall|i: int| 0 <= i < old(self).size() ==> #[trigger] final(self).data@[i] == (
                old(self).data@[i] || points_cover(old(self).bounds, old(self).x_res as int, old(self).y_res as int,
                    trail@, dot_radius as int, i)),
    {
        self.add_utm_points(trail.clone(), dot_radius)
    }
}

impl Mask {
    /// Applies `op` cell by cell with `other`, whose resolution must match.
    fn zip_assign(&mut self, other: &Mask, op: MaskOp)
        requires
            old(self).wf(),
            other.wf(),
            old(self).x_res == other.x_res,
            old(self).y_res == other.y_res,
        ensures
            final(self).wf(),
            final(self).x_res == old(self).x_res,
            final(self).y_res == old(self).y_res,
            final(self).bounds == old(self).bounds,
            final(self).data@ == combine(op, old(self).data@, other.data@),
    {
        let n = self.data.len();
        let mut i: usize = 0;
        while i < n
            invariant
                n == self.data@.len(),
                n == other.data@.len(),
                i <= n,
                self.x_res == old(self).x_res,
                self.y_res == old(self).y_res,
                self.bounds == old(self).bounds,
                forall|k: int| 0 <= k < i ==> #[trigger] self.data@[k] == apply_op(op, old(self).data@[k], other.data@[k]),
                forall|k: int| i <= k < n ==> #[trigger] self.data@[k] == old(self).data@[k],
            decreases n - i,
        {
            let a = self.data[i];
            let b = other.data[i];
            let v = match op {
                MaskOp::Union => a || b,
                MaskOp::Intersection => a && b,
                MaskOp::SymmetricDifference => a != b,
                MaskOp::Difference => a && !b,
            };
            self.data.set(i, v);
            i = i + 1;
        }
        proof {
            assert(self.data@ =~= combine(op, old(self).data@, other.data@));
        }
    }

    /// Applies `op` with `other` after checking that both masks share resolution
    /// and extent; on a mismatch fails and changes nothing.
    fn checked_assign(&mut self, other: &Mask, op: MaskOp) -> (r: Result<(), LasToStlError>)
        requires
            old(self).wf(),
            other.wf(),
        ensures
            final(self).wf(),
            final(self).x_res == old(self).x_res,
            final(self).y_res == old(self).y_res,
            final(self).bounds == old(self).bounds,
            r is Ok <==> old(self).same_geometry(other),
            r is Ok ==> final(self).data@ == combine(op, old(self).data@, other.data@),
            r is Err ==> final(self).data@ == old(self).data@
                && r == Err::<(), LasToStlError>(old(self).mismatch_error(other)),
    {
        if self.x_res == other.x_res && self.y_res == other.y_res && self.bounds == other.bounds {
            self.zip_assign(other, op);
            Ok(())
        } else {
            Err(LasToStlError::MaskBoundMismatchError {
                other_x_res: other.x_res,
                other_y_res: other.y_res,
                mask_x_res: self.x_res,
                mask_y_res: self.y_res,
                other_bounds: other.bounds,
                mask_bounds: self.bounds,
            })
        }
    }

    /// Union with `other`; both masks must share resolution and extent, else this
    /// fails and changes nothing.
    pub fn checked_bitor_assign(&mut self, other_mask: &Mask) -> (r: Result<(), LasToStlError>)
        requires
            old(self).wf(),
            other_mask.wf(),
        ensures
            final(self).wf(),
            final(self).x_res == old(self).x_res,
            final(self).y_res == old(self).y_res,
            final(self).bounds == old(self).bounds,
            r is Ok <==> old(self).same_geometry(other_mask),
            r is Ok ==> final(self).data@ == combine(MaskOp::Union, old(self).data@, other_mask.data@),
            r is Err ==> final(self).data@ == old(self).data@
                && r == Err::<(), LasToStlError>(old(self).mismatch_error(other_mask)),
    {
        self.checked_assign(other_mask, MaskOp::Union)
    }

    /// Intersection with `other`; both masks must share resolution and extent,
    /// else this fails and changes nothing.
    pub fn checked_bitand_assign(&mut self, other_mask: &Mask) -> (r: Result<(), LasToStlError>)
        requires
            old(self).wf(),
            other_mask.wf(),
        ensures
            final(self).wf(),
            final(self).x_res == old(self).x_res,
            final(self).y_res == old(self).y_res,
            final(self).bounds == old(self).bounds,
            r is Ok <==> old(self).same_geometry(other_mask),
            r is Ok ==> final(self).data@ == combine(MaskOp::Intersection, old(self).data@, other_mask.data@),
            r is Err ==> final(self).data@ == old(self).data@
                && r == Err::<(), LasToStlError>(old(self).mismatch_error(other_mask)),
    {
        self.checked_assign(other_mask, MaskOp::Intersection)
    }

    /// Symmetric difference with `other`; both masks must share resolution and
    /// extent, else this fails and changes nothing.
    pub fn checked_bitxor_assign(&mut self, other_mask: &Mask) -> (r: Result<(), LasToStlError>)
        requires
            old(self).wf(),
            other_mask.wf(),
        ensures
            final(self).wf(),
            final(self).x_res == old(self).x_res,
            final(self).y_res == old(self).y_res,
            final(self).bounds == old(self).bounds,
            r is Ok <==> old(self).same_geometry(other_mask),
            r is Ok ==> final(self).data@ == combine(MaskOp::SymmetricDifference, old(self).data@, other_mask.data@),
            r is Err ==> final(self).data@ == old(self).data@
                && r == Err::<(), LasToStlError>(old(self).mismatch_error(other_mask)),
    {
        self.checked_assign(other_mask, MaskOp::SymmetricDifference)
    }

    /// Removes the cells set in `other`; both masks must share resolution and
    /// extent, else this fails and changes nothing.
    pub fn checked_sub_assign(&mut self, other_mask: &Mask) -> (r: Result<(), LasToStlError>)
        requires
            old(self).wf(),
            other_mask.wf(),
        ensures
            final(self).wf(),
            final(self).x_res == old(self).x_res,
            final(self).y_res == old(self).y_res,
            final(self).bounds == old(self).bounds,
            r is Ok <==> old(self).same_geometry(other_mask),
            r is Ok ==> final(self).data@ == combine(MaskOp::Difference, old(self).data@, other_mask.data@),
            r is Err ==> final(self).data@ == old(self).data@
                && r == Err::<(), LasToStlError>(old(self).mismatch_error(other_mask)),
    {
        self.checked_assign(other_mask, MaskOp::Difference)
    }

    /// Union with `other`, whose resolution must match; the extents are not
    /// compared.
    pub fn bitor_assign(&mut self, other_mask: &Mask)
        requires
            old(self).wf(),
            other_mask.wf(),
            old(self).x_res == other_mask.x_res,
            old(self).y_res == other_mask.y_res,
        ensures
            final(self).wf(),
            final(self).x_res == old(self).x_res,
            final(self).y_res == old(self).y_res,
            final(self).bounds == old(self).bounds,
            final(self).data@ == combine(MaskOp::Union, old(self).data@, other_mask.data@),
    {
        self.zip_assign(other_mask, MaskOp::Union)
    }

    /// Intersection with `other`, whose resolution must match; the extents are not
    /// compared.
    pub fn bitand_assign(&mut self, other_mask: &Mask)
        requires
            old(self).wf(),
            other_mask.wf(),
            old(self).x_res == other_mask.x_res,
            old(self).y_res == other_mask.y_res,
        ensures
            final(self).wf(),
            final(self).x_res == old(self).x_res,
            final(self).y_res == old(self).y_res,
            final(self).bounds == old(self).bounds,
            final(self).data@ == combine(MaskOp::Intersection, old(self).data@, other_mask.data@),
    {
        self.zip_assign(other_mask, MaskOp::Intersection)
    }

    /// Symmetric difference with `other`, whose resolution must match; the extents
    /// are not compared.
    pub fn bitxor_assign(&mut self, other_mask: &Mask)
        requires
            old(self).wf(),
            other_mask.wf(),
            old(self).x_res == other_mask.x_res,
            old(self).y_res == other_mask.y_res,
        ensures
            final(self).wf(),
            final(self).x_res == old(self).x_res,
            final(self).y_res == old(self).y_res,
            final(self).bounds == old(self).bounds,
            final(self).data@ == combine(MaskOp::SymmetricDifference, old(self).data@, other_mask.data@),
    {
        self.zip_assign(other_mask, MaskOp::SymmetricDifference)
    }

    /// Removes the cells set in `other`, whose resolution must match; the extents
    /// are not compared.
    pub fn sub_assign(&mut self, other_mask: &Mask)
        requires
            old(self).wf(),
            other_mask.wf(),
            old(self).x_res == other_mask.x_res,
            old(self).y_res == other_mask.y_res,
        ensures
            final(self).wf(),
            final(self).x_res == old(self).x_res,
            final(self).y_res == old(self).y_res,
            final(self).bounds == old(self).bounds,
            final(self).data@ == combine(MaskOp::Difference, old(self).data@, other_mask.data@),
    {
        self.zip_assign(other_mask, MaskOp::Difference)
    }

    /// Flips every cell.
    pub fn invert(&mut self)
        requires
            old(self).wf(),
        ensures
            final(self).wf(),
            final(self).x_res == old(self).x_res,
            final(self).y_res == old(self).y_res,
            final(self).bounds == old(self).bounds,
            final(self).data@ == inverse_of(old(self).data@),
    {
        let n = self.data.len();
        let mut i: usize = 0;
        while i < n
            invariant
                n == self.data@.len(),
                i <= n,
                self.x_res == old(self).x_res,
                self.y_res == old(self).y_res,
                self.bounds == old(self).bounds,
                forall|k: int| 0 <= k < i ==> #[trigger] self.data@[k] == !old(self).data@[k],
                forall|k: int| i <= k < n ==> #[trigger] self.data@[k] == old(self).data@[k],
            decreases n - i,
        {
            let a = self.data[i];
            self.data.set(i, !a);
            i = i + 1;
        }
        proof {
            assert(self.data@ =~= inverse_of(old(self).data@));
        }
    }

    /// The number of set cells.
    pub fn get_true_count(&self) -> (r: usize)
        requires
            self.wf(),
        ensures
            r == count_true(self.data@),
    {
        let mut c: usize = 0;
        let mut i: usize = 0;
        while i < self.data.len()
            invariant
                i <= self.data@.len(),
                c == count_true(self.data@.take(i as int)),
                c <= i,
            decreases self.data@.len() - i,
        {
            proof {
                assert(self.data@.take(i + 1).drop_last() =~= self.data@.take(i as int));
            }
            if self.data[i] {
                c = c + 1;
            }
            i = i + 1;
        }
        proof {
            assert(self.data@.take(self.data@.len() as int) =~= self.data@);
        }
        c
    }

    /// The value of cell `(x, y)`, or false when it is off the grid.
    pub open spec fn cell_or_false(&self, x: int, y: int) -> bool {
        on_grid(self.x_res as int, self.y_res as int, x, y) && self.cell(x, y)
    }

    fn value_or_false(&self, x: i128, y: i128) -> (r: bool)
        requires
            self.wf(),
        ensures
            r == self.cell_or_false(x as int, y as int),
    {
        if 0 <= x && 0 <= y && x < self.x_res as i128 && y < self.y_res as i128 {
            self.get_by_xy_unchecked(x as usize, y as usize)
        } else {
            false
        }
    }

    /// The 3x3 neighbourhood of `(x, y)`, itself included, row by row from offset
    /// `dy = +1` down to `dy = -1` and within a row from `dx = -1` to `dx = +1`;
    /// cells off the grid read as false.
    pub fn get_neighbors(&self, x: usize, y: usize) -> (r: [bool; 9])
        requires
            self.wf(),
        ensures
            r@ == seq![
                self.cell_or_false(x - 1, y + 1), self.cell_or_false(x as int, y + 1), self.cell_or_false(x + 1, y + 1),
                self.cell_or_false(x - 1, y as int), self.cell_or_false(x as int, y as int), self.cell_or_false(x + 1, y as int),
                self.cell_or_false(x - 1, y - 1), self.cell_or_false(x as int, y - 1), self.cell_or_false(x + 1, y - 1),
            ],
    {
        let xi = x as i128;
        let yi = y as i128;
        let r = [
            self.value_or_false(xi - 1, yi + 1), self.value_or_false(xi, yi + 1), self.value_or_false(xi + 1, yi + 1),
            self.value_or_false(xi - 1, yi), self.value_or_false(xi, yi), self.value_or_false(xi + 1, yi),
            self.value_or_false(xi - 1, yi - 1), self.value_or_false(xi, yi - 1), self.value_or_false(xi + 1, yi - 1),
        ];
        proof {
            assert(r@ =~= seq![
                self.cell_or_false(x - 1, y + 1), self.cell_or_false(x as int, y + 1), self.cell_or_false(x + 1, y + 1),
                self.cell_or_false(x - 1, y as int), self.cell_or_false(x as int, y as int), self.cell_or_false(x + 1, y as int),
                self.cell_or_false(x - 1, y - 1), self.cell_or_false(x as int, y - 1), self.cell_or_false(x + 1, y - 1),
            ]);
        }
        r
    }

    /// The planar point of cell `(x, y)`, which must be on the grid.
    pub fn get_x_y_utm_unchecked(&self, x: usize, y: usize) -> (r: UtmCoord)
        requires
            self.wf(),
            x < self.x_res,
            y < self.y_res,
        ensures
            r.easting == easting_of(self.bounds, self.x_res as int, x as int),
            r.northing == northing_of(self.bounds, self.y_res as int, y as int),
            self.bounds.min_x <= r.easting <= self.bounds.max_x,
            self.bounds.min_y <= r.northing <= self.bounds.max_y,
    {
        proof {
            lemma_res_small(self.x_res as int, self.y_res as int);
        }
        let e = planar_exec(self.bounds.min_x, self.bounds.x_range(), self.x_res, x);
        let n = planar_exec(self.bounds.min_y, self.bounds.y_range(), self.y_res, self.y_res - 1 - y);
        UtmCoord::new((e, n))
    }

    /// The planar point of cell `(x, y)`; fails when it is off the grid.
    pub fn get_x_y_utm(&self, x: usize, y: usize) -> (r: Result<UtmCoord, LasToStlError>)
        requires
            self.wf(),
        ensures
            match r {
                Ok(c) => x < self.x_res && y < self.y_res
                    && c.easting == easting_of(self.bounds, self.x_res as int, x as int)
                    && c.northing == northing_of(self.bounds, self.y_res as int, y as int),
                Err(e) => !(x < self.x_res && y < self.y_res)
                    && e == (LasToStlError::BadIndexError { x_res: self.x_res, y_res: self.y_res, x, y }),
            },
    {
        if x < self.x_res && y < self.y_res {
            Ok(self.get_x_y_utm_unchecked(x, y))
        } else {
            Err(LasToStlError::BadIndexError { x_res: self.x_res, y_res: self.y_res, x, y })
        }
    }
}

impl Mask {
    /// The cell at `(x, y)` after filling `region` into `old`: set when it was set
    /// before, or when it lies in the cell rectangle spanned by the region's
    /// bounding rectangle and its planar point is strictly inside the region.
    pub open spec fn filled_cell(old: Mask, region: UtmPolygon, x: int, y: int) -> bool {
        let rect = ring_cell_rect(old.bounds, old.x_res as int, old.y_res as int, region.exterior@);
        old.cell(x, y) || (rect.0 <= x <= rect.1 && rect.2 <= y <= rect.3 && polygon_contains(
            ring_view(region.exterior@), holes_view(region.interiors@),
            easting_of(old.bounds, old.x_res as int, x) as i64, northing_of(old.bounds, old.y_res as int, y) as i64))
    }

    /// Sets every cell whose planar point lies strictly inside `region`. Only the
    /// cells of the region's bounding rectangle are tested. Fails, changing
    /// nothing, when the outer ring is empty or the rectangle reaches past the
    /// east or north edge of the grid.
    pub fn add_filled_utm_polygon(&mut self, utm_region: &UtmPolygon) -> (r: Result<(), LasToStlError>)
        requires
            old(self).wf(),
            utm_region.in_limit(),
            coord_in_limit(old(self).bounds.min_x),
            coord_in_limit(old(self).bounds.max_x),
            coord_in_limit(old(self).bounds.min_y),
            coord_in_limit(old(self).bounds.max_y),
        ensures
            final(self).wf(),
            final(self).x_res == old(self).x_res,
            final(self).y_res == old(self).y_res,
            final(self).bounds == old(self).bounds,
            utm_region.exterior@.len() == 0 ==> r == Err::<(), LasToStlError>(LasToStlError::NoBoundingRectError)
                && final(self).data@ == old(self).data@,
            utm_region.exterior@.len() > 0 ==> {
                let rect = ring_cell_rect(old(self).bounds, old(self).x_res as int, old(self).y_res as int, utm_region.exterior@);
                if rect.1 >= old(self).x_res || rect.2 < 0 {
                    &&& r == Err::<(), LasToStlError>(LasToStlError::PolygonOutOfBoundsError {
                        x_res: old(self).x_res, y_res: old(self).y_res, x: rect.1 as i64, y: rect.2 as i64 })
                    &&& final(self).data@ == old(self).data@
                } else {
                    &&& r is Ok
                    &&& forall|x: int, y: int| on_grid(old(self).x_res as int, old(self).y_res as int, x, y) ==>
                        #[trigger] final(self).cell(x, y) == Mask::filled_cell(*old(self), *utm_region, x, y)
                }
            },
    {
        if utm_region.exterior.len() == 0 {
            return Err(LasToStlError::NoBoundingRectError);
        }
        proof {
            lemma_res_small(self.x_res as int, self.y_res as int);
        }
        let rect = ring_bounding_rect(&utm_region.exterior);
        let (x0, y1) = UtmCoord::new((rect.0, rect.2)).get_x_y_coords(&self.bounds, self.x_res, self.y_res);
        let (x1, y0) = UtmCoord::new((rect.1, rect.3)).get_x_y_coords(&self.bounds, self.x_res, self.y_res);
        if x1 >= self.x_res as i64 || y0 < 0 {
            return Err(LasToStlError::PolygonOutOfBoundsError { x_res: self.x_res, y_res: self.y_res, x: x1, y: y0 });
        }
        let ghost old_mask = *old(self);
        let ghost xr = self.x_res as int;
        let ghost yr = self.y_res as int;
        let mut x: i64 = x0;
        while x <= x1
            invariant
                0 <= x0 <= x,
                x <= x1 + 1 || x == x0,
                x1 < xr < 0x8000_0000_0000_0000,
                yr < 0x8000_0000_0000_0000,
                utm_region.in_limit(),
                coord_in_limit(self.bounds.min_x),
                coord_in_limit(self.bounds.max_x),
                coord_in_limit(self.bounds.min_y),
                coord_in_limit(self.bounds.max_y),
                0 <= y0,
                y1 < yr,
                self.wf(),
                self.x_res == xr,
                self.y_res == yr,
                old_mask == *old(self),
                self.bounds == old_mask.bounds,
                xr == old_mask.x_res,
                yr == old_mask.y_res,
                utm_region.exterior@.len() > 0,
                ring_cell_rect(old_mask.bounds, xr, yr, utm_region.exterior@) == (x0 as int, x1 as int, y0 as int, y1 as int),
                forall|cx: int, cy: int| on_grid(xr, yr, cx, cy) ==> #[trigger] self.cell(cx, cy) == (
                    if cx < x { Mask::filled_cell(old_mask, *utm_region, cx, cy) } else { old_mask.cell(cx, cy) }),
            decreases x1 + 1 - x,
        {
            let mut y: i64 = y0;
            while y <= y1
                invariant
                    0 <= x0 <= x <= x1,
                    x1 < xr,
                    0 <= y0 <= y,
                    y <= y1 + 1 || y == y0,
                    y1 < yr < 0x8000_0000_0000_0000,
                    xr < 0x8000_0000_0000_0000,
                    utm_region.in_limit(),
                    coord_in_limit(self.bounds.min_x),
                    coord_in_limit(self.bounds.max_x),
                    coord_in_limit(self.bounds.min_y),
                    coord_in_limit(self.bounds.max_y),
                    self.wf(),
                    self.x_res == xr,
                    self.y_res == yr,
                    old_mask == *old(self),
                    self.bounds == old_mask.bounds,
                    xr == old_mask.x_res,
                    yr == old_mask.y_res,
                    utm_region.exterior@.len() > 0,
                    ring_cell_rect(old_mask.bounds, xr, yr, utm_region.exterior@) == (x0 as int, x1 as int, y0 as int, y1 as int),
                    forall|cx: int, cy: int| on_grid(xr, yr, cx, cy) ==> #[trigger] self.cell(cx, cy) == (
                        if cx < x || (cx == x && cy < y) {
                            Mask::filled_cell(old_mask, *utm_region, cx, cy)
                        } else {
                            old_mask.cell(cx, cy)
                        }),
                decreases y1 + 1 - y,
            {
                let p = self.get_x_y_utm_unchecked(x as usize, y as usize);
                let inside = region_contains(utm_region, p.easting, p.northing);
                let cur = self.get_by_xy_unchecked(x as usize, y as usize);
                let ghost prev = *self;
                let _ = self.set_x_y(x as usize, y as usize, cur || inside);
                proof {
                    assert forall|cx: int, cy: int| on_grid(xr, yr, cx, cy) implies #[trigger] self.cell(cx, cy) == (
                        if cx < x || (cx == x && cy < y + 1) {
                            Mask::filled_cell(old_mask, *utm_region, cx, cy)
                        } else {
                            old_mask.cell(cx, cy)
                        }) by {
                        crate::utils::lemma_index_bijective(xr, yr, cx, cy, x as int, y as int);
                        crate::utils::lemma_index_bijective(xr, yr, x as int, y as int, cx, cy);
                        let j = index_of(xr, x as int, y as int);
                        assert(self.data@ == prev.data@.update(j, cur || inside));
                        if cx == x && cy == y {
                            assert(self.cell(cx, cy) == (cur || inside));
                            assert(cur == old_mask.cell(cx, cy));
                            assert(inside == polygon_contains(ring_view(utm_region.exterior@), holes_view(utm_region.interiors@),
                                easting_of(old_mask.bounds, xr, cx) as i64, northing_of(old_mask.bounds, yr, cy) as i64));
                            assert(x0 <= cx <= x1 && y0 <= cy <= y1);
                            assert(self.cell(cx, cy) == Mask::filled_cell(old_mask, *utm_region, cx, cy));
                        } else {
                            assert(prev.cell(cx, cy) == (if cx < x || (cx == x && cy < y) {
                                Mask::filled_cell(old_mask, *utm_region, cx, cy)
                            } else {
                                old_mask.cell(cx, cy)
                            }));
                            assert(self.data@[index_of(xr, cx, cy)] == prev.data@[index_of(xr, cx, cy)]);
                        }
                    }
                }
                y = y + 1;
            }
            x = x + 1;
        }
        Ok(())
    }

    /// Fills the region bounded by a closed ring given in planar units, as
    /// `add_filled_utm_polygon` does for a polygon without holes. Fails, changing
    /// nothing, when the ring's last point is not its first.
    pub fn add_utm_line_string_as_region(&mut self, line_string: &Vec<UtmCoord>) -> (r: Result<(), LasToStlError>)
        requires
            old(self).wf(),
            ring_in_limit(line_string@),
            coord_in_limit(old(self).bounds.min_x),
            coord_in_limit(old(self).bounds.max_x),
            coord_in_limit(old(self).bounds.min_y),
            coord_in_limit(old(self).bounds.max_y),
        ensures
            final(self).wf(),
            final(self).x_res == old(self).x_res,
            final(self).y_res == old(self).y_res,
            final(self).bounds == old(self).bounds,
            line_string@.len() > 0 && line_string@[0] != line_string@.last() ==>
                r == Err::<(), LasToStlError>(LasToStlError::OpenLineStringError) && final(self).data@ == old(self).data@,
            line_string@.len() == 0 ==> r == Err::<(), LasToStlError>(LasToStlError::NoBoundingRectError)
                && final(self).data@ == old(self).data@,
            line_string@.len() > 0 && line_string@[0] == line_string@.last() ==> {
                let rect = ring_cell_rect(old(self).bounds, old(self).x_res as int, old(self).y_res as int, line_string@);
                if rect.1 >= old(self).x_res || rect.2 < 0 {
                    &&& r == Err::<(), LasToStlError>(LasToStlError::PolygonOutOfBoundsError {
                        x_res: old(self).x_res, y_res: old(self).y_res, x: rect.1 as i64, y: rect.2 as i64 })
                    &&& final(self).data@ == old(self).data@
                } else {
                    &&& r is Ok
                    &&& forall|x: int, y: int| on_grid(old(self).x_res as int, old(self).y_res as int, x, y) ==>
                        #[trigger] final(self).cell(x, y) == (old(self).cell(x, y) || (
                            rect.0 <= x <= rect.1 && rect.2 <= y <= rect.3 && polygon_contains(
                                ring_view(line_string@), Seq::empty(),
                                easting_of(old(self).bounds, old(self).x_res as int, x) as i64,
                                northing_of(old(self).bounds, old(self).y_res as int, y) as i64)))
                }
            },
    {
        let n = line_string.len();
        if n > 0 && line_string[0] != line_string[n - 1] {
            return Err(LasToStlError::OpenLineStringError);
        }
        let region = UtmPolygon { exterior: line_string.clone(), interiors: Vec::new() };
        proof {
            assert(holes_view(region.interiors@) =~= Seq::<Seq<(i64, i64)>>::empty());
        }
        self.add_filled_utm_polygon(&region)
    }
}

} // verus!
