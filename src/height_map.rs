use vstd::prelude::*;
use vstd::arithmetic::div_mod::{
    lemma_fundamental_div_mod_converse, lemma_div_is_ordered, lemma_div_multiples_vanish,
    lemma_fundamental_div_mod, lemma_mod_pos_bound,
};
use crate::errors::LasToStlError;
use crate::mask::Mask;
use crate::utils::{index_of, x_y_to_index, scale_spec, scale_to_uint_range};
use crate::utm_bounds::{UtmBoundingBox, grid_geometry_ok, column_of, row_of, lemma_res_small};
use crate::utm_point::UtmCoord;

verus! {

/// A running sum and count of the elevations that fell into one grid cell.
#[derive(Debug, Clone, Copy)]
pub struct PointAggregate {
    pub point_sum: i128,
    pub num_points: u64,
}

/// The average of `count` samples summing to `sum`, rounded down, or `default`
/// when there are none.
pub open spec fn average_or_default(sum: int, count: int, default: int) -> int {
    if count == 0 {
        default
    } else {
        sum / count
    }
}

/// `floor(sum / count)` for a sum of `count` values that each fit in an `i64`.
fn floor_average(sum: i128, count: u64) -> (r: i64)
    requires
        count > 0,
        count * i64::MIN <= sum <= count * i64::MAX,
    ensures
        r == (sum as int) / (count as int),
{
    let c: i128 = count as i128;
    proof {
        let (s, ci) = (sum as int, count as int);
        lemma_div_is_ordered(s, ci * (i64::MAX as int), ci);
        lemma_div_multiples_vanish(i64::MAX as int, ci);
        lemma_div_is_ordered(ci * (i64::MIN as int), s, ci);
        lemma_div_multiples_vanish(i64::MIN as int, ci);
    }
    if sum >= 0 {
        (sum / c) as i64
    } else {
        let a: u128 = (-sum) as u128;
        let cu: u128 = count as u128;
        let q: u128 = (a + cu - 1) / cu;
        proof {
            let (ai, ci, qi) = (a as int, cu as int, q as int);
            let m = ai + ci - 1;
            lemma_fundamental_div_mod(m, ci);
            lemma_mod_pos_bound(m, ci);
            let rr = m % ci;
            assert(m == ci * qi + rr);
            assert(m == qi * ci + rr) by (nonlinear_arith)
                requires m == ci * qi + rr;
            assert((-qi) * ci == -(qi * ci)) by (nonlinear_arith);
            assert(sum as int == (-qi) * ci + (ci - 1 - rr));
            lemma_fundamental_div_mod_converse(sum as int, ci, -qi, ci - 1 - rr);
        }
        -(q as i128) as i64
    }
}

impl PointAggregate {
    /// The sum is that of `num_points` values that each fit in an `i64`.
    pub open spec fn wf(&self) -> bool {
        self.num_points * i64::MIN <= self.point_sum <= self.num_points * i64::MAX
    }

    /// No samples yet.
    pub fn new() -> (r: PointAggregate)
        ensures
            r.point_sum == 0,
            r.num_points == 0,
            r.wf(),
    {
        PointAggregate { point_sum: 0, num_points: 0 }
    }

    /// Adds one elevation sample.
    pub fn add_sample(&mut self, new_height: i64)
        requires
            old(self).wf(),
            old(self).num_points < u64::MAX,
        ensures
            final(self).wf(),
            final(self).point_sum == old(self).point_sum + new_height,
            final(self).num_points == old(self).num_points + 1,
    {
        proof {
            let n = self.num_points as int;
            assert((n + 1) * i64::MIN == n * i64::MIN + i64::MIN) by (nonlinear_arith);
            assert((n + 1) * i64::MAX == n * i64::MAX + i64::MAX) by (nonlinear_arith);
            assert(n * i64::MAX < 0x8000_0000_0000_0000_0000_0000_0000_0000 - i64::MAX) by (nonlinear_arith)
                requires 0 <= n < u64::MAX;
            assert(n * i64::MIN > -0x8000_0000_0000_0000_0000_0000_0000_0000 - i64::MIN) by (nonlinear_arith)
                requires 0 <= n < u64::MAX;
        }
        self.point_sum = self.point_sum + new_height as i128;
        self.num_points = self.num_points + 1;
    }

    /// The average of the samples, rounded down, or `default` when there are none.
    pub fn get_average_or_default(&self, default: i64) -> (r: i64)
        requires
            self.wf(),
        ensures
            r == average_or_default(self.point_sum as int, self.num_points as int, default as int),
    {
        if self.num_points == 0 {
            default
        } else {
            floor_average(self.point_sum, self.num_points)
        }
    }
}

impl Default for PointAggregate {
    /// No samples yet.
    fn default() -> (r: Self)
        ensures
            r.point_sum == 0,
            r.num_points == 0,
    {
        PointAggregate { point_sum: 0, num_points: 0 }
    }
}

/// A planar sample `(x, y, z)`: position and elevation.
pub type Sample = (i64, i64, i64);

/// The flat index of the cell that takes a sample at planar `(x, y)`, or `None`
/// when the sample falls east or north of the grid. Row `0` is the north edge.
pub open spec fn sample_cell(b: UtmBoundingBox, x_res: int, y_res: int, x: int, y: int) -> Option<int> {
    let c = column_of(b, x_res, x);
    let r = row_of(b, y_res, y);
    if c < x_res && r >= 0 {
        Some(index_of(x_res, c, r))
    } else {
        None
    }
}

/// The `(sum, count)` of each aggregate cell.
pub open spec fn agg_view(data: Seq<PointAggregate>) -> Seq<(int, int)> {
    data.map_values(|p: PointAggregate| (p.point_sum as int, p.num_points as int))
}

/// One sample added to the cells `v`. A cell already holding `u64::MAX` samples
/// takes no more.
pub open spec fn agg_step(v: Seq<(int, int)>, b: UtmBoundingBox, x_res: int, y_res: int, s: Sample) -> Seq<(int, int)> {
    match sample_cell(b, x_res, y_res, s.0 as int, s.1 as int) {
        Some(i) => if v[i].1 < u64::MAX {
            v.update(i, (v[i].0 + s.2, v[i].1 + 1))
        } else {
            v
        },
        None => v,
    }
}

/// The cells of a fresh aggregator after the samples of `s`, in order.
pub open spec fn aggregate(b: UtmBoundingBox, x_res: int, y_res: int, s: Seq<Sample>) -> Seq<(int, int)>
    decreases s.len(),
{
    if s.len() == 0 {
        Seq::new((x_res * y_res) as nat, |i: int| (0int, 0int))
    } else {
        agg_step(aggregate(b, x_res, y_res, s.drop_last()), b, x_res, y_res, s.last())
    }
}

/// The height grid that cells `v` finalize to: each cell's average, rounded down,
/// or `min_z` for a cell without samples.
pub open spec fn finalized(v: Seq<(int, int)>, min_z: int) -> Seq<int> {
    Seq::new(v.len(), |i: int| average_or_default(v[i].0, v[i].1, min_z))
}

/// The sum of `f` over the items of `s`.
pub open spec fn seq_total(s: Seq<Sample>, f: spec_fn(Sample) -> int) -> int
    decreases s.len(),
{
    if s.len() == 0 {
        0
    } else {
        seq_total(s.drop_last(), f) + f(s.last())
    }
}

/// The elevations of the samples of `s` that fall into cell `i`, summed.
pub open spec fn cell_sum(b: UtmBoundingBox, x_res: int, y_res: int, s: Seq<Sample>, i: int) -> int {
    seq_total(s, |p: Sample| if sample_cell(b, x_res, y_res, p.0 as int, p.1 as int) == Some(i) { p.2 as int } else { 0 })
}

/// The number of samples of `s` that fall into cell `i`.
pub open spec fn cell_count(b: UtmBoundingBox, x_res: int, y_res: int, s: Seq<Sample>, i: int) -> int {
    seq_total(s, |p: Sample| if sample_cell(b, x_res, y_res, p.0 as int, p.1 as int) == Some(i) { 1 } else { 0 })
}

/// A sample that is taken lands on a cell of the grid.
proof fn lemma_sample_cell_on_grid(b: UtmBoundingBox, x_res: int, y_res: int, x: int, y: int)
    requires
        grid_geometry_ok(b, x_res, y_res),
    ensures
        sample_cell(b, x_res, y_res, x, y) matches Some(i) ==> 0 <= i < x_res * y_res,
{
    let c = column_of(b, x_res, x);
    let r = row_of(b, y_res, y);
    if x > b.min_x {
        vstd::arithmetic::div_mod::lemma_div_pos_is_pos((x - b.min_x) * (x_res - 1), b.max_x - b.min_x);
        assert((x - b.min_x) * (x_res - 1) >= 0) by (nonlinear_arith)
            requires x > b.min_x, x_res >= 2;
    }
    if y > b.min_y {
        vstd::arithmetic::div_mod::lemma_div_pos_is_pos((y - b.min_y) * (y_res - 1), b.max_y - b.min_y);
        assert((y - b.min_y) * (y_res - 1) >= 0) by (nonlinear_arith)
            requires y > b.min_y, y_res >= 2;
    }
    if c < x_res && r >= 0 {
        crate::utils::lemma_index_bijective(x_res, y_res, c, r, c, r);
    }
}

proof fn lemma_seq_total_remove(s: Seq<Sample>, f: spec_fn(Sample) -> int, k: int)
    requires
        0 <= k < s.len(),
    ensures
        seq_total(s, f) == seq_total(s.remove(k), f) + f(s[k]),
    decreases s.len(),
{
    if k == s.len() - 1 {
        assert(s.remove(k) =~= s.drop_last());
    } else {
        lemma_seq_total_remove(s.drop_last(), f, k);
        assert(s.drop_last().remove(k) =~= s.remove(k).drop_last());
        assert(s.remove(k).last() == s.last());
    }
}

proof fn lemma_seq_total_permutation(s: Seq<Sample>, t: Seq<Sample>, f: spec_fn(Sample) -> int)
    requires
        s.to_multiset() == t.to_multiset(),
    ensures
        seq_total(s, f) == seq_total(t, f),
    decreases s.len(),
{
    broadcast use vstd::seq_lib::group_to_multiset_ensures;
    if s.len() == 0 {
        s.to_multiset_ensures();
        t.to_multiset_ensures();
        assert(t.len() == 0);
    } else {
        let x = s.last();
        assert(s.drop_last().push(x) =~= s);
        assert(s.contains(x));
        assert(t.to_multiset().count(x) > 0);
        assert(t.contains(x));
        let k = choose|k: int| 0 <= k < t.len() && t[k] == x;
        assert(t.remove(k).to_multiset() =~= t.to_multiset().remove(x));
        assert(s.to_multiset() =~= s.drop_last().to_multiset().insert(x));
        assert(s.drop_last().to_multiset() =~= s.to_multiset().remove(x));
        lemma_seq_total_permutation(s.drop_last(), t.remove(k), f);
        lemma_seq_total_remove(t, f, k);
    }
}

/// Without saturation, each aggregate cell holds the sum and count of the samples
/// that fell into it.
proof fn lemma_aggregate_cells(b: UtmBoundingBox, x_res: int, y_res: int, s: Seq<Sample>)
    requires
        grid_geometry_ok(b, x_res, y_res),
        s.len() < u64::MAX,
    ensures
        aggregate(b, x_res, y_res, s).len() == x_res * y_res,
        forall|i: int| 0 <= i < x_res * y_res ==> #[trigger] aggregate(b, x_res, y_res, s)[i]
            == (cell_sum(b, x_res, y_res, s, i), cell_count(b, x_res, y_res, s, i)),
        forall|i: int| 0 <= i < x_res * y_res ==> cell_count(b, x_res, y_res, s, i) <= s.len(),
    decreases s.len(),
{
    if s.len() > 0 {
        let p = s.last();
        let d = s.drop_last();
        lemma_aggregate_cells(b, x_res, y_res, d);
        lemma_sample_cell_on_grid(b, x_res, y_res, p.0 as int, p.1 as int);
        assert forall|i: int| 0 <= i < x_res * y_res implies
            cell_count(b, x_res, y_res, s, i) == cell_count(b, x_res, y_res, d, i)
                + (if sample_cell(b, x_res, y_res, p.0 as int, p.1 as int) == Some(i) { 1int } else { 0int })
            && cell_sum(b, x_res, y_res, s, i) == cell_sum(b, x_res, y_res, d, i)
                + (if sample_cell(b, x_res, y_res, p.0 as int, p.1 as int) == Some(i) { p.2 as int } else { 0int }) by {
        }
    }
}

/// Feeding a fresh aggregator the same samples in any order gives the same height
/// grid: cell sums and counts do not depend on the order of the samples. (Stated
/// for fewer than `u64::MAX` samples, below which no cell count saturates.)
pub proof fn lemma_aggregation_order_independent(b: UtmBoundingBox, x_res: int, y_res: int, s: Seq<Sample>, t: Seq<Sample>)
    requires
        grid_geometry_ok(b, x_res, y_res),
        s.to_multiset() == t.to_multiset(),
        s.len() < u64::MAX,
    ensures
        finalized(aggregate(b, x_res, y_res, s), b.min_z as int) == finalized(aggregate(b, x_res, y_res, t), b.min_z as int),
{
    broadcast use vstd::seq_lib::group_to_multiset_ensures;
    s.to_multiset_ensures();
    t.to_multiset_ensures();
    assert(s.len() == t.len());
    lemma_aggregate_cells(b, x_res, y_res, s);
    lemma_aggregate_cells(b, x_res, y_res, t);
    assert forall|i: int| 0 <= i < x_res * y_res implies
        #[trigger] aggregate(b, x_res, y_res, s)[i] == aggregate(b, x_res, y_res, t)[i] by {
        lemma_seq_total_permutation(s, t,
            |p: Sample| if sample_cell(b, x_res, y_res, p.0 as int, p.1 as int) == Some(i) { p.2 as int } else { 0 });
        lemma_seq_total_permutation(s, t,
            |p: Sample| if sample_cell(b, x_res, y_res, p.0 as int, p.1 as int) == Some(i) { 1 } else { 0 });
    }
    assert(finalized(aggregate(b, x_res, y_res, s), b.min_z as int) =~= finalized(aggregate(b, x_res, y_res, t), b.min_z as int));
}

/// A cell that no sample falls into finalizes to exactly the extent's lowest
/// elevation.
pub proof fn lemma_empty_cell_default(b: UtmBoundingBox, x_res: int, y_res: int, s: Seq<Sample>, i: int)
    requires
        grid_geometry_ok(b, x_res, y_res),
        0 <= i < x_res * y_res,
        forall|k: int| 0 <= k < s.len() ==>
            sample_cell(b, x_res, y_res, (#[trigger] s[k]).0 as int, s[k].1 as int) != Some(i),
    ensures
        finalized(aggregate(b, x_res, y_res, s), b.min_z as int)[i] == b.min_z,
    decreases s.len(),
{
    lemma_aggregate_len(b, x_res, y_res, s);
    lemma_untouched_cell(b, x_res, y_res, s, i);
}

proof fn lemma_aggregate_len(b: UtmBoundingBox, x_res: int, y_res: int, s: Seq<Sample>)
    requires
        grid_geometry_ok(b, x_res, y_res),
    ensures
        aggregate(b, x_res, y_res, s).len() == x_res * y_res,
    decreases s.len(),
{
    if s.len() > 0 {
        lemma_aggregate_len(b, x_res, y_res, s.drop_last());
        lemma_sample_cell_on_grid(b, x_res, y_res, s.last().0 as int, s.last().1 as int);
    }
}

proof fn lemma_untouched_cell(b: UtmBoundingBox, x_res: int, y_res: int, s: Seq<Sample>, i: int)
    requires
        grid_geometry_ok(b, x_res, y_res),
        0 <= i < x_res * y_res,
        forall|k: int| 0 <= k < s.len() ==>
            sample_cell(b, x_res, y_res, (#[trigger] s[k]).0 as int, s[k].1 as int) != Some(i),
    ensures
        aggregate(b, x_res, y_res, s)[i] == (0int, 0int),
    decreases s.len(),
{
    lemma_aggregate_len(b, x_res, y_res, s);
    if s.len() > 0 {
        lemma_aggregate_len(b, x_res, y_res, s.drop_last());
        lemma_sample_cell_on_grid(b, x_res, y_res, s.last().0 as int, s.last().1 as int);
        assert forall|k: int| 0 <= k < s.drop_last().len() implies
            sample_cell(b, x_res, y_res, (#[trigger] s.drop_last()[k]).0 as int, s.drop_last()[k].1 as int) != Some(i) by {
            assert(s.drop_last()[k] == s[k]);
        }
        lemma_untouched_cell(b, x_res, y_res, s.drop_last(), i);
        assert(s.last() == s[s.len() - 1]);
    }
}

/// Bins a stream of planar samples into a grid of running sums; finalized into a
/// `HeightMap` once every sample is in.
pub struct HeightMapIntermediate {
    pub data: Vec<PointAggregate>,
    /// Number of samples along x.
    pub x_res: usize,
    /// Number of samples along y.
    pub y_res: usize,
    /// The extent the grid covers.
    pub bounds: UtmBoundingBox,
}

impl HeightMapIntermediate {
    pub open spec fn wf(&self) -> bool {
        &&& grid_geometry_ok(self.bounds, self.x_res as int, self.y_res as int)
        &&& self.data@.len() == self.x_res * self.y_res
        &&& forall|i: int| 0 <= i < self.data@.len() ==> (#[trigger] self.data@[i]).wf()
    }

    /// The `(sum, count)` of every cell.
    pub open spec fn view_cells(&self) -> Seq<(int, int)> {
        agg_view(self.data@)
    }

    /// An aggregator with no samples over an `x_res` by `y_res` grid on `utm_bounds`.
    pub fn new(x_res: usize, y_res: usize, utm_bounds: UtmBoundingBox) -> (r: HeightMapIntermediate)
        requires
            grid_geometry_ok(utm_bounds, x_res as int, y_res as int),
        ensures
            r.wf(),
            r.x_res == x_res,
            r.y_res == y_res,
            r.bounds == utm_bounds,
            r.view_cells() == aggregate(utm_bounds, x_res as int, y_res as int, Seq::empty()),
    {
        let n: usize = x_res * y_res;
        let mut data: Vec<PointAggregate> = Vec::new();
        let mut i: usize = 0;
        while i < n
            invariant
                i <= n,
                data@.len() == i,
                forall|k: int| 0 <= k < i ==> (#[trigger] data@[k]).point_sum == 0 && data@[k].num_points == 0,
            decreases n - i,
        {
            data.push(PointAggregate::new());
            i = i + 1;
        }
        let r = HeightMapIntermediate { data, x_res, y_res, bounds: utm_bounds };
        proof {
            assert(r.view_cells() =~= aggregate(utm_bounds, x_res as int, y_res as int, Seq::empty()));
        }
        r
    }

    /// The flat index of the cell that takes a sample at planar `(x, y)`, or `None`
    /// when it falls east or north of the grid.
    pub fn get_index(&self, x: i64, y: i64) -> (r: Option<usize>)
        requires
            self.wf(),
        ensures
            r matches Some(i) ==> sample_cell(self.bounds, self.x_res as int, self.y_res as int, x as int, y as int) == Some(i as int),
            r is None ==> sample_cell(self.bounds, self.x_res as int, self.y_res as int, x as int, y as int) is None,
    {
        proof {
            lemma_sample_cell_on_grid(self.bounds, self.x_res as int, self.y_res as int, x as int, y as int);
            lemma_res_small(self.x_res as int, self.y_res as int);
        }
        let (c, r) = UtmCoord::new((x, y)).get_x_y_coords(&self.bounds, self.x_res, self.y_res);
        if c < self.x_res as i64 && r >= 0 {
            proof {
                crate::utils::lemma_index_bijective(self.x_res as int, self.y_res as int, c as int, r as int, c as int, r as int);
            }
            Some(r as usize * self.x_res + c as usize)
        } else {
            None
        }
    }

    /// Adds elevation `height` to the cell with flat index `index`; an index off
    /// the grid, or a cell already holding `u64::MAX` samples, changes nothing.
    pub fn add_point_by_index(&mut self, height: i64, index: usize)
        requires
            old(self).wf(),
        ensures
            final(self).wf(),
            final(self).x_res == old(self).x_res,
            final(self).y_res == old(self).y_res,
            final(self).bounds == old(self).bounds,
            final(self).view_cells() == (if index < old(self).data@.len() && old(self).view_cells()[index as int].1 < u64::MAX {
                old(self).view_cells().update(index as int,
                    (old(self).view_cells()[index as int].0 + height, old(self).view_cells()[index as int].1 + 1))
            } else {
                old(self).view_cells()
            }),
    {
        if index < self.data.len() && self.data[index].num_points < u64::MAX {
            let mut cell = self.data[index];
            cell.add_sample(height);
            self.data.set(index, cell);
            proof {
                assert(self.view_cells() =~= old(self).view_cells().update(index as int,
                    (old(self).view_cells()[index as int].0 + height, old(self).view_cells()[index as int].1 + 1)));
            }
        }
    }

    /// Adds the sample `(x, y, z)`: its elevation goes to the cell its position
    /// falls into; a sample east or north of the grid is dropped.
    pub fn add_point(&mut self, x: i64, y: i64, z: i64)
        requires
            old(self).wf(),
        ensures
            final(self).wf(),
            final(self).x_res == old(self).x_res,
            final(self).y_res == old(self).y_res,
            final(self).bounds == old(self).bounds,
            final(self).view_cells() == agg_step(old(self).view_cells(), old(self).bounds,
                old(self).x_res as int, old(self).y_res as int, (x, y, z)),
    {
        match self.get_index(x, y) {
            Some(i) => {
                proof {
                    lemma_sample_cell_on_grid(self.bounds, self.x_res as int, self.y_res as int, x as int, y as int);
                }
                self.add_point_by_index(z, i);
            },
            None => {},
        }
    }

    /// Adds the sample `(x, y, z)`, which must fall on the grid into a cell with
    /// fewer than `u64::MAX` samples.
    pub fn add_point_unchecked(&mut self, x: i64, y: i64, z: i64)
        requires
            old(self).wf(),
            sample_cell(old(self).bounds, old(self).x_res as int, old(self).y_res as int, x as int, y as int)
                matches Some(i) && old(self).view_cells()[i].1 < u64::MAX,
        ensures
            final(self).wf(),
            final(self).x_res == old(self).x_res,
            final(self).y_res == old(self).y_res,
            final(self).bounds == old(self).bounds,
            final(self).view_cells() == agg_step(old(self).view_cells(), old(self).bounds,
                old(self).x_res as int, old(self).y_res as int, (x, y, z)),
    {
        self.add_point(x, y, z)
    }
}

/// A grid of elevations over `bounds`, stored row-major: cell `(x, y)` is
/// `data[y * x_res + x]`, and row `0` is the north edge.
pub struct HeightMap {
    pub data: Vec<i64>,
    pub x_res: usize,
    pub y_res: usize,
    pub bounds: UtmBoundingBox,
}

impl HeightMap {
    pub open spec fn wf(&self) -> bool {
        &&& grid_geometry_ok(self.bounds, self.x_res as int, self.y_res as int)
        &&& self.data@.len() == self.x_res * self.y_res
    }

    /// The error that reports a geometry mismatch between `self` and `mask`.
    pub open spec fn mismatch_error(&self, mask: &Mask) -> LasToStlError {
        LasToStlError::MaskBoundMismatchError {
            other_x_res: self.x_res,
            other_y_res: self.y_res,
            mask_x_res: mask.x_res,
            mask_y_res: mask.y_res,
            other_bounds: self.bounds,
            mask_bounds: mask.bounds,
        }
    }

    pub open spec fn same_geometry(&self, mask: &Mask) -> bool {
        self.x_res == mask.x_res && self.y_res == mask.y_res && self.bounds == mask.bounds
    }

    /// Finalizes an aggregator: each cell becomes the average of its samples,
    /// rounded down, or the extent's lowest elevation when it has none.
    pub fn from_intermediate(height_map_intermediate: HeightMapIntermediate) -> (r: HeightMap)
        requires
            height_map_intermediate.wf(),
        ensures
            r.wf(),
            r.x_res == height_map_intermediate.x_res,
            r.y_res == height_map_intermediate.y_res,
            r.bounds == height_map_intermediate.bounds,
            r.data@.map_values(|h: i64| h as int)
                == finalized(height_map_intermediate.view_cells(), height_map_intermediate.bounds.min_z as int),
    {
        let hmi = height_map_intermediate;
        let ghost cells = hmi.view_cells();
        let min_z = hmi.bounds.min_z;
        let mut data: Vec<i64> = Vec::new();
        let mut i: usize = 0;
        while i < hmi.data.len()
            invariant
                hmi.wf(),
                cells == hmi.view_cells(),
                min_z == hmi.bounds.min_z,
                i <= hmi.data@.len(),
                data@.len() == i,
                forall|k: int| 0 <= k < i ==> #[trigger] data@[k] == average_or_default(cells[k].0, cells[k].1, min_z as int),
            decreases hmi.data@.len() - i,
        {
            let h = hmi.data[i].get_average_or_default(min_z);
            data.push(h);
            i = i + 1;
        }
        let r = HeightMap { data, x_res: hmi.x_res, y_res: hmi.y_res, bounds: hmi.bounds };
        proof {
            assert(r.data@.map_values(|h: i64| h as int) =~= finalized(cells, min_z as int));
        }
        r
    }

    /// The grid resolution for an extent: both given resolutions as they are, or
    /// the missing one derived from the given one and the extent's aspect ratio,
    /// `given * other_range / given_range` rounded down (saturated at
    /// `usize::MAX`). Fails when neither is given.
    pub fn get_resolution(resolution_x_in: Option<usize>, resolution_y_in: Option<usize>, bounds: &UtmBoundingBox)
        -> (r: Result<(usize, usize), LasToStlError>)
        requires
            bounds.is_planar_extent(),
        ensures
            match (resolution_x_in, resolution_y_in) {
                (Some(x), Some(y)) => r == Ok::<(usize, usize), LasToStlError>((x, y)),
                (Some(x), None) => r matches Ok(p) && p.0 == x
                    && p.1 == derived_resolution(x as int, bounds.max_y - bounds.min_y, bounds.max_x - bounds.min_x),
                (None, Some(y)) => r matches Ok(p) && p.1 == y
                    && p.0 == derived_resolution(y as int, bounds.max_x - bounds.min_x, bounds.max_y - bounds.min_y),
                (None, None) => r == Err::<(usize, usize), LasToStlError>(LasToStlError::NoResolutionError),
            },
    {
        match (resolution_x_in, resolution_y_in) {
            (Some(x), Some(y)) => Ok((x, y)),
            (Some(x), None) => Ok((x, derive_resolution(x, bounds.y_range(), bounds.x_range()))),
            (None, Some(y)) => Ok((derive_resolution(y, bounds.x_range(), bounds.y_range()), y)),
            (None, None) => Err(LasToStlError::NoResolutionError),
        }
    }

    /// The elevation of cell `(x, y)`; fails when it is off the grid.
    pub fn get_height(&self, x: usize, y: usize) -> (r: Result<i64, LasToStlError>)
        requires
            self.wf(),
        ensures
            match r {
                Ok(h) => x < self.x_res && y < self.y_res
                    && h == self.data@[index_of(self.x_res as int, x as int, y as int)],
                Err(e) => !(x < self.x_res && y < self.y_res)
                    && e == (LasToStlError::BadIndexError { x_res: self.x_res, y_res: self.y_res, x, y }),
            },
    {
        let i = x_y_to_index(self.x_res, self.y_res, x, y)?;
        proof {
            crate::utils::lemma_index_bijective(self.x_res as int, self.y_res as int, x as int, y as int, x as int, y as int);
        }
        Ok(self.data[i])
    }

    /// Checks that `mask` has the resolution and extent of `self`.
    pub(crate) fn check_geometry(&self, mask: &Mask) -> (r: Result<(), LasToStlError>)
        ensures
            r is Ok <==> self.same_geometry(mask),
            r is Err ==> r == Err::<(), LasToStlError>(self.mismatch_error(mask)),
    {
        if self.x_res == mask.x_res && self.y_res == mask.y_res && self.bounds == mask.bounds {
            Ok(())
        } else {
            Err(LasToStlError::MaskBoundMismatchError {
                other_x_res: self.x_res,
                other_y_res: self.y_res,
                mask_x_res: mask.x_res,
                mask_y_res: mask.y_res,
                other_bounds: self.bounds,
                mask_bounds: mask.bounds,
            })
        }
    }

    /// Adds `offset` to every cell set in `mask`, saturating at the limits of
    /// `i64`. The mask must have the same resolution and extent; otherwise this
    /// fails and changes nothing.
    pub fn offset_by_mask(&mut self, mask: &Mask, offset: i64) -> (r: Result<(), LasToStlError>)
        requires
            old(self).wf(),
            mask.wf(),
        ensures
            final(self).wf(),
            final(self).x_res == old(self).x_res,
            final(self).y_res == old(self).y_res,
            final(self).bounds == old(self).bounds,
            r is Ok <==> old(self).same_geometry(mask),
            r is Ok ==> final(self).data@.len() == old(self).data@.len() && forall|i: int| 0 <= i < old(self).data@.len() ==>
                #[trigger] final(self).data@[i] == (if mask.data@[i] {
                    saturate(old(self).data@[i] + offset)
                } else {
                    old(self).data@[i] as int
                }),
            r is Err ==> final(self).data@ == old(self).data@ && r == Err::<(), LasToStlError>(old(self).mismatch_error(mask)),
    {
        self.check_geometry(mask)?;
        let n = self.data.len();
        let mut i: usize = 0;
        while i < n
            invariant
                n == self.data@.len(),
                n == mask.data@.len(),
                i <= n,
                self.x_res == old(self).x_res,
                self.y_res == old(self).y_res,
                self.bounds == old(self).bounds,
                forall|k: int| 0 <= k < i ==> #[trigger] self.data@[k] == (if mask.data@[k] {
                    saturate(old(self).data@[k] + offset)
                } else {
                    old(self).data@[k] as int
                }),
                forall|k: int| i <= k < n ==> #[trigger] self.data@[k] == old(self).data@[k],
            decreases n - i,
        {
            if mask.data[i] {
                let h = self.data[i];
                let sum: i128 = h as i128 + offset as i128;
                let v: i64 = if sum > i64::MAX as i128 {
                    i64::MAX
                } else if sum < i64::MIN as i128 {
                    i64::MIN
                } else {
                    sum as i64
                };
                self.data.set(i, v);
            }
            i = i + 1;
        }
        Ok(())
    }

    /// Sets every cell set in `mask` to `value_to_set_where_mask_true`. The mask
    /// must have the same resolution and extent; otherwise this fails and changes
    /// nothing.
    pub fn set_by_mask(&mut self, mask: &Mask, value_to_set_where_mask_true: i64) -> (r: Result<(), LasToStlError>)
        requires
            old(self).wf(),
            mask.wf(),
        ensures
            final(self).wf(),
            final(self).x_res == old(self).x_res,
            final(self).y_res == old(self).y_res,
            final(self).bounds == old(self).bounds,
            r is Ok <==> old(self).same_geometry(mask),
            r is Ok ==> final(self).data@.len() == old(self).data@.len() && forall|i: int| 0 <= i < old(self).data@.len() ==>
                #[trigger] final(self).data@[i] == (if mask.data@[i] { value_to_set_where_mask_true } else { old(self).data@[i] }),
            r is Err ==> final(self).data@ == old(self).data@ && r == Err::<(), LasToStlError>(old(self).mismatch_error(mask)),
    {
        self.check_geometry(mask)?;
        let n = self.data.len();
        let mut i: usize = 0;
        while i < n
            invariant
                n == self.data@.len(),
                n == mask.data@.len(),
                i <= n,
                self.x_res == old(self).x_res,
                self.y_res == old(self).y_res,
                self.bounds == old(self).bounds,
                forall|k: int| 0 <= k < i ==> #[trigger] self.data@[k] == (if mask.data@[k] {
                    value_to_set_where_mask_true
                } else {
                    old(self).data@[k]
                }),
                forall|k: int| i <= k < n ==> #[trigger] self.data@[k] == old(self).data@[k],
            decreases n - i,
        {
            if mask.data[i] {
                self.data.set(i, value_to_set_where_mask_true);
            }
            i = i + 1;
        }
        Ok(())
    }

    /// Relabels the grid as covering `new_bounds`, leaving the elevations as they
    /// are.
    pub fn convert_projection_unchecked(&mut self, new_bounds: UtmBoundingBox)
        requires
            old(self).wf(),
            new_bounds.is_planar_extent(),
        ensures
            final(self).wf(),
            final(self).data@ == old(self).data@,
            final(self).x_res == old(self).x_res,
            final(self).y_res == old(self).y_res,
            final(self).bounds == new_bounds,
    {
        self.bounds = new_bounds;
    }

    /// The luminance of each cell: its elevation mapped affinely from
    /// `[bounds.min_z, bounds.max_z]` onto `0..=255`, rounded down and clamped; all
    /// `0` when the extent is flat.
    pub fn get_luminance_values(&self) -> (r: Vec<u8>)
        requires
            self.wf(),
        ensures
            r@.len() == self.data@.len(),
            forall|i: int| 0 <= i < r@.len() ==> #[trigger] r@[i] == (if self.bounds.min_z < self.bounds.max_z {
                scale_spec(self.data@[i] as int, self.bounds.min_z as int, self.bounds.max_z as int, 255)
            } else {
                0
            }),
    {
        let mut out: Vec<u8> = Vec::new();
        let mut i: usize = 0;
        while i < self.data.len()
            invariant
                i <= self.data@.len(),
                out@.len() == i,
                forall|k: int| 0 <= k < i ==> #[trigger] out@[k] == (if self.bounds.min_z < self.bounds.max_z {
                    scale_spec(self.data@[k] as int, self.bounds.min_z as int, self.bounds.max_z as int, 255)
                } else {
                    0
                }),
            decreases self.data@.len() - i,
        {
            let v: u8 = if self.bounds.min_z < self.bounds.max_z {
                scale_to_uint_range(self.data[i], self.bounds.min_z, self.bounds.max_z, 255) as u8
            } else {
                0
            };
            out.push(v);
            i = i + 1;
        }
        out
    }
}

/// `given * other_range / given_range`, rounded down and saturated at `usize::MAX`.
pub open spec fn derived_resolution(given: int, other_range: int, given_range: int) -> int {
    let v = given * other_range / given_range;
    if v > usize::MAX { usize::MAX as int } else { v }
}

fn derive_resolution(given: usize, other_range: i128, given_range: i128) -> (r: usize)
    requires
        0 < other_range < 0x1_0000_0000_0000_0000,
        0 < given_range < 0x1_0000_0000_0000_0000,
    ensures
        r == derived_resolution(given as int, other_range as int, given_range as int),
{
    let g: u128 = given as u128;
    let o: u128 = other_range as u128;
    proof {
        assert(g * o <= u128::MAX) by (nonlinear_arith)
            requires g < 0x1_0000_0000_0000_0000, o < 0x1_0000_0000_0000_0000;
    }
    let v: u128 = g * o / (given_range as u128);
    if v > usize::MAX as u128 {
        usize::MAX
    } else {
        v as usize
    }
}

/// `v` clamped to the range of `i64`.
pub open spec fn saturate(v: int) -> int {
    if v > i64::MAX {
        i64::MAX as int
    } else if v < i64::MIN {
        i64::MIN as int
    } else {
        v
    }
}

} // verus!
