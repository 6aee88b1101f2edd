use vstd::prelude::*;
use vstd::arithmetic::div_mod::lemma_fundamental_div_mod_converse;
use crate::errors::LasToStlError;
use crate::height_map::HeightMap;
use crate::mask::Mask;
use crate::utils::index_of;

verus! {

/// The outward normal of a face: one of the six axis directions.
#[derive(Debug, Clone, Copy, PartialEq, Eq, Structural)]
pub enum Normal {
    PosX,
    NegX,
    PosY,
    NegY,
    PosZ,
    NegZ,
}

/// A mesh vertex: the top (terrain) or bottom (base) vertex above grid cell `(x, y)`.
#[derive(Debug, Clone, Copy, PartialEq, Eq, Structural)]
pub struct Vertex {
    pub x: usize,
    pub y: usize,
    pub top: bool,
}

/// A triangle with its outward normal and its corners in winding order.
#[derive(Debug, Clone, Copy, PartialEq, Eq, Structural)]
pub struct Triangle {
    pub normal: Normal,
    pub v1: Vertex,
    pub v2: Vertex,
    pub v3: Vertex,
}

pub open spec fn top(x: int, y: int) -> Vertex {
    Vertex { x: x as usize, y: y as usize, top: true }
}

pub open spec fn bottom(x: int, y: int) -> Vertex {
    Vertex { x: x as usize, y: y as usize, top: false }
}

/// The quadrilateral `v1 v2 v3 v4` split along the diagonal `v2 v4` into two
/// triangles that keep its winding.
pub open spec fn quad_tris(v1: Vertex, v2: Vertex, v3: Vertex, v4: Vertex, normal: Normal) -> Seq<Triangle> {
    seq![
        Triangle { normal, v1: v1, v2: v2, v3: v4 },
        Triangle { normal, v1: v2, v2: v3, v3: v4 },
    ]
}

/// `f(0) + f(1) + ... + f(n - 1)`.
pub open spec fn concat_upto<A>(f: spec_fn(int) -> Seq<A>, n: int) -> Seq<A>
    decreases n,
{
    if n <= 0 {
        Seq::empty()
    } else {
        concat_upto(f, n - 1) + f(n - 1)
    }
}

/// The two triangles of the quadrilateral `v1 v2 v3 v4`, split along `v2 v4`.
/// Pass the corners in the winding the faces should have.
pub fn vertex_rec_to_triangles_diagonal(vertex_1: Vertex, vertex_2: Vertex, vertex_3: Vertex, vertex_4: Vertex, normal: Normal) -> (r: [Triangle; 2])
    ensures
        r@ == quad_tris(vertex_1, vertex_2, vertex_3, vertex_4, normal),
{
    let r = [
        Triangle { normal, v1: vertex_1, v2: vertex_2, v3: vertex_4 },
        Triangle { normal, v1: vertex_2, v2: vertex_3, v3: vertex_4 },
    ];
    proof {
        assert(r@ =~= quad_tris(vertex_1, vertex_2, vertex_3, vertex_4, normal));
    }
    r
}

/// As `vertex_rec_to_triangles_diagonal`, when every corner is present; `None`
/// when one is missing.
pub fn option_vertex_rec_to_triangles_diagonal(
    vertex_1: Option<Vertex>,
    vertex_2: Option<Vertex>,
    vertex_3: Option<Vertex>,
    vertex_4: Option<Vertex>,
    normal: Normal,
) -> (r: Option<[Triangle; 2]>)
    ensures
        r is Some <==> (vertex_1 is Some && vertex_2 is Some && vertex_3 is Some && vertex_4 is Some),
        r matches Some(t) ==> t@ == quad_tris(vertex_1->0, vertex_2->0, vertex_3->0, vertex_4->0, normal),
{
    match (vertex_1, vertex_2, vertex_3, vertex_4) {
        (Some(a), Some(b), Some(c), Some(d)) => Some(vertex_rec_to_triangles_diagonal(a, b, c, d, normal)),
        _ => None,
    }
}

/// Quadrilateral `q` of a grid `w` quads high, in scan order: column-major, so
/// `q = x * w + y`.
pub open spec fn quad_x(q: int, w: int) -> int {
    q / w
}

pub open spec fn quad_y(q: int, w: int) -> int {
    q % w
}

pub proof fn lemma_quad_coords(x: int, y: int, w: int)
    requires
        0 <= x,
        0 <= y < w,
    ensures
        quad_x(x * w + y, w) == x,
        quad_y(x * w + y, w) == y,
{
    lemma_fundamental_div_mod_converse(x * w + y, w, x, y);
}

/// The cells of a boolean grid one smaller than a mask on each axis: cell
/// `(x, y)` is set when the four mask cells `(x, y)`, `(x + 1, y)`, `(x, y + 1)`,
/// `(x + 1, y + 1)` all are, that is when the quad with those corners is whole.
pub struct StlHelperMask {
    pub data: Vec<bool>,
    pub x_res: usize,
    pub y_res: usize,
}

/// Whether all four corners of quad `(x, y)` are set in `mask`.
pub open spec fn quad_whole(mask: Mask, x: int, y: int) -> bool {
    mask.cell(x, y) && mask.cell(x + 1, y) && mask.cell(x, y + 1) && mask.cell(x + 1, y + 1)
}

/// The step to the neighbour checked by `get_cardinal_edge`.
pub open spec fn edge_step(use_x_axis: bool, check_positive_edge: bool) -> (int, int) {
    let s: int = if check_positive_edge { 1 } else { -1 };
    if use_x_axis { (s, 0) } else { (0, s) }
}

/// Cell `k` in scan order as a one-item sequence when it is an edge along `step`,
/// else empty.
pub open spec fn helper_edge_fn(h: StlHelperMask, step: (int, int)) -> spec_fn(int) -> Seq<(usize, usize)> {
    |k: int| if h.is_edge(quad_x(k, h.y_res as int), quad_y(k, h.y_res as int), step) {
        seq![(quad_x(k, h.y_res as int) as usize, quad_y(k, h.y_res as int) as usize)]
    } else {
        Seq::empty()
    }
}

impl StlHelperMask {
    pub open spec fn wf(&self) -> bool {
        &&& self.data@.len() == self.x_res * self.y_res
        &&& self.x_res * self.y_res <= usize::MAX
    }

    pub open spec fn cell(&self, x: int, y: int) -> bool {
        self.data@[index_of(self.x_res as int, x, y)]
    }

    /// The value of cell `(x, y)`, or false off the grid.
    pub open spec fn cell_or_false(&self, x: int, y: int) -> bool {
        0 <= x < self.x_res && 0 <= y < self.y_res && self.cell(x, y)
    }

    /// Whether cell `(x, y)` is set and its neighbour one step along `step` is not.
    pub open spec fn is_edge(&self, x: int, y: int, step: (int, int)) -> bool {
        self.cell(x, y) && !self.cell_or_false(x + step.0, y + step.1)
    }

    /// The edge cells among the first `q` cells in scan order.
    pub open spec fn edges_upto(&self, step: (int, int), q: int) -> Seq<(usize, usize)> {
        concat_upto(helper_edge_fn(*self, step), q)
    }

    /// The shrunk grid of whole quads of `mask`.
    pub fn from_mask(mask: &Mask) -> (r: StlHelperMask)
        requires
            mask.wf(),
        ensures
            r.wf(),
            r.x_res == mask.x_res - 1,
            r.y_res == mask.y_res - 1,
            forall|x: int, y: int| 0 <= x < r.x_res && 0 <= y < r.y_res ==>
                #[trigger] r.cell(x, y) == quad_whole(*mask, x, y),
    {
        let xr: usize = mask.x_res - 1;
        let yr: usize = mask.y_res - 1;
        proof {
            assert(xr * yr <= mask.x_res * mask.y_res) by (nonlinear_arith)
                requires xr < mask.x_res, yr < mask.y_res, 0 <= xr, 0 <= yr;
        }
        let n: usize = xr * yr;
        let mut data: Vec<bool> = Vec::new();
        let mut i: usize = 0;
        while i < n
            invariant
                i <= n,
                data@.len() == i,
            decreases n - i,
        {
            data.push(false);
            i = i + 1;
        }
        let mut x: usize = 0;
        while x < xr
            invariant
                x <= xr,
                xr == mask.x_res - 1,
                yr == mask.y_res - 1,
                n == xr * yr,
                mask.wf(),
                data@.len() == n,
                forall|cx: int, cy: int| 0 <= cx < x && 0 <= cy < yr ==>
                    #[trigger] data@[index_of(xr as int, cx, cy)] == quad_whole(*mask, cx, cy),
            decreases xr - x,
        {
            let mut y: usize = 0;
            while y < yr
                invariant
                    x < xr,
                    y <= yr,
                    xr == mask.x_res - 1,
                    yr == mask.y_res - 1,
                    n == xr * yr,
                    mask.wf(),
                    data@.len() == n,
                    forall|cx: int, cy: int| 0 <= cx < xr && 0 <= cy < yr && (cx < x || (cx == x && cy < y)) ==>
                        #[trigger] data@[index_of(xr as int, cx, cy)] == quad_whole(*mask, cx, cy),
                decreases yr - y,
            {
                let neighbors = mask.get_neighbors(x, y);
                let v = neighbors[1] && neighbors[2] && neighbors[4] && neighbors[5];
                proof {
                    crate::utils::lemma_index_bijective(xr as int, yr as int, x as int, y as int, x as int, y as int);
                }
                let ghost prev = data@;
                data.set(y * xr + x, v);
                proof {
                    assert forall|cx: int, cy: int| 0 <= cx < xr && 0 <= cy < yr && (cx < x || (cx == x && cy < y + 1)) implies
                        #[trigger] data@[index_of(xr as int, cx, cy)] == quad_whole(*mask, cx, cy) by {
                        crate::utils::lemma_index_bijective(xr as int, yr as int, cx, cy, x as int, y as int);
                        crate::utils::lemma_index_bijective(xr as int, yr as int, x as int, y as int, cx, cy);
                        if cx != x || cy != y {
                            assert(data@[index_of(xr as int, cx, cy)] == prev[index_of(xr as int, cx, cy)]);
                        }
                    }
                }
                y = y + 1;
            }
            x = x + 1;
        }
        StlHelperMask { data, x_res: xr, y_res: yr }
    }

    /// The value of cell `(x, y)`, which must be on the grid.
    pub fn get_by_xy_unchecked(&self, x: usize, y: usize) -> (r: bool)
        requires
            self.wf(),
            x < self.x_res,
            y < self.y_res,
        ensures
            r == self.cell(x as int, y as int),
    {
        proof {
            crate::utils::lemma_index_bijective(self.x_res as int, self.y_res as int, x as int, y as int, x as int, y as int);
        }
        self.data[y * self.x_res + x]
    }

    /// The value of cell `(x, y)`; fails when it is off the grid.
    pub fn get_by_xy_checked(&self, x: isize, y: isize) -> (r: Result<bool, LasToStlError>)
        requires
            self.wf(),
        ensures
            match r {
                Ok(b) => 0 <= x < self.x_res && 0 <= y < self.y_res && b == self.cell(x as int, y as int),
                Err(e) => !(0 <= x < self.x_res && 0 <= y < self.y_res)
                    && e == (LasToStlError::GetByXyCheckedError { x_res: self.x_res, y_res: self.y_res, x, y }),
            },
    {
        if 0 <= x && 0 <= y && (x as usize) < self.x_res && (y as usize) < self.y_res {
            Ok(self.get_by_xy_unchecked(x as usize, y as usize))
        } else {
            Err(LasToStlError::GetByXyCheckedError { x_res: self.x_res, y_res: self.y_res, x, y })
        }
    }

    /// The cells that are set but whose neighbour one step along the chosen axis
    /// and sign is not (a neighbour off the grid counts as unset), in scan order:
    /// column by column, each from `y = 0` up.
    pub fn get_cardinal_edge(&self, use_x_axis: bool, check_positive_edge: bool) -> (r: Vec<(usize, usize)>)
        requires
            self.wf(),
        ensures
            r@ == self.edges_upto(edge_step(use_x_axis, check_positive_edge), self.x_res * self.y_res),
            forall|i: int| 0 <= i < r@.len() ==> (#[trigger] r@[i]).0 < self.x_res && r@[i].1 < self.y_res,
    {
        let ghost step = edge_step(use_x_axis, check_positive_edge);
        let (x_offset, y_offset): (i128, i128) = if use_x_axis {
            (if check_positive_edge { 1 } else { -1 }, 0)
        } else {
            (0, if check_positive_edge { 1 } else { -1 })
        };
        let ghost w = self.y_res as int;
        let mut out_vec: Vec<(usize, usize)> = Vec::new();
        let mut x: usize = 0;
        while x < self.x_res
            invariant
                self.wf(),
                x <= self.x_res,
                step == (x_offset as int, y_offset as int),
                -1 <= x_offset <= 1,
                -1 <= y_offset <= 1,
                w == self.y_res,
                out_vec@ == self.edges_upto(step, x * w),
                forall|i: int| 0 <= i < out_vec@.len() ==> (#[trigger] out_vec@[i]).0 < self.x_res && out_vec@[i].1 < self.y_res,
            decreases self.x_res - x,
        {
            let mut y: usize = 0;
            while y < self.y_res
                invariant
                    self.wf(),
                    x < self.x_res,
                    y <= self.y_res,
                    step == (x_offset as int, y_offset as int),
                    -1 <= x_offset <= 1,
                    -1 <= y_offset <= 1,
                -1 <= x_offset <= 1,
                -1 <= y_offset <= 1,
                    w == self.y_res,
                    out_vec@ == self.edges_upto(step, x * w + y),
                    forall|i: int| 0 <= i < out_vec@.len() ==> (#[trigger] out_vec@[i]).0 < self.x_res && out_vec@[i].1 < self.y_res,
                decreases self.y_res - y,
            {
                proof {
                    lemma_quad_coords(x as int, y as int, w);
                }
                let nx: i128 = x as i128 + x_offset;
                let ny: i128 = y as i128 + y_offset;
                let here = self.get_by_xy_unchecked(x, y);
                let there = if 0 <= nx && nx < self.x_res as i128 && 0 <= ny && ny < self.y_res as i128 {
                    self.get_by_xy_unchecked(nx as usize, ny as usize)
                } else {
                    false
                };
                if here && !there {
                    out_vec.push((x, y));
                }
                proof {
                    let q = x * w + y;
                    assert(self.is_edge(quad_x(q, w), quad_y(q, w), step) == (here && !there));
                    assert(self.edges_upto(step, q + 1) == self.edges_upto(step, q) + helper_edge_fn(*self, step)(q));
                    if here && !there {
                        assert(out_vec@ =~= self.edges_upto(step, q) + seq![(x, y)]);
                    } else {
                        assert(out_vec@ =~= self.edges_upto(step, q) + Seq::<(usize, usize)>::empty());
                    }
                }
                y = y + 1;
            }
            proof {
                assert(x * w + w == (x + 1) * w) by (nonlinear_arith);
            }
            x = x + 1;
        }
        out_vec
    }
}

/// The top face (normal +Z) and bottom face (normal -Z) of quad `(x, y)`.
pub open spec fn tb_quad(x: int, y: int) -> Seq<Triangle> {
    quad_tris(top(x, y), top(x, y + 1), top(x + 1, y + 1), top(x + 1, y), Normal::PosZ)
        + quad_tris(bottom(x + 1, y), bottom(x + 1, y + 1), bottom(x, y + 1), bottom(x, y), Normal::NegZ)
}

/// The wall on the +X side of quad `e`.
pub open spec fn wall_pos_x(e: (int, int)) -> Seq<Triangle> {
    let (x, y) = e;
    quad_tris(top(x + 1, y + 1), top(x + 1, y), bottom(x + 1, y), bottom(x + 1, y + 1), Normal::PosX)
}

/// The wall on the -X side of quad `e`.
pub open spec fn wall_neg_x(e: (int, int)) -> Seq<Triangle> {
    let (x, y) = e;
    quad_tris(top(x, y), top(x, y + 1), bottom(x, y + 1), bottom(x, y), Normal::NegX)
}

/// The wall on the +Y side of quad `e`.
pub open spec fn wall_pos_y(e: (int, int)) -> Seq<Triangle> {
    let (x, y) = e;
    quad_tris(top(x + 1, y + 1), top(x, y + 1), bottom(x, y + 1), bottom(x + 1, y + 1), Normal::PosY)
}

/// The wall on the -Y side of quad `e`.
pub open spec fn wall_neg_y(e: (int, int)) -> Seq<Triangle> {
    let (x, y) = e;
    quad_tris(top(x, y), top(x + 1, y), bottom(x + 1, y), bottom(x, y), Normal::NegY)
}

pub open spec fn tb_fn(w: int) -> spec_fn(int) -> Seq<Triangle> {
    |q: int| tb_quad(quad_x(q, w), quad_y(q, w))
}

pub open spec fn pos_y_fn(y_res: int) -> spec_fn(int) -> Seq<Triangle> {
    |x: int| wall_pos_y((x, y_res - 2))
}

pub open spec fn neg_y_fn() -> spec_fn(int) -> Seq<Triangle> {
    |x: int| wall_neg_y((x, 0))
}

pub open spec fn pos_x_fn(x_res: int) -> spec_fn(int) -> Seq<Triangle> {
    |y: int| wall_pos_x((x_res - 2, y))
}

pub open spec fn neg_x_fn() -> spec_fn(int) -> Seq<Triangle> {
    |y: int| wall_neg_x((0, y))
}

/// The closed solid over a whole `x_res` by `y_res` grid: the top and bottom
/// faces of every quad in scan order, then the walls along the +Y, -Y, +X and -X
/// edges of the grid.
pub open spec fn unmasked_mesh(x_res: int, y_res: int) -> Seq<Triangle> {
    let w = y_res - 1;
    concat_upto(tb_fn(w), (x_res - 1) * w)
        + concat_upto(pos_y_fn(y_res), x_res - 1)
        + concat_upto(neg_y_fn(), x_res - 1)
        + concat_upto(pos_x_fn(x_res), y_res - 1)
        + concat_upto(neg_x_fn(), y_res - 1)
}

/// Whether quad `(x, y)` is whole in `mask` and its neighbour quad one step along
/// `step` is not (a neighbour off the grid of quads counts as not whole).
pub open spec fn mask_edge(mask: Mask, x: int, y: int, step: (int, int)) -> bool {
    let (nx, ny) = (x + step.0, y + step.1);
    quad_whole(mask, x, y) && !(0 <= nx < mask.x_res - 1 && 0 <= ny < mask.y_res - 1 && quad_whole(mask, nx, ny))
}

pub open spec fn mask_edge_fn(mask: Mask, step: (int, int)) -> spec_fn(int) -> Seq<(usize, usize)> {
    let w = mask.y_res - 1;
    |k: int| if mask_edge(mask, quad_x(k, w), quad_y(k, w), step) {
        seq![(quad_x(k, w) as usize, quad_y(k, w) as usize)]
    } else {
        Seq::empty()
    }
}

/// The edge quads of `mask` along `step`, in scan order.
pub open spec fn mask_edges(mask: Mask, step: (int, int)) -> Seq<(usize, usize)> {
    concat_upto(mask_edge_fn(mask, step), (mask.x_res - 1) * (mask.y_res - 1))
}

pub open spec fn wall_fn(edges: Seq<(usize, usize)>, side: WallSide) -> spec_fn(int) -> Seq<Triangle> {
    |k: int| wall_of(side, (edges[k].0 as int, edges[k].1 as int))
}

/// The walls on side `side` of each quad of `edges`, in order.
pub open spec fn walls(edges: Seq<(usize, usize)>, side: WallSide) -> Seq<Triangle> {
    concat_upto(wall_fn(edges, side), edges.len() as int)
}

pub open spec fn tb_masked_fn(mask: Mask) -> spec_fn(int) -> Seq<Triangle> {
    let w = mask.y_res - 1;
    |q: int| if quad_whole(mask, quad_x(q, w), quad_y(q, w)) { tb_quad(quad_x(q, w), quad_y(q, w)) } else { Seq::empty() }
}

/// The closed solid over the cells selected by `mask`: the top and bottom faces of
/// every whole quad in scan order, then a wall on each side of a whole quad whose
/// neighbour on that side is not whole, for the +X, -X, +Y and -Y sides in turn.
pub open spec fn masked_mesh(mask: Mask) -> Seq<Triangle> {
    concat_upto(tb_masked_fn(mask), (mask.x_res - 1) * (mask.y_res - 1))
        + walls(mask_edges(mask, (1, 0)), WallSide::PosX)
        + walls(mask_edges(mask, (-1, 0)), WallSide::NegX)
        + walls(mask_edges(mask, (0, 1)), WallSide::PosY)
        + walls(mask_edges(mask, (0, -1)), WallSide::NegY)
}

/// Index `k` below `x_res * w` is a quad of an `x_res` by `w` grid of quads.
proof fn lemma_quad_in_range(k: int, w: int, x_res: int)
    requires
        0 < w,
        0 <= k < x_res * w,
    ensures
        0 <= quad_x(k, w) < x_res,
        0 <= quad_y(k, w) < w,
{
    vstd::arithmetic::div_mod::lemma_fundamental_div_mod(k, w);
    vstd::arithmetic::div_mod::lemma_mod_pos_bound(k, w);
    vstd::arithmetic::div_mod::lemma_div_pos_is_pos(k, w);
    let (qx, qy) = (k / w, k % w);
    assert(qx < x_res) by (nonlinear_arith)
        requires k == w * qx + qy, 0 <= qy, k < x_res * w, 0 < w;
}

/// The edges the helper mask finds are those of the mask it was built from.
proof fn lemma_helper_edges(h: StlHelperMask, mask: Mask, step: (int, int))
    requires
        mask.wf(),
        h.wf(),
        h.x_res == mask.x_res - 1,
        h.y_res == mask.y_res - 1,
        forall|x: int, y: int| 0 <= x < h.x_res && 0 <= y < h.y_res ==> #[trigger] h.cell(x, y) == quad_whole(mask, x, y),
    ensures
        h.edges_upto(step, h.x_res * h.y_res) == mask_edges(mask, step),
{
    let w = h.y_res as int;
    assert forall|k: int| 0 <= k < h.x_res * h.y_res implies
        #[trigger] helper_edge_fn(h, step)(k) == mask_edge_fn(mask, step)(k) by {
        lemma_quad_in_range(k, w, h.x_res as int);
        let (x, y) = (quad_x(k, w), quad_y(k, w));
        assert(h.cell(x, y) == quad_whole(mask, x, y));
        let (nx, ny) = (x + step.0, y + step.1);
        if 0 <= nx < h.x_res && 0 <= ny < h.y_res {
            assert(h.cell(nx, ny) == quad_whole(mask, nx, ny));
        }
    }
    lemma_concat_upto_ext(helper_edge_fn(h, step), mask_edge_fn(mask, step), h.x_res * h.y_res);
}

proof fn lemma_concat_upto_ext<A>(f: spec_fn(int) -> Seq<A>, g: spec_fn(int) -> Seq<A>, n: int)
    requires
        forall|k: int| 0 <= k < n ==> #[trigger] f(k) == g(k),
    ensures
        concat_upto(f, n) == concat_upto(g, n),
    decreases n,
{
    if n > 0 {
        lemma_concat_upto_ext(f, g, n - 1);
    }
}

proof fn lemma_concat_upto_len<A>(f: spec_fn(int) -> Seq<A>, n: int, m: int)
    requires
        0 <= n,
        forall|k: int| 0 <= k < n ==> (#[trigger] f(k)).len() == m,
    ensures
        concat_upto(f, n).len() == n * m,
    decreases n,
{
    if n > 0 {
        lemma_concat_upto_len(f, n - 1, m);
        assert(f(n - 1).len() == m);
        assert((n - 1) * m + m == n * m) by (nonlinear_arith);
    } else {
        assert(n * m == 0) by (nonlinear_arith) requires n == 0;
    }
}

/// Appends the two triangles of quad `v1 v2 v3 v4`.
fn push_quad(out: &mut Vec<Triangle>, v1: Vertex, v2: Vertex, v3: Vertex, v4: Vertex, normal: Normal)
    ensures
        final(out)@ == old(out)@ + quad_tris(v1, v2, v3, v4, normal),
{
    let t = vertex_rec_to_triangles_diagonal(v1, v2, v3, v4, normal);
    out.push(t[0]);
    out.push(t[1]);
    proof {
        assert(final(out)@ =~= old(out)@ + quad_tris(v1, v2, v3, v4, normal));
    }
}

fn top_v(x: usize, y: usize) -> (r: Vertex)
    ensures
        r == top(x as int, y as int),
{
    Vertex { x, y, top: true }
}

fn bottom_v(x: usize, y: usize) -> (r: Vertex)
    ensures
        r == bottom(x as int, y as int),
{
    Vertex { x, y, top: false }
}

/// Appends the top and bottom faces of quad `(x, y)`.
fn push_tb_quad(out: &mut Vec<Triangle>, x: usize, y: usize)
    requires
        x < usize::MAX,
        y < usize::MAX,
    ensures
        final(out)@ == old(out)@ + tb_quad(x as int, y as int),
{
    push_quad(out, top_v(x, y), top_v(x, y + 1), top_v(x + 1, y + 1), top_v(x + 1, y), Normal::PosZ);
    push_quad(out, bottom_v(x + 1, y), bottom_v(x + 1, y + 1), bottom_v(x, y + 1), bottom_v(x, y), Normal::NegZ);
    proof {
        assert(final(out)@ =~= old(out)@ + tb_quad(x as int, y as int));
    }
}

/// Which wall of a quad to build.
#[derive(Debug, Clone, Copy, PartialEq, Eq, Structural)]
pub enum WallSide {
    PosX,
    NegX,
    PosY,
    NegY,
}

pub open spec fn wall_of(side: WallSide, e: (int, int)) -> Seq<Triangle> {
    match side {
        WallSide::PosX => wall_pos_x(e),
        WallSide::NegX => wall_neg_x(e),
        WallSide::PosY => wall_pos_y(e),
        WallSide::NegY => wall_neg_y(e),
    }
}

/// Appends the wall on side `side` of quad `(x, y)`.
fn push_wall(out: &mut Vec<Triangle>, side: WallSide, x: usize, y: usize)
    requires
        x < usize::MAX,
        y < usize::MAX,
    ensures
        final(out)@ == old(out)@ + wall_of(side, (x as int, y as int)),
{
    match side {
        WallSide::PosX => push_quad(out, top_v(x + 1, y + 1), top_v(x + 1, y), bottom_v(x + 1, y), bottom_v(x + 1, y + 1), Normal::PosX),
        WallSide::NegX => push_quad(out, top_v(x, y), top_v(x, y + 1), bottom_v(x, y + 1), bottom_v(x, y), Normal::NegX),
        WallSide::PosY => push_quad(out, top_v(x + 1, y + 1), top_v(x, y + 1), bottom_v(x, y + 1), bottom_v(x + 1, y + 1), Normal::PosY),
        WallSide::NegY => push_quad(out, top_v(x, y), top_v(x + 1, y), bottom_v(x + 1, y), bottom_v(x, y), Normal::NegY),
    }
}

impl HeightMap {
    /// The triangles of the closed solid over the whole grid: `4 (x_res - 1)
    /// (y_res - 1)` top and bottom faces, then `2 (x_res - 1)` walls on each of
    /// the +Y and -Y sides and `2 (y_res - 1)` on each of the +X and -X sides.
    pub fn get_stl_triangles(&self) -> (r: Vec<Triangle>)
        requires
            self.wf(),
        ensures
            r@ == unmasked_mesh(self.x_res as int, self.y_res as int),
            r@.len() == 4 * (self.x_res - 1) * (self.y_res - 1) + 4 * (self.x_res - 1) + 4 * (self.y_res - 1),
    {
        let xr = self.x_res;
        let yr = self.y_res;
        proof {
            crate::utm_bounds::lemma_res_small(xr as int, yr as int);
        }
        let ghost w = yr - 1;
        let ghost ftb = tb_fn(w);
        let mut out: Vec<Triangle> = Vec::new();
        let mut x: usize = 0;
        while x < xr - 1
            invariant
                2 <= xr < 0x8000_0000_0000_0000,
                2 <= yr < 0x8000_0000_0000_0000,
                w == yr - 1,
                ftb == tb_fn(w),
                x <= xr - 1,
                out@ == concat_upto(ftb, x * w),
            decreases xr - 1 - x,
        {
            let mut y: usize = 0;
            while y < yr - 1
                invariant
                    2 <= xr < 0x8000_0000_0000_0000,
                    2 <= yr < 0x8000_0000_0000_0000,
                    w == yr - 1,
                    ftb == tb_fn(w),
                    x < xr - 1,
                    y <= yr - 1,
                    out@ == concat_upto(ftb, x * w + y),
                decreases yr - 1 - y,
            {
                proof {
                    lemma_quad_coords(x as int, y as int, w);
                }
                push_tb_quad(&mut out, x, y);
                proof {
                    let q = x * w + y;
                    assert(concat_upto(ftb, q + 1) == concat_upto(ftb, q) + ftb(q));
                    assert(quad_x(q, w) == x && quad_y(q, w) == y);
                    assert(ftb(q) == tb_quad(x as int, y as int));
                    assert(out@ =~= concat_upto(ftb, q + 1));
                }
                y = y + 1;
            }
            proof {
                assert(x * w + w == (x + 1) * w) by (nonlinear_arith);
            }
            x = x + 1;
        }
        let ghost s0 = out@;
        let ghost f1 = pos_y_fn(yr as int);
        let mut x: usize = 0;
        while x < xr - 1
            invariant
                2 <= xr < 0x8000_0000_0000_0000,
                2 <= yr < 0x8000_0000_0000_0000,
                x <= xr - 1,
                out@ == s0 + concat_upto(f1, x as int),
                f1 == pos_y_fn(yr as int),
            decreases xr - 1 - x,
        {
            push_wall(&mut out, WallSide::PosY, x, yr - 2);
            proof {
                assert(concat_upto(f1, x + 1) == concat_upto(f1, x as int) + f1(x as int));
                assert(out@ =~= s0 + concat_upto(f1, x + 1));
            }
            x = x + 1;
        }
        let ghost s1 = out@;
        let ghost f2 = neg_y_fn();
        let mut x: usize = 0;
        while x < xr - 1
            invariant
                2 <= xr < 0x8000_0000_0000_0000,
                2 <= yr < 0x8000_0000_0000_0000,
                x <= xr - 1,
                out@ == s1 + concat_upto(f2, x as int),
                f2 == neg_y_fn(),
            decreases xr - 1 - x,
        {
            push_wall(&mut out, WallSide::NegY, x, 0);
            proof {
                assert(concat_upto(f2, x + 1) == concat_upto(f2, x as int) + f2(x as int));
                assert(out@ =~= s1 + concat_upto(f2, x + 1));
            }
            x = x + 1;
        }
        let ghost s2 = out@;
        let ghost f3 = pos_x_fn(xr as int);
        let mut y: usize = 0;
        while y < yr - 1
            invariant
                2 <= xr < 0x8000_0000_0000_0000,
                2 <= yr < 0x8000_0000_0000_0000,
                y <= yr - 1,
                out@ == s2 + concat_upto(f3, y as int),
                f3 == pos_x_fn(xr as int),
            decreases yr - 1 - y,
        {
            push_wall(&mut out, WallSide::PosX, xr - 2, y);
            proof {
                assert(concat_upto(f3, y + 1) == concat_upto(f3, y as int) + f3(y as int));
                assert(out@ =~= s2 + concat_upto(f3, y + 1));
            }
            y = y + 1;
        }
        let ghost s3 = out@;
        let ghost f4 = neg_x_fn();
        let mut y: usize = 0;
        while y < yr - 1
            invariant
                2 <= xr < 0x8000_0000_0000_0000,
                2 <= yr < 0x8000_0000_0000_0000,
                y <= yr - 1,
                out@ == s3 + concat_upto(f4, y as int),
                f4 == neg_x_fn(),
            decreases yr - 1 - y,
        {
            push_wall(&mut out, WallSide::NegX, 0, y);
            proof {
                assert(concat_upto(f4, y + 1) == concat_upto(f4, y as int) + f4(y as int));
                assert(out@ =~= s3 + concat_upto(f4, y + 1));
            }
            y = y + 1;
        }
        proof {
            let (xi, yi) = (xr as int, yr as int);
            assert forall|k: int| 0 <= k < (xi - 1) * w implies (#[trigger] ftb(k)).len() == 4 by {}
            assert((xi - 1) * w >= 0) by (nonlinear_arith) requires xi >= 2, w >= 1;
            lemma_concat_upto_len(ftb, (xi - 1) * w, 4);
            assert forall|k: int| 0 <= k < xi - 1 implies (#[trigger] f1(k)).len() == 2 by {}
            lemma_concat_upto_len(f1, xi - 1, 2);
            assert forall|k: int| 0 <= k < xi - 1 implies (#[trigger] f2(k)).len() == 2 by {}
            lemma_concat_upto_len(f2, xi - 1, 2);
            assert forall|k: int| 0 <= k < yi - 1 implies (#[trigger] f3(k)).len() == 2 by {}
            lemma_concat_upto_len(f3, yi - 1, 2);
            assert forall|k: int| 0 <= k < yi - 1 implies (#[trigger] f4(k)).len() == 2 by {}
            lemma_concat_upto_len(f4, yi - 1, 2);
            assert((xi - 1) * w * 4 == 4 * (xi - 1) * (yi - 1)) by (nonlinear_arith) requires w == yi - 1;
        }
        out
    }
}

/// How far elevation `h` stands above `min_z`; negative differences count as `0`.
pub open spec fn height_above(h: int, min_z: int) -> int {
    if h > min_z { h - min_z } else { 0 }
}

impl HeightMap {
    /// For each cell, how far its elevation stands above `bounds.min_z`, with
    /// cells below it at `0`: the base of the terrain surface of the solid.
    pub fn get_vertex_heights(&self) -> (r: Vec<u64>)
        requires
            self.wf(),
        ensures
            r@.len() == self.data@.len(),
            forall|i: int| 0 <= i < r@.len() ==> #[trigger] r@[i] == height_above(self.data@[i] as int, self.bounds.min_z as int),
    {
        let min_z = self.bounds.min_z;
        let mut out: Vec<u64> = Vec::new();
        let mut i: usize = 0;
        while i < self.data.len()
            invariant
                i <= self.data@.len(),
                out@.len() == i,
                min_z == self.bounds.min_z,
                forall|k: int| 0 <= k < i ==> #[trigger] out@[k] == height_above(self.data@[k] as int, min_z as int),
            decreases self.data@.len() - i,
        {
            let h = self.data[i];
            let v: u64 = if h > min_z { (h as i128 - min_z as i128) as u64 } else { 0 };
            out.push(v);
            i = i + 1;
        }
        out
    }
}

/// Appends the walls on side `side` of each quad of `edges`.
fn push_walls(out: &mut Vec<Triangle>, edges: &Vec<(usize, usize)>, side: WallSide, x_res: usize, y_res: usize)
    requires
        forall|i: int| 0 <= i < edges@.len() ==> (#[trigger] edges@[i]).0 < x_res && edges@[i].1 < y_res,
    ensures
        final(out)@ == old(out)@ + walls(edges@, side),
{
    let ghost s0 = old(out)@;
    let ghost f = wall_fn(edges@, side);
    let mut i: usize = 0;
    while i < edges.len()
        invariant
            i <= edges@.len(),
            f == wall_fn(edges@, side),
            s0 == old(out)@,
            forall|k: int| 0 <= k < edges@.len() ==> (#[trigger] edges@[k]).0 < x_res && edges@[k].1 < y_res,
            out@ == s0 + concat_upto(f, i as int),
        decreases edges@.len() - i,
    {
        let (ex, ey) = edges[i];
        push_wall(out, side, ex, ey);
        proof {
            assert(concat_upto(f, i + 1) == concat_upto(f, i as int) + f(i as int));
            assert(out@ =~= s0 + concat_upto(f, i + 1));
        }
        i = i + 1;
    }
}

impl HeightMap {
    /// The triangles of the closed solid over the cells selected by `mask`, which
    /// must have the resolution and extent of `self` (else this fails). A quad
    /// gets top and bottom faces when its four corner cells are selected; its
    /// sides facing a quad that does not get them get walls.
    pub fn get_stl_triangles_masked(&self, mask: &Mask) -> (r: Result<Vec<Triangle>, LasToStlError>)
        requires
            self.wf(),
            mask.wf(),
        ensures
            r is Ok <==> self.same_geometry(mask),
            r matches Ok(t) ==> t@ == masked_mesh(*mask),
            r is Err ==> r == Err::<Vec<Triangle>, LasToStlError>(self.mismatch_error(mask)),
    {
        self.check_geometry(mask)?;
        let xr = mask.x_res;
        let yr = mask.y_res;
        proof {
            crate::utm_bounds::lemma_res_small(xr as int, yr as int);
        }
        let ghost w = yr - 1;
        let ghost ftb = tb_masked_fn(*mask);
        let mut out: Vec<Triangle> = Vec::new();
        let mut x: usize = 0;
        while x < xr - 1
            invariant
                mask.wf(),
                xr == mask.x_res,
                yr == mask.y_res,
                2 <= xr < 0x8000_0000_0000_0000,
                2 <= yr < 0x8000_0000_0000_0000,
                w == yr - 1,
                ftb == tb_masked_fn(*mask),
                x <= xr - 1,
                out@ == concat_upto(ftb, x * w),
            decreases xr - 1 - x,
        {
            let mut y: usize = 0;
            while y < yr - 1
                invariant
                    mask.wf(),
                    xr == mask.x_res,
                    yr == mask.y_res,
                    2 <= xr < 0x8000_0000_0000_0000,
                    2 <= yr < 0x8000_0000_0000_0000,
                    w == yr - 1,
                    ftb == tb_masked_fn(*mask),
                    x < xr - 1,
                    y <= yr - 1,
                    out@ == concat_upto(ftb, x * w + y),
                decreases yr - 1 - y,
            {
                proof {
                    lemma_quad_coords(x as int, y as int, w);
                }
                let whole = mask.get_by_xy_unchecked(x, y) && mask.get_by_xy_unchecked(x + 1, y)
                    && mask.get_by_xy_unchecked(x, y + 1) && mask.get_by_xy_unchecked(x + 1, y + 1);
                let ghost prev = out@;
                if whole {
                    push_tb_quad(&mut out, x, y);
                }
                proof {
                    let q = x * w + y;
                    assert(concat_upto(ftb, q + 1) == concat_upto(ftb, q) + ftb(q));
                    assert(whole == quad_whole(*mask, x as int, y as int));
                    assert(out@ =~= concat_upto(ftb, q + 1));
                }
                y = y + 1;
            }
            proof {
                assert(x * w + w == (x + 1) * w) by (nonlinear_arith);
            }
            x = x + 1;
        }
        let helper = StlHelperMask::from_mask(mask);
        proof {
            lemma_helper_edges(helper, *mask, (1, 0));
            lemma_helper_edges(helper, *mask, (-1, 0));
            lemma_helper_edges(helper, *mask, (0, 1));
            lemma_helper_edges(helper, *mask, (0, -1));
        }
        let x_pos_edges = helper.get_cardinal_edge(true, true);
        let x_neg_edges = helper.get_cardinal_edge(true, false);
        let y_pos_edges = helper.get_cardinal_edge(false, true);
        let y_neg_edges = helper.get_cardinal_edge(false, false);
        push_walls(&mut out, &x_pos_edges, WallSide::PosX, helper.x_res, helper.y_res);
        push_walls(&mut out, &x_neg_edges, WallSide::NegX, helper.x_res, helper.y_res);
        push_walls(&mut out, &y_pos_edges, WallSide::PosY, helper.x_res, helper.y_res);
        push_walls(&mut out, &y_neg_edges, WallSide::NegY, helper.x_res, helper.y_res);
        proof {
            assert(out@ =~= masked_mesh(*mask));
        }
        Ok(out)
    }
}

} // verus!
