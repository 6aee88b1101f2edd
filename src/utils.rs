use vstd::prelude::*;
use crate::errors::LasToStlError;

verus! {

/// Position of cell `(x, y)` in the row-major flat storage of a grid `x_res` wide.
pub open spec fn index_of(x_res: int, x: int, y: int) -> int {
    y * x_res + x
}

/// Whether the integer offset `(dx, dy)` lies in the closed disk of radius `r`.
pub open spec fn in_disk(r: int, dx: int, dy: int) -> bool {
    dx * dx + dy * dy <= r * r
}

/// Strict lexicographic order on offsets: by `dx`, then by `dy`.
pub open spec fn lex_lt(a: (i16, i16), b: (i16, i16)) -> bool {
    a.0 < b.0 || (a.0 == b.0 && a.1 < b.1)
}

/// Maps `value` from `[min, max]` affinely onto `[0, max_val]`, rounding down and
/// clamping what falls outside.
pub open spec fn scale_spec(value: int, min: int, max: int, max_val: int) -> int {
    if value <= min {
        0
    } else if value >= max {
        max_val
    } else {
        (value - min) * max_val / (max - min)
    }
}

/// Flat index of cell `(x, y)`; fails when the cell is outside the grid.
pub fn x_y_to_index(x_res: usize, y_res: usize, x: usize, y: usize) -> (r: Result<usize, LasToStlError>)
    requires
        x_res * y_res <= usize::MAX,
    ensures
        match r {
            Ok(i) => x < x_res && y < y_res && i as int == index_of(x_res as int, x as int, y as int),
            Err(e) => !(x < x_res && y < y_res) && e == (LasToStlError::BadIndexError { x_res, y_res, x, y }),
        },
{
    if x < x_res && y < y_res {
        proof {
            assert(y * x_res + x < x_res * y_res) by (nonlinear_arith)
                requires x < x_res, y < y_res;
        }
        Ok(y * x_res + x)
    } else {
        Err(LasToStlError::BadIndexError { x_res, y_res, x, y })
    }
}

/// Distinct cells of a grid `x_res` wide have distinct flat indices, and the
/// column and row are recovered from the index by remainder and quotient.
pub proof fn lemma_index_bijective(x_res: int, y_res: int, x: int, y: int, x2: int, y2: int)
    requires
        0 <= x < x_res,
        0 <= y < y_res,
        0 <= x2 < x_res,
        0 <= y2 < y_res,
    ensures
        0 <= index_of(x_res, x, y) < x_res * y_res,
        index_of(x_res, x, y) % x_res == x,
        index_of(x_res, x, y) / x_res == y,
        index_of(x_res, x, y) == index_of(x_res, x2, y2) ==> x == x2 && y == y2,
{
    assert(0 <= y * x_res + x < x_res * y_res) by (nonlinear_arith)
        requires 0 <= x < x_res, 0 <= y < y_res;
    vstd::arithmetic::div_mod::lemma_fundamental_div_mod_converse(y * x_res + x, x_res, y, x);
    vstd::arithmetic::div_mod::lemma_fundamental_div_mod_converse(y2 * x_res + x2, x_res, y2, x2);
}

/// Every offset of a disk lies in the square of side `2r + 1` around its centre.
pub proof fn lemma_disk_in_square(r: int, dx: int, dy: int)
    requires
        0 <= r,
        in_disk(r, dx, dy),
    ensures
        -r <= dx <= r,
        -r <= dy <= r,
{
    assert(dx * dx <= r * r && dy * dy <= r * r) by (nonlinear_arith)
        requires dx * dx + dy * dy <= r * r;
    assert(-r <= dx <= r) by (nonlinear_arith)
        requires dx * dx <= r * r, 0 <= r;
    assert(-r <= dy <= r) by (nonlinear_arith)
        requires dy * dy <= r * r, 0 <= r;
}

/// Maps `value` from `[min, max]` onto `0..=max_val`, rounding down;
/// values outside the range are clamped to its ends.
pub fn scale_to_uint_range(value: i64, min: i64, max: i64, max_val: u64) -> (r: u64)
    requires
        min < max,
    ensures
        r as int == scale_spec(value as int, min as int, max as int, max_val as int),
        r <= max_val,
{
    if value <= min {
        0
    } else if value >= max {
        max_val
    } else {
        let num: u128 = (value as i128 - min as i128) as u128;
        let den: u128 = (max as i128 - min as i128) as u128;
        proof {
            let n = num as int;
            let d = den as int;
            let m = max_val as int;
            assert(n * m <= d * m) by (nonlinear_arith)
                requires n < d, 0 <= m;
            assert(d * m <= u128::MAX) by (nonlinear_arith)
                requires 0 < d < 0x1_0000_0000_0000_0000, 0 <= m < 0x1_0000_0000_0000_0000;
            assert((n * m) / d <= m) by (nonlinear_arith)
                requires 0 <= n < d, 0 <= m, n * m <= d * m;
        }
        (num * (max_val as u128) / den) as u64
    }
}

/// The integer offsets `(dx, dy)` with `dx² + dy² <= radius²`, the boundary
/// included, in increasing order of `dx` and then `dy`.
pub fn get_point_deltas_within_radius(radius: u16) -> (r: Vec<(i16, i16)>)
    requires
        radius <= i16::MAX,
    ensures
        forall|d: (i16, i16)| r@.contains(d) <==> in_disk(radius as int, d.0 as int, d.1 as int),
        forall|i: int, j: int| 0 <= i < j < r@.len() ==> lex_lt(#[trigger] r@[i], #[trigger] r@[j]),
{
    let sr: i32 = radius as i32;
    proof {
        assert((sr as int) * (sr as int) < 0x4000_0000) by (nonlinear_arith)
            requires 0 <= sr <= 32767;
        assert forall|d: (i16, i16)| in_disk(sr as int, d.0 as int, d.1 as int)
            implies -sr <= d.0 && -sr <= d.1 by {
            lemma_disk_in_square(sr as int, d.0 as int, d.1 as int);
        }
    }
    let r2: i64 = (sr as i64) * (sr as i64);
    let mut point_deltas: Vec<(i16, i16)> = Vec::new();
    let mut x: i32 = -sr;
    while x <= sr
        invariant
            -sr <= x <= sr + 1,
            sr == radius as i32,
            r2 == radius * radius,
            r2 < 0x4000_0000,
            0 <= sr <= i16::MAX,
            forall|d: (i16, i16)| in_disk(sr as int, d.0 as int, d.1 as int) ==> -sr <= d.0 && -sr <= d.1,
            forall|d: (i16, i16)| point_deltas@.contains(d) <==>
                (in_disk(sr as int, d.0 as int, d.1 as int) && d.0 < x),
            forall|i: int, j: int| 0 <= i < j < point_deltas@.len() ==>
                lex_lt(#[trigger] point_deltas@[i], #[trigger] point_deltas@[j]),
            forall|i: int| 0 <= i < point_deltas@.len() ==> (#[trigger] point_deltas@[i]).0 < x,
        decreases sr + 1 - x,
    {
        let mut y: i32 = -sr;
        while y <= sr
            invariant
                -sr <= x <= sr,
                -sr <= y <= sr + 1,
                sr == radius as i32,
                r2 == radius * radius,
                r2 < 0x4000_0000,
                0 <= sr <= i16::MAX,
                forall|d: (i16, i16)| in_disk(sr as int, d.0 as int, d.1 as int) ==> -sr <= d.0 && -sr <= d.1,
                forall|d: (i16, i16)| point_deltas@.contains(d) <==>
                    (in_disk(sr as int, d.0 as int, d.1 as int) && (d.0 < x || (d.0 == x && d.1 < y))),
                forall|i: int, j: int| 0 <= i < j < point_deltas@.len() ==>
                    lex_lt(#[trigger] point_deltas@[i], #[trigger] point_deltas@[j]),
                forall|i: int| 0 <= i < point_deltas@.len() ==>
                    (#[trigger] point_deltas@[i]).0 < x || (point_deltas@[i].0 == x && point_deltas@[i].1 < y),
            decreases sr + 1 - y,
        {
            let xx: i64 = x as i64;
            let yy: i64 = y as i64;
            proof {
                let (a, b, c) = (xx as int, yy as int, sr as int);
                assert(0 <= a * a <= c * c) by (nonlinear_arith)
                    requires -c <= a <= c, 0 <= c;
                assert(0 <= b * b <= c * c) by (nonlinear_arith)
                    requires -c <= b <= c, 0 <= c;
            }
            let old_deltas = Ghost(point_deltas@);
            if xx * xx + yy * yy <= r2 {
                point_deltas.push((x as i16, y as i16));
                proof {
                    assert forall|d: (i16, i16)| point_deltas@.contains(d) <==>
                        (in_disk(sr as int, d.0 as int, d.1 as int) && (d.0 < x || (d.0 == x && d.1 < y + 1))) by {
                        if point_deltas@.contains(d) {
                            let k = choose|k: int| 0 <= k < point_deltas@.len() && point_deltas@[k] == d;
                            if k < old_deltas@.len() {
                                assert(old_deltas@.contains(d));
                            }
                        }
                        if in_disk(sr as int, d.0 as int, d.1 as int) && (d.0 < x || (d.0 == x && d.1 < y + 1)) {
                            if d.0 == x && d.1 == y {
                                assert(point_deltas@[old_deltas@.len() as int] == d);
                            } else {
                                assert(old_deltas@.contains(d));
                                let k = choose|k: int| 0 <= k < old_deltas@.len() && old_deltas@[k] == d;
                                assert(point_deltas@[k] == d);
                            }
                        }
                    }
                }
            } else {
                proof {
                    assert forall|d: (i16, i16)| point_deltas@.contains(d) <==>
                        (in_disk(sr as int, d.0 as int, d.1 as int) && (d.0 < x || (d.0 == x && d.1 < y + 1))) by {
                        if d.0 == x && d.1 == y {
                            assert(!in_disk(sr as int, d.0 as int, d.1 as int));
                        }
                    }
                }
            }
            y = y + 1;
        }
        proof {
            assert forall|d: (i16, i16)| point_deltas@.contains(d) <==>
                (in_disk(sr as int, d.0 as int, d.1 as int) && d.0 < x + 1) by {
                if in_disk(sr as int, d.0 as int, d.1 as int) && d.0 == x {
                    lemma_disk_in_square(sr as int, d.0 as int, d.1 as int);
                }
            }
        }
        x = x + 1;
    }
    proof {
        assert forall|d: (i16, i16)| point_deltas@.contains(d) <==> in_disk(radius as int, d.0 as int, d.1 as int) by {
            if in_disk(sr as int, d.0 as int, d.1 as int) {
                lemma_disk_in_square(sr as int, d.0 as int, d.1 as int);
            }
        }
    }
    point_deltas
}

} // verus!
