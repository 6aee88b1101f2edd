use std::collections::HashMap;

use las_kml_to_stl::height_map::HeightMap;
use las_kml_to_stl::mask::Mask;
use las_kml_to_stl::stl::{
    option_vertex_rec_to_triangles_diagonal, vertex_rec_to_triangles_diagonal, Normal, StlHelperMask, Triangle, Vertex,
};
use las_kml_to_stl::utm_bounds::UtmBoundingBox;

fn flat_map(x_res: usize, y_res: usize) -> HeightMap {
    HeightMap {
        data: vec![0; x_res * y_res],
        x_res,
        y_res,
        bounds: UtmBoundingBox::new(0, 100, 0, 100, 0, 10),
    }
}

fn v(x: usize, y: usize, top: bool) -> Vertex {
    Vertex { x, y, top }
}

/// Every undirected edge is shared by exactly two triangles.
fn is_watertight(tris: &[Triangle]) -> bool {
    type Key = (usize, usize, bool);
    let mut edges: HashMap<(Key, Key), usize> = HashMap::new();
    let key = |a: Vertex, b: Vertex| {
        let ka = (a.x, a.y, a.top);
        let kb = (b.x, b.y, b.top);
        if ka <= kb { (ka, kb) } else { (kb, ka) }
    };
    for t in tris {
        for (a, b) in [(t.v1, t.v2), (t.v2, t.v3), (t.v3, t.v1)] {
            *edges.entry(key(a, b)).or_insert(0) += 1;
        }
    }
    !edges.is_empty() && edges.values().all(|c| *c == 2)
}

#[test]
fn quad_split_keeps_winding() {
    let (a, b, c, d) = (v(0, 0, true), v(0, 1, true), v(1, 1, true), v(1, 0, true));
    let t = vertex_rec_to_triangles_diagonal(a, b, c, d, Normal::PosZ);
    assert_eq!(t[0], Triangle { normal: Normal::PosZ, v1: a, v2: b, v3: d });
    assert_eq!(t[1], Triangle { normal: Normal::PosZ, v1: b, v2: c, v3: d });
    assert_eq!(option_vertex_rec_to_triangles_diagonal(Some(a), Some(b), Some(c), Some(d), Normal::PosZ), Some(t));
    assert_eq!(option_vertex_rec_to_triangles_diagonal(Some(a), None, Some(c), Some(d), Normal::PosZ), None);
}

#[test]
fn unmasked_three_by_three_is_closed() {
    let hm = flat_map(3, 3);
    let tris = hm.get_stl_triangles();
    assert_eq!(tris.len(), 4 * 2 * 2 + 4 * 2 + 4 * 2);
    assert!(is_watertight(&tris));
    assert_eq!(tris.iter().filter(|t| t.normal == Normal::PosZ).count(), 8);
    assert_eq!(tris.iter().filter(|t| t.normal == Normal::NegZ).count(), 8);
    for n in [Normal::PosX, Normal::NegX, Normal::PosY, Normal::NegY] {
        assert_eq!(tris.iter().filter(|t| t.normal == n).count(), 4);
    }
    assert_eq!(tris[0], Triangle { normal: Normal::PosZ, v1: v(0, 0, true), v2: v(0, 1, true), v3: v(1, 0, true) });
}

#[test]
fn unmasked_other_sizes_are_closed() {
    for (xr, yr) in [(2, 2), (4, 3), (3, 6)] {
        let tris = flat_map(xr, yr).get_stl_triangles();
        assert_eq!(tris.len(), 4 * (xr - 1) * (yr - 1) + 4 * (xr - 1) + 4 * (yr - 1));
        assert!(is_watertight(&tris));
    }
}

fn block_mask(x_res: usize, y_res: usize, cells: &[(usize, usize)]) -> Mask {
    let mut m = Mask::new_with_dims(x_res, y_res, UtmBoundingBox::new(0, 100, 0, 100, 0, 10));
    for (x, y) in cells {
        m.set_x_y(*x, *y, true).unwrap();
    }
    m
}

#[test]
fn masked_single_quad_is_closed() {
    let hm = flat_map(5, 5);
    let m = block_mask(5, 5, &[(1, 1), (2, 1), (1, 2), (2, 2)]);
    let tris = hm.get_stl_triangles_masked(&m).unwrap();
    assert_eq!(tris.len(), 4 + 4 * 2);
    assert!(is_watertight(&tris));
    for t in &tris {
        for c in [t.v1, t.v2, t.v3] {
            assert!((1..=2).contains(&c.x) && (1..=2).contains(&c.y));
        }
    }
}

#[test]
fn masked_region_with_hole_is_closed() {
    let hm = flat_map(6, 6);
    let mut cells = Vec::new();
    for y in 0..6 {
        for x in 0..6 {
            if !(x == 2 && y == 2) && !(x == 5 && y == 0) {
                cells.push((x, y));
            }
        }
    }
    let m = block_mask(6, 6, &cells);
    let tris = hm.get_stl_triangles_masked(&m).unwrap();
    assert!(is_watertight(&tris));
}

#[test]
fn masked_full_mask_matches_quad_count() {
    let hm = flat_map(4, 3);
    let mut cells = Vec::new();
    for y in 0..3 {
        for x in 0..4 {
            cells.push((x, y));
        }
    }
    let tris = hm.get_stl_triangles_masked(&block_mask(4, 3, &cells)).unwrap();
    assert_eq!(tris.len(), hm.get_stl_triangles().len());
    assert!(is_watertight(&tris));
}

#[test]
fn empty_mask_gives_no_triangles() {
    let hm = flat_map(4, 4);
    let m = block_mask(4, 4, &[(1, 1), (3, 3)]);
    assert!(hm.get_stl_triangles_masked(&m).unwrap().is_empty());
}

#[test]
fn helper_mask_marks_whole_quads_and_edges() {
    let m = block_mask(4, 3, &[(0, 0), (1, 0), (2, 0), (0, 1), (1, 1), (2, 1)]);
    let h = StlHelperMask::from_mask(&m);
    assert_eq!((h.x_res, h.y_res), (3, 2));
    assert_eq!(h.data, vec![true, true, false, false, false, false]);
    assert!(h.get_by_xy_unchecked(1, 0));
    assert_eq!(h.get_by_xy_checked(2, 0), Ok(false));
    assert!(h.get_by_xy_checked(3, 0).is_err());
    assert_eq!(h.get_cardinal_edge(true, true), vec![(1, 0)]);
    assert_eq!(h.get_cardinal_edge(true, false), vec![(0, 0)]);
    assert_eq!(h.get_cardinal_edge(false, true), vec![(0, 0), (1, 0)]);
    assert_eq!(h.get_cardinal_edge(false, false), vec![(0, 0), (1, 0)]);
}

#[test]
fn vertex_heights_clamp_below_base() {
    let hm = HeightMap {
        data: vec![5, 12, 3, 40],
        x_res: 2,
        y_res: 2,
        bounds: UtmBoundingBox::new(0, 1, 0, 1, 5, 40),
    };
    assert_eq!(hm.get_vertex_heights(), vec![0, 7, 0, 35]);
}
