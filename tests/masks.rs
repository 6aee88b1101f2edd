use las_kml_to_stl::errors::LasToStlError;
use las_kml_to_stl::height_map::HeightMap;
use las_kml_to_stl::mask::{Mask, UtmPolygon};
use las_kml_to_stl::utm_bounds::UtmBoundingBox;
use las_kml_to_stl::utm_point::UtmCoord;

fn bounds() -> UtmBoundingBox {
    UtmBoundingBox::new(0, 400, 0, 400, 0, 100)
}

fn mask() -> Mask {
    Mask::new_with_dims(5, 5, bounds())
}

fn set_cells(m: &mut Mask, cells: &[(usize, usize)]) {
    for (x, y) in cells {
        m.set_x_y(*x, *y, true).unwrap();
    }
}

fn true_cells(m: &Mask) -> Vec<(usize, usize)> {
    let mut out = Vec::new();
    for y in 0..m.y_res {
        for x in 0..m.x_res {
            if m.get_by_xy_unchecked(x, y) {
                out.push((x, y));
            }
        }
    }
    out
}

#[test]
fn new_mask_is_all_false() {
    let m = mask();
    assert_eq!(m.data.len(), 25);
    assert!(m.data.iter().all(|c| !*c));
    assert_eq!(m.get_true_count(), 0);
}

#[test]
fn set_and_get_cells() {
    let mut m = mask();
    m.set_x_y(1, 2, true).unwrap();
    assert!(m.get_by_xy_unchecked(1, 2));
    assert!(m.data[2 * 5 + 1]);
    assert_eq!(m.get_by_xy_checked(1, 2), Ok(true));
    assert_eq!(m.get_by_xy_checked(0, 0), Ok(false));
    assert_eq!(
        m.get_by_xy_checked(-1, 0),
        Err(LasToStlError::GetByXyCheckedError { x_res: 5, y_res: 5, x: -1, y: 0 })
    );
    assert_eq!(
        m.set_x_y(5, 0, true),
        Err(LasToStlError::BadIndexError { x_res: 5, y_res: 5, x: 5, y: 0 })
    );
    *m.get_mut_ref_by_xy_unchecked(4, 4) = true;
    assert_eq!(m.get_true_count(), 2);
}

#[test]
fn stamp_skips_cells_off_the_grid() {
    let mut m = mask();
    let deltas = vec![(0i16, 0i16), (-1, 0), (0, -1), (1, 1)];
    m.set_with_deltas(0, 0, true, &deltas).unwrap();
    assert_eq!(true_cells(&m), vec![(0, 0), (1, 1)]);
    assert_eq!(
        m.set_with_deltas(-3, 2, true, &deltas),
        Err(LasToStlError::SetWithDeltaError { x_res: 5, y_res: 5, x: -3, y: 2 })
    );
    assert_eq!(true_cells(&m), vec![(0, 0), (1, 1)]);
    m.set_with_deltas(1, 1, false, &deltas).unwrap();
    assert_eq!(true_cells(&m), vec![(0, 0)]);
}

#[test]
fn point_stamps_a_disk() {
    let mut m = mask();
    m.add_utm_point(UtmCoord::new((200, 200)), 1).unwrap();
    assert_eq!(true_cells(&m), vec![(2, 1), (1, 2), (2, 2), (3, 2), (2, 3)]);
    let mut corner = mask();
    corner.add_utm_point(UtmCoord::new((0, 0)), 1).unwrap();
    assert_eq!(true_cells(&corner), vec![(0, 3), (0, 4), (1, 4)]);
}

#[test]
fn point_fully_off_grid_fails() {
    let mut m = mask();
    assert_eq!(
        m.add_utm_point(UtmCoord::new((1000, 200)), 1),
        Err(LasToStlError::SetWithDeltaError { x_res: 5, y_res: 5, x: 10, y: 2 })
    );
    assert_eq!(m.get_true_count(), 0);
}

#[test]
fn points_stop_at_first_miss() {
    let mut m = mask();
    let pts = vec![UtmCoord::new((0, 400)), UtmCoord::new((5000, 0)), UtmCoord::new((400, 0))];
    assert!(m.add_utm_points(pts, 0).is_err());
    assert_eq!(true_cells(&m), vec![(0, 0)]);
    let mut t = mask();
    t.add_trail_raw(&vec![UtmCoord::new((0, 400)), UtmCoord::new((400, 0))], 0).unwrap();
    assert_eq!(true_cells(&t), vec![(0, 0), (4, 4)]);
}

#[test]
fn mask_set_algebra() {
    let mut a = mask();
    set_cells(&mut a, &[(0, 0), (1, 1), (2, 3), (4, 4)]);
    let copy = |m: &Mask| {
        let mut c = mask();
        c.data = m.data.clone();
        c
    };
    let mut u = copy(&a);
    u.checked_bitor_assign(&a).unwrap();
    assert_eq!(u.data, a.data);
    let mut inv = copy(&a);
    inv.invert();
    assert_eq!(inv.get_true_count(), 21);
    let mut meet = copy(&a);
    meet.checked_bitand_assign(&inv).unwrap();
    assert_eq!(meet.get_true_count(), 0);
    let mut x = copy(&a);
    x.checked_bitxor_assign(&a).unwrap();
    assert_eq!(x.get_true_count(), 0);
    let mut d = copy(&a);
    d.checked_sub_assign(&a).unwrap();
    assert_eq!(d.get_true_count(), 0);
}

#[test]
fn mask_combinations_cell_by_cell() {
    let mut a = mask();
    set_cells(&mut a, &[(0, 0), (1, 0)]);
    let mut b = mask();
    set_cells(&mut b, &[(1, 0), (2, 0)]);
    let mut or = Mask::new_with_dims(5, 5, bounds());
    or.data = a.data.clone();
    or.bitor_assign(&b);
    assert_eq!(true_cells(&or), vec![(0, 0), (1, 0), (2, 0)]);
    let mut and = Mask::new_with_dims(5, 5, bounds());
    and.data = a.data.clone();
    and.bitand_assign(&b);
    assert_eq!(true_cells(&and), vec![(1, 0)]);
    let mut xor = Mask::new_with_dims(5, 5, bounds());
    xor.data = a.data.clone();
    xor.bitxor_assign(&b);
    assert_eq!(true_cells(&xor), vec![(0, 0), (2, 0)]);
    let mut sub = Mask::new_with_dims(5, 5, bounds());
    sub.data = a.data.clone();
    sub.sub_assign(&b);
    assert_eq!(true_cells(&sub), vec![(0, 0)]);
}

#[test]
fn mismatched_geometry_fails() {
    let mut a = mask();
    set_cells(&mut a, &[(2, 2)]);
    let other_x = Mask::new_with_dims(6, 5, bounds());
    let other_y = Mask::new_with_dims(5, 4, bounds());
    let other_b = Mask::new_with_dims(5, 5, UtmBoundingBox::new(0, 401, 0, 400, 0, 100));
    for other in [&other_x, &other_y, &other_b] {
        let expected = LasToStlError::MaskBoundMismatchError {
            other_x_res: other.x_res,
            other_y_res: other.y_res,
            mask_x_res: 5,
            mask_y_res: 5,
            other_bounds: other.bounds,
            mask_bounds: bounds(),
        };
        assert_eq!(a.checked_bitor_assign(other), Err(expected));
        assert_eq!(a.checked_bitand_assign(other), Err(expected));
        assert_eq!(a.checked_bitxor_assign(other), Err(expected));
        assert_eq!(a.checked_sub_assign(other), Err(expected));
        assert_eq!(true_cells(&a), vec![(2, 2)]);
        let mut hm = HeightMap { data: vec![1; 25], x_res: 5, y_res: 5, bounds: bounds() };
        let hm_err = LasToStlError::MaskBoundMismatchError {
            other_x_res: 5,
            other_y_res: 5,
            mask_x_res: other.x_res,
            mask_y_res: other.y_res,
            other_bounds: bounds(),
            mask_bounds: other.bounds,
        };
        assert_eq!(hm.offset_by_mask(other, 3), Err(hm_err));
        assert_eq!(hm.set_by_mask(other, 3), Err(hm_err));
        assert!(hm.get_stl_triangles_masked(other).is_err());
        assert_eq!(hm.data, vec![1; 25]);
    }
}

#[test]
fn neighbours_in_fixed_order() {
    let mut m = mask();
    set_cells(&mut m, &[(0, 1), (1, 1), (0, 0), (2, 0)]);
    assert_eq!(m.get_neighbors(1, 0), [true, true, false, true, false, true, false, false, false]);
    assert_eq!(m.get_neighbors(0, 0), [false, true, true, false, true, false, false, false, false]);
}

#[test]
fn cells_map_back_to_planar_points() {
    let m = mask();
    let p = m.get_x_y_utm(1, 3).unwrap();
    assert_eq!((p.easting, p.northing), (100, 100));
    let q = m.get_x_y_utm_unchecked(4, 0);
    assert_eq!(q.x_y(), (400, 400));
    assert!(matches!(m.get_x_y_utm(0, 5), Err(LasToStlError::BadIndexError { .. })));
}

#[test]
fn masked_height_offsets_and_sets() {
    let mut m = mask();
    set_cells(&mut m, &[(0, 0), (3, 4)]);
    let mut hm = HeightMap { data: vec![10; 25], x_res: 5, y_res: 5, bounds: bounds() };
    hm.data[0] = i64::MAX - 1;
    hm.offset_by_mask(&m, 5).unwrap();
    assert_eq!(hm.get_height(0, 0).unwrap(), i64::MAX);
    assert_eq!(hm.get_height(3, 4).unwrap(), 15);
    assert_eq!(hm.get_height(1, 0).unwrap(), 10);
    hm.set_by_mask(&m, -2).unwrap();
    assert_eq!(hm.get_height(0, 0).unwrap(), -2);
    assert_eq!(hm.get_height(3, 4).unwrap(), -2);
    assert_eq!(hm.data.iter().filter(|h| **h == 10).count(), 23);
    hm.convert_projection_unchecked(UtmBoundingBox::new(5, 6, 7, 8, 9, 10));
    assert_eq!(hm.bounds, UtmBoundingBox::new(5, 6, 7, 8, 9, 10));
    assert_eq!(hm.get_height(3, 4).unwrap(), -2);
}

fn ring(points: &[(i64, i64)]) -> Vec<UtmCoord> {
    points.iter().map(|p| UtmCoord::new(*p)).collect()
}

#[test]
fn polygon_fill_sets_inside_cells() {
    let mut m = Mask::new_with_dims(9, 9, UtmBoundingBox::new(0, 800, 0, 800, 0, 1));
    let square = UtmPolygon { exterior: ring(&[(150, 150), (650, 150), (650, 650), (150, 650)]), interiors: vec![] };
    m.add_filled_utm_polygon(&square).unwrap();
    let mut expected = Vec::new();
    for y in 2..=6 {
        for x in 2..=6 {
            expected.push((x, y));
        }
    }
    assert_eq!(true_cells(&m), expected);
}

#[test]
fn polygon_fill_leaves_holes() {
    let mut m = Mask::new_with_dims(9, 9, UtmBoundingBox::new(0, 800, 0, 800, 0, 1));
    let holed = UtmPolygon {
        exterior: ring(&[(150, 150), (650, 150), (650, 650), (150, 650), (150, 150)]),
        interiors: vec![ring(&[(350, 350), (450, 350), (450, 450), (350, 450)])],
    };
    m.add_filled_utm_polygon(&holed).unwrap();
    assert_eq!(m.get_true_count(), 24);
    assert!(!m.get_by_xy_unchecked(4, 4));
    assert!(m.get_by_xy_unchecked(3, 4));
}

#[test]
fn polygon_fill_errors() {
    let mut m = mask();
    let empty = UtmPolygon { exterior: vec![], interiors: vec![] };
    assert_eq!(m.add_filled_utm_polygon(&empty), Err(LasToStlError::NoBoundingRectError));
    let too_far = UtmPolygon { exterior: ring(&[(100, 100), (900, 100), (100, 300)]), interiors: vec![] };
    assert_eq!(
        m.add_filled_utm_polygon(&too_far),
        Err(LasToStlError::PolygonOutOfBoundsError { x_res: 5, y_res: 5, x: 9, y: 1 })
    );
    assert_eq!(
        m.add_utm_line_string_as_region(&ring(&[(100, 100), (300, 100), (300, 300)])),
        Err(LasToStlError::OpenLineStringError)
    );
    assert_eq!(m.get_true_count(), 0);
}

#[test]
fn closed_ring_fills_as_region() {
    let mut m = mask();
    m.add_utm_line_string_as_region(&ring(&[(50, 50), (350, 50), (350, 350), (50, 350), (50, 50)])).unwrap();
    assert_eq!(true_cells(&m), vec![(1, 1), (2, 1), (3, 1), (1, 2), (2, 2), (3, 2), (1, 3), (2, 3), (3, 3)]);
}
