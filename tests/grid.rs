use las_kml_to_stl::errors::LasToStlError;
use las_kml_to_stl::height_map::{HeightMap, HeightMapIntermediate, PointAggregate};
use las_kml_to_stl::utils::{get_point_deltas_within_radius, scale_to_uint_range, x_y_to_index};
use las_kml_to_stl::utm_bounds::UtmBoundingBox;
use las_kml_to_stl::utm_point::UtmCoord;

fn square_bounds() -> UtmBoundingBox {
    UtmBoundingBox::new(0, 400, 0, 400, 10, 50)
}

#[test]
fn test_playground() {}

#[test]
fn index_is_row_major_and_checked() {
    assert_eq!(x_y_to_index(4, 3, 0, 0).unwrap(), 0);
    assert_eq!(x_y_to_index(4, 3, 3, 0).unwrap(), 3);
    assert_eq!(x_y_to_index(4, 3, 1, 2).unwrap(), 9);
    assert_eq!(x_y_to_index(4, 3, 3, 2).unwrap(), 11);
    assert_eq!(
        x_y_to_index(4, 3, 4, 0),
        Err(LasToStlError::BadIndexError { x_res: 4, y_res: 3, x: 4, y: 0 })
    );
    assert!(x_y_to_index(4, 3, 0, 3).is_err());
}

#[test]
fn index_round_trips_every_cell() {
    let (xr, yr) = (5usize, 4usize);
    let mut seen = vec![false; xr * yr];
    for y in 0..yr {
        for x in 0..xr {
            let i = x_y_to_index(xr, yr, x, y).unwrap();
            assert!(!seen[i]);
            seen[i] = true;
            assert_eq!((i % xr, i / xr), (x, y));
        }
    }
    assert!(seen.iter().all(|s| *s));
}

fn sorted(mut v: Vec<(i16, i16)>) -> Vec<(i16, i16)> {
    v.sort();
    v
}

#[test]
fn disk_radius_zero_is_centre_only() {
    assert_eq!(get_point_deltas_within_radius(0), vec![(0, 0)]);
}

#[test]
fn disk_radius_one() {
    assert_eq!(get_point_deltas_within_radius(1), vec![(-1, 0), (0, -1), (0, 0), (0, 1), (1, 0)]);
}

#[test]
fn disk_radius_two() {
    let expected = vec![
        (-2, 0),
        (-1, -1), (-1, 0), (-1, 1),
        (0, -2), (0, -1), (0, 0), (0, 1), (0, 2),
        (1, -1), (1, 0), (1, 1),
        (2, 0),
    ];
    assert_eq!(get_point_deltas_within_radius(2), expected);
}

#[test]
fn disk_radius_three() {
    let d = get_point_deltas_within_radius(3);
    assert_eq!(d.len(), 29);
    assert_eq!(sorted(d.clone()), d);
    assert!(d.contains(&(3, 0)));
    assert!(d.contains(&(2, 2)));
    assert!(!d.contains(&(2, 3)));
    assert!(!d.contains(&(3, 1)));
    for (dx, dy) in d {
        assert!((dx as i32).pow(2) + (dy as i32).pow(2) <= 9);
    }
}

#[test]
fn scale_maps_range_onto_bytes() {
    assert_eq!(scale_to_uint_range(10, 10, 50, 255), 0);
    assert_eq!(scale_to_uint_range(50, 10, 50, 255), 255);
    assert_eq!(scale_to_uint_range(30, 10, 50, 255), 127);
    assert_eq!(scale_to_uint_range(0, 10, 50, 255), 0);
    assert_eq!(scale_to_uint_range(90, 10, 50, 255), 255);
}

#[test]
fn default_bounds_is_identity_of_add() {
    let b = square_bounds();
    let mut acc = UtmBoundingBox::default();
    acc.add(b);
    assert_eq!(acc, b);
    let mut acc2 = b;
    acc2.add(UtmBoundingBox::new(-5, 10, 100, 900, 0, 20));
    assert_eq!(acc2, UtmBoundingBox::new(-5, 400, 0, 900, 0, 50));
    assert_eq!(acc2.x_range(), 405);
    assert_eq!(acc2.y_range(), 900);
    assert_eq!(acc2.z_range(), 50);
}

#[test]
fn add_utm_grows_horizontal_extent_only() {
    let mut b = square_bounds();
    b.add_utm(UtmCoord::new((-20, 700)));
    assert_eq!(b, UtmBoundingBox::new(-20, 400, 0, 700, 10, 50));
}

#[test]
fn planar_points_map_to_cells_north_first() {
    let b = square_bounds();
    assert_eq!(UtmCoord::new((0, 0)).get_x_y_coords(&b, 5, 5), (0, 4));
    assert_eq!(UtmCoord::new((150, 150)).get_x_y_coords(&b, 5, 5), (1, 3));
    assert_eq!(UtmCoord::new((400, 400)).get_x_y_coords(&b, 5, 5), (4, 0));
    assert_eq!(UtmCoord::new((-70, 520)).get_x_y_coords(&b, 5, 5), (0, -1));
}

#[test]
fn aggregate_averages_round_down() {
    let mut p = PointAggregate::default();
    assert_eq!(p.get_average_or_default(-3), -3);
    p.add_sample(10);
    p.add_sample(15);
    assert_eq!(p.get_average_or_default(0), 12);
    let mut n = PointAggregate::new();
    n.add_sample(-10);
    n.add_sample(-15);
    assert_eq!(n.get_average_or_default(0), -13);
}

#[test]
fn aggregator_bins_samples_and_drops_outside() {
    let b = square_bounds();
    let mut hmi = HeightMapIntermediate::new(5, 5, b);
    assert_eq!(hmi.get_index(150, 150), Some(3 * 5 + 1));
    assert_eq!(hmi.get_index(401 * 2, 0), None);
    assert_eq!(hmi.get_index(0, 900), None);
    hmi.add_point(150, 150, 20);
    hmi.add_point(120, 110, 31);
    hmi.add_point(900, 0, 1000);
    hmi.add_point(0, 0, 40);
    hmi.add_point_unchecked(400, 400, 44);
    hmi.add_point_by_index(7, 1000);
    let hm = HeightMap::from_intermediate(hmi);
    assert_eq!(hm.get_height(1, 3).unwrap(), 25);
    assert_eq!(hm.get_height(0, 4).unwrap(), 40);
    assert_eq!(hm.get_height(4, 0).unwrap(), 44);
    assert_eq!(hm.get_height(2, 2).unwrap(), 10);
    assert_eq!(hm.data.iter().filter(|h| **h == 10).count(), 22);
    assert_eq!(
        hm.get_height(5, 0),
        Err(LasToStlError::BadIndexError { x_res: 5, y_res: 5, x: 5, y: 0 })
    );
}

#[test]
fn aggregator_ignores_sample_order() {
    let b = square_bounds();
    let samples: Vec<(i64, i64, i64)> = vec![
        (10, 10, 11), (20, 30, 17), (399, 5, 23), (150, 150, 12), (160, 140, 41), (10, 12, 30), (250, 390, 19),
    ];
    let feed = |order: &Vec<usize>| {
        let mut hmi = HeightMapIntermediate::new(5, 5, b);
        for i in order {
            let (x, y, z) = samples[*i];
            hmi.add_point(x, y, z);
        }
        HeightMap::from_intermediate(hmi).data
    };
    let forward = feed(&(0..samples.len()).collect());
    let backward = feed(&(0..samples.len()).rev().collect());
    let shuffled = feed(&vec![3, 6, 0, 5, 1, 4, 2]);
    assert_eq!(forward, backward);
    assert_eq!(forward, shuffled);
}

#[test]
fn empty_cells_take_lowest_elevation() {
    let b = UtmBoundingBox::new(0, 400, 0, 400, -7, 50);
    let mut hmi = HeightMapIntermediate::new(5, 5, b);
    hmi.add_point(0, 0, 30);
    let hm = HeightMap::from_intermediate(hmi);
    for y in 0..5 {
        for x in 0..5 {
            let expected = if (x, y) == (0, 4) { 30 } else { -7 };
            assert_eq!(hm.get_height(x, y).unwrap(), expected);
        }
    }
}

#[test]
fn resolution_from_aspect_ratio() {
    let b = UtmBoundingBox::new(0, 400, 0, 300, 0, 1);
    assert_eq!(HeightMap::get_resolution(Some(100), None, &b), Ok((100, 75)));
    assert_eq!(HeightMap::get_resolution(None, Some(100), &b), Ok((133, 100)));
    assert_eq!(HeightMap::get_resolution(Some(7), Some(9), &b), Ok((7, 9)));
    assert_eq!(HeightMap::get_resolution(None, None, &b), Err(LasToStlError::NoResolutionError));
}

#[test]
fn luminance_scales_between_extent_heights() {
    let hm = HeightMap { data: vec![10, 30, 50, 0, 70, 20], x_res: 3, y_res: 2, bounds: square_bounds() };
    assert_eq!(hm.get_luminance_values(), vec![0, 127, 255, 0, 255, 63]);
    let flat = HeightMap {
        data: vec![5, 5, 5, 5],
        x_res: 2,
        y_res: 2,
        bounds: UtmBoundingBox::new(0, 1, 0, 1, 5, 5),
    };
    assert_eq!(flat.get_luminance_values(), vec![0, 0, 0, 0]);
}
