//! Geometry tests: the half-open area test and the planar distance
//! comparison, with its exact boundary values.

use gpx_geo_filter::model::{Coordinate, SquaredFilter};
use gpx_geo_filter::utils::{is_point_in_area, is_point_more_than_x_distance_from_filter};

fn area_40_80() -> SquaredFilter {
    SquaredFilter::new(
        Coordinate::new(40_000_000, 40_000_000),
        Coordinate::new(80_000_000, 80_000_000),
    )
}

#[test]
fn point_is_in_area() {
    let point = Coordinate::new(45_000_000, 45_000_000);
    let area = area_40_80();
    assert_eq!(true, is_point_in_area(&area, &point));
}

#[test]
fn point_is_not_in_area() {
    let point = Coordinate::new(91_000_000, 91_000_000);
    let area = area_40_80();
    assert_eq!(false, is_point_in_area(&area, &point));
}

#[test]
fn boundary_min_inclusive_max_exclusive() {
    let area = area_40_80();
    // the lower bound of each axis belongs to the area
    assert_eq!(true, is_point_in_area(&area, &Coordinate::new(40_000_000, 40_000_000)));
    // the upper bound of each axis does not
    assert_eq!(false, is_point_in_area(&area, &Coordinate::new(80_000_000, 80_000_000)));
    assert_eq!(false, is_point_in_area(&area, &Coordinate::new(45_000_000, 80_000_000)));
    assert_eq!(false, is_point_in_area(&area, &Coordinate::new(80_000_000, 45_000_000)));
    assert_eq!(true, is_point_in_area(&area, &Coordinate::new(79_999_999, 40_000_000)));
}

#[test]
fn distance_to_area_same_axis_x() {
    // twenty degrees east of the area at latitude 80: about 386.6 km
    let point = Coordinate::new(80_000_000, 100_000_000);
    let area = area_40_80();
    assert_eq!(false, is_point_more_than_x_distance_from_filter(&area, &point, 387_000));
    assert_eq!(true, is_point_more_than_x_distance_from_filter(&area, &point, 386_000));
}

#[test]
fn distance_to_area_same_axis_y() {
    // twenty degrees north of the area: about 2211.5 km
    let point = Coordinate::new(100_000_000, 40_000_000);
    let area = area_40_80();
    assert_eq!(false, is_point_more_than_x_distance_from_filter(&area, &point, 2_212_000));
    assert_eq!(true, is_point_more_than_x_distance_from_filter(&area, &point, 2_211_000));
}

#[test]
fn distance_to_area_middle() {
    // ten degrees beyond the north-east corner; the longitude leg
    // vanishes at latitude 90
    let point = Coordinate::new(90_000_000, 90_000_000);
    let area = area_40_80();
    assert_eq!(false, is_point_more_than_x_distance_from_filter(&area, &point, 1_106_000));
    assert_eq!(true, is_point_more_than_x_distance_from_filter(&area, &point, 1_105_000));
}

#[test]
fn distance_monotone_in_threshold() {
    let point = Coordinate::new(80_000_000, 100_000_000);
    let area = area_40_80();
    // once a threshold is not exceeded, no larger threshold is either
    assert_eq!(false, is_point_more_than_x_distance_from_filter(&area, &point, 387_000));
    assert_eq!(false, is_point_more_than_x_distance_from_filter(&area, &point, 500_000));
    assert_eq!(false, is_point_more_than_x_distance_from_filter(&area, &point, 60_000_000));
    // and every smaller threshold than an exceeded one is exceeded too
    assert_eq!(true, is_point_more_than_x_distance_from_filter(&area, &point, 386_000));
    assert_eq!(true, is_point_more_than_x_distance_from_filter(&area, &point, 1));
}

#[test]
fn distance_between_two_points_in_km() {
    // a degenerate area is a single point, so the comparison measures the
    // planar distance between two points: forty degrees of longitude at
    // latitude 20.58, about 4168.7 km
    let a = Coordinate::new(20_576_367, 47_375_391);
    let area = SquaredFilter::new(a, a);
    let b = Coordinate::new(20_576_367, 87_375_391);
    assert_eq!(false, is_point_more_than_x_distance_from_filter(&area, &b, 4_169_000));
    assert_eq!(true, is_point_more_than_x_distance_from_filter(&area, &b, 4_168_000));
}

#[test]
fn distance_zero_inside_area() {
    let area = area_40_80();
    let point = Coordinate::new(50_000_000, 50_000_000);
    // an inside point is at distance zero, farther than nothing
    assert_eq!(false, is_point_more_than_x_distance_from_filter(&area, &point, 0));
    // an outside point is farther than zero
    let outside = Coordinate::new(81_000_000, 50_000_000);
    assert_eq!(true, is_point_more_than_x_distance_from_filter(&area, &outside, 0));
}
