//! Tests of the coordinate and area value types.

use gpx_geo_filter::model::{Coordinate, SquaredFilter};

#[test]
fn create_coordinate() {
    let longitude: i64 = 47_375_391;
    let latitude: i64 = 8_576_387;
    let coordinate = Coordinate::new(latitude, longitude);
    assert_eq!(coordinate.longitude, longitude);
    assert_eq!(coordinate.latitude, latitude);
}

#[test]
fn create_filter() {
    let corner_a = Coordinate::new(8_576_387, 47_375_391);
    let corner_b = Coordinate::new(20_576_367, 87_163_456);

    let area = SquaredFilter::new(corner_a, corner_b);
    assert_eq!(area.min_lat, 8_576_387);
    assert_eq!(area.max_lat, 20_576_367);
    assert_eq!(area.min_lon, 47_375_391);
    assert_eq!(area.max_lon, 87_163_456);

    // the same area comes out whatever the corner order
    let swapped = SquaredFilter::new(corner_b, corner_a);
    assert_eq!(area, swapped);

    // mixed corners, north-west and south-east, normalize too
    let mixed = SquaredFilter::new(
        Coordinate::new(20_576_367, 47_375_391),
        Coordinate::new(8_576_387, 87_163_456),
    );
    assert_eq!(area, mixed);
}
