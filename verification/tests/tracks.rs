//! Scenario tests over a whole track document: confirmation against two
//! areas, the full stream count, and the two-stage pipeline.

use gpx_geo_filter::filter::{
    classify_track, file_contains_point_in_area, filter_tracks_outside_area, prefilter_files,
    Classification,
};
use gpx_geo_filter::filter_tracks;
use gpx_geo_filter::model::{Coordinate, SquaredFilter};
use gpx_geo_filter::stream::read_xml_coordinates;

/// A track of 2245 points in the south-west Pacific, near latitude -11.5
/// and longitude 166.4 to 166.7, in the shape of the track documents the
/// pipeline reads.
fn fixture_track() -> Vec<u8> {
    let mut doc = String::from("<?xml version=\"1.0\" encoding=\"UTF-8\"?>\n<gpx>\n<trk>\n<trkseg>\n");
    for i in 0..2245usize {
        let lat: f64 = -11.5 - 0.00001 * ((i % 100) as f64);
        let lon: f64 = 166.4 + 0.0001 * (i as f64);
        doc.push_str(&format!(
            "<trkpt lat=\"{:.7}\" lon=\"{:.7}\"><ele>12.3</ele></trkpt>\n",
            lat, lon
        ));
    }
    doc.push_str("</trkseg>\n</trk>\n</gpx>\n");
    doc.into_bytes()
}

fn area_bavaria() -> SquaredFilter {
    SquaredFilter::new(
        Coordinate::new(8_576_387, 47_375_391),
        Coordinate::new(10_985_259, 49_480_040),
    )
}

fn area_pacific() -> SquaredFilter {
    SquaredFilter::new(
        Coordinate::new(-12_576_387, 165_375_391),
        Coordinate::new(-10_985_259, 167_480_040),
    )
}

#[test]
fn test_file_is_not_in_area() {
    let doc = fixture_track();
    assert_eq!(Ok(false), file_contains_point_in_area(&doc, &area_bavaria()).map_err(|e| e.position));
}

#[test]
fn test_file_is_in_area() {
    let doc = fixture_track();
    assert_eq!(Ok(true), file_contains_point_in_area(&doc, &area_pacific()).map_err(|e| e.position));
}

#[test]
fn test_read_xml() {
    let doc = fixture_track();
    let coordinates = read_xml_coordinates(&doc).unwrap();
    assert_eq!(2245, coordinates.len());
    assert_eq!(Coordinate::new(-11_500_000, 166_400_000), coordinates[0]);
}

#[test]
fn classify_by_first_coordinate() {
    let area = SquaredFilter::new(
        Coordinate::new(40_000_000, 40_000_000),
        Coordinate::new(80_000_000, 80_000_000),
    );
    let inside: &[u8] = b"<trkpt lat=\"45.0\" lon=\"45.0\">";
    let nearby: &[u8] = b"<trkpt lat=\"80.5\" lon=\"60.0\">";
    let far: &[u8] = b"<trkpt lat=\"10.0\" lon=\"60.0\">";
    let none: &[u8] = b"<gpx>no points</gpx>";
    assert_eq!(Classification::Inside, classify_track(&area, inside, 300_000));
    assert_eq!(Classification::Nearby, classify_track(&area, nearby, 300_000));
    assert_eq!(Classification::Excluded, classify_track(&area, far, 300_000));
    assert_eq!(Classification::Excluded, classify_track(&area, none, 300_000));
}

fn demo_docs() -> Vec<(String, Vec<u8>)> {
    let inside = b"<trkpt lat=\"45.0\" lon=\"45.0\"></trkpt>".to_vec();
    let nearby_hit =
        b"<trkpt lat=\"80.5\" lon=\"60.0\"></trkpt>\n<trkpt lat=\"50.0\" lon=\"50.0\"></trkpt>"
            .to_vec();
    let nearby_miss =
        b"<trkpt lat=\"80.5\" lon=\"60.0\"></trkpt>\n<trkpt lat=\"81.0\" lon=\"60.0\"></trkpt>"
            .to_vec();
    let far = b"<trkpt lat=\"10.0\" lon=\"60.0\"></trkpt>".to_vec();
    let empty = b"<gpx></gpx>".to_vec();
    vec![
        (String::from("inside.gpx"), inside),
        (String::from("nearby_hit.gpx"), nearby_hit),
        (String::from("nearby_miss.gpx"), nearby_miss),
        (String::from("far.gpx"), far),
        (String::from("empty.gpx"), empty),
    ]
}

#[test]
fn prefilter_partitions_documents() {
    let area = SquaredFilter::new(
        Coordinate::new(40_000_000, 40_000_000),
        Coordinate::new(80_000_000, 80_000_000),
    );
    let docs = demo_docs();
    let (inside, nearby) = prefilter_files(&docs, &area, 300_000);
    assert_eq!(inside, vec![String::from("inside.gpx")]);
    assert_eq!(
        nearby,
        vec![String::from("nearby_hit.gpx"), String::from("nearby_miss.gpx")]
    );
}

#[test]
fn confirmation_keeps_documents_with_inside_point() {
    let area = SquaredFilter::new(
        Coordinate::new(40_000_000, 40_000_000),
        Coordinate::new(80_000_000, 80_000_000),
    );
    let docs = demo_docs();
    let confirmed = filter_tracks_outside_area(&docs, &area).unwrap();
    // of the five, only documents holding an in-area point survive
    assert_eq!(
        confirmed,
        vec![String::from("inside.gpx"), String::from("nearby_hit.gpx")]
    );
}

#[test]
fn pipeline_accepts_inside_and_confirmed_nearby() {
    let docs = demo_docs();
    let accepted =
        filter_tracks(&docs, 40_000_000, 40_000_000, 80_000_000, 80_000_000, 300_000).unwrap();
    assert_eq!(
        accepted,
        vec![String::from("inside.gpx"), String::from("nearby_hit.gpx")]
    );
}

#[test]
fn pipeline_is_idempotent() {
    let docs = demo_docs();
    let first =
        filter_tracks(&docs, 40_000_000, 40_000_000, 80_000_000, 80_000_000, 300_000).unwrap();
    let second =
        filter_tracks(&docs, 40_000_000, 40_000_000, 80_000_000, 80_000_000, 300_000).unwrap();
    assert_eq!(first, second);
}

#[test]
fn pipeline_reports_corrupt_nearby_document() {
    let mut docs = demo_docs();
    let corrupt = b"<trkpt lat=\"80.5\" lon=\"60.0\"></trkpt>\n<trkpt lat=\"1.0".to_vec();
    docs.push((String::from("corrupt.gpx"), corrupt));
    let err =
        filter_tracks(&docs, 40_000_000, 40_000_000, 80_000_000, 80_000_000, 300_000).unwrap_err();
    assert_eq!(err.file, String::from("corrupt.gpx"));
    assert_eq!(err.position, 38);
}

#[test]
fn pipeline_never_streams_excluded_documents() {
    // a corrupt document whose first coordinate is far away is excluded
    // by the prefilter and never parsed in full
    let mut docs = demo_docs();
    let corrupt_far = b"<trkpt lat=\"10.0\" lon=\"60.0\"></trkpt>\n<trkpt lat=\"1.0".to_vec();
    docs.push((String::from("corrupt_far.gpx"), corrupt_far));
    let accepted =
        filter_tracks(&docs, 40_000_000, 40_000_000, 80_000_000, 80_000_000, 300_000).unwrap();
    assert_eq!(
        accepted,
        vec![String::from("inside.gpx"), String::from("nearby_hit.gpx")]
    );
}
