//! Tests of the full-document coordinate stream and its fault reporting.

use gpx_geo_filter::model::Coordinate;
use gpx_geo_filter::stream::read_xml_coordinates;

#[test]
fn stream_reads_all_records_in_order() {
    let doc = b"<?xml version=\"1.0\"?>\n<gpx><trk><trkseg>\n<trkpt lat=\"1.5\" lon=\"2.5\"><ele>3</ele></trkpt>\n<trkpt lat=\"-4.25\" lon=\"5.75\"></trkpt>\n</trkseg></trk></gpx>\n";
    let coords = read_xml_coordinates(doc).unwrap();
    assert_eq!(
        coords,
        vec![
            Coordinate::new(1_500_000, 2_500_000),
            Coordinate::new(-4_250_000, 5_750_000),
        ]
    );
}

#[test]
fn stream_accepts_any_attribute_order() {
    let doc = b"<trkpt lon=\"2.5\" lat=\"1.5\"></trkpt>";
    let coords = read_xml_coordinates(doc).unwrap();
    assert_eq!(coords, vec![Coordinate::new(1_500_000, 2_500_000)]);
}

#[test]
fn stream_skips_record_missing_an_attribute() {
    let doc = b"<trkpt lat=\"1.5\"></trkpt>\n<trkpt lat=\"7.0\" lon=\"8.0\"></trkpt>";
    let coords = read_xml_coordinates(doc).unwrap();
    assert_eq!(coords, vec![Coordinate::new(7_000_000, 8_000_000)]);
}

#[test]
fn stream_skips_record_with_bad_number() {
    let doc = b"<trkpt lat=\"1.2.3\" lon=\"8.0\"></trkpt>\n<trkpt lat=\"7.0\" lon=\"8.0\"></trkpt>";
    let coords = read_xml_coordinates(doc).unwrap();
    assert_eq!(coords, vec![Coordinate::new(7_000_000, 8_000_000)]);
}

#[test]
fn stream_skips_empty_element_tag() {
    let doc = b"<trkpt lat=\"1.5\" lon=\"2.5\"/>\n<trkpt lat=\"7.0\" lon=\"8.0\"></trkpt>";
    let coords = read_xml_coordinates(doc).unwrap();
    assert_eq!(coords, vec![Coordinate::new(7_000_000, 8_000_000)]);
}

#[test]
fn stream_ignores_comments_and_instructions() {
    let doc = b"<!-- a comment with <trkpt lat=\"9.9\" lon=\"9.9\"> inside -->\n<?pi with a > bracket ?>\n<trkpt lat=\"7.0\" lon=\"8.0\"></trkpt>";
    let coords = read_xml_coordinates(doc).unwrap();
    assert_eq!(coords, vec![Coordinate::new(7_000_000, 8_000_000)]);
}

#[test]
fn stream_reports_unterminated_tag() {
    let doc = b"<trkpt lat=\"7.0\" lon=\"8.0\"></trkpt>\n<trkpt lat=\"1.0";
    let err = read_xml_coordinates(doc).unwrap_err();
    assert_eq!(err.position, 36);
}

#[test]
fn stream_reports_unterminated_comment() {
    let doc = b"<gpx></gpx><!-- never closed";
    let err = read_xml_coordinates(doc).unwrap_err();
    assert_eq!(err.position, 11);
}

#[test]
fn stream_of_empty_document() {
    let coords = read_xml_coordinates(b"").unwrap();
    assert_eq!(coords.len(), 0);
    let text = read_xml_coordinates(b"plain text, no markup").unwrap();
    assert_eq!(text.len(), 0);
}
