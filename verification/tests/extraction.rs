//! Tests of the line-oriented first-coordinate extractor and the decimal
//! value parser.

use gpx_geo_filter::model::Coordinate;
use gpx_geo_filter::parser::{
    extract_first_coordinate, extract_first_coordinate_from_text, parse_value,
};

#[test]
fn extract_text() {
    let input = r#"<trkpt lat="48.7890140" lon="9.2344190">"#;
    let coordinate = Coordinate::new(48_789_014, 9_234_419);
    assert_eq!(Some(coordinate), extract_first_coordinate_from_text(input));
}

#[test]
fn extract_text_negative() {
    let input = r#"<trkpt lat="-48.7890140" lon="-9.2344190">"#;
    let coordinate = Coordinate::new(-48_789_014, -9_234_419);
    assert_eq!(Some(coordinate), extract_first_coordinate_from_text(input));
}

#[test]
fn extract_text_no_match() {
    assert_eq!(None, extract_first_coordinate_from_text("no coordinates here"));
    assert_eq!(None, extract_first_coordinate_from_text(r#"<wpt lat="1.0" lon="2.0">"#));
    // attribute order is part of the line pattern
    assert_eq!(None, extract_first_coordinate_from_text(r#"<trkpt lon="2.0" lat="1.0">"#));
    // the pattern never spans lines
    assert_eq!(None, extract_first_coordinate_from_text("<trkpt\nlat=\"1.0\" lon=\"2.0\">"));
}

#[test]
fn extract_takes_first_of_document() {
    let doc = b"<gpx>\n<trkpt lat=\"10.5\" lon=\"20.5\">\n<trkpt lat=\"11.5\" lon=\"21.5\">\n";
    assert_eq!(
        Some(Coordinate::new(10_500_000, 20_500_000)),
        extract_first_coordinate(doc)
    );
}

#[test]
fn extract_skips_malformed_record() {
    // the first record's latitude has two dots, so the scan moves on
    let doc = b"<trkpt lat=\"1.2.3\" lon=\"4.0\">\n<trkpt lat=\"7.25\" lon=\"8.5\">\n";
    assert_eq!(
        Some(Coordinate::new(7_250_000, 8_500_000)),
        extract_first_coordinate(doc)
    );
}

#[test]
fn extract_rejects_out_of_range() {
    // beyond 180 degrees no coordinate is taken
    let doc = b"<trkpt lat=\"181.0\" lon=\"0.0\">\n";
    assert_eq!(None, extract_first_coordinate(doc));
}

#[test]
fn parse_value_exact() {
    let s = b"48.7890140";
    assert_eq!(Some(48_789_014), parse_value(s, 0, s.len()));
    let t = b"-0.5";
    assert_eq!(Some(-500_000), parse_value(t, 0, t.len()));
    let u = b"180.000000";
    assert_eq!(Some(180_000_000), parse_value(u, 0, u.len()));
    let v = b"48.";
    assert_eq!(Some(48_000_000), parse_value(v, 0, v.len()));
    let w = b".5";
    assert_eq!(Some(500_000), parse_value(w, 0, w.len()));
    // the seventh fractional digit is truncated towards zero
    let x = b"1.9999999";
    assert_eq!(Some(1_999_999), parse_value(x, 0, x.len()));
}

#[test]
fn parse_value_rejected() {
    let cases: Vec<&[u8]> = vec![
        b"", b"-", b".", b"-.", b"1.2.3", b"12a", b"a12", b"180.000001", b"-180.000001",
        b"99999999999999999999", b"1e5", b"+4.5",
    ];
    for c in cases {
        assert_eq!(None, parse_value(c, 0, c.len()));
    }
}
