//! Selects, from a collection of GPS track documents, those tracks that
//! pass near or through a rectangular geographic area.
//!
//! The library works on plain values: coordinates are fixed-point
//! microdegrees, documents are byte buffers, and thresholds are metres. All
//! file enumeration, reading and copying is left to the caller.

pub mod filter;
pub mod model;
pub mod parser;
pub mod stream;
pub mod trig;
pub mod utils;

use vstd::prelude::*;
use crate::filter::{classify_track, file_contains_point_in_area, spec_accepted, spec_accepted_from, Classification, FilterError};
use crate::model::{Coordinate, SquaredFilter, MAX_COORD_E6};

verus! {

/// The area spanned by two corner coordinates given latitude first, in
/// either relative order.
pub open spec fn spec_area(
    first_lat: int,
    first_lon: int,
    second_lat: int,
    second_lon: int,
) -> SquaredFilter {
    SquaredFilter {
        min_lat: vstd::math::min(first_lat, second_lat) as i64,
        max_lat: vstd::math::max(first_lat, second_lat) as i64,
        min_lon: vstd::math::min(first_lon, second_lon) as i64,
        max_lon: vstd::math::max(first_lon, second_lon) as i64,
    }
}

/// Filters the given track documents to the names of those lying in the
/// area spanned by the two corner coordinates: a document whose first
/// extractable coordinate lies inside is kept outright; one whose first
/// coordinate lies within `distance_m` metres of the area is kept exactly
/// when its full stream holds an in-area point; the rest are dropped. The
/// first structurally corrupt document that must be streamed aborts the
/// run.
pub fn filter_tracks(
    docs: &Vec<(String, Vec<u8>)>,
    first_lat: i64,
    first_lon: i64,
    second_lat: i64,
    second_lon: i64,
    distance_m: u64,
) -> (r: Result<Vec<String>, FilterError>)
    requires
        -MAX_COORD_E6 <= first_lat <= MAX_COORD_E6,
        -MAX_COORD_E6 <= first_lon <= MAX_COORD_E6,
        -MAX_COORD_E6 <= second_lat <= MAX_COORD_E6,
        -MAX_COORD_E6 <= second_lon <= MAX_COORD_E6,
    ensures
        ({
            let area = spec_area(
                first_lat as int,
                first_lon as int,
                second_lat as int,
                second_lon as int,
            );
            match r {
                Ok(v) => spec_accepted(docs@, area, distance_m as int) == Ok::<
                    Seq<String>,
                    (int, int),
                >(v@),
                Err(e) => {
                    &&& spec_accepted(docs@, area, distance_m as int) matches Err(ep)
                    &&& spec_accepted(docs@, area, distance_m as int)->Err_0.0 < docs@.len()
                    &&& e.file == docs@[spec_accepted(docs@, area, distance_m as int)->Err_0.0].0
                    &&& e.position as int == spec_accepted(docs@, area, distance_m as int)->Err_0.1
                },
            }
        }),
{
    let area = SquaredFilter::new(
        Coordinate::new(first_lat, first_lon),
        Coordinate::new(second_lat, second_lon),
    );
    proof {
        assert(area == spec_area(
            first_lat as int,
            first_lon as int,
            second_lat as int,
            second_lon as int,
        ));
    }
    let mut out: Vec<String> = Vec::new();
    let mut k: usize = 0;
    while k < docs.len()
        invariant
            k <= docs.len(),
            area.wf(),
            area == spec_area(
                first_lat as int,
                first_lon as int,
                second_lat as int,
                second_lon as int,
            ),
            spec_accepted(docs@, area, distance_m as int) == spec_accepted_from(
                docs@,
                area,
                distance_m as int,
                k as int,
                out@,
            ),
        decreases docs.len() - k,
    {
        match classify_track(&area, docs[k].1.as_slice(), distance_m) {
            Classification::Inside => {
                out.push(docs[k].0.clone());
            },
            Classification::Excluded => {},
            Classification::Nearby => {
                match file_contains_point_in_area(docs[k].1.as_slice(), &area) {
                    Ok(true) => {
                        out.push(docs[k].0.clone());
                    },
                    Ok(false) => {},
                    Err(e) => {
                        return Err(
                            FilterError { file: docs[k].0.clone(), position: e.position },
                        );
                    },
                }
            },
        }
        k = k + 1;
    }
    Ok(out)
}

} // verus!
