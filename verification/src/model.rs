//! The geographic value types: a coordinate and the rectangular filter area.

use vstd::prelude::*;

verus! {

/// Largest magnitude a stored coordinate component may take: 180 degrees,
/// in microdegrees (millionths of a degree).
pub const MAX_COORD_E6: i64 = 180_000_000;

/// A geographic point. Both components are fixed-point degrees scaled by
/// one million, so a latitude of `47.375391` degrees is stored as
/// `47_375_391`.
#[derive(Clone, Copy, PartialEq, Eq, Structural, Debug)]
pub struct Coordinate {
    /// Latitude in microdegrees, positive towards north.
    pub latitude: i64,
    /// Longitude in microdegrees, positive towards east.
    pub longitude: i64,
}

impl Coordinate {
    /// Both components lie within plus or minus 180 degrees.
    pub open spec fn wf(self) -> bool {
        &&& -(MAX_COORD_E6 as int) <= self.latitude <= MAX_COORD_E6 as int
        &&& -(MAX_COORD_E6 as int) <= self.longitude <= MAX_COORD_E6 as int
    }

    pub fn new(latitude: i64, longitude: i64) -> (c: Coordinate)
        requires
            -MAX_COORD_E6 <= latitude <= MAX_COORD_E6,
            -MAX_COORD_E6 <= longitude <= MAX_COORD_E6,
        ensures
            c.latitude == latitude,
            c.longitude == longitude,
            c.wf(),
    {
        Coordinate { latitude, longitude }
    }
}

/// The axis-aligned rectangular area of interest, normalized so that the
/// minimum bound of each axis never exceeds the maximum bound, whatever
/// order the two construction corners were given in.
#[derive(Clone, Copy, PartialEq, Eq, Structural, Debug)]
pub struct SquaredFilter {
    /// Southern bound in microdegrees.
    pub min_lat: i64,
    /// Northern bound in microdegrees.
    pub max_lat: i64,
    /// Western bound in microdegrees.
    pub min_lon: i64,
    /// Eastern bound in microdegrees.
    pub max_lon: i64,
}

impl SquaredFilter {
    /// Bounds are ordered on each axis and lie within plus or minus
    /// 180 degrees.
    pub open spec fn wf(self) -> bool {
        &&& -(MAX_COORD_E6 as int) <= self.min_lat <= self.max_lat <= MAX_COORD_E6 as int
        &&& -(MAX_COORD_E6 as int) <= self.min_lon <= self.max_lon <= MAX_COORD_E6 as int
    }

    /// Builds the area spanned by the two corners `a` and `b`, in either
    /// relative order: the bounds are normalized per axis.
    pub fn new(a: Coordinate, b: Coordinate) -> (area: SquaredFilter)
        requires
            a.wf(),
            b.wf(),
        ensures
            area.wf(),
            area.min_lat == vstd::math::min(a.latitude as int, b.latitude as int),
            area.max_lat == vstd::math::max(a.latitude as int, b.latitude as int),
            area.min_lon == vstd::math::min(a.longitude as int, b.longitude as int),
            area.max_lon == vstd::math::max(a.longitude as int, b.longitude as int),
    {
        let min_lat: i64 = if a.latitude <= b.latitude { a.latitude } else { b.latitude };
        let max_lat: i64 = if a.latitude <= b.latitude { b.latitude } else { a.latitude };
        let min_lon: i64 = if a.longitude <= b.longitude { a.longitude } else { b.longitude };
        let max_lon: i64 = if a.longitude <= b.longitude { b.longitude } else { a.longitude };
        SquaredFilter { min_lat, max_lat, min_lon, max_lon }
    }
}

} // verus!
