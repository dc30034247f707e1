//! Rectangle geometry: the point-in-area test and the planar distance
//! comparison against a threshold.
//!
//! The distance between a point and the area follows an equirectangular
//! approximation: the closest point of the rectangle is found by clamping
//! each axis, the latitude difference weighs 110.574 km per degree, the
//! longitude difference 111.320 km per degree scaled by the cosine of the
//! point's latitude, and the two legs combine as a Euclidean norm. No
//! square root is ever taken: every comparison is made between exact
//! integer squares, scaled so that one kilometre corresponds to `10^14`
//! units before squaring.

use vstd::prelude::*;
use crate::model::{Coordinate, SquaredFilter};
use crate::trig::{cos_e5, spec_cos_e5};

verus! {

/// Whether the point lies inside the area: the lower bound of each axis is
/// inclusive, the upper bound exclusive.
pub open spec fn spec_in_area(area: SquaredFilter, point: Coordinate) -> bool {
    &&& area.min_lon <= point.longitude < area.max_lon
    &&& area.min_lat <= point.latitude < area.max_lat
}

/// `v` forced into the closed interval from `lo` to `hi`.
pub open spec fn spec_clamp(v: int, lo: int, hi: int) -> int {
    if v < lo {
        lo
    } else if v > hi {
        hi
    } else {
        v
    }
}

pub open spec fn spec_abs(v: int) -> int {
    if v < 0 {
        -v
    } else {
        v
    }
}

/// The squared planar distance between the point and the closest point of
/// the area, scaled by `10^28`; the legs are kilometres scaled by `10^14`
/// before squaring. A point inside the area has distance zero.
pub open spec fn spec_dist_sq_e28(area: SquaredFilter, point: Coordinate) -> int {
    let dlat = spec_abs(
        point.latitude - spec_clamp(point.latitude as int, area.min_lat as int, area.max_lat as int),
    );
    let dlon = spec_abs(
        point.longitude - spec_clamp(
            point.longitude as int,
            area.min_lon as int,
            area.max_lon as int,
        ),
    );
    let lat_term = dlat * 110_574 * 100_000;
    let lon_term = dlon * 111_320 * spec_cos_e5(point.latitude as int);
    lat_term * lat_term + lon_term * lon_term
}

/// Whether the point lies strictly farther from the area than a threshold
/// given in metres: one metre is `10^11` scaled units, so both sides of
/// the comparison carry the same `10^28` scale.
pub open spec fn spec_is_farther(area: SquaredFilter, point: Coordinate, distance_m: int) -> bool {
    spec_dist_sq_e28(area, point) > (distance_m * 100_000_000_000) * (distance_m * 100_000_000_000)
}

/// Check if the provided point is within the boundaries of the area.
pub fn is_point_in_area(area: &SquaredFilter, point: &Coordinate) -> (r: bool)
    ensures
        r == spec_in_area(*area, *point),
{
    point.longitude >= area.min_lon && point.longitude < area.max_lon
        && point.latitude >= area.min_lat && point.latitude < area.max_lat
}

/// Whether the point is farther from the area than `distance_m` metres,
/// under the planar approximation described at the module head.
pub fn is_point_more_than_x_distance_from_filter(
    area: &SquaredFilter,
    point: &Coordinate,
    distance_m: u64,
) -> (r: bool)
    requires
        area.wf(),
        point.wf(),
    ensures
        r == spec_is_farther(*area, *point, distance_m as int),
{
    let clat: i64 = if point.latitude < area.min_lat {
        area.min_lat
    } else if point.latitude > area.max_lat {
        area.max_lat
    } else {
        point.latitude
    };
    let clon: i64 = if point.longitude < area.min_lon {
        area.min_lon
    } else if point.longitude > area.max_lon {
        area.max_lon
    } else {
        point.longitude
    };
    let dlat: u64 = if point.latitude >= clat {
        (point.latitude - clat) as u64
    } else {
        (clat - point.latitude) as u64
    };
    let dlon: u64 = if point.longitude >= clon {
        (point.longitude - clon) as u64
    } else {
        (clon - point.longitude) as u64
    };
    let cosv: i64 = cos_e5(point.latitude);
    let cos_abs: u64 = if cosv >= 0 {
        cosv as u64
    } else {
        (-cosv) as u64
    };
    let lat_term: u64 = dlat * 110_574 * 100_000;
    proof {
        assert(dlon * 111_320 * cos_abs <= 40_075_200_000_000 * 100_000) by (nonlinear_arith)
            requires
                0 <= dlon <= 360_000_000,
                0 <= cos_abs <= 100_000,
        ;
    }
    let lon_term: u64 = dlon * 111_320 * cos_abs;
    proof {
        let ls = dlon as int * 111_320 * (cosv as int);
        let le = dlon as int * 111_320 * (cos_abs as int);
        assert(ls == le || ls == -le) by (nonlinear_arith)
            requires
                ls == dlon as int * 111_320 * (cosv as int),
                le == dlon as int * 111_320 * (cos_abs as int),
                cos_abs as int == cosv as int || cos_abs as int == -(cosv as int),
        ;
        assert(ls * ls == le * le) by (nonlinear_arith)
            requires
                ls == le || ls == -le,
        ;
        assert(lat_term as int * lat_term as int + lon_term as int * lon_term as int
            <= 33_000_000_000_000_000_000_000_000_000_000_000_000) by (nonlinear_arith)
            requires
                0 <= lat_term <= 3_980_664_000_000_000_000,
                0 <= lon_term <= 4_007_520_000_000_000_000,
        ;
    }
    let d2: u128 = (lat_term as u128) * (lat_term as u128) + (lon_term as u128) * (lon_term as u128);
    if distance_m >= 60_000_000 {
        // 60 000 km exceeds any distance the model can produce, so the
        // point can never be farther than such a threshold.
        proof {
            let t = distance_m as int * 100_000_000_000;
            assert(t * t >= 36_000_000_000_000_000_000_000_000_000_000_000_000) by (nonlinear_arith)
                requires
                    t >= 6_000_000_000_000_000_000,
            ;
        }
        false
    } else {
        let t: u128 = (distance_m as u128) * 100_000_000_000;
        proof {
            assert((t as int) * (t as int)
                < 36_000_000_000_000_000_000_000_000_000_000_000_000) by (nonlinear_arith)
                requires
                    0 <= t < 6_000_000_000_000_000_000,
            ;
        }
        let t2: u128 = t * t;
        d2 > t2
    }
}

/// Distance monotonicity: whenever the point is farther than some
/// threshold, it is also farther than every smaller threshold; read the
/// other way round, once a threshold reaches the distance, every larger
/// threshold is reached too.
pub proof fn lemma_farther_monotonic(
    area: SquaredFilter,
    point: Coordinate,
    t1: int,
    t2: int,
)
    requires
        0 <= t1 <= t2,
    ensures
        spec_is_farther(area, point, t2) ==> spec_is_farther(area, point, t1),
{
    assert((t1 * 100_000_000_000) * (t1 * 100_000_000_000)
        <= (t2 * 100_000_000_000) * (t2 * 100_000_000_000)) by (nonlinear_arith)
        requires
            0 <= t1 <= t2,
    ;
}

} // verus!
