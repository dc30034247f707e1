//! The two filtering stages and their laws: the cheap prefilter that
//! classifies each document by its first coordinate, and the confirmation
//! pass that keeps a nearby document only when some point of its full
//! stream lies inside the area.
//!
//! Documents are handed in as pairs of a name and the document's bytes;
//! what comes out are names. Every function here is a plain fold over the
//! documents, so a caller may process documents in any order or in
//! parallel and reach the same sets.

use vstd::prelude::*;
use crate::model::{Coordinate, SquaredFilter};
use crate::parser::{spec_extract, extract_first_coordinate};
use crate::stream::{spec_doc_parse, read_xml_coordinates, TrackParseError};
use crate::utils::{
    spec_in_area, spec_is_farther, is_point_in_area, is_point_more_than_x_distance_from_filter,
};

verus! {

/// How the prefilter classifies one document.
#[derive(Clone, Copy, PartialEq, Eq, Structural, Debug)]
pub enum Classification {
    /// The first coordinate lies inside the area.
    Inside,
    /// The first coordinate lies outside, but within the distance
    /// threshold.
    Nearby,
    /// No coordinate was found, or the first lies beyond the threshold.
    Excluded,
}

/// Whether a coordinate pair, latitude first, lies inside the area.
pub open spec fn spec_pair_in_area(area: SquaredFilter, p: (int, int)) -> bool {
    &&& area.min_lat <= p.0 < area.max_lat
    &&& area.min_lon <= p.1 < area.max_lon
}

/// The prefilter's verdict on one document: the class its first
/// extractable coordinate earns, or exclusion when there is none.
pub open spec fn spec_classification(area: SquaredFilter, doc: Seq<u8>, distance_m: int)
    -> Classification {
    match spec_extract(doc) {
        None => Classification::Excluded,
        Some(p) => {
            let c = Coordinate { latitude: p.0 as i64, longitude: p.1 as i64 };
            if spec_in_area(area, c) {
                Classification::Inside
            } else if !spec_is_farther(area, c, distance_m) {
                Classification::Nearby
            } else {
                Classification::Excluded
            }
        },
    }
}

/// Classifies one document from its first extractable coordinate.
pub fn classify_track(area: &SquaredFilter, doc: &[u8], distance_m: u64) -> (c: Classification)
    requires
        area.wf(),
    ensures
        c == spec_classification(*area, doc@, distance_m as int),
{
    match extract_first_coordinate(doc) {
        None => Classification::Excluded,
        Some(p) => {
            if is_point_in_area(area, &p) {
                Classification::Inside
            } else if !is_point_more_than_x_distance_from_filter(area, &p, distance_m) {
                Classification::Nearby
            } else {
                Classification::Excluded
            }
        },
    }
}

/// The two name lists the prefilter builds from position `k` onward, on
/// top of those gathered so far: the documents classified inside, and
/// those classified nearby.
pub open spec fn spec_prefilter_from(
    docs: Seq<(String, Vec<u8>)>,
    area: SquaredFilter,
    distance_m: int,
    k: int,
    ins: Seq<String>,
    near: Seq<String>,
) -> (Seq<String>, Seq<String>)
    decreases docs.len() - k when 0 <= k <= docs.len()
{
    if k >= docs.len() {
        (ins, near)
    } else {
        match spec_classification(area, docs[k].1@, distance_m) {
            Classification::Inside => spec_prefilter_from(
                docs,
                area,
                distance_m,
                k + 1,
                ins.push(docs[k].0),
                near,
            ),
            Classification::Nearby => spec_prefilter_from(
                docs,
                area,
                distance_m,
                k + 1,
                ins,
                near.push(docs[k].0),
            ),
            Classification::Excluded => spec_prefilter_from(docs, area, distance_m, k + 1, ins, near),
        }
    }
}

/// The prefilter's partition of a document list: names classified
/// inside, and names classified nearby; the rest are excluded.
pub open spec fn spec_prefilter(
    docs: Seq<(String, Vec<u8>)>,
    area: SquaredFilter,
    distance_m: int,
) -> (Seq<String>, Seq<String>) {
    spec_prefilter_from(docs, area, distance_m, 0, Seq::empty(), Seq::empty())
}

/// Partitions the documents by the class of their first extractable
/// coordinate: the names of those whose first coordinate lies in the
/// area, and of those within the distance threshold of it. Documents
/// without an extractable coordinate, or beyond the threshold, appear in
/// neither list.
pub fn prefilter_files(
    docs: &Vec<(String, Vec<u8>)>,
    area: &SquaredFilter,
    distance_m: u64,
) -> (r: (Vec<String>, Vec<String>))
    requires
        area.wf(),
    ensures
        (r.0@, r.1@) == spec_prefilter(docs@, *area, distance_m as int),
{
    let mut ins: Vec<String> = Vec::new();
    let mut near: Vec<String> = Vec::new();
    let mut k: usize = 0;
    while k < docs.len()
        invariant
            k <= docs.len(),
            area.wf(),
            spec_prefilter(docs@, *area, distance_m as int) == spec_prefilter_from(
                docs@,
                *area,
                distance_m as int,
                k as int,
                ins@,
                near@,
            ),
        decreases docs.len() - k,
    {
        match classify_track(area, docs[k].1.as_slice(), distance_m) {
            Classification::Inside => {
                ins.push(docs[k].0.clone());
            },
            Classification::Nearby => {
                near.push(docs[k].0.clone());
            },
            Classification::Excluded => {},
        }
        k = k + 1;
    }
    (ins, near)
}

/// Whether some coordinate of the sequence lies inside the area.
pub open spec fn spec_any_in_area(area: SquaredFilter, coords: Seq<(int, int)>) -> bool {
    exists|k: int| 0 <= k < coords.len() && spec_pair_in_area(area, #[trigger] coords[k])
}

/// Streams the full document and tells whether any of its points lies
/// inside the area, stopping at the first hit; a structural fault in the
/// document is passed on.
pub fn file_contains_point_in_area(doc: &[u8], area: &SquaredFilter) -> (r: Result<
    bool,
    TrackParseError,
>)
    ensures
        match r {
            Ok(b) => {
                &&& spec_doc_parse(doc@, 0, Seq::<(int, int)>::empty()) matches Ok(coords)
                &&& b == spec_any_in_area(
                    *area,
                    spec_doc_parse(doc@, 0, Seq::<(int, int)>::empty())->Ok_0,
                )
            },
            Err(e) => spec_doc_parse(doc@, 0, Seq::<(int, int)>::empty()) == Err::<
                Seq<(int, int)>,
                int,
            >(e.position as int),
        },
{
    let coords = match read_xml_coordinates(doc) {
        Ok(v) => v,
        Err(e) => {
            return Err(e);
        },
    };
    let ghost cs = spec_doc_parse(doc@, 0, Seq::<(int, int)>::empty())->Ok_0;
    let mut k: usize = 0;
    while k < coords.len()
        invariant
            k <= coords.len(),
            spec_doc_parse(doc@, 0, Seq::<(int, int)>::empty()) == Ok::<Seq<(int, int)>, int>(cs),
            cs.len() == coords.len(),
            forall|m: int| 0 <= m < coords.len() ==> #[trigger] cs[m] == (
                coords@[m].latitude as int,
                coords@[m].longitude as int,
            ),
            forall|m: int| 0 <= m < k ==> !spec_pair_in_area(*area, #[trigger] cs[m]),
        decreases coords.len() - k,
    {
        if is_point_in_area(area, &coords[k]) {
            assert(spec_pair_in_area(*area, cs[k as int]));
            return Ok(true);
        }
        k = k + 1;
    }
    Ok(false)
}

/// A structural fault met while confirming a document: the document's
/// name and the position of the construct that never closes.
#[derive(Clone, Debug)]
pub struct FilterError {
    pub file: String,
    pub position: usize,
}

/// The names the confirmation pass keeps from position `k` onward, on top
/// of those kept so far: a document stays when some point of its full
/// stream lies inside the area; the first structurally corrupt document
/// stops the pass with its index and fault position.
pub open spec fn spec_confirm_from(
    docs: Seq<(String, Vec<u8>)>,
    area: SquaredFilter,
    k: int,
    acc: Seq<String>,
) -> Result<Seq<String>, (int, int)>
    decreases docs.len() - k when 0 <= k <= docs.len()
{
    if k >= docs.len() {
        Ok(acc)
    } else {
        match spec_doc_parse(docs[k].1@, 0, Seq::<(int, int)>::empty()) {
            Err(p) => Err((k, p)),
            Ok(coords) => spec_confirm_from(
                docs,
                area,
                k + 1,
                if spec_any_in_area(area, coords) {
                    acc.push(docs[k].0)
                } else {
                    acc
                },
            ),
        }
    }
}

/// The confirmation pass over a whole document list.
pub open spec fn spec_confirm(docs: Seq<(String, Vec<u8>)>, area: SquaredFilter) -> Result<
    Seq<String>,
    (int, int),
> {
    spec_confirm_from(docs, area, 0, Seq::empty())
}

/// Filters the documents that do not have at least one point in the
/// provided area by looping through all their points; the first
/// structurally corrupt document aborts the pass with its name and fault
/// position.
pub fn filter_tracks_outside_area(docs: &Vec<(String, Vec<u8>)>, area: &SquaredFilter) -> (r:
    Result<Vec<String>, FilterError>)
    ensures
        match r {
            Ok(v) => spec_confirm(docs@, *area) == Ok::<Seq<String>, (int, int)>(v@),
            Err(e) => {
                &&& spec_confirm(docs@, *area) matches Err(ep)
                &&& spec_confirm(docs@, *area)->Err_0.0 < docs@.len()
                &&& e.file == docs@[spec_confirm(docs@, *area)->Err_0.0].0
                &&& e.position as int == spec_confirm(docs@, *area)->Err_0.1
            },
        },
{
    let mut out: Vec<String> = Vec::new();
    let mut k: usize = 0;
    while k < docs.len()
        invariant
            k <= docs.len(),
            spec_confirm(docs@, *area) == spec_confirm_from(docs@, *area, k as int, out@),
        decreases docs.len() - k,
    {
        match file_contains_point_in_area(docs[k].1.as_slice(), area) {
            Ok(true) => {
                out.push(docs[k].0.clone());
            },
            Ok(false) => {},
            Err(e) => {
                return Err(FilterError { file: docs[k].0.clone(), position: e.position });
            },
        }
        k = k + 1;
    }
    Ok(out)
}

/// The accepted names from position `k` onward, on top of those gathered
/// so far: a document classified inside is accepted outright, a nearby
/// one is accepted when confirmation finds an in-area point, and an
/// excluded one never is. The first structurally corrupt nearby document
/// stops the run with its index and fault position.
pub open spec fn spec_accepted_from(
    docs: Seq<(String, Vec<u8>)>,
    area: SquaredFilter,
    distance_m: int,
    k: int,
    acc: Seq<String>,
) -> Result<Seq<String>, (int, int)>
    decreases docs.len() - k when 0 <= k <= docs.len()
{
    if k >= docs.len() {
        Ok(acc)
    } else {
        match spec_classification(area, docs[k].1@, distance_m) {
            Classification::Inside => spec_accepted_from(
                docs,
                area,
                distance_m,
                k + 1,
                acc.push(docs[k].0),
            ),
            Classification::Excluded => spec_accepted_from(docs, area, distance_m, k + 1, acc),
            Classification::Nearby => match spec_doc_parse(
                docs[k].1@,
                0,
                Seq::<(int, int)>::empty(),
            ) {
                Err(p) => Err((k, p)),
                Ok(coords) => spec_accepted_from(
                    docs,
                    area,
                    distance_m,
                    k + 1,
                    if spec_any_in_area(area, coords) {
                        acc.push(docs[k].0)
                    } else {
                        acc
                    },
                ),
            },
        }
    }
}

/// The whole pipeline's accepted set over a document list.
pub open spec fn spec_accepted(
    docs: Seq<(String, Vec<u8>)>,
    area: SquaredFilter,
    distance_m: int,
) -> Result<Seq<String>, (int, int)> {
    spec_accepted_from(docs, area, distance_m, 0, Seq::empty())
}

/// Whether one document ends accepted: classified inside, or classified
/// nearby with an in-area point in its full stream.
pub open spec fn spec_doc_accepted(d: (String, Vec<u8>), area: SquaredFilter, distance_m: int)
    -> bool {
    ||| spec_classification(area, d.1@, distance_m) == Classification::Inside
    ||| {
        &&& spec_classification(area, d.1@, distance_m) == Classification::Nearby
        &&& spec_doc_parse(d.1@, 0, Seq::<(int, int)>::empty()) matches Ok(coords)
        &&& spec_any_in_area(area, spec_doc_parse(d.1@, 0, Seq::<(int, int)>::empty())->Ok_0)
    }
}

proof fn lemma_push_contains(s: Seq<String>, x: String, y: String)
    ensures
        s.push(x).contains(y) <==> (s.contains(y) || x == y),
{
    if s.contains(y) {
        let idx = choose|i: int| 0 <= i < s.len() && s[i] == y;
        assert(s.push(x)[idx] == y);
    }
    if x == y {
        assert(s.push(x)[s.len() as int] == y);
    }
    if s.push(x).contains(y) {
        let idx = choose|i: int| 0 <= i < s.push(x).len() && s.push(x)[i] == y;
        if idx < s.len() {
            assert(s[idx] == y);
        }
    }
}

proof fn lemma_accepted_membership(
    docs: Seq<(String, Vec<u8>)>,
    area: SquaredFilter,
    distance_m: int,
    k: int,
    acc: Seq<String>,
    res: Seq<String>,
)
    requires
        0 <= k <= docs.len(),
        spec_accepted_from(docs, area, distance_m, k, acc) == Ok::<Seq<String>, (int, int)>(res),
        forall|i: int, j: int|
            0 <= i < j < docs.len() ==> #[trigger] docs[i].0 != #[trigger] docs[j].0,
        forall|x: String| acc.contains(x) ==> exists|i: int|
            0 <= i < k && #[trigger] docs[i].0 == x && spec_doc_accepted(docs[i], area, distance_m),
        forall|i: int|
            0 <= i < k && spec_doc_accepted(#[trigger] docs[i], area, distance_m) ==> acc.contains(
                docs[i].0,
            ),
    ensures
        forall|i: int|
            k <= i < docs.len() ==> (res.contains(#[trigger] docs[i].0) <==> spec_doc_accepted(
                docs[i],
                area,
                distance_m,
            )),
        forall|i: int|
            0 <= i < k ==> (res.contains(#[trigger] docs[i].0) <==> acc.contains(docs[i].0)),
        forall|i: int|
            k <= i < docs.len() && spec_classification(area, (#[trigger] docs[i]).1@, distance_m)
                == Classification::Nearby ==> spec_doc_parse(
                docs[i].1@,
                0,
                Seq::<(int, int)>::empty(),
            ) is Ok,
    decreases docs.len() - k,
{
    if k >= docs.len() {
        assert forall|x: String| res.contains(x) implies acc.contains(x) by {}
    } else {
        let taken: bool = spec_doc_accepted(docs[k], area, distance_m);
        let acc2 = if taken {
            acc.push(docs[k].0)
        } else {
            acc
        };
        // the recursion at the next position carries the same result
        assert(spec_accepted_from(docs, area, distance_m, k + 1, acc2) == Ok::<
            Seq<String>,
            (int, int),
        >(res));
        assert forall|x: String| acc2.contains(x) implies exists|i: int|
            0 <= i <= k && #[trigger] docs[i].0 == x && spec_doc_accepted(
                docs[i],
                area,
                distance_m,
            ) by {
            if taken {
                lemma_push_contains(acc, docs[k].0, x);
                if acc.contains(x) {
                    let i = choose|i: int|
                        0 <= i < k && #[trigger] docs[i].0 == x && spec_doc_accepted(
                            docs[i],
                            area,
                            distance_m,
                        );
                    assert(0 <= i <= k && docs[i].0 == x && spec_doc_accepted(
                        docs[i],
                        area,
                        distance_m,
                    ));
                } else {
                    assert(docs[k].0 == x && spec_doc_accepted(docs[k], area, distance_m));
                }
            }
        }
        assert forall|i: int|
            0 <= i < k + 1 && spec_doc_accepted(#[trigger] docs[i], area, distance_m)
            implies acc2.contains(docs[i].0) by {
            if taken {
                lemma_push_contains(acc, docs[k].0, docs[i].0);
            }
        }
        lemma_accepted_membership(docs, area, distance_m, k + 1, acc2, res);
        assert forall|i: int| 0 <= i < k implies (res.contains(#[trigger] docs[i].0)
            <==> acc.contains(docs[i].0)) by {
            if taken {
                lemma_push_contains(acc, docs[k].0, docs[i].0);
            }
        }
    }
}

/// Classification exhaustiveness: when the pipeline runs to completion
/// over documents with pairwise distinct names, a document's name stands
/// in the accepted list exactly when the prefilter classified it inside,
/// or classified it nearby and its full stream holds an in-area point.
/// So every document classified inside is accepted, a nearby one is
/// accepted exactly when confirmation finds an in-area point, and every
/// other document is excluded: each ends in exactly one of the two fates.
pub proof fn lemma_classification_exhaustive(
    docs: Seq<(String, Vec<u8>)>,
    area: SquaredFilter,
    distance_m: int,
    accepted: Seq<String>,
)
    requires
        spec_accepted(docs, area, distance_m) == Ok::<Seq<String>, (int, int)>(accepted),
        forall|i: int, j: int|
            0 <= i < j < docs.len() ==> #[trigger] docs[i].0 != #[trigger] docs[j].0,
    ensures
        forall|i: int|
            0 <= i < docs.len() ==> (accepted.contains(#[trigger] docs[i].0)
                <==> spec_doc_accepted(docs[i], area, distance_m)),
        forall|i: int|
            0 <= i < docs.len() && spec_classification(area, (#[trigger] docs[i]).1@, distance_m)
                == Classification::Inside ==> accepted.contains(docs[i].0),
        forall|i: int|
            0 <= i < docs.len() && spec_classification(area, (#[trigger] docs[i]).1@, distance_m)
                == Classification::Nearby ==> {
                &&& spec_doc_parse(docs[i].1@, 0, Seq::<(int, int)>::empty()) is Ok
                &&& (accepted.contains(docs[i].0) <==> spec_any_in_area(
                    area,
                    spec_doc_parse(docs[i].1@, 0, Seq::<(int, int)>::empty())->Ok_0,
                ))
            },
        forall|i: int|
            0 <= i < docs.len() && spec_classification(area, (#[trigger] docs[i]).1@, distance_m)
                == Classification::Excluded ==> !accepted.contains(docs[i].0),
{
    lemma_accepted_membership(docs, area, distance_m, 0, Seq::empty(), accepted);
}

/// Idempotence: the pipeline is a function of its inputs, so two runs
/// over the same documents, area and threshold return the very same
/// accepted list.
pub proof fn lemma_pipeline_idempotent(
    docs: Seq<(String, Vec<u8>)>,
    area: SquaredFilter,
    distance_m: int,
    r1: Result<Seq<String>, (int, int)>,
    r2: Result<Seq<String>, (int, int)>,
)
    requires
        r1 == spec_accepted(docs, area, distance_m),
        r2 == spec_accepted(docs, area, distance_m),
    ensures
        r1 == r2,
{
}

} // verus!
