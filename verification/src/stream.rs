//! Full coordinate stream: the exhaustive structural parse of a track
//! document's markup into the ordered sequence of every coordinate it
//! contains.
//!
//! The grammar walks the whole document. A comment runs to `-->`, a
//! processing instruction to `?>`, and every other piece of markup to the
//! next closing angle bracket. A `trkpt` start tag contributes one
//! coordinate when a whitespace-preceded, double-quoted `lat` and `lon`
//! attribute both parse as decimal degrees; a record missing either, or
//! carrying an unparseable number, is silently skipped, as is an
//! empty-element tag. A construct that never closes before the end of the
//! document, or a bare angle bracket opening no markup at all, is a
//! structural fault, reported with its position.

use vstd::prelude::*;
use crate::model::Coordinate;
use crate::parser::{
    is_line_ws, spec_is_lat_quote_at, spec_is_lon_quote_at, spec_is_trkpt_at, spec_parse_value,
    parse_value,
};

verus! {

/// Whitespace inside markup: space, tab, carriage return or line feed.
pub open spec fn is_xml_ws(b: u8) -> bool {
    is_line_ws(b) || b == 10
}

fn is_xml_ws_exec(b: u8) -> (r: bool)
    ensures
        r == is_xml_ws(b),
{
    b == 32 || b == 9 || b == 13 || b == 10
}

/// First position at or after `i`, before `to`, holding byte `b`; `to`
/// when there is none.
pub open spec fn spec_find_byte_to(s: Seq<u8>, i: int, b: u8, to: int) -> int
    decreases to - i when 0 <= i <= to <= s.len()
{
    if i >= to {
        to
    } else if s[i] == b {
        i
    } else {
        spec_find_byte_to(s, i + 1, b, to)
    }
}

proof fn lemma_find_byte_to_bounds(s: Seq<u8>, i: int, b: u8, to: int)
    requires
        0 <= i <= to <= s.len(),
    ensures
        i <= spec_find_byte_to(s, i, b, to) <= to,
    decreases to - i,
{
    if i < to && s[i] != b {
        lemma_find_byte_to_bounds(s, i + 1, b, to);
    }
}

fn find_byte_to(s: &[u8], i: usize, b: u8, to: usize) -> (r: usize)
    requires
        i <= to <= s.len(),
    ensures
        r == spec_find_byte_to(s@, i as int, b, to as int),
        i <= r <= to,
        r < to ==> s@[r as int] == b,
{
    let mut j: usize = i;
    while j < to && s[j] != b
        invariant
            i <= j <= to <= s.len(),
            spec_find_byte_to(s@, i as int, b, to as int) == spec_find_byte_to(
                s@,
                j as int,
                b,
                to as int,
            ),
        decreases to - j,
    {
        j = j + 1;
    }
    j
}

/// First position at or after `i` where the two bytes `b0 b1` stand;
/// the document's length when they never do.
pub open spec fn spec_find2(s: Seq<u8>, i: int, b0: u8, b1: u8) -> int
    decreases s.len() - i when 0 <= i <= s.len()
{
    if i + 2 > s.len() {
        s.len() as int
    } else if s[i] == b0 && s[i + 1] == b1 {
        i
    } else {
        spec_find2(s, i + 1, b0, b1)
    }
}

proof fn lemma_find2_bounds(s: Seq<u8>, i: int, b0: u8, b1: u8)
    requires
        0 <= i <= s.len(),
    ensures
        i <= spec_find2(s, i, b0, b1) <= s.len(),
        spec_find2(s, i, b0, b1) < s.len() ==> spec_find2(s, i, b0, b1) + 2 <= s.len(),
    decreases s.len() - i,
{
    if !(i + 2 > s.len()) && !(s[i] == b0 && s[i + 1] == b1) {
        lemma_find2_bounds(s, i + 1, b0, b1);
    }
}

fn find2(s: &[u8], i: usize, b0: u8, b1: u8) -> (r: usize)
    requires
        i <= s.len(),
    ensures
        r == spec_find2(s@, i as int, b0, b1),
        i <= r <= s.len(),
        r < s.len() ==> r + 2 <= s.len(),
{
    let mut j: usize = i;
    while s.len() - j >= 2 && !(s[j] == b0 && s[j + 1] == b1)
        invariant
            i <= j <= s.len(),
            spec_find2(s@, i as int, b0, b1) == spec_find2(s@, j as int, b0, b1),
        decreases s.len() - j,
    {
        j = j + 1;
    }
    if s.len() - j >= 2 {
        j
    } else {
        s.len()
    }
}

/// First position at or after `i` where the three bytes `b0 b1 b2` stand;
/// the document's length when they never do.
pub open spec fn spec_find3(s: Seq<u8>, i: int, b0: u8, b1: u8, b2: u8) -> int
    decreases s.len() - i when 0 <= i <= s.len()
{
    if i + 3 > s.len() {
        s.len() as int
    } else if s[i] == b0 && s[i + 1] == b1 && s[i + 2] == b2 {
        i
    } else {
        spec_find3(s, i + 1, b0, b1, b2)
    }
}

proof fn lemma_find3_bounds(s: Seq<u8>, i: int, b0: u8, b1: u8, b2: u8)
    requires
        0 <= i <= s.len(),
    ensures
        i <= spec_find3(s, i, b0, b1, b2) <= s.len(),
        spec_find3(s, i, b0, b1, b2) < s.len() ==> spec_find3(s, i, b0, b1, b2) + 3 <= s.len(),
    decreases s.len() - i,
{
    if !(i + 3 > s.len()) && !(s[i] == b0 && s[i + 1] == b1 && s[i + 2] == b2) {
        lemma_find3_bounds(s, i + 1, b0, b1, b2);
    }
}

fn find3(s: &[u8], i: usize, b0: u8, b1: u8, b2: u8) -> (r: usize)
    requires
        i <= s.len(),
    ensures
        r == spec_find3(s@, i as int, b0, b1, b2),
        i <= r <= s.len(),
        r < s.len() ==> r + 3 <= s.len(),
{
    let mut j: usize = i;
    while s.len() - j >= 3 && !(s[j] == b0 && s[j + 1] == b1 && s[j + 2] == b2)
        invariant
            i <= j <= s.len(),
            spec_find3(s@, i as int, b0, b1, b2) == spec_find3(s@, j as int, b0, b1, b2),
        decreases s.len() - j,
    {
        j = j + 1;
    }
    if s.len() - j >= 3 {
        j
    } else {
        s.len()
    }
}

/// First position in `[i, to)` where a whitespace-preceded `lat="` or
/// `lon="` attribute opening stands; `to` when there is none.
pub open spec fn spec_find_attr(s: Seq<u8>, i: int, to: int, lon: bool) -> int
    decreases to - i when 0 < i <= to <= s.len()
{
    if i >= to {
        to
    } else if (if lon {
        spec_is_lon_quote_at(s, i)
    } else {
        spec_is_lat_quote_at(s, i)
    }) && is_xml_ws(s[i - 1]) {
        i
    } else {
        spec_find_attr(s, i + 1, to, lon)
    }
}

proof fn lemma_find_attr_bounds(s: Seq<u8>, i: int, to: int, lon: bool)
    requires
        0 < i <= to <= s.len(),
    ensures
        i <= spec_find_attr(s, i, to, lon) <= to,
    decreases to - i,
{
    if i < to && !((if lon {
        spec_is_lon_quote_at(s, i)
    } else {
        spec_is_lat_quote_at(s, i)
    }) && is_xml_ws(s[i - 1])) {
        lemma_find_attr_bounds(s, i + 1, to, lon);
    }
}

fn find_attr(s: &[u8], i: usize, to: usize, lon: bool) -> (r: usize)
    requires
        0 < i <= to <= s.len(),
    ensures
        r == spec_find_attr(s@, i as int, to as int, lon),
        i <= r <= to,
        r < to ==> r + 5 <= s.len(),
{
    let mut j: usize = i;
    while j < to && !attr_open_at(s, j, lon)
        invariant
            0 < i <= j <= to <= s.len(),
            spec_find_attr(s@, i as int, to as int, lon) == spec_find_attr(
                s@,
                j as int,
                to as int,
                lon,
            ),
        decreases to - j,
    {
        j = j + 1;
    }
    j
}

fn attr_open_at(s: &[u8], j: usize, lon: bool) -> (r: bool)
    requires
        0 < j <= s.len(),
    ensures
        r == ((if lon {
            spec_is_lon_quote_at(s@, j as int)
        } else {
            spec_is_lat_quote_at(s@, j as int)
        }) && is_xml_ws(s@[j as int - 1])),
{
    let quote: bool = if lon {
        is_lon_quote_exec(s, j)
    } else {
        is_lat_quote_exec(s, j)
    };
    quote && is_xml_ws_exec(s[j - 1])
}

fn is_lat_quote_exec(s: &[u8], i: usize) -> (r: bool)
    requires
        i <= s.len(),
    ensures
        r == spec_is_lat_quote_at(s@, i as int),
{
    s.len() - i >= 5 && s[i] == 108 && s[i + 1] == 97 && s[i + 2] == 116 && s[i + 3] == 61
        && s[i + 4] == 34
}

fn is_lon_quote_exec(s: &[u8], i: usize) -> (r: bool)
    requires
        i <= s.len(),
    ensures
        r == spec_is_lon_quote_at(s@, i as int),
{
    s.len() - i >= 5 && s[i] == 108 && s[i + 1] == 111 && s[i + 2] == 110 && s[i + 3] == 61
        && s[i + 4] == 34
}

/// A comment opening `<!--` stands at `i`.
pub open spec fn spec_is_comment_at(s: Seq<u8>, i: int) -> bool {
    &&& i + 4 <= s.len()
    &&& s[i] == 60
    &&& s[i + 1] == 33
    &&& s[i + 2] == 45
    &&& s[i + 3] == 45
}

/// The coordinate a `trkpt` start tag spanning `[i, g]` yields, if any:
/// both attributes must be found, closed before the bracket, and carry
/// decimal degrees.
pub open spec fn spec_tag_record(s: Seq<u8>, i: int, g: int) -> Option<(int, int)> {
    let l = spec_find_attr(s, i + 6, g, false);
    let m = spec_find_attr(s, i + 6, g, true);
    if l >= g || m >= g || l + 5 > g || m + 5 > g {
        None
    } else {
        let q1 = spec_find_byte_to(s, l + 5, 34, g);
        let q2 = spec_find_byte_to(s, m + 5, 34, g);
        if q1 >= g || q2 >= g {
            None
        } else {
            match (spec_parse_value(s.subrange(l + 5, q1)), spec_parse_value(
                s.subrange(m + 5, q2),
            )) {
                (Some(la), Some(lo)) => Some((la, lo)),
                _ => None,
            }
        }
    }
}

/// The structural scan of the document from position `i`, with the
/// records gathered so far: the sequence of all coordinates in document
/// order, or the position of the first construct that never closes.
pub open spec fn spec_doc_parse(s: Seq<u8>, i: int, acc: Seq<(int, int)>) -> Result<
    Seq<(int, int)>,
    int,
>
    decreases s.len() - i when 0 <= i <= s.len() via spec_doc_parse_dec
{
    if i >= s.len() {
        Ok(acc)
    } else if s[i] != 60 {
        spec_doc_parse(s, i + 1, acc)
    } else if spec_is_comment_at(s, i) {
        let c = spec_find3(s, i + 4, 45, 45, 62);
        if c >= s.len() {
            Err(i)
        } else {
            spec_doc_parse(s, c + 3, acc)
        }
    } else if i + 1 < s.len() && s[i + 1] == 63 {
        let c = spec_find2(s, i + 2, 63, 62);
        if c >= s.len() {
            Err(i)
        } else {
            spec_doc_parse(s, c + 2, acc)
        }
    } else {
        let g = spec_find_byte_to(s, i + 1, 62, s.len() as int);
        if g >= s.len() {
            Err(i)
        } else if spec_is_trkpt_at(s, i) && (i + 6 == g || (i + 6 < s.len() && (is_xml_ws(s[i + 6])
            || s[i + 6] == 47))) && s[g - 1] != 47 {
            match spec_tag_record(s, i, g) {
                Some(r) => spec_doc_parse(s, g + 1, acc.push(r)),
                None => spec_doc_parse(s, g + 1, acc),
            }
        } else {
            spec_doc_parse(s, g + 1, acc)
        }
    }
}

#[via_fn]
proof fn spec_doc_parse_dec(s: Seq<u8>, i: int, acc: Seq<(int, int)>) {
    if 0 <= i < s.len() && s[i] == 60 {
        if spec_is_comment_at(s, i) {
            lemma_find3_bounds(s, i + 4, 45, 45, 62);
        } else if i + 1 < s.len() && s[i + 1] == 63 {
            lemma_find2_bounds(s, i + 2, 63, 62);
        } else {
            lemma_find_byte_to_bounds(s, i + 1, 62, s.len() as int);
        }
    }
}

/// A structural fault in a track document: the position of the construct
/// that never closes.
#[derive(Clone, Copy, PartialEq, Eq, Structural, Debug)]
pub struct TrackParseError {
    pub position: usize,
}

/// The coordinate pairs a sequence of points denotes.
pub open spec fn coords_seq(v: Seq<Coordinate>) -> Seq<(int, int)> {
    Seq::new(v.len(), |k: int| (v[k].latitude as int, v[k].longitude as int))
}

proof fn lemma_coords_seq_push(v: Seq<Coordinate>, c: Coordinate)
    ensures
        coords_seq(v.push(c)) == coords_seq(v).push((c.latitude as int, c.longitude as int)),
{
    assert(coords_seq(v.push(c)) =~= coords_seq(v).push(
        (c.latitude as int, c.longitude as int),
    ));
}

/// Parses the whole markup of a track document and returns every
/// coordinate it contains, in document order. A record missing either
/// attribute, or carrying a number that does not parse, is silently
/// skipped; a construct that never closes is a fault carrying its
/// position.
pub fn read_xml_coordinates(doc: &[u8]) -> (r: Result<Vec<Coordinate>, TrackParseError>)
    ensures
        match r {
            Ok(v) => {
                &&& spec_doc_parse(doc@, 0, Seq::<(int, int)>::empty()) == Ok::<_, int>(
                    coords_seq(v@),
                )
                &&& forall|k: int| 0 <= k < v@.len() ==> (#[trigger] v@[k]).wf()
            },
            Err(e) => spec_doc_parse(doc@, 0, Seq::<(int, int)>::empty()) == Err::<Seq<(int, int)>, int>(
                e.position as int,
            ),
        },
{
    let mut coords: Vec<Coordinate> = Vec::new();
    let mut i: usize = 0;
    proof {
        assert(coords_seq(coords@) =~= Seq::<(int, int)>::empty());
    }
    while i < doc.len()
        invariant
            i <= doc.len(),
            spec_doc_parse(doc@, 0, Seq::<(int, int)>::empty()) == spec_doc_parse(
                doc@,
                i as int,
                coords_seq(coords@),
            ),
            forall|k: int| 0 <= k < coords@.len() ==> (#[trigger] coords@[k]).wf(),
        decreases doc.len() - i,
    {
        if doc[i] != 60 {
            i = i + 1;
        } else if is_comment_at_exec(doc, i) {
            let c: usize = find3(doc, i + 4, 45, 45, 62);
            if c >= doc.len() {
                return Err(TrackParseError { position: i });
            }
            i = c + 3;
        } else if i + 1 < doc.len() && doc[i + 1] == 63 {
            let c: usize = find2(doc, i + 2, 63, 62);
            if c >= doc.len() {
                return Err(TrackParseError { position: i });
            }
            i = c + 2;
        } else {
            let g: usize = find_byte_to(doc, i + 1, 62, doc.len());
            if g >= doc.len() {
                return Err(TrackParseError { position: i });
            }
            let is_trkpt: bool = is_trkpt_at_exec(doc, i) && (i + 6 == g || (i + 6 < doc.len()
                && (is_xml_ws_exec(doc[i + 6]) || doc[i + 6] == 47))) && doc[g - 1] != 47;
            if is_trkpt {
                proof {
                    // the bracket cannot fall among the tag name's bytes
                    assert(i + 6 <= g);
                }
                match tag_record(doc, i, g) {
                    Some(c) => {
                        proof {
                            lemma_coords_seq_push(coords@, c);
                        }
                        coords.push(c);
                    },
                    None => {},
                }
            }
            i = g + 1;
        }
    }
    Ok(coords)
}

fn is_comment_at_exec(s: &[u8], i: usize) -> (r: bool)
    requires
        i <= s.len(),
    ensures
        r == spec_is_comment_at(s@, i as int),
{
    s.len() - i >= 4 && s[i] == 60 && s[i + 1] == 33 && s[i + 2] == 45 && s[i + 3] == 45
}

fn is_trkpt_at_exec(s: &[u8], i: usize) -> (r: bool)
    requires
        i <= s.len(),
    ensures
        r == spec_is_trkpt_at(s@, i as int),
{
    s.len() - i >= 6 && s[i] == 60 && s[i + 1] == 116 && s[i + 2] == 114 && s[i + 3] == 107
        && s[i + 4] == 112 && s[i + 5] == 116
}

/// The coordinate of one `trkpt` start tag, spanning `[i, g]`.
fn tag_record(s: &[u8], i: usize, g: usize) -> (r: Option<Coordinate>)
    requires
        spec_is_trkpt_at(s@, i as int),
        i + 6 <= g < s.len(),
    ensures
        match r {
            Some(c) => spec_tag_record(s@, i as int, g as int) == Some(
                (c.latitude as int, c.longitude as int),
            ) && c.wf(),
            None => spec_tag_record(s@, i as int, g as int) is None,
        },
{
    let l: usize = find_attr(s, i + 6, g, false);
    let m: usize = find_attr(s, i + 6, g, true);
    if l >= g || m >= g || l + 5 > g || m + 5 > g {
        return None;
    }
    let q1: usize = find_byte_to(s, l + 5, 34, g);
    let q2: usize = find_byte_to(s, m + 5, 34, g);
    if q1 >= g || q2 >= g {
        return None;
    }
    let la = parse_value(s, l + 5, q1);
    let lo = parse_value(s, m + 5, q2);
    match (la, lo) {
        (Some(a), Some(b)) => Some(Coordinate::new(a, b)),
        _ => None,
    }
}

} // verus!
