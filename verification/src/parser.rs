//! Textual extraction of the first coordinate of a track document.
//!
//! This is the cheap pre-filtering heuristic: a single pass over the raw
//! bytes that looks for the first track-point record written in the common
//! single-line shape, a `<trkpt` opening followed by a quoted `lat` and a
//! quoted `lon` attribute, in that order, and the closing bracket. No
//! structural parse takes place; a record spread over several lines or
//! carrying a malformed number is simply passed over, and the scan goes
//! on. Coordinate values are decimal degrees, parsed into microdegrees
//! with truncation after the sixth fractional digit, and rejected beyond
//! plus or minus 180 degrees.

use vstd::prelude::*;
use vstd::string::StringSliceAdditionalSpecFns;
use crate::model::Coordinate;

verus! {

/// ASCII decimal digit.
pub open spec fn is_digit(b: u8) -> bool {
    48 <= b <= 57
}

/// Whitespace the line-oriented pattern may skip: space, tab and carriage
/// return, but never a line feed, so a record never spans lines.
pub open spec fn is_line_ws(b: u8) -> bool {
    b == 32 || b == 9 || b == 13
}

/// First position at or after `i` whose byte is not line whitespace.
pub open spec fn spec_skip_ws(s: Seq<u8>, i: int) -> int
    decreases s.len() - i when 0 <= i <= s.len()
{
    if 0 <= i < s.len() && is_line_ws(s[i]) {
        spec_skip_ws(s, i + 1)
    } else {
        i
    }
}

fn skip_line_ws(s: &[u8], i: usize) -> (j: usize)
    requires
        i <= s.len(),
    ensures
        j == spec_skip_ws(s@, i as int),
        i <= j <= s.len(),
{
    let mut j: usize = i;
    while j < s.len() && is_line_ws_exec(s[j])
        invariant
            i <= j <= s.len(),
            spec_skip_ws(s@, i as int) == spec_skip_ws(s@, j as int),
        decreases s.len() - j,
    {
        j = j + 1;
    }
    j
}

fn is_line_ws_exec(b: u8) -> (r: bool)
    ensures
        r == is_line_ws(b),
{
    b == 32 || b == 9 || b == 13
}

/// A byte the numeric pattern accepts: a digit or a dot.
pub open spec fn is_token_byte(b: u8) -> bool {
    is_digit(b) || b == 46
}

/// End of the maximal run of digits and dots starting at `i`.
pub open spec fn spec_token_end(s: Seq<u8>, i: int) -> int
    decreases s.len() - i when 0 <= i <= s.len()
{
    if 0 <= i < s.len() && is_token_byte(s[i]) {
        spec_token_end(s, i + 1)
    } else {
        i
    }
}

fn token_end(s: &[u8], i: usize) -> (j: usize)
    requires
        i <= s.len(),
    ensures
        j == spec_token_end(s@, i as int),
        i <= j <= s.len(),
{
    let mut j: usize = i;
    while j < s.len() && (s[j] == 46 || (48 <= s[j] && s[j] <= 57))
        invariant
            i <= j <= s.len(),
            spec_token_end(s@, i as int) == spec_token_end(s@, j as int),
        decreases s.len() - j,
    {
        j = j + 1;
    }
    j
}

/// Numeric value of a digit string, most significant digit first.
pub open spec fn spec_digits_value(s: Seq<u8>) -> int
    decreases s.len(),
{
    if s.len() == 0 {
        0
    } else {
        spec_digits_value(s.drop_last()) * 10 + (s.last() - 48)
    }
}

pub open spec fn all_digits(s: Seq<u8>) -> bool {
    forall|k: int| 0 <= k < s.len() ==> is_digit(#[trigger] s[k])
}

proof fn lemma_digits_value_nonneg(s: Seq<u8>)
    requires
        all_digits(s),
    ensures
        spec_digits_value(s) >= 0,
    decreases s.len(),
{
    if s.len() > 0 {
        assert(all_digits(s.drop_last()));
        lemma_digits_value_nonneg(s.drop_last());
    }
}

/// Appending digits never lowers a digit string's value.
proof fn lemma_digits_value_extend(s: Seq<u8>, m: int)
    requires
        all_digits(s),
        0 <= m <= s.len(),
    ensures
        spec_digits_value(s) >= spec_digits_value(s.subrange(0, m)),
    decreases s.len() - m,
{
    if m == s.len() {
        assert(s.subrange(0, m) =~= s);
    } else {
        lemma_digits_value_extend(s, m + 1);
        let p = s.subrange(0, m + 1);
        assert(p.drop_last() =~= s.subrange(0, m));
        assert(all_digits(s.subrange(0, m)));
        lemma_digits_value_nonneg(s.subrange(0, m));
        assert(spec_digits_value(p) == spec_digits_value(s.subrange(0, m)) * 10 + (p.last() - 48));
        assert(is_digit(s[m]));
        assert(spec_digits_value(p) >= spec_digits_value(s.subrange(0, m)));
    }
}

/// Position of the first dot of `s`, or its length if there is none.
pub open spec fn spec_first_dot(s: Seq<u8>) -> int
    decreases s.len(),
{
    if s.len() == 0 {
        0
    } else if s[0] == 46 {
        0
    } else {
        1 + spec_first_dot(s.drop_first())
    }
}

/// The first dot stands exactly where no dot stands before a dot or the
/// end.
proof fn lemma_first_dot_char(s: Seq<u8>, m: int)
    requires
        0 <= m <= s.len(),
        forall|k: int| 0 <= k < m ==> s[k] != 46,
        m == s.len() || s[m] == 46,
    ensures
        spec_first_dot(s) == m,
    decreases s.len(),
{
    if s.len() == 0 {
    } else if s[0] == 46 {
        assert(m == 0);
    } else {
        assert(m >= 1);
        let t = s.drop_first();
        assert(forall|k: int| 0 <= k < m - 1 ==> t[k] != 46);
        assert(m - 1 == t.len() || t[m - 1] == 46);
        lemma_first_dot_char(t, m - 1);
    }
}

/// Powers of ten, for padding a short fraction to six digits.
pub open spec fn spec_pow10(k: int) -> int
    decreases k when k >= 0
{
    if k <= 0 {
        1
    } else {
        10 * spec_pow10(k - 1)
    }
}

/// The value of a signless numeric token, in microdegrees, truncated
/// towards zero after the sixth fractional digit. `None` when the token is
/// not one optional dot among at least one digit, or when the value
/// exceeds 180 degrees.
pub open spec fn spec_value_of_body(s: Seq<u8>) -> Option<int> {
    let d = spec_first_dot(s);
    let ip = s.subrange(0, d);
    let fp = if d == s.len() {
        Seq::<u8>::empty()
    } else {
        s.subrange(d + 1, s.len() as int)
    };
    if !(all_digits(ip) && all_digits(fp) && ip.len() + fp.len() >= 1) {
        None
    } else {
        let f6 = if fp.len() >= 6 {
            spec_digits_value(fp.subrange(0, 6))
        } else {
            spec_digits_value(fp) * spec_pow10(6 - fp.len())
        };
        let v = spec_digits_value(ip) * 1_000_000 + f6;
        if v > 180_000_000 {
            None
        } else {
            Some(v)
        }
    }
}

proof fn lemma_pow10_pos(k: int)
    requires
        k >= 0,
    ensures
        spec_pow10(k) >= 1,
    decreases k,
{
    if k > 0 {
        lemma_pow10_pos(k - 1);
    }
}

/// No dot among the first `m` bytes keeps the first dot at or beyond `m`.
proof fn lemma_first_dot_lb(s: Seq<u8>, m: int)
    requires
        0 <= m <= s.len(),
        forall|k: int| 0 <= k < m ==> s[k] != 46,
    ensures
        spec_first_dot(s) >= m,
    decreases s.len(),
{
    if m > 0 {
        assert(s[0] != 46);
        let t = s.drop_first();
        assert(forall|k: int| 0 <= k < m - 1 ==> t[k] != 46);
        lemma_first_dot_lb(t, m - 1);
        assert(spec_first_dot(s) == 1 + spec_first_dot(t));
    } else {
        lemma_first_dot_at(s);
    }
}

/// A body whose leading digits already exceed 180 has no value within
/// range.
proof fn lemma_value_body_big(body: Seq<u8>, m: int)
    requires
        0 <= m <= body.len(),
        forall|k: int| 0 <= k < m ==> is_digit(#[trigger] body[k]),
        spec_digits_value(body.subrange(0, m)) > 180,
    ensures
        spec_value_of_body(body) is None,
{
    lemma_first_dot_at(body);
    let d = spec_first_dot(body);
    let ip = body.subrange(0, d);
    let fp = if d == body.len() {
        Seq::<u8>::empty()
    } else {
        body.subrange(d + 1, body.len() as int)
    };
    if all_digits(ip) && all_digits(fp) && ip.len() + fp.len() >= 1 {
        assert(forall|k: int| 0 <= k < m ==> body[k] != 46);
        lemma_first_dot_lb(body, m);
        assert(ip.subrange(0, m) =~= body.subrange(0, m));
        lemma_digits_value_extend(ip, m);
        assert(spec_digits_value(ip) >= 181);
        let f6 = if fp.len() >= 6 {
            spec_digits_value(fp.subrange(0, 6))
        } else {
            spec_digits_value(fp) * spec_pow10(6 - fp.len())
        };
        if fp.len() >= 6 {
            assert(all_digits(fp.subrange(0, 6)));
            lemma_digits_value_nonneg(fp.subrange(0, 6));
        } else {
            lemma_digits_value_nonneg(fp);
            lemma_pow10_pos(6 - fp.len());
            assert(f6 >= 0) by (nonlinear_arith)
                requires
                    f6 == spec_digits_value(fp) * spec_pow10(6 - fp.len()),
                    spec_digits_value(fp) >= 0,
                    spec_pow10(6 - fp.len()) >= 1,
            ;
        }
        assert(spec_digits_value(ip) * 1_000_000 >= 181_000_000) by (nonlinear_arith)
            requires
                spec_digits_value(ip) >= 181,
        ;
    }
}

/// A non-numeric byte after `m` leading digits leaves the body without a
/// value.
proof fn lemma_body_invalid_byte(body: Seq<u8>, m: int)
    requires
        0 <= m < body.len(),
        forall|k: int| 0 <= k < m ==> is_digit(#[trigger] body[k]),
        !is_digit(body[m]),
        body[m] != 46,
    ensures
        spec_value_of_body(body) is None,
{
    assert(forall|k: int| 0 <= k < m ==> body[k] != 46);
    lemma_first_dot_at(body);
    lemma_first_dot_lb(body, m);
    let d = spec_first_dot(body);
    if d < body.len() {
        assert(body[d] == 46);
        assert(d != m);
    }
    assert(d > m);
    let ip = body.subrange(0, d);
    assert(!is_digit(ip[m]));
}

/// The byte at the first dot, when inside the body, is a dot.
proof fn lemma_first_dot_at(s: Seq<u8>)
    ensures
        spec_first_dot(s) < s.len() ==> s[spec_first_dot(s)] == 46,
        0 <= spec_first_dot(s) <= s.len(),
    decreases s.len(),
{
    if s.len() > 0 && s[0] != 46 {
        lemma_first_dot_at(s.drop_first());
    }
}

/// The value of a numeric token with an optional leading minus sign.
pub open spec fn spec_parse_value(tok: Seq<u8>) -> Option<int> {
    if tok.len() == 0 {
        None
    } else if tok[0] == 45 {
        match spec_value_of_body(tok.drop_first()) {
            Some(v) => Some(-v),
            None => None,
        }
    } else {
        match spec_value_of_body(tok) {
            Some(v) => Some(v),
            None => None,
        }
    }
}

fn pow10_exec(k: usize) -> (p: u64)
    requires
        k <= 6,
    ensures
        p == spec_pow10(k as int),
        1 <= p <= 1_000_000,
{
    proof {
        assert(spec_pow10(0) == 1);
        assert(spec_pow10(1) == 10);
        assert(spec_pow10(2) == 100);
        assert(spec_pow10(3) == 1_000);
        assert(spec_pow10(4) == 10_000);
        assert(spec_pow10(5) == 100_000);
        assert(spec_pow10(6) == 1_000_000);
    }
    if k == 0 {
        1
    } else if k == 1 {
        10
    } else if k == 2 {
        100
    } else if k == 3 {
        1_000
    } else if k == 4 {
        10_000
    } else if k == 5 {
        100_000
    } else {
        1_000_000
    }
}

/// A token whose body has no value has no value with its sign either.
proof fn lemma_parse_value_none(s: Seq<u8>, start: int, end: int, neg: bool)
    requires
        0 <= start < end <= s.len(),
        neg == (s[start] == 45),
        spec_value_of_body(s.subrange(if neg { start + 1 } else { start }, end)) is None,
    ensures
        spec_parse_value(s.subrange(start, end)) is None,
{
    let tok = s.subrange(start, end);
    assert(tok[0] == s[start]);
    if neg {
        assert(tok.drop_first() =~= s.subrange(start + 1, end));
    }
}

/// A token whose body has a value takes that value, negated after a minus
/// sign.
proof fn lemma_parse_value_some(s: Seq<u8>, start: int, end: int, neg: bool, v: int)
    requires
        0 <= start < end <= s.len(),
        neg == (s[start] == 45),
        spec_value_of_body(s.subrange(if neg { start + 1 } else { start }, end)) == Some(v),
    ensures
        spec_parse_value(s.subrange(start, end)) == Some(if neg { -v } else { v }),
{
    let tok = s.subrange(start, end);
    assert(tok[0] == s[start]);
    if neg {
        assert(tok.drop_first() =~= s.subrange(start + 1, end));
    }
}

/// Parses the bytes of `s` between `start` and `end` as a signed decimal
/// number of degrees, returning its value in microdegrees, truncated
/// towards zero after the sixth fractional digit. `None` exactly when the
/// bytes are not an optional minus sign followed by at least one digit and
/// at most one dot, or when the magnitude exceeds 180 degrees.
#[verifier::rlimit(60)]
pub fn parse_value(s: &[u8], start: usize, end: usize) -> (r: Option<i64>)
    requires
        start <= end <= s.len(),
    ensures
        match r {
            Some(v) => spec_parse_value(s@.subrange(start as int, end as int)) == Some(v as int)
                && -180_000_000 <= v <= 180_000_000,
            None => spec_parse_value(s@.subrange(start as int, end as int)) is None,
        },
{
    let ghost tok = s@.subrange(start as int, end as int);
    if start == end {
        return None;
    }
    let neg: bool = s[start] == 45;
    let bs: usize = if neg {
        start + 1
    } else {
        start
    };
    let ghost body = s@.subrange(bs as int, end as int);
    proof {
        if neg {
            assert(tok.drop_first() =~= body);
        } else {
            assert(tok =~= body);
        }
    }
    let mut i: usize = bs;
    let mut acc: u64 = 0;
    while i < end && 48 <= s[i] && s[i] <= 57
        invariant
            start < end,
            start <= bs <= i <= end <= s.len(),
            neg == (s@[start as int] == 45),
            bs == if neg { start + 1 } else { start as int },
            body == s@.subrange(bs as int, end as int),
            forall|k: int| bs <= k < i ==> is_digit(#[trigger] s@[k]),
            acc == spec_digits_value(s@.subrange(bs as int, i as int)),
            acc <= 180,
        decreases end - i,
    {
        let d: u64 = (s[i] - 48) as u64;
        proof {
            let p = s@.subrange(bs as int, i as int + 1);
            assert(p.drop_last() =~= s@.subrange(bs as int, i as int));
        }
        acc = acc * 10 + d;
        i = i + 1;
        if acc > 180 {
            proof {
                assert(body.subrange(0, i - bs) =~= s@.subrange(bs as int, i as int));
                assert(forall|k: int| 0 <= k < i - bs ==> is_digit(#[trigger] body[k]));
                lemma_value_body_big(body, i - bs);
                lemma_parse_value_none(s@, start as int, end as int, neg);
            }
            return None;
        }
    }
    let ghost fd = i - bs;
    proof {
        assert(body.subrange(0, fd) =~= s@.subrange(bs as int, i as int));
        assert(forall|k: int| 0 <= k < fd ==> is_digit(#[trigger] body[k]));
    }
    if i == end {
        // no fractional part
        if i == bs {
            // an empty body, such as a bare sign
            proof {
                assert(body.len() == 0);
                lemma_parse_value_none(s@, start as int, end as int, neg);
            }
            return None;
        }
        let value: u64 = acc * 1_000_000;
        proof {
            lemma_first_dot_char(body, fd);
            assert(body.subrange(0, fd) =~= body);
            let fp = Seq::<u8>::empty();
            assert(spec_digits_value(fp) == 0);
            assert(spec_digits_value(fp) * spec_pow10(6) == 0) by (nonlinear_arith)
                requires
                    spec_digits_value(fp) == 0,
            ;
            assert(spec_value_of_body(body) == Some(value as int));
            lemma_parse_value_some(s@, start as int, end as int, neg, value as int);
        }
        let v: i64 = value as i64;
        if neg {
            return Some(-v);
        } else {
            return Some(v);
        }
    }
    if s[i] != 46 {
        proof {
            assert(body[fd] == s@[i as int]);
            lemma_body_invalid_byte(body, fd);
            lemma_parse_value_none(s@, start as int, end as int, neg);
        }
        return None;
    }
    // fractional part after the dot
    let mut j: usize = i + 1;
    let mut facc: u64 = 0;
    let mut taken: usize = 0;
    while j < end && 48 <= s[j] && 57 >= s[j]
        invariant
            bs <= i < i + 1 <= j <= end <= s.len(),
            body == s@.subrange(bs as int, end as int),
            forall|k: int| i + 1 <= k < j ==> is_digit(#[trigger] s@[k]),
            taken == if j - i - 1 <= 6 {
                j - i - 1
            } else {
                6
            },
            facc == spec_digits_value(s@.subrange(i as int + 1, i as int + 1 + taken)),
            taken == 0 ==> facc == 0,
            taken <= 1 ==> facc <= 9,
            taken <= 2 ==> facc <= 99,
            taken <= 3 ==> facc <= 999,
            taken <= 4 ==> facc <= 9_999,
            taken <= 5 ==> facc <= 99_999,
            facc <= 999_999,
        decreases end - j,
    {
        if taken < 6 {
            let d: u64 = (s[j] - 48) as u64;
            proof {
                let p = s@.subrange(i as int + 1, i as int + 2 + taken);
                assert(p.drop_last() =~= s@.subrange(i as int + 1, i as int + 1 + taken));
            }
            facc = facc * 10 + d;
            taken = taken + 1;
        }
        j = j + 1;
    }
    if j < end {
        // a byte that is neither digit nor part of a single-dot number
        proof {
            lemma_first_dot_char(body, fd);
            let fp = body.subrange(fd + 1, body.len() as int);
            assert(fp[j - bs - fd - 1] == s@[j as int]);
            assert(!all_digits(fp));
            lemma_parse_value_none(s@, start as int, end as int, neg);
        }
        return None;
    }
    if i == bs && j == i + 1 {
        // a lone dot carries no digit at all
        proof {
            lemma_first_dot_char(body, fd);
            let fp = body.subrange(fd + 1, body.len() as int);
            assert(fp.len() == 0);
            assert(body.subrange(0, fd).len() == 0);
            lemma_parse_value_none(s@, start as int, end as int, neg);
        }
        return None;
    }
    proof {
        lemma_first_dot_char(body, fd);
        let fp = body.subrange(fd + 1, body.len() as int);
        assert(fp =~= s@.subrange(i as int + 1, end as int));
        assert(all_digits(fp));
        if fp.len() >= 6 {
            assert(taken == 6);
            assert(fp.subrange(0, 6) =~= s@.subrange(i as int + 1, i as int + 7));
        } else {
            assert(taken == fp.len());
            assert(fp =~= s@.subrange(i as int + 1, i as int + 1 + taken));
        }
    }
    let rem: usize = if end - i - 1 >= 6 {
        0
    } else {
        6 - (end - i - 1)
    };
    let p: u64 = pow10_exec(rem);
    proof {
        assert(facc * p <= 999_999 * 1_000_000) by (nonlinear_arith)
            requires
                0 <= facc <= 999_999,
                0 <= p <= 1_000_000,
        ;
    }
    let f6: u64 = facc * p;
    let value: u64 = acc * 1_000_000 + f6;
    proof {
        let ip = body.subrange(0, fd);
        let fp = body.subrange(fd + 1, body.len() as int);
        assert(ip =~= s@.subrange(bs as int, i as int));
        assert(all_digits(ip));
        assert(spec_digits_value(ip) == acc);
        assert(ip.len() + fp.len() >= 1);
        if fp.len() >= 6 {
            assert(rem == 0 && p == 1);
            assert(f6 == facc * 1);
            assert(f6 == spec_digits_value(fp.subrange(0, 6)));
        } else {
            assert(rem == 6 - fp.len() && p == spec_pow10(6 - fp.len()));
            assert(facc == spec_digits_value(fp));
            assert(f6 == spec_digits_value(fp) * spec_pow10(6 - fp.len()));
        }
        assert(spec_value_of_body(body) == if value > 180_000_000 {
            None::<int>
        } else {
            Some(value as int)
        });
        if value > 180_000_000 {
            lemma_parse_value_none(s@, start as int, end as int, neg);
        } else {
            lemma_parse_value_some(s@, start as int, end as int, neg, value as int);
        }
    }
    if value > 180_000_000 {
        return None;
    }
    let v: i64 = value as i64;
    if neg {
        Some(-v)
    } else {
        Some(v)
    }
}

/// The six bytes of a `<trkpt` tag opening stand at `i`.
pub open spec fn spec_is_trkpt_at(s: Seq<u8>, i: int) -> bool {
    &&& i + 6 <= s.len()
    &&& s[i] == 60
    &&& s[i + 1] == 116
    &&& s[i + 2] == 114
    &&& s[i + 3] == 107
    &&& s[i + 4] == 112
    &&& s[i + 5] == 116
}

/// The five bytes of `lat="` stand at `i`.
pub open spec fn spec_is_lat_quote_at(s: Seq<u8>, i: int) -> bool {
    &&& i + 5 <= s.len()
    &&& s[i] == 108
    &&& s[i + 1] == 97
    &&& s[i + 2] == 116
    &&& s[i + 3] == 61
    &&& s[i + 4] == 34
}

/// The five bytes of `lon="` stand at `i`.
pub open spec fn spec_is_lon_quote_at(s: Seq<u8>, i: int) -> bool {
    &&& i + 5 <= s.len()
    &&& s[i] == 108
    &&& s[i + 1] == 111
    &&& s[i + 2] == 110
    &&& s[i + 3] == 61
    &&& s[i + 4] == 34
}

/// The track-point pattern, matched at position `i`: a `<trkpt` opening,
/// whitespace, a quoted signed decimal `lat` attribute, whitespace, a
/// quoted signed decimal `lon` attribute, optional whitespace and the
/// closing angle bracket. The values are microdegrees; a record whose
/// numbers do not parse, or lie beyond 180 degrees, does not match.
pub open spec fn spec_match_at(s: Seq<u8>, i: int) -> Option<(int, int)> {
    if !spec_is_trkpt_at(s, i) {
        None
    } else {
        let j1 = spec_skip_ws(s, i + 6);
        if j1 == i + 6 || !spec_is_lat_quote_at(s, j1) {
            None
        } else {
            let p1 = j1 + 5;
            let b1 = if p1 < s.len() && s[p1] == 45 {
                p1 + 1
            } else {
                p1
            };
            let e1 = spec_token_end(s, b1);
            if e1 == b1 || e1 >= s.len() || s[e1] != 34 {
                None
            } else {
                let j2 = spec_skip_ws(s, e1 + 1);
                if j2 == e1 + 1 || !spec_is_lon_quote_at(s, j2) {
                    None
                } else {
                    let p2 = j2 + 5;
                    let b2 = if p2 < s.len() && s[p2] == 45 {
                        p2 + 1
                    } else {
                        p2
                    };
                    let e2 = spec_token_end(s, b2);
                    if e2 == b2 || e2 >= s.len() || s[e2] != 34 {
                        None
                    } else {
                        let j3 = spec_skip_ws(s, e2 + 1);
                        if j3 >= s.len() || s[j3] != 62 {
                            None
                        } else {
                            match (
                                spec_parse_value(s.subrange(p1, e1)),
                                spec_parse_value(s.subrange(p2, e2)),
                            ) {
                                (Some(la), Some(lo)) => Some((la, lo)),
                                _ => None,
                            }
                        }
                    }
                }
            }
        }
    }
}

fn is_trkpt_at(s: &[u8], i: usize) -> (r: bool)
    requires
        i <= s.len(),
    ensures
        r == spec_is_trkpt_at(s@, i as int),
{
    s.len() - i >= 6 && s[i] == 60 && s[i + 1] == 116 && s[i + 2] == 114 && s[i + 3] == 107
        && s[i + 4] == 112 && s[i + 5] == 116
}

fn is_lat_quote_at(s: &[u8], i: usize) -> (r: bool)
    requires
        i <= s.len(),
    ensures
        r == spec_is_lat_quote_at(s@, i as int),
{
    s.len() - i >= 5 && s[i] == 108 && s[i + 1] == 97 && s[i + 2] == 116 && s[i + 3] == 61
        && s[i + 4] == 34
}

fn is_lon_quote_at(s: &[u8], i: usize) -> (r: bool)
    requires
        i <= s.len(),
    ensures
        r == spec_is_lon_quote_at(s@, i as int),
{
    s.len() - i >= 5 && s[i] == 108 && s[i + 1] == 111 && s[i + 2] == 110 && s[i + 3] == 61
        && s[i + 4] == 34
}

#[verifier::rlimit(60)]
fn match_at(s: &[u8], i: usize) -> (r: Option<(i64, i64)>)
    requires
        i <= s.len(),
    ensures
        match r {
            Some(v) => {
                &&& spec_match_at(s@, i as int) == Some((v.0 as int, v.1 as int))
                &&& -180_000_000 <= v.0 <= 180_000_000
                &&& -180_000_000 <= v.1 <= 180_000_000
            },
            None => spec_match_at(s@, i as int) is None,
        },
{
    if !is_trkpt_at(s, i) {
        return None;
    }
    let j1: usize = skip_line_ws(s, i + 6);
    if j1 == i + 6 {
        return None;
    }
    if !is_lat_quote_at(s, j1) {
        return None;
    }
    let p1: usize = j1 + 5;
    let b1: usize = if p1 < s.len() && s[p1] == 45 {
        p1 + 1
    } else {
        p1
    };
    let e1: usize = token_end(s, b1);
    if e1 == b1 || e1 >= s.len() {
        return None;
    }
    if s[e1] != 34 {
        return None;
    }
    let j2: usize = skip_line_ws(s, e1 + 1);
    if j2 == e1 + 1 {
        return None;
    }
    if !is_lon_quote_at(s, j2) {
        return None;
    }
    let p2: usize = j2 + 5;
    let b2: usize = if p2 < s.len() && s[p2] == 45 {
        p2 + 1
    } else {
        p2
    };
    let e2: usize = token_end(s, b2);
    if e2 == b2 || e2 >= s.len() {
        return None;
    }
    if s[e2] != 34 {
        return None;
    }
    let j3: usize = skip_line_ws(s, e2 + 1);
    if j3 >= s.len() {
        return None;
    }
    if s[j3] != 62 {
        return None;
    }
    let la = parse_value(s, p1, e1);
    let lo = parse_value(s, p2, e2);
    match (la, lo) {
        (Some(a), Some(b)) => Some((a, b)),
        _ => None,
    }
}

/// First match of the track-point pattern at or after position `i`.
pub open spec fn spec_extract_from(s: Seq<u8>, i: int) -> Option<(int, int)>
    decreases s.len() - i when 0 <= i <= s.len()
{
    if i >= s.len() {
        None
    } else if spec_match_at(s, i) is Some {
        spec_match_at(s, i)
    } else {
        spec_extract_from(s, i + 1)
    }
}

/// The first coordinate the line-oriented pattern finds in the document.
pub open spec fn spec_extract(s: Seq<u8>) -> Option<(int, int)> {
    spec_extract_from(s, 0)
}

/// Scans the document for its first track-point record, matched by the
/// lightweight line pattern, and returns its coordinate. Records whose
/// numbers do not parse are skipped, and the scan carries on.
pub fn extract_first_coordinate(doc: &[u8]) -> (r: Option<Coordinate>)
    ensures
        match r {
            Some(c) => spec_extract(doc@) == Some((c.latitude as int, c.longitude as int))
                && c.wf(),
            None => spec_extract(doc@) is None,
        },
{
    let mut i: usize = 0;
    while i < doc.len()
        invariant
            i <= doc.len(),
            spec_extract_from(doc@, 0) == spec_extract_from(doc@, i as int),
        decreases doc.len() - i,
    {
        let m = match_at(doc, i);
        match m {
            Some((la, lo)) => {
                return Some(Coordinate::new(la, lo));
            },
            None => {},
        }
        i = i + 1;
    }
    None
}

/// The pre-filtering expects to find the track points in a single line
/// with just the two attributes; this runs the same scan over a text
/// slice.
pub fn extract_first_coordinate_from_text(text: &str) -> (r: Option<Coordinate>)
    ensures
        match r {
            Some(c) => spec_extract(text.spec_bytes()) == Some(
                (c.latitude as int, c.longitude as int),
            ) && c.wf(),
            None => spec_extract(text.spec_bytes()) is None,
        },
{
    extract_first_coordinate(text.as_bytes())
}

} // verus!
