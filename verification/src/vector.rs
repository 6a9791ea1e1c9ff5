//! Timestamps of a structured fraud-score request: RFC 3339 text
//! (`YYYY-MM-DDTHH:MM:SS`, UTC) to seconds since 1970, and seconds to hour of
//! day and day of week.
use crate::scan::{all_digits, digits_value, lemma_digits_value_concat, lemma_digits_value_nonneg, pow10};
use crate::timestamp::{
    spec_digits2, spec_digits4, spec_parse_timestamp, timestamp_start, days_before_month, leap_count, month_offset, spec_day_of_week, spec_epoch_days, spec_is_leap, spec_to_epoch, tdiv,
    tdiv_i32,
};
use vstd::prelude::*;

verus! {

/// Why a request could not be turned into a feature vector, as a message.
#[derive(Debug)]
pub struct VectorizeError(pub String);

/// How `str::parse::<u32>` fails.
#[derive(Debug, Clone, Copy, PartialEq, Eq, Structural)]
pub enum IntErrorKind {
    /// No text.
    Empty,
    /// A byte that is not a digit (after an optional leading `+`).
    InvalidDigit,
    /// The value does not fit.
    PosOverflow,
}

/// Why a timestamp is not `YYYY-MM-DDTHH:MM:SS`.
#[derive(Debug, Clone, Copy, PartialEq, Eq, Structural)]
pub enum TimestampError {
    /// Not exactly one `T`.
    InvalidFormat,
    /// A field is not a `u32`.
    ParseInt(IntErrorKind),
    /// The date or the time does not have three fields.
    InvalidParts,
}

/// What `str::parse::<u32>` gives for `s`: digits after an optional `+`,
/// read left to right; the first byte that is not a digit, or the first
/// digit that takes the value past `u32::MAX`, decides the error.
pub open spec fn spec_parse_u32(s: Seq<u8>) -> Result<u32, IntErrorKind> {
    if s.len() == 0 {
        Err(IntErrorKind::Empty)
    } else {
        let d = if s[0] == 43 {
            s.subrange(1, s.len() as int)
        } else {
            s
        };
        if d.len() == 0 {
            Err(IntErrorKind::InvalidDigit)
        } else {
            accumulate_u32(d, 0, 0)
        }
    }
}

/// Reads the digits of `s` from `i` on into `acc`.
pub open spec fn accumulate_u32(s: Seq<u8>, i: int, acc: int) -> Result<u32, IntErrorKind>
    decreases s.len() - i,
{
    if i >= s.len() || i < 0 {
        Ok(acc as u32)
    } else if !(48 <= s[i] <= 57) {
        Err(IntErrorKind::InvalidDigit)
    } else if acc * 10 + (s[i] - 48) > u32::MAX {
        Err(IntErrorKind::PosOverflow)
    } else {
        accumulate_u32(s, i + 1, acc * 10 + (s[i] - 48))
    }
}

/// `str::parse::<u32>` on `s[from..to]`.
pub fn parse_u32(s: &[u8], from: usize, to: usize) -> (r: Result<u32, IntErrorKind>)
    requires
        from <= to <= s@.len(),
    ensures
        r == spec_parse_u32(s@.subrange(from as int, to as int)),
{
    let ghost t = s@.subrange(from as int, to as int);
    if from == to {
        return Err(IntErrorKind::Empty);
    }
    let mut i = from;
    if s[from] == 43 {
        assert(t[0] == s@[from as int]);
        i = from + 1;
        if i == to {
            return Err(IntErrorKind::InvalidDigit);
        }
    } else {
        assert(t[0] == s@[from as int]);
    }
    let i0 = i;
    let ghost d = s@.subrange(i as int, to as int);
    assert(d =~= (if t[0] == 43 { t.subrange(1, t.len() as int) } else { t }));
    let mut acc: u64 = 0;
    while i < to
        invariant
            from <= i0 <= i <= to <= s@.len(),
            acc <= u32::MAX,
            d == s@.subrange(i0 as int, to as int),
            spec_parse_u32(s@.subrange(from as int, to as int)) == accumulate_u32(d, 0, 0),
            accumulate_u32(d, 0, 0) == accumulate_u32(d, i - i0, acc as int),
        decreases to - i,
    {
        assert(d[i - i0] == s@[i as int]);
        if s[i] < 48 || s[i] > 57 {
            return Err(IntErrorKind::InvalidDigit);
        }
        let next = acc * 10 + (s[i] - 48) as u64;
        if next > 0xffff_ffff {
            return Err(IntErrorKind::PosOverflow);
        }
        acc = next;
        i += 1;
    }
    assert(spec_parse_u32(t) == accumulate_u32(d, 0, 0));
    Ok(acc as u32)
}

pub open spec fn in_i32(x: int) -> bool {
    i32::MIN <= x <= i32::MAX
}

/// The Julian-day arithmetic of `days_since_epoch` stays within `i32`.
pub open spec fn days_defined(y: u32, m: u32, d: u32) -> bool {
    let yi = (y as i32) as int;
    let mi = (m as i32) as int;
    let di = (d as i32) as int;
    let a = tdiv(14 - mi, 12);
    let y2 = yi + 4800 - a;
    let m2 = mi + 12 * a - 3;
    let q = tdiv(153 * m2 + 2, 5);
    &&& in_i32(14 - mi)
    &&& in_i32(yi + 4800)
    &&& in_i32(y2)
    &&& in_i32(12 * a)
    &&& in_i32(mi + 12 * a)
    &&& in_i32(m2)
    &&& in_i32(153 * m2)
    &&& in_i32(153 * m2 + 2)
    &&& in_i32(365 * y2)
    &&& in_i32(di + q)
    &&& in_i32(di + q + 365 * y2)
    &&& in_i32(di + q + 365 * y2 + tdiv(y2, 4))
    &&& in_i32(di + q + 365 * y2 + tdiv(y2, 4) - tdiv(y2, 100))
    &&& in_i32(di + q + 365 * y2 + tdiv(y2, 4) - tdiv(y2, 100) + tdiv(y2, 400))
    &&& in_i32(di + q + 365 * y2 + tdiv(y2, 4) - tdiv(y2, 100) + tdiv(y2, 400) - 32045)
    &&& in_i32(di + q + 365 * y2 + tdiv(y2, 4) - tdiv(y2, 100) + tdiv(y2, 400) - 32045 - 2440588)
}

/// Julian day number of year `y`, month `m`, day `d` (Fliegel and Van
/// Flandern), the fields taken as `i32`.
pub open spec fn spec_jdn(y: u32, m: u32, d: u32) -> int {
    let yi = (y as i32) as int;
    let mi = (m as i32) as int;
    let di = (d as i32) as int;
    let a = tdiv(14 - mi, 12);
    let y2 = yi + 4800 - a;
    let m2 = mi + 12 * a - 3;
    di + tdiv(153 * m2 + 2, 5) + 365 * y2 + tdiv(y2, 4) - tdiv(y2, 100) + tdiv(y2, 400) - 32045
}

/// Days from 1970-01-01 to the date, as a `u32` (wrapping below 1970).
pub open spec fn spec_days_since_epoch(y: u32, m: u32, d: u32) -> u32 {
    (spec_jdn(y, m, d) - 2440588) as u32
}

/// Days from 1970-01-01 to year `y`, month `m`, day `d`.
pub fn days_since_epoch(y: u32, m: u32, d: u32) -> (r: u32)
    requires
        days_defined(y, m, d),
    ensures
        r == spec_days_since_epoch(y, m, d),
{
    let y = y as i32;
    let m = m as i32;
    let d = d as i32;
    let a = tdiv_i32(14 - m, 12);
    let y2 = y + 4800 - a;
    let m2 = m + 12 * a - 3;
    let jdn = d + tdiv_i32(153 * m2 + 2, 5) + 365 * y2 + tdiv_i32(y2, 4) - tdiv_i32(y2, 100)
        + tdiv_i32(y2, 400) - 32045;
    (jdn - 2440588) as u32
}

/// Whether `days_since_epoch(y, m, d)` stays within `i32` arithmetic.
pub fn days_is_defined(y: u32, m: u32, d: u32) -> (r: bool)
    ensures
        r == days_defined(y, m, d),
{
    let yi = (y as i32) as i64;
    let mi = (m as i32) as i64;
    let di = (d as i32) as i64;
    let lo: i64 = i32::MIN as i64;
    let hi: i64 = i32::MAX as i64;
    let t = 14 - mi;
    if !(lo <= t && t <= hi) {
        return false;
    }
    let a = tdiv_i32(t as i32, 12) as i64;
    let y4800 = yi + 4800;
    let y2 = y4800 - a;
    let a12 = 12 * a;
    let ma = mi + a12;
    let m2 = ma - 3;
    if !(lo <= y4800 && y4800 <= hi && lo <= y2 && y2 <= hi && lo <= a12 && a12 <= hi && lo <= ma
        && ma <= hi && lo <= m2 && m2 <= hi) {
        return false;
    }
    let m153 = 153 * m2;
    let m153p = m153 + 2;
    let y365 = 365 * y2;
    if !(lo <= m153 && m153 <= hi && lo <= m153p && m153p <= hi && lo <= y365 && y365 <= hi) {
        return false;
    }
    let q = tdiv_i32(m153p as i32, 5) as i64;
    let s1 = di + q;
    let s2 = s1 + y365;
    let s3 = s2 + tdiv_i32(y2 as i32, 4) as i64;
    let s4 = s3 - tdiv_i32(y2 as i32, 100) as i64;
    let s5 = s4 + tdiv_i32(y2 as i32, 400) as i64;
    let s6 = s5 - 32045;
    let s7 = s6 - 2440588;
    lo <= s1 && s1 <= hi && lo <= s2 && s2 <= hi && lo <= s3 && s3 <= hi && lo <= s4 && s4 <= hi
        && lo <= s5 && s5 <= hi && lo <= s6 && s6 <= hi && lo <= s7 && s7 <= hi
}

/// `(hour of day, day of week)` of `secs` seconds after 1970-01-01T00:00:00;
/// Monday is 0 and Sunday 6.
pub open spec fn spec_hour_weekday(secs: u64) -> (u8, u8) {
    let days = secs / 86400;
    (((secs % 86400) / 3600) as u8, (((days + 4) % 7 + 6) % 7) as u8)
}

/// Hour of day and day of week (Monday = 0) of `secs` seconds since 1970.
pub fn hour_weekday(secs: u64) -> (r: (u8, u8))
    ensures
        r == spec_hour_weekday(secs),
        r.0 < 24,
        r.1 < 7,
{
    let hour = ((secs % 86400) / 3600) as u8;
    let days = secs / 86400;
    let go_weekday = (days + 4) % 7;
    let weekday = (go_weekday + 6) % 7;
    (hour, weekday as u8)
}

/// `s` without its trailing `Z`s.
pub open spec fn strip_trailing_z(s: Seq<u8>) -> Seq<u8>
    decreases s.len(),
{
    if s.len() > 0 && s.last() == 90 {
        strip_trailing_z(s.drop_last())
    } else {
        s
    }
}

/// `"+00:00"`.
pub open spec fn spec_utc_offset() -> Seq<u8> {
    seq![43u8, 48u8, 48u8, 58u8, 48u8, 48u8]
}

/// `s` without its trailing `"+00:00"`s.
pub open spec fn strip_utc_offset(s: Seq<u8>) -> Seq<u8>
    decreases s.len(),
{
    if s.len() >= 6 && s.subrange(s.len() - 6, s.len() as int) == spec_utc_offset() {
        strip_utc_offset(s.subrange(0, s.len() - 6))
    } else {
        s
    }
}

/// Index of the first `b` in `s` at or after `i`.
pub open spec fn index_of(s: Seq<u8>, b: u8, i: int) -> Option<int>
    decreases s.len() - i,
{
    if i < 0 || i >= s.len() {
        None
    } else if s[i] == b {
        Some(i)
    } else {
        index_of(s, b, i + 1)
    }
}

/// The `u32` fields of `s` separated by `sep`, read left to right; the first
/// field that fails decides the error.
pub open spec fn spec_fields(s: Seq<u8>, sep: u8) -> Result<Seq<u32>, IntErrorKind>
    decreases s.len(),
{
    match index_of(s, sep, 0) {
        None => match spec_parse_u32(s) {
            Ok(v) => Ok(seq![v]),
            Err(e) => Err(e),
        },
        Some(i) => match spec_parse_u32(s.subrange(0, i)) {
            Err(e) => Err(e),
            Ok(v) => {
                proof {
                    lemma_index_of_bounds(s, sep, 0);
                }
                match spec_fields(s.subrange(i + 1, s.len() as int), sep) {
                    Ok(vs) => Ok(seq![v] + vs),
                    Err(e) => Err(e),
                }
            },
        },
    }
}

pub proof fn lemma_index_of_bounds(s: Seq<u8>, b: u8, i: int)
    ensures
        index_of(s, b, i) matches Some(k) ==> i <= k < s.len() && s[k] == b,
        index_of(s, b, i) is None && i >= 0 ==> forall|k: int| i <= k < s.len() ==> s[k] != b,
    decreases s.len() - i,
{
    if i < 0 || i >= s.len() {
    } else if s[i] == b {
    } else {
        lemma_index_of_bounds(s, b, i + 1);
    }
}

/// Seconds since 1970 of `date` (year, month, day) and `time` (h, m, s).
pub open spec fn spec_seconds(date: Seq<u32>, time: Seq<u32>) -> u64 {
    (spec_days_since_epoch(date[0], date[1], date[2]) as int * 86400 + time[0] as int * 3600
        + time[1] as int * 60 + time[2] as int) as u64
}

/// The date and time text of `s` around its only `T`, once trailing `Z`s and
/// `"+00:00"`s are removed; `None` where there is not exactly one `T`.
pub open spec fn spec_split_t(s: Seq<u8>) -> Option<(Seq<u8>, Seq<u8>)> {
    let t = strip_utc_offset(strip_trailing_z(s));
    match index_of(t, 84, 0) {
        None => None,
        Some(i) => if index_of(t, 84, i + 1) is Some {
            None
        } else {
            Some((t.subrange(0, i), t.subrange(i + 1, t.len() as int)))
        },
    }
}

/// What `parse_rfc3339` gives for `s`.
pub open spec fn spec_parse_rfc3339(s: Seq<u8>) -> Result<u64, TimestampError> {
    match spec_split_t(s) {
        None => Err(TimestampError::InvalidFormat),
        Some((dt, tm)) => match spec_fields(dt, 45) {
            Err(e) => Err(TimestampError::ParseInt(e)),
            Ok(date) => match spec_fields(tm, 58) {
                Err(e) => Err(TimestampError::ParseInt(e)),
                Ok(time) => if date.len() != 3 || time.len() != 3 {
                    Err(TimestampError::InvalidParts)
                } else {
                    Ok(spec_seconds(date, time))
                },
            },
        },
    }
}

/// Reading `s` does not reach the `i32` overflow of `days_since_epoch`.
pub open spec fn rfc3339_defined(s: Seq<u8>) -> bool {
    match spec_split_t(s) {
        Some((dt, tm)) => match (spec_fields(dt, 45), spec_fields(tm, 58)) {
            (Ok(date), Ok(time)) => date.len() == 3 && time.len() == 3 ==> days_defined(
                date[0],
                date[1],
                date[2],
            ),
            _ => true,
        },
        None => true,
    }
}

/// The `u32` fields of `s[from..to]` separated by `sep`.
fn parse_fields(s: &[u8], from: usize, to: usize, sep: u8) -> (r: Result<Vec<u32>, IntErrorKind>)
    requires
        from <= to <= s@.len(),
    ensures
        match r {
            Ok(v) => spec_fields(s@.subrange(from as int, to as int), sep) == Ok::<
                Seq<u32>,
                IntErrorKind,
            >(v@),
            Err(e) => spec_fields(s@.subrange(from as int, to as int), sep) == Err::<
                Seq<u32>,
                IntErrorKind,
            >(e),
        },
    decreases to - from,
{
    let ghost seg = s@.subrange(from as int, to as int);
    let mut j = from;
    while j < to && s[j] != sep
        invariant
            from <= j <= to <= s@.len(),
            seg == s@.subrange(from as int, to as int),
            index_of(seg, sep, 0) == index_of(seg, sep, j - from),
        decreases to - j,
    {
        assert(seg[j - from] == s@[j as int]);
        j += 1;
    }
    if j < to {
        assert(seg[j - from] == s@[j as int]);
    }
    assert(seg.subrange(0, j - from) =~= s@.subrange(from as int, j as int));
    let v = match parse_u32(s, from, j) {
        Ok(v) => v,
        Err(e) => {
            return Err(e);
        },
    };
    if j == to {
        assert(index_of(seg, sep, j - from) is None);
        assert(seg.subrange(0, j - from) =~= seg);
        let mut out: Vec<u32> = Vec::new();
        out.push(v);
        assert(out@ =~= seq![v]);
        return Ok(out);
    }
    assert(seg.subrange(j - from + 1, seg.len() as int) =~= s@.subrange(j + 1, to as int));
    match parse_fields(s, j + 1, to, sep) {
        Ok(rest) => {
            let mut out: Vec<u32> = Vec::new();
            out.push(v);
            let mut k: usize = 0;
            while k < rest.len()
                invariant
                    k <= rest@.len(),
                    out@ == seq![v] + rest@.take(k as int),
                decreases rest@.len() - k,
            {
                out.push(rest[k]);
                k += 1;
                assert(out@ =~= seq![v] + rest@.take(k as int));
            }
            assert(rest@.take(k as int) =~= rest@);
            Ok(out)
        },
        Err(e) => Err(e),
    }
}

/// Seconds since 1970 of an RFC 3339 UTC timestamp `YYYY-MM-DDTHH:MM:SS`
/// (trailing `Z`s and `+00:00`s ignored).
/// `None` exactly where the fixed-width arithmetic of the computation would
/// overflow (see `rfc3339_defined`).
#[verifier::spinoff_prover]
#[verifier::rlimit(40)]
pub fn parse_rfc3339_checked(s: &[u8]) -> (r: Option<Result<u64, TimestampError>>)
    ensures
        r is None <==> !rfc3339_defined(s@),
        r matches Some(x) ==> x == spec_parse_rfc3339(s@),
{
    // trim_end_matches('Z')
    let mut end = s.len();
    assert(s@.subrange(0, end as int) =~= s@);
    while end > 0 && s[end - 1] == 90
        invariant
            end <= s@.len(),
            strip_trailing_z(s@) == strip_trailing_z(s@.subrange(0, end as int)),
        decreases end,
    {
        assert(s@.subrange(0, end as int).drop_last() =~= s@.subrange(0, end - 1));
        end -= 1;
    }
    assert(s@.subrange(0, end as int) == strip_trailing_z(s@)) by {
        if end > 0 {
            assert(s@.subrange(0, end as int).last() == s@[end - 1]);
        }
    }
    // trim_end_matches("+00:00")
    while end >= 6 && s[end - 6] == 43 && s[end - 5] == 48 && s[end - 4] == 48 && s[end - 3]
        == 58 && s[end - 2] == 48 && s[end - 1] == 48
        invariant
            end <= s@.len(),
            strip_utc_offset(strip_trailing_z(s@)) == strip_utc_offset(
                s@.subrange(0, end as int),
            ),
        decreases end,
    {
        assert(s@.subrange(0, end as int).subrange(end - 6, end as int) =~= spec_utc_offset());
        assert(s@.subrange(0, end as int).subrange(0, end - 6) =~= s@.subrange(0, end - 6));
        end -= 6;
    }
    let ghost t = s@.subrange(0, end as int);
    assert(strip_utc_offset(t) == t) by {
        if t.len() >= 6 && t.subrange(t.len() - 6, t.len() as int) == spec_utc_offset() {
            assert(t.subrange(t.len() - 6, t.len() as int)[0] == s@[end - 6]);
            assert(t.subrange(t.len() - 6, t.len() as int)[1] == s@[end - 5]);
            assert(t.subrange(t.len() - 6, t.len() as int)[2] == s@[end - 4]);
            assert(t.subrange(t.len() - 6, t.len() as int)[3] == s@[end - 3]);
            assert(t.subrange(t.len() - 6, t.len() as int)[4] == s@[end - 2]);
            assert(t.subrange(t.len() - 6, t.len() as int)[5] == s@[end - 1]);
        }
    }
    // split('T') into exactly two parts
    let mut i: usize = 0;
    while i < end && s[i] != 84
        invariant
            i <= end <= s@.len(),
            t == s@.subrange(0, end as int),
            index_of(t, 84, 0) == index_of(t, 84, i as int),
        decreases end - i,
    {
        assert(t[i as int] == s@[i as int]);
        i += 1;
    }
    if i == end {
        return Some(Err(TimestampError::InvalidFormat));
    }
    assert(t[i as int] == s@[i as int]);
    let mut k = i + 1;
    while k < end && s[k] != 84
        invariant
            i < k <= end <= s@.len(),
            t == s@.subrange(0, end as int),
            index_of(t, 84, i + 1) == index_of(t, 84, k as int),
        decreases end - k,
    {
        assert(t[k as int] == s@[k as int]);
        k += 1;
    }
    if k < end {
        assert(t[k as int] == s@[k as int]);
        return Some(Err(TimestampError::InvalidFormat));
    }
    assert(t.subrange(0, i as int) =~= s@.subrange(0, i as int));
    assert(t.subrange(i + 1, t.len() as int) =~= s@.subrange(i + 1, end as int));
    let date = match parse_fields(s, 0, i, 45) {
        Ok(d) => d,
        Err(e) => {
            return Some(Err(TimestampError::ParseInt(e)));
        },
    };
    let time = match parse_fields(s, i + 1, end, 58) {
        Ok(t) => t,
        Err(e) => {
            return Some(Err(TimestampError::ParseInt(e)));
        },
    };
    if date.len() != 3 || time.len() != 3 {
        return Some(Err(TimestampError::InvalidParts));
    }
    if !days_is_defined(date[0], date[1], date[2]) {
        return None;
    }
    let days = days_since_epoch(date[0], date[1], date[2]);
    Some(Ok(days as u64 * 86400 + time[0] as u64 * 3600 + time[1] as u64 * 60 + time[2] as u64))
}

/// Seconds since 1970 of an RFC 3339 UTC timestamp `YYYY-MM-DDTHH:MM:SS`
/// (trailing `Z`s and `+00:00`s ignored).
pub fn parse_rfc3339(s: &[u8]) -> (r: Result<u64, TimestampError>)
    requires
        rfc3339_defined(s@),
    ensures
        r == spec_parse_rfc3339(s@),
{
    parse_rfc3339_checked(s).unwrap()
}

#[verifier::spinoff_prover]
#[verifier::rlimit(30)]
proof fn lemma_leap_count_step(y: int)
    requires
        y >= 1,
    ensures
        y / 4 - y / 100 + y / 400 == (y - 1) / 4 - (y - 1) / 100 + (y - 1) / 400 + if spec_is_leap(
            y,
        ) {
            1int
        } else {
            0int
        },
{
    lemma_div_step(y, 4);
    lemma_div_step(y, 100);
    lemma_div_step(y, 400);
}

/// Going from `y - 1` to `y` raises `y / b` by one exactly at multiples of `b`.
proof fn lemma_div_step(y: int, b: int)
    requires
        y >= 1,
        b >= 1,
    ensures
        y / b == (y - 1) / b + if y % b == 0 {
            1int
        } else {
            0int
        },
{
    vstd::arithmetic::div_mod::lemma_fundamental_div_mod(y, b);
    vstd::arithmetic::div_mod::lemma_fundamental_div_mod(y - 1, b);
    let q = y / b;
    let r = y % b;
    if r == 0 {
        assert(y - 1 == (q - 1) * b + (b - 1)) by (nonlinear_arith)
            requires
                y == b * q + r,
                r == 0,
        ;
        vstd::arithmetic::div_mod::lemma_fundamental_div_mod_converse(y - 1, b, q - 1, b - 1);
    } else {
        assert(y - 1 == q * b + (r - 1)) by (nonlinear_arith)
            requires
                y == b * q + r,
        ;
        vstd::arithmetic::div_mod::lemma_fundamental_div_mod_converse(y - 1, b, q, r - 1);
    }
}

#[verifier::spinoff_prover]
#[verifier::rlimit(30)]
proof fn lemma_leap_count_shift(x: int)
    requires
        x >= 0,
    ensures
        leap_count(x + 4800) == leap_count(x) + 1164,
{
    assert((x + 4800) / 4 == x / 4 + 1200) by {
        vstd::arithmetic::div_mod::lemma_fundamental_div_mod(x, 4);
        vstd::arithmetic::div_mod::lemma_fundamental_div_mod_converse(x + 4800, 4, x / 4 + 1200, x % 4);
    }
    assert((x + 4800) / 100 == x / 100 + 48) by {
        vstd::arithmetic::div_mod::lemma_fundamental_div_mod(x, 100);
        vstd::arithmetic::div_mod::lemma_fundamental_div_mod_converse(x + 4800, 100, x / 100 + 48, x % 100);
    }
    assert((x + 4800) / 400 == x / 400 + 12) by {
        vstd::arithmetic::div_mod::lemma_fundamental_div_mod(x, 400);
        vstd::arithmetic::div_mod::lemma_fundamental_div_mod_converse(x + 4800, 400, x / 400 + 12, x % 400);
    }
}

/// The Julian-day count of `days_since_epoch` and the calendar count of
/// `to_epoch` agree on every date from 1970 to 9999: both give the days since
/// 1970-01-01.
pub proof fn lemma_days_agree(y: int, m: int, d: int)
    requires
        1970 <= y <= 9999,
        1 <= m <= 12,
        1 <= d <= 31,
    ensures
        spec_jdn(y as u32, m as u32, d as u32) - 2440588 == spec_epoch_days(y, m, d),
        spec_days_since_epoch(y as u32, m as u32, d as u32) == spec_epoch_days(y, m, d),
{
    lemma_jdn_days(y, m, d);
    reveal_with_fuel(days_before_month, 13);
    assert((y as u32) as i32 == y);
    assert((m as u32) as i32 == m);
    assert((d as u32) as i32 == d);
    lemma_leap_count_step(y);
    lemma_leap_count_shift(y);
    lemma_leap_count_shift(y - 1);
    let leap = spec_is_leap(y);
    assert(leap_count(1969) == 477);
    if m <= 2 {
        assert(tdiv(14 - m, 12) == 1);
        let y2 = y + 4799;
        assert(tdiv(y2, 4) - tdiv(y2, 100) + tdiv(y2, 400) == leap_count(y - 1) + 1164);
        if m == 1 {
            assert(tdiv(1532int, 5) == 306);
        } else {
            assert(tdiv(1685int, 5) == 337);
        }
    } else {
        assert(tdiv(14 - m, 12) == 0);
        let y2 = y + 4800;
        assert(tdiv(y2, 4) - tdiv(y2, 100) + tdiv(y2, 400) == leap_count(y) + 1164);
        assert(days_before_month(3, leap) == 59 + if leap { 1int } else { 0int });
        let m2 = m - 3;
        if m == 3 {
            assert(tdiv(153 * m2 + 2, 5) == 0);
        } else if m == 4 {
            assert(tdiv(153 * m2 + 2, 5) == 31);
        } else if m == 5 {
            assert(tdiv(153 * m2 + 2, 5) == 61);
        } else if m == 6 {
            assert(tdiv(153 * m2 + 2, 5) == 92);
        } else if m == 7 {
            assert(tdiv(153 * m2 + 2, 5) == 122);
        } else if m == 8 {
            assert(tdiv(153 * m2 + 2, 5) == 153);
        } else if m == 9 {
            assert(tdiv(153 * m2 + 2, 5) == 184);
        } else if m == 10 {
            assert(tdiv(153 * m2 + 2, 5) == 214);
        } else if m == 11 {
            assert(tdiv(153 * m2 + 2, 5) == 245);
        } else {
            assert(tdiv(153 * m2 + 2, 5) == 275);
        }
    }
}

/// The Julian-day number of a date from 1970 on, less the epoch, is not
/// negative, and it is what `days_since_epoch` returns.
proof fn lemma_jdn_days(y: int, m: int, d: int)
    requires
        1970 <= y <= 9999,
        1 <= m <= 12,
        1 <= d <= 31,
    ensures
        days_defined(y as u32, m as u32, d as u32),
        spec_jdn(y as u32, m as u32, d as u32) - 2440588 >= 0,
        spec_days_since_epoch(y as u32, m as u32, d as u32) == spec_jdn(
            y as u32,
            m as u32,
            d as u32,
        ) - 2440588,
{
    assert((y as u32) as i32 == y);
    assert((m as u32) as i32 == m);
    assert((d as u32) as i32 == d);
    let a = tdiv(14 - m, 12);
    assert(a == 0 || a == 1);
    let y2 = y + 4800 - a;
    let m2 = m + 12 * a - 3;
    assert(0 <= m2 <= 11);
    assert(tdiv(153 * m2 + 2, 5) == (153 * m2 + 2) / 5);
    assert(0 <= (153 * m2 + 2) / 5 <= 337);
    assert(tdiv(y2, 4) == y2 / 4 && tdiv(y2, 100) == y2 / 100 && tdiv(y2, 400) == y2 / 400);
}

proof fn lemma_split_seconds(dd: int, h: int, mi: int, s: int)
    requires
        dd >= 0,
        0 <= h < 24,
        0 <= mi < 60,
        0 <= s < 60,
    ensures
        (dd * 86400 + h * 3600 + mi * 60 + s) / 86400 == dd,
        ((dd * 86400 + h * 3600 + mi * 60 + s) % 86400) / 3600 == h,
{
    let t = h * 3600 + mi * 60 + s;
    assert(0 <= t < 86400);
    vstd::arithmetic::div_mod::lemma_fundamental_div_mod_converse(dd * 86400 + t, 86400, dd, t);
    assert(t / 3600 == h);
}

/// The Julian-day count, shifted by four days, and Sakamoto's sum agree
/// modulo 7.
proof fn lemma_weekday_mod7(y: int, m: int, d: int)
    requires
        1970 <= y <= 9999,
        1 <= m <= 12,
        1 <= d <= 31,
    ensures
        ({
            let yy = if m < 3 {
                y - 1
            } else {
                y
            };
            let x = yy + tdiv(yy, 4) - tdiv(yy, 100) + tdiv(yy, 400) + month_offset(m) + d;
            (spec_jdn(y as u32, m as u32, d as u32) - 2440588 + 4) % 7 == x % 7
        }),
{
    assert((y as u32) as i32 == y);
    assert((m as u32) as i32 == m);
    assert((d as u32) as i32 == d);
    let dd = spec_jdn(y as u32, m as u32, d as u32) - 2440588;
    let yy = if m < 3 {
        y - 1
    } else {
        y
    };
    lemma_leap_count_shift(yy);
    let x = yy + tdiv(yy, 4) - tdiv(yy, 100) + tdiv(yy, 400) + month_offset(m) + d;
    assert(tdiv(yy, 4) == yy / 4 && tdiv(yy, 100) == yy / 100 && tdiv(yy, 400) == yy / 400);
    let a = tdiv(14 - m, 12);
    let c = tdiv(153 * (m + 12 * a - 3) + 2, 5);
    if m <= 2 {
        assert(a == 1);
        assert(yy + 4800 == y + 4800 - a);
    } else {
        assert(a == 0);
    }
    let y2 = yy + 4800;
    assert(tdiv(y2, 4) == y2 / 4 && tdiv(y2, 100) == y2 / 100 && tdiv(y2, 400) == y2 / 400);
    assert(dd == d + c + 365 * y2 + leap_count(y2) - 2472633);
    let r = c - month_offset(m) - 719465;
    if m == 1 {
        assert(c == 306);
    } else if m == 2 {
        assert(c == 337);
    } else if m == 3 {
        assert(c == 0);
    } else if m == 4 {
        assert(c == 31);
    } else if m == 5 {
        assert(c == 61);
    } else if m == 6 {
        assert(c == 92);
    } else if m == 7 {
        assert(c == 122);
    } else if m == 8 {
        assert(c == 153);
    } else if m == 9 {
        assert(c == 184);
    } else if m == 10 {
        assert(c == 214);
    } else if m == 11 {
        assert(c == 245);
    } else {
        assert(c == 275);
    }
    assert(r % 7 == 0);
    let k = 52 * yy + r / 7;
    assert(dd + 4 == x + 7 * k);
    vstd::arithmetic::div_mod::lemma_mod_multiples_vanish(k, x, 7);
}

/// The day of week that `hour_weekday` reads from the seconds of a date and
/// time (as `parse_rfc3339` counts them) is the one Sakamoto's method gives
/// for that date (as `parse_timestamp` computes it), and so is the hour.
pub proof fn lemma_weekday_agree(y: int, m: int, d: int, h: int, mi: int, s: int)
    requires
        1970 <= y <= 9999,
        1 <= m <= 12,
        1 <= d <= 31,
        0 <= h < 24,
        0 <= mi < 60,
        0 <= s < 60,
    ensures
        ({
            let secs = spec_seconds(
                seq![y as u32, m as u32, d as u32],
                seq![h as u32, mi as u32, s as u32],
            );
            spec_hour_weekday(secs) == (h as u8, spec_day_of_week(y, m, d) as u8)
        }),
{
    lemma_jdn_days(y, m, d);
    lemma_weekday_mod7(y, m, d);
    let dd = spec_jdn(y as u32, m as u32, d as u32) - 2440588;
    lemma_split_seconds(dd, h, mi, s);
    let secs = spec_seconds(seq![y as u32, m as u32, d as u32], seq![h as u32, mi as u32, s as u32]);
    assert(secs == dd * 86400 + h * 3600 + mi * 60 + s);
}

/// A timestamp `YYYY-MM-DDTHH:MM:SS` of the years 1970 to 9999 in a request
/// body reads as its Unix time, as the Julian-day count gives it, with its
/// hour, and with the day of week of that Unix time.
pub proof fn lemma_parse_timestamp_unix(buf: Seq<u8>, pos: int)
    requires
        0 <= pos,
        ({
            let s = timestamp_start(buf, pos);
            &&& s + 19 <= buf.len()
            &&& 1970 <= spec_digits4(buf, s) <= 9999
            &&& 1 <= spec_digits2(buf, s + 5) <= 12
            &&& 1 <= spec_digits2(buf, s + 8) <= 31
            &&& 0 <= spec_digits2(buf, s + 11) < 24
            &&& 0 <= spec_digits2(buf, s + 14) < 60
            &&& 0 <= spec_digits2(buf, s + 17) < 60
        }),
    ensures
        ({
            let s = timestamp_start(buf, pos);
            let y = spec_digits4(buf, s);
            let m = spec_digits2(buf, s + 5);
            let d = spec_digits2(buf, s + 8);
            let h = spec_digits2(buf, s + 11);
            let secs = spec_days_since_epoch(y as u32, m as u32, d as u32) * 86400 + h * 3600
                + spec_digits2(buf, s + 14) * 60 + spec_digits2(buf, s + 17);
            let r = spec_parse_timestamp(buf, pos);
            &&& r.2 == secs
            &&& r.0 == h
            &&& r.1 == spec_hour_weekday(secs as u64).1
        }),
{
    let s = timestamp_start(buf, pos);
    let y = spec_digits4(buf, s);
    let m = spec_digits2(buf, s + 5);
    let d = spec_digits2(buf, s + 8);
    let h = spec_digits2(buf, s + 11);
    let mi = spec_digits2(buf, s + 14);
    let sec = spec_digits2(buf, s + 17);
    lemma_days_agree(y, m, d);
    lemma_weekday_agree(y, m, d, h, mi, sec);
    lemma_jdn_days(y, m, d);
    assert(spec_seconds(seq![y as u32, m as u32, d as u32], seq![h as u32, mi as u32, sec as u32])
        == (spec_days_since_epoch(y as u32, m as u32, d as u32) * 86400 + h * 3600 + mi * 60
        + sec) as u64);
}

proof fn lemma_pow10_pos(n: nat)
    ensures
        pow10(n) >= 1,
    decreases n,
{
    if n > 0 {
        lemma_pow10_pos((n - 1) as nat);
    }
}

/// Reading the digits of `s` from `i` on into `acc`, where the result fits,
/// gives `acc` shifted past them plus their value.
proof fn lemma_accumulate_digits(s: Seq<u8>, i: int, acc: int)
    requires
        0 <= i <= s.len(),
        all_digits(s),
        acc >= 0,
        acc * pow10((s.len() - i) as nat) + digits_value(s.subrange(i, s.len() as int)) <= u32::MAX,
    ensures
        accumulate_u32(s, i, acc) == Ok::<u32, IntErrorKind>(
            (acc * pow10((s.len() - i) as nat) + digits_value(s.subrange(i, s.len() as int))) as u32,
        ),
    decreases s.len() - i,
{
    let rest = s.subrange(i, s.len() as int);
    if i == s.len() {
        assert(rest =~= Seq::<u8>::empty());
    } else {
        let d = s[i];
        assert(48 <= d <= 57);
        let tail = s.subrange(i + 1, s.len() as int);
        assert(rest =~= seq![d] + tail);
        lemma_digits_value_concat(seq![d], tail, d);
        let k = (s.len() - i - 1) as nat;
        assert(pow10((s.len() - i) as nat) == 10 * pow10(k));
        assert(all_digits(tail));
        lemma_digits_value_nonneg(tail);
        lemma_pow10_pos(k);
        let next = acc * 10 + (d - 48);
        assert(acc * (10 * pow10(k)) + ((d - 48) * pow10(k) + digits_value(tail)) == next * pow10(k)
            + digits_value(tail)) by (nonlinear_arith)
            requires
                next == acc * 10 + (d - 48),
        ;
        assert(next <= next * pow10(k)) by (nonlinear_arith)
            requires
                next >= 0,
                pow10(k) >= 1,
        ;
        lemma_accumulate_digits(s, i + 1, next);
    }
}

/// A non-empty run of decimal digits whose value fits a `u32` parses as that
/// value.
pub proof fn lemma_parse_u32_digits(s: Seq<u8>)
    requires
        s.len() > 0,
        all_digits(s),
        digits_value(s) <= u32::MAX,
    ensures
        spec_parse_u32(s) == Ok::<u32, IntErrorKind>(digits_value(s) as u32),
{
    assert(s[0] != 43);
    assert(s.subrange(0, s.len() as int) =~= s);
    lemma_pow10_pos(s.len());
    lemma_accumulate_digits(s, 0, 0);
}

proof fn lemma_digits_value_bound(s: Seq<u8>)
    requires
        all_digits(s),
    ensures
        0 <= digits_value(s) < pow10(s.len()),
    decreases s.len(),
{
    if s.len() > 0 {
        let r = s.drop_last();
        assert(all_digits(r));
        lemma_digits_value_bound(r);
        assert(48 <= s[s.len() - 1] <= 57);
        assert(pow10(s.len()) == 10 * pow10(r.len()));
        assert(digits_value(r) * 10 + (s.last() - 48) < 10 * pow10(r.len())) by (nonlinear_arith)
            requires
                0 <= digits_value(r) < pow10(r.len()),
                0 <= s.last() - 48 <= 9,
        ;
    }
}

proof fn lemma_index_of_at(s: Seq<u8>, b: u8, i: int, j: int)
    requires
        0 <= i <= j < s.len(),
        s[j] == b,
        forall|k: int| i <= k < j ==> s[k] != b,
    ensures
        index_of(s, b, i) == Some(j),
    decreases j - i,
{
    if i < j {
        lemma_index_of_at(s, b, i + 1, j);
    }
}

proof fn lemma_index_of_none(s: Seq<u8>, b: u8, i: int)
    requires
        0 <= i,
        forall|k: int| i <= k < s.len() ==> s[k] != b,
    ensures
        index_of(s, b, i) is None,
    decreases s.len() - i,
{
    if i < s.len() {
        lemma_index_of_none(s, b, i + 1);
    }
}

/// A field of `n` decimal digits, for `n` up to 9, parses as its value.
proof fn lemma_parse_short_digits(s: Seq<u8>)
    requires
        0 < s.len() <= 9,
        all_digits(s),
    ensures
        spec_parse_u32(s) == Ok::<u32, IntErrorKind>(digits_value(s) as u32),
        0 <= digits_value(s) < 1_000_000_000,
{
    lemma_digits_value_bound(s);
    reveal_with_fuel(pow10, 10);
    assert(pow10(s.len()) <= 1_000_000_000) by {
        let n = s.len();
        assert(pow10(9) == 1_000_000_000);
        lemma_pow10_mono(n, 9);
    }
    lemma_parse_u32_digits(s);
}

proof fn lemma_pow10_mono(a: nat, b: nat)
    requires
        a <= b,
    ensures
        pow10(a) <= pow10(b),
    decreases b - a,
{
    if a < b {
        lemma_pow10_mono(a, (b - 1) as nat);
        lemma_pow10_pos((b - 1) as nat);
    }
}

/// Three digit fields separated by `sep` read as their three values.
proof fn lemma_fields3(x: Seq<u8>, sep: u8, i: int, j: int)
    requires
        !(48 <= sep <= 57),
        0 < i,
        i + 1 < j,
        j + 1 < x.len(),
        i <= 9 && j - i - 1 <= 9 && x.len() - j - 1 <= 9,
        x[i] == sep,
        x[j] == sep,
        all_digits(x.subrange(0, i)),
        all_digits(x.subrange(i + 1, j)),
        all_digits(x.subrange(j + 1, x.len() as int)),
    ensures
        spec_fields(x, sep) == Ok::<Seq<u32>, IntErrorKind>(
            seq![
                digits_value(x.subrange(0, i)) as u32,
                digits_value(x.subrange(i + 1, j)) as u32,
                digits_value(x.subrange(j + 1, x.len() as int)) as u32
            ],
        ),
{
    let a = x.subrange(0, i);
    let r1 = x.subrange(i + 1, x.len() as int);
    let b = x.subrange(i + 1, j);
    let c = x.subrange(j + 1, x.len() as int);
    assert forall|k: int| 0 <= k < i implies x[k] != sep by {
        assert(a[k] == x[k]);
    }
    lemma_index_of_at(x, sep, 0, i);
    lemma_parse_short_digits(a);
    let j1 = j - i - 1;
    assert forall|k: int| 0 <= k < j1 implies r1[k] != sep by {
        assert(b[k] == r1[k]);
    }
    lemma_index_of_at(r1, sep, 0, j1);
    assert(r1.subrange(0, j1) =~= b);
    lemma_parse_short_digits(b);
    let r2 = r1.subrange(j1 + 1, r1.len() as int);
    assert(r2 =~= c);
    assert forall|k: int| 0 <= k < c.len() implies c[k] != sep by {}
    lemma_index_of_none(c, sep, 0);
    lemma_parse_short_digits(c);
    assert(spec_fields(c, sep) == Ok::<Seq<u32>, IntErrorKind>(seq![digits_value(c) as u32]));
    assert(spec_fields(r1, sep) == Ok::<Seq<u32>, IntErrorKind>(
        seq![digits_value(b) as u32] + seq![digits_value(c) as u32],
    ));
    assert(seq![digits_value(a) as u32] + (seq![digits_value(b) as u32] + seq![digits_value(c) as u32])
        =~= seq![digits_value(a) as u32, digits_value(b) as u32, digits_value(c) as u32]);
}

/// `s` is `YYYY-MM-DDTHH:MM:SSZ` with digits where the digits go.
pub open spec fn rfc3339_utc_text(s: Seq<u8>) -> bool {
    &&& s.len() == 20
    &&& all_digits(s.subrange(0, 4))
    &&& s[4] == 45u8
    &&& all_digits(s.subrange(5, 7))
    &&& s[7] == 45u8
    &&& all_digits(s.subrange(8, 10))
    &&& s[10] == 84u8
    &&& all_digits(s.subrange(11, 13))
    &&& s[13] == 58u8
    &&& all_digits(s.subrange(14, 16))
    &&& s[16] == 58u8
    &&& all_digits(s.subrange(17, 19))
    &&& s[19] == 90u8
}

/// A timestamp `YYYY-MM-DDTHH:MM:SSZ` reads as the seconds of its date,
/// counted by the Julian-day number, and of its time of day.
pub proof fn lemma_parse_rfc3339_text(s: Seq<u8>)
    requires
        rfc3339_utc_text(s),
    ensures
        ({
            let y = digits_value(s.subrange(0, 4)) as u32;
            let m = digits_value(s.subrange(5, 7)) as u32;
            let d = digits_value(s.subrange(8, 10)) as u32;
            let secs = spec_days_since_epoch(y, m, d) as int * 86400 + digits_value(
                s.subrange(11, 13),
            ) * 3600 + digits_value(s.subrange(14, 16)) * 60 + digits_value(s.subrange(17, 19));
            spec_parse_rfc3339(s) == Ok::<u64, TimestampError>(secs as u64)
        }),
{
    let t = s.drop_last();
    assert(t.last() == s[18]);
    assert(s.subrange(17, 19)[1] == s[18]);
    assert(strip_trailing_z(t) == t);
    assert(strip_trailing_z(s) == t);
    assert(t.subrange(13, 19)[0] == 58u8);
    assert(t.subrange(13, 19) != spec_utc_offset());
    assert(strip_utc_offset(t) == t);
    assert forall|k: int| 0 <= k < 10 implies t[k] != 84u8 by {
        if k < 4 {
            assert(s.subrange(0, 4)[k] == s[k]);
        } else if 5 <= k < 7 {
            assert(s.subrange(5, 7)[k - 5] == s[k]);
        } else if 8 <= k < 10 {
            assert(s.subrange(8, 10)[k - 8] == s[k]);
        }
    }
    lemma_index_of_at(t, 84, 0, 10);
    assert forall|k: int| 11 <= k < t.len() implies t[k] != 84u8 by {
        if k < 13 {
            assert(s.subrange(11, 13)[k - 11] == s[k]);
        } else if 14 <= k < 16 {
            assert(s.subrange(14, 16)[k - 14] == s[k]);
        } else if 17 <= k < 19 {
            assert(s.subrange(17, 19)[k - 17] == s[k]);
        }
    }
    lemma_index_of_none(t, 84, 11);
    let dt = t.subrange(0, 10);
    let tm = t.subrange(11, 19);
    assert(dt.subrange(0, 4) =~= s.subrange(0, 4));
    assert(dt.subrange(5, 7) =~= s.subrange(5, 7));
    assert(dt.subrange(8, 10) =~= s.subrange(8, 10));
    assert(tm.subrange(0, 2) =~= s.subrange(11, 13));
    assert(tm.subrange(3, 5) =~= s.subrange(14, 16));
    assert(tm.subrange(6, 8) =~= s.subrange(17, 19));
    lemma_fields3(dt, 45, 4, 7);
    lemma_fields3(tm, 58, 2, 5);
    lemma_parse_short_digits(s.subrange(0, 4));
    lemma_parse_short_digits(s.subrange(5, 7));
    lemma_parse_short_digits(s.subrange(8, 10));
    lemma_parse_short_digits(s.subrange(11, 13));
    lemma_parse_short_digits(s.subrange(14, 16));
    lemma_parse_short_digits(s.subrange(17, 19));
    assert(spec_split_t(s) == Some((dt, tm)));
    let date = seq![
        digits_value(s.subrange(0, 4)) as u32,
        digits_value(s.subrange(5, 7)) as u32,
        digits_value(s.subrange(8, 10)) as u32
    ];
    let time = seq![
        digits_value(s.subrange(11, 13)) as u32,
        digits_value(s.subrange(14, 16)) as u32,
        digits_value(s.subrange(17, 19)) as u32
    ];
    assert(spec_fields(dt, 45) == Ok::<Seq<u32>, IntErrorKind>(date));
    assert(spec_fields(tm, 58) == Ok::<Seq<u32>, IntErrorKind>(time));
    assert(spec_parse_rfc3339(s) == Ok::<u64, TimestampError>(spec_seconds(date, time)));
    assert(time[0] as int == digits_value(s.subrange(11, 13)));
    assert(time[1] as int == digits_value(s.subrange(14, 16)));
    assert(time[2] as int == digits_value(s.subrange(17, 19)));
}

} // verus!
