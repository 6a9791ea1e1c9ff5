//! Calendar arithmetic on `"YYYY-MM-DDTHH:MM:SSZ"` timestamps in a request
//! body: hour of day, day of week (Monday = 0) and seconds since 1970.
use crate::scan::{digits_value, lemma_skip_ws_bounds, skip_ws, spec_skip_ws};
use vstd::prelude::*;

verus! {

/// Integer division rounding toward zero, as Rust's `/` on signed integers.
pub open spec fn tdiv(a: int, b: int) -> int {
    if a >= 0 {
        a / b
    } else {
        -((-a) / b)
    }
}

pub(crate) fn tdiv_i32(a: i32, b: i32) -> (r: i32)
    requires
        b > 0,
        a > i32::MIN,
    ensures
        r == tdiv(a as int, b as int),
{
    if a >= 0 {
        a / b
    } else {
        -((-a) / b)
    }
}

/// Four decimal digits at `b[pos..pos + 4]`, each byte taken as `byte - '0'`.
pub open spec fn spec_digits4(b: Seq<u8>, pos: int) -> int {
    (b[pos] - 48) * 1000 + (b[pos + 1] - 48) * 100 + (b[pos + 2] - 48) * 10 + (b[pos + 3] - 48)
}

/// Two decimal digits at `b[pos..pos + 2]`, each byte taken as `byte - '0'`.
pub open spec fn spec_digits2(b: Seq<u8>, pos: int) -> int {
    (b[pos] - 48) * 10 + (b[pos + 1] - 48)
}

/// The four-digit field does not underflow a `u8` subtraction.
pub open spec fn digits4_defined(b: Seq<u8>, pos: int) -> bool {
    b[pos] >= 48 && b[pos + 1] >= 48 && b[pos + 2] >= 48 && b[pos + 3] >= 48
}

/// The two-digit field stays within `u8` arithmetic.
pub open spec fn digits2_defined(b: Seq<u8>, pos: int) -> bool {
    &&& b[pos] >= 48
    &&& b[pos + 1] >= 48
    &&& (b[pos] - 48) * 10 <= 255
    &&& spec_digits2(b, pos) <= 255
}

/// The two-digit and four-digit fields read the decimal value of their
/// bytes, most significant first.
pub proof fn lemma_digit_fields_value(b: Seq<u8>, pos: int)
    requires
        0 <= pos,
    ensures
        pos + 4 <= b.len() ==> spec_digits4(b, pos) == digits_value(b.subrange(pos, pos + 4)),
        pos + 2 <= b.len() ==> spec_digits2(b, pos) == digits_value(b.subrange(pos, pos + 2)),
{
    if pos + 2 <= b.len() {
        let s2 = b.subrange(pos, pos + 2);
        assert(s2.drop_last() =~= b.subrange(pos, pos + 1));
        assert(b.subrange(pos, pos + 1).drop_last() =~= Seq::<u8>::empty());
        assert(b.subrange(pos, pos + 1).last() == b[pos]);
        assert(s2.last() == b[pos + 1]);
        assert(digits_value(Seq::<u8>::empty()) == 0);
        assert(digits_value(b.subrange(pos, pos + 1)) == b[pos] - 48);
        assert(digits_value(s2) == (b[pos] - 48) * 10 + (b[pos + 1] - 48));
    }
    if pos + 4 <= b.len() {
        let s4 = b.subrange(pos, pos + 4);
        let s3 = b.subrange(pos, pos + 3);
        let s2 = b.subrange(pos, pos + 2);
        let s1 = b.subrange(pos, pos + 1);
        assert(s4.drop_last() =~= s3);
        assert(s3.drop_last() =~= s2);
        assert(s2.drop_last() =~= s1);
        assert(s1.drop_last() =~= Seq::<u8>::empty());
        assert(s1.last() == b[pos] && s2.last() == b[pos + 1] && s3.last() == b[pos + 2]
            && s4.last() == b[pos + 3]);
        assert(digits_value(Seq::<u8>::empty()) == 0);
        assert(digits_value(s1) == b[pos] - 48);
        assert(digits_value(s2) == digits_value(s1) * 10 + (b[pos + 1] - 48));
        assert(digits_value(s3) == digits_value(s2) * 10 + (b[pos + 2] - 48));
        assert(digits_value(s4) == digits_value(s3) * 10 + (b[pos + 3] - 48));
    }
}

/// Reads four digits at `b[pos..pos + 4]`.
pub fn parse_digits4(b: &[u8], pos: usize) -> (r: u32)
    requires
        pos + 4 <= b@.len(),
        digits4_defined(b@, pos as int),
    ensures
        r == spec_digits4(b@, pos as int),
{
    ((b[pos] - 48) as u32) * 1000 + ((b[pos + 1] - 48) as u32) * 100 + ((b[pos + 2] - 48) as u32)
        * 10 + (b[pos + 3] - 48) as u32
}

/// Reads two digits at `b[pos..pos + 2]`.
pub fn parse_digits2(b: &[u8], pos: usize) -> (r: u8)
    requires
        pos + 2 <= b@.len(),
        digits2_defined(b@, pos as int),
    ensures
        r == spec_digits2(b@, pos as int),
{
    (b[pos] - 48) * 10 + (b[pos + 1] - 48)
}

/// Sakamoto's month offsets.
pub open spec fn month_offset(m: int) -> int {
    if m == 1 {
        0
    } else if m == 2 {
        3
    } else if m == 3 {
        2
    } else if m == 4 {
        5
    } else if m == 5 {
        0
    } else if m == 6 {
        3
    } else if m == 7 {
        5
    } else if m == 8 {
        1
    } else if m == 9 {
        4
    } else if m == 10 {
        6
    } else if m == 11 {
        2
    } else {
        4
    }
}

/// Day of week of the date (Monday = 0 .. Sunday = 6) by Sakamoto's method.
pub open spec fn spec_day_of_week(y: int, m: int, d: int) -> int {
    let yy = if m < 3 {
        y - 1
    } else {
        y
    };
    let s = (yy + tdiv(yy, 4) - tdiv(yy, 100) + tdiv(yy, 400) + month_offset(m) + d) % 7;
    if s == 0 {
        6
    } else {
        s - 1
    }
}

/// The running sums of Sakamoto's method, taken left to right in `i32`,
/// stay within `i32`, and `m` names a month.
pub open spec fn dow_defined(y: int, m: int, d: int) -> bool {
    let yy = if m < 3 {
        y - 1
    } else {
        y
    };
    let s1 = yy + tdiv(yy, 4);
    let s2 = s1 - tdiv(yy, 100);
    let s3 = s2 + tdiv(yy, 400);
    let s4 = s3 + month_offset(m);
    &&& 1 <= m <= 12
    &&& i32::MIN <= yy
    &&& i32::MIN <= s1 <= i32::MAX
    &&& i32::MIN <= s2 <= i32::MAX
    &&& i32::MIN <= s3 <= i32::MAX
    &&& i32::MIN <= s4 <= i32::MAX
    &&& i32::MIN <= s4 + d <= i32::MAX
}

/// Day of week (Monday = 0 .. Sunday = 6) of year `y`, month `m`, day `d`
/// (the day taken as an `i32`, as `d as i32` gives it).
pub fn day_of_week(y: i32, m: u32, d: u32) -> (r: u8)
    requires
        dow_defined(y as int, m as int, (d as i32) as int),
    ensures
        r == spec_day_of_week(y as int, m as int, (d as i32) as int),
        r < 7,
{
    let offsets: [i32; 12] = [0, 3, 2, 5, 0, 3, 5, 1, 4, 6, 2, 4];
    let yy = if m < 3 {
        y - 1
    } else {
        y
    };
    let t = offsets[(m - 1) as usize];
    assert(t == month_offset(m as int));
    assert(yy > i32::MIN);
    let s1 = yy + tdiv_i32(yy, 4);
    let s2 = s1 - tdiv_i32(yy, 100);
    let s3 = s2 + tdiv_i32(yy, 400);
    let s4 = s3 + t;
    let sum = s4 + d as i32;
    let dow: i32 = if sum >= 0 {
        sum % 7
    } else {
        let r = (-(sum as i64)) % 7;
        if r == 0 {
            0
        } else {
            (7 - r) as i32
        }
    };
    assert(dow == sum as int % 7);
    if dow == 0 {
        6
    } else {
        (dow - 1) as u8
    }
}

/// Gregorian leap year.
pub open spec fn spec_is_leap(y: int) -> bool {
    (y % 4 == 0 && y % 100 != 0) || y % 400 == 0
}

pub fn is_leap(y: i32) -> (r: bool)
    ensures
        r == spec_is_leap(y as int),
{
    (y % 4 == 0 && y % 100 != 0) || y % 400 == 0
}

/// Days in month `m`; months outside 1..=12 count 30 days.
pub open spec fn spec_days_in_month(m: int, leap: bool) -> int {
    if m == 1 || m == 3 || m == 5 || m == 7 || m == 8 || m == 10 || m == 12 {
        31
    } else if m == 4 || m == 6 || m == 9 || m == 11 {
        30
    } else if m == 2 {
        if leap {
            29
        } else {
            28
        }
    } else {
        30
    }
}

pub fn days_in_month(m: u32, leap: bool) -> (r: u32)
    ensures
        r == spec_days_in_month(m as int, leap),
{
    if m == 1 || m == 3 || m == 5 || m == 7 || m == 8 || m == 10 || m == 12 {
        31
    } else if m == 4 || m == 6 || m == 9 || m == 11 {
        30
    } else if m == 2 {
        if leap {
            29
        } else {
            28
        }
    } else {
        30
    }
}

/// Days in the months `1..m` of a year.
pub open spec fn days_before_month(m: int, leap: bool) -> int
    decreases m,
{
    if m <= 1 {
        0
    } else {
        days_before_month(m - 1, leap) + spec_days_in_month(m - 1, leap)
    }
}

/// Seconds since 1970-01-01T00:00:00 of the given date and time.
pub open spec fn spec_to_epoch(y: int, m: int, d: int, h: int, min: int, sec: int) -> int {
    spec_epoch_days(y, m, d) * 86400 + h * 3600 + min * 60 + sec
}

/// Leap years of the proleptic Gregorian calendar among years `1..=x`
/// (extended to all `x` by floor division).
pub open spec fn leap_count(x: int) -> int {
    x / 4 - x / 100 + x / 400
}

/// Leap years among `1970..y` (negated for the years `y..1970` before 1970).
pub open spec fn leap_days_since_1970(y: int) -> int {
    leap_count(y - 1) - leap_count(1969)
}

/// Days from 1970-01-01 to the date, by whole years, leap days and months.
pub open spec fn spec_epoch_days(y: int, m: int, d: int) -> int {
    (y - 1970) * 365 + leap_days_since_1970(y) + days_before_month(m, spec_is_leap(y)) + d - 1
}

/// `x / b` rounded toward negative infinity.
fn floor_div_i64(x: i64, b: i64) -> (r: i64)
    requires
        b > 0,
        x > i64::MIN,
    ensures
        r == x as int / b as int,
{
    if x >= 0 {
        x / b
    } else {
        let q = (-x - 1) / b;
        proof {
            let n: int = -(x as int) - 1;
            let bi: int = b as int;
            let rm: int = n % bi;
            assert(n == (q as int) * bi + rm && 0 <= rm < bi) by {
                vstd::arithmetic::div_mod::lemma_fundamental_div_mod(n, bi);
            }
            assert(x as int == (-(q as int) - 1) * bi + (bi - 1 - rm)) by (nonlinear_arith)
                requires
                    n == (q as int) * bi + rm,
                    n == -(x as int) - 1,
            ;
            vstd::arithmetic::div_mod::lemma_fundamental_div_mod_converse(
                x as int,
                bi,
                -(q as int) - 1,
                bi - 1 - rm,
            );
        }
        -q - 1
    }
}

/// Seconds since 1970-01-01T00:00:00 of year `y`, month `m`, day `d`,
/// `h:min:sec`.
pub fn to_epoch(y: i32, m: u32, d: u32, h: i32, min: i32, sec: i32) -> (r: i64)
    requires
        y - 1970 >= i32::MIN,
    ensures
        r == spec_to_epoch(y as int, m as int, d as int, h as int, min as int, sec as int),
{
    let y0 = y - 1970;
    let before = y as i64 - 1;
    let leap_days: i64 = floor_div_i64(before, 4) - floor_div_i64(before, 100) + floor_div_i64(
        before,
        400,
    ) - 477;
    assert(leap_count(1969) == 477);
    let mut days: i64 = y0 as i64 * 365 + leap_days;
    let leap = is_leap(y);
    let mut mo: u32 = 1;
    while mo < m
        invariant
            1 <= mo,
            mo <= m || m == 0,
            m == 0 ==> mo == 1,
            days == y0 * 365 + leap_days + days_before_month(mo as int, leap),
            0 <= days_before_month(mo as int, leap) <= 31 * mo,
            -1_000_000_000_000 <= y0 * 365 + leap_days <= 1_000_000_000_000,
        decreases m - mo,
    {
        days += days_in_month(mo, leap) as i64;
        mo += 1;
    }
    assert(days == y0 * 365 + leap_days + days_before_month(m as int, leap)) by {
        if m == 0 {
            assert(days_before_month(0, leap) == 0);
            assert(days_before_month(1, leap) == 0);
        }
    }
    days += d as i64 - 1;
    days * 86400 + h as i64 * 3600 + min as i64 * 60 + sec as i64
}

/// The timestamp fields at `b[s..s + 19]` stay within the fixed-width digit
/// arithmetic: no digit below `'0'`, two-digit fields within `u8`, month 1..=12.
pub open spec fn timestamp_fields_defined(b: Seq<u8>, s: int) -> bool {
    &&& digits4_defined(b, s)
    &&& digits2_defined(b, s + 5)
    &&& digits2_defined(b, s + 8)
    &&& digits2_defined(b, s + 11)
    &&& digits2_defined(b, s + 14)
    &&& digits2_defined(b, s + 17)
    &&& 1 <= spec_digits2(b, s + 5) <= 12
}

/// Where the digits of the timestamp read at `pos` start: after optional
/// whitespace and an optional opening quote.
pub open spec fn timestamp_start(buf: Seq<u8>, pos: int) -> int {
    let start = spec_skip_ws(buf, pos);
    if start < buf.len() && buf[start] == 34 {
        start + 1
    } else {
        start
    }
}

/// Reading the timestamp at `pos` does not panic.
pub open spec fn timestamp_defined(buf: Seq<u8>, pos: int) -> bool {
    let s = timestamp_start(buf, pos);
    s + 19 <= buf.len() ==> timestamp_fields_defined(buf, s)
}

/// `(hour, day of week, seconds since 1970)` of the timestamp read at `pos`,
/// or `(0, 0, 0)` where fewer than 19 bytes follow its start.
pub open spec fn spec_parse_timestamp(buf: Seq<u8>, pos: int) -> (u8, u8, i64) {
    let s = timestamp_start(buf, pos);
    if s + 19 > buf.len() {
        (0, 0, 0)
    } else {
        let year = spec_digits4(buf, s);
        let month = spec_digits2(buf, s + 5);
        let day = spec_digits2(buf, s + 8);
        let hour = spec_digits2(buf, s + 11);
        let minute = spec_digits2(buf, s + 14);
        let second = spec_digits2(buf, s + 17);
        (
            hour as u8,
            spec_day_of_week(year, month, day) as u8,
            spec_to_epoch(year, month, day, hour, minute, second) as i64,
        )
    }
}

/// Years and days of a timestamp's digit fields stay far inside the range of
/// Sakamoto's running sums.
proof fn lemma_small_dates_defined(y: int, m: int, d: int)
    requires
        0 <= y <= 300_000,
        1 <= m <= 12,
        0 <= d <= 255,
    ensures
        dow_defined(y, m, d),
{
}

/// Reads `"YYYY-MM-DDTHH:MM:SSZ"` at `pos` (after optional whitespace and an
/// optional opening quote) as `(hour, day of week, seconds since 1970)`;
/// `(0, 0, 0)` where the buffer ends too early.
#[verifier::spinoff_prover]
pub fn parse_timestamp(buf: &[u8], pos: usize) -> (r: (u8, u8, i64))
    requires
        pos <= buf@.len(),
        timestamp_defined(buf@, pos as int),
    ensures
        r == spec_parse_timestamp(buf@, pos as int),
{
    let start = skip_ws(buf, pos);
    proof {
        lemma_skip_ws_bounds(buf@, pos as int);
    }
    let s = if start < buf.len() && buf[start] == 34 {
        start + 1
    } else {
        start
    };
    if s > buf.len() || buf.len() - s < 19 {
        return (0, 0, 0);
    }
    let b = &buf[s..buf.len()];
    assert forall|k: int| 0 <= k < 19 implies b@[k] == buf@[s + k] by {}
    let year = parse_digits4(b, 0);
    let month = parse_digits2(b, 5) as u32;
    let day = parse_digits2(b, 8) as u32;
    let hour = parse_digits2(b, 11);
    let minute = parse_digits2(b, 14);
    let second = parse_digits2(b, 17);
    assert(year <= 255 * 1111);
    proof {
        assert((day as i32) as int == day as int);
        lemma_small_dates_defined(year as int, month as int, day as int);
    }
    let weekday = day_of_week(year as i32, month, day);
    let epoch = to_epoch(year as i32, month, day, hour as i32, minute as i32, second as i32);
    (hour, weekday, epoch)
}

/// Whether reading the timestamp at `pos` stays within its fixed-width
/// arithmetic (see `timestamp_defined`).
pub fn timestamp_is_defined(buf: &[u8], pos: usize) -> (r: bool)
    requires
        pos <= buf@.len(),
    ensures
        r == timestamp_defined(buf@, pos as int),
{
    let start = skip_ws(buf, pos);
    proof {
        lemma_skip_ws_bounds(buf@, pos as int);
    }
    let s = if start < buf.len() && buf[start] == 34 {
        start + 1
    } else {
        start
    };
    if s > buf.len() || buf.len() - s < 19 {
        return true;
    }
    digits4_ok(buf, s) && digits2_ok(buf, s + 5) && digits2_ok(buf, s + 8) && digits2_ok(buf, s + 11)
        && digits2_ok(buf, s + 14) && digits2_ok(buf, s + 17) && {
        let month = parse_digits2(buf, s + 5);
        1 <= month && month <= 12
    }
}

fn digits4_ok(b: &[u8], pos: usize) -> (r: bool)
    requires
        pos + 4 <= b@.len(),
    ensures
        r == digits4_defined(b@, pos as int),
{
    b[pos] >= 48 && b[pos + 1] >= 48 && b[pos + 2] >= 48 && b[pos + 3] >= 48
}

fn digits2_ok(b: &[u8], pos: usize) -> (r: bool)
    requires
        pos + 2 <= b@.len(),
    ensures
        r == digits2_defined(b@, pos as int),
{
    b[pos] >= 48 && b[pos + 1] >= 48 && (b[pos] - 48) <= 25 && ((b[pos] - 48) as u32) * 10 + ((
    b[pos + 1] - 48) as u32) <= 255
}

} // verus!
