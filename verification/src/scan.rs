//! Byte-level scanning of a JSON request body: key search, whitespace,
//! numeric and quoted-string spans, and the FNV-1a hash of identifiers.
use vstd::prelude::*;

verus! {

/// Whitespace as the scanner sees it: space, tab, line feed, carriage return.
pub open spec fn is_ws(b: u8) -> bool {
    b == 32 || b == 9 || b == 10 || b == 13
}

/// The first index at or after `pos` that is not whitespace (or `pos` itself
/// once past the end).
pub open spec fn spec_skip_ws(buf: Seq<u8>, pos: int) -> int
    decreases buf.len() - pos,
{
    if 0 <= pos < buf.len() && is_ws(buf[pos]) {
        spec_skip_ws(buf, pos + 1)
    } else {
        pos
    }
}

pub proof fn lemma_skip_ws_bounds(buf: Seq<u8>, pos: int)
    requires
        0 <= pos,
    ensures
        pos <= spec_skip_ws(buf, pos),
        pos <= buf.len() ==> spec_skip_ws(buf, pos) <= buf.len(),
        pos > buf.len() ==> spec_skip_ws(buf, pos) == pos,
        spec_skip_ws(buf, pos) < buf.len() ==> !is_ws(buf[spec_skip_ws(buf, pos)]),
    decreases buf.len() - pos,
{
    if 0 <= pos < buf.len() && is_ws(buf[pos]) {
        lemma_skip_ws_bounds(buf, pos + 1);
    }
}

/// Skips spaces, tabs, line feeds and carriage returns from `pos`.
pub fn skip_ws(buf: &[u8], pos: usize) -> (r: usize)
    ensures
        r == spec_skip_ws(buf@, pos as int),
{
    let mut i = pos;
    while i < buf.len() && (buf[i] == 32 || buf[i] == 9 || buf[i] == 10 || buf[i] == 13)
        invariant
            pos <= i,
            spec_skip_ws(buf@, pos as int) == spec_skip_ws(buf@, i as int),
        decreases buf@.len() - i,
    {
        i += 1;
    }
    i
}

/// `needle` occurs in `buf` at index `i`.
pub open spec fn occurs_at(buf: Seq<u8>, i: int, needle: Seq<u8>) -> bool {
    0 <= i && i + needle.len() <= buf.len() && buf.subrange(i, i + needle.len()) == needle
}

/// The last start index the key search tries: `len - needle.len()`, or 0.
pub open spec fn last_start(buf: Seq<u8>, needle: Seq<u8>) -> int {
    if buf.len() >= needle.len() {
        buf.len() - needle.len()
    } else {
        0
    }
}

/// The index just past the first occurrence of `needle` that starts in
/// `from..=last_start`, if there is one.
pub open spec fn spec_find_key(buf: Seq<u8>, from: int, needle: Seq<u8>) -> Option<int>
    decreases last_start(buf, needle) + 1 - from,
{
    if from < 0 || from > last_start(buf, needle) {
        None
    } else if occurs_at(buf, from, needle) {
        Some(from + needle.len())
    } else {
        spec_find_key(buf, from + 1, needle)
    }
}

/// The key search does not slice past the end. It does when the buffer is
/// shorter than the needle and the search starts at 0.
pub open spec fn find_key_defined(buf: Seq<u8>, from: int, needle: Seq<u8>) -> bool {
    buf.len() >= needle.len() || from > 0
}

pub proof fn lemma_find_key_bounds(buf: Seq<u8>, from: int, needle: Seq<u8>)
    ensures
        spec_find_key(buf, from, needle) matches Some(p) ==> from + needle.len() <= p <= buf.len()
            && occurs_at(buf, p - needle.len(), needle),
    decreases last_start(buf, needle) + 1 - from,
{
    if from < 0 || from > last_start(buf, needle) {
    } else if occurs_at(buf, from, needle) {
    } else {
        lemma_find_key_bounds(buf, from + 1, needle);
    }
}

/// Whether `buf[i..i + needle.len()]` equals `needle`.
fn bytes_match_at(buf: &[u8], i: usize, needle: &[u8]) -> (r: bool)
    requires
        i + needle.len() <= buf.len(),
    ensures
        r == occurs_at(buf@, i as int, needle@),
{
    let mut j: usize = 0;
    while j < needle.len()
        invariant
            j <= needle@.len(),
            i + needle.len() <= buf.len(),
            forall|k: int| 0 <= k < j ==> buf@[i + k] == needle@[k],
        decreases needle@.len() - j,
    {
        if buf[i + j] != needle[j] {
            assert(buf@.subrange(i as int, i + needle@.len())[j as int] != needle@[j as int]);
            return false;
        }
        j += 1;
    }
    assert(buf@.subrange(i as int, i + needle@.len()) =~= needle@);
    true
}

/// The index just past the first occurrence of `needle` starting at or after
/// `from`.
pub fn find_key(buf: &[u8], from: usize, needle: &[u8]) -> (r: Option<usize>)
    requires
        find_key_defined(buf@, from as int, needle@),
    ensures
        r matches Some(p) ==> spec_find_key(buf@, from as int, needle@) == Some(p as int),
        r is None ==> spec_find_key(buf@, from as int, needle@) is None,
{
    let end = buf.len().saturating_sub(needle.len());
    let mut i = from;
    while i <= end
        invariant
            from <= i,
            end == last_start(buf@, needle@),
            find_key_defined(buf@, from as int, needle@),
            buf@.len() >= needle@.len() || i > 0,
            spec_find_key(buf@, from as int, needle@) == spec_find_key(buf@, i as int, needle@),
        decreases end + 1 - i,
    {
        assert(i + needle.len() <= buf.len());
        if bytes_match_at(buf, i, needle) {
            return Some(i + needle.len());
        }
        if i == end {
            assert(spec_find_key(buf@, i + 1, needle@) is None);
            return None;
        }
        i += 1;
    }
    None
}

/// The first index at or after `start` whose byte fails `keep`, or the end.
pub open spec fn span_end(buf: Seq<u8>, start: int, keep: spec_fn(u8) -> bool) -> int
    decreases buf.len() - start,
{
    if 0 <= start < buf.len() && keep(buf[start]) {
        span_end(buf, start + 1, keep)
    } else if start < buf.len() {
        start
    } else {
        buf.len() as int
    }
}

pub proof fn lemma_span_end_bounds(buf: Seq<u8>, start: int, keep: spec_fn(u8) -> bool)
    requires
        0 <= start <= buf.len(),
    ensures
        start <= span_end(buf, start, keep) <= buf.len(),
        forall|k: int| start <= k < span_end(buf, start, keep) ==> keep(#[trigger] buf[k]),
        span_end(buf, start, keep) < buf.len() ==> !keep(buf[span_end(buf, start, keep)]),
    decreases buf.len() - start,
{
    if 0 <= start < buf.len() && keep(buf[start]) {
        lemma_span_end_bounds(buf, start + 1, keep);
    }
}

/// Bytes that may belong to a floating-point literal: digits `. - e E +`.
pub open spec fn is_float_byte(b: u8) -> bool {
    (48 <= b <= 57) || b == 46 || b == 45 || b == 101 || b == 69 || b == 43
}

/// Bytes that may belong to an integer literal: digits and `-`.
pub open spec fn is_int_byte(b: u8) -> bool {
    (48 <= b <= 57) || b == 45
}

/// A half-open byte range `start..end` of a buffer.
#[derive(Debug, Clone, Copy, PartialEq, Eq, Structural)]
pub struct Span {
    pub start: usize,
    pub end: usize,
}

/// The span of a floating-point literal after optional whitespace at `pos`.
pub open spec fn spec_float_span(buf: Seq<u8>, pos: int) -> Span {
    let start = spec_skip_ws(buf, pos);
    Span { start: start as usize, end: span_end(buf, start, |b: u8| is_float_byte(b)) as usize }
}

/// The span of the floating-point literal that starts, after optional
/// whitespace, at `pos`: the run of bytes among digits and `. - e E +`.
/// Turning the span into an `f32` is left to the caller.
pub fn float_span(buf: &[u8], pos: usize) -> (r: Span)
    requires
        pos <= buf@.len(),
    ensures
        r == spec_float_span(buf@, pos as int),
        r.start <= r.end <= buf@.len(),
{
    let start = skip_ws(buf, pos);
    proof {
        lemma_skip_ws_bounds(buf@, pos as int);
    }
    let mut i = start;
    while i < buf.len() && ((48 <= buf[i] && buf[i] <= 57) || buf[i] == 46 || buf[i] == 45
        || buf[i] == 101 || buf[i] == 69 || buf[i] == 43)
        invariant
            start <= i <= buf@.len(),
            span_end(buf@, start as int, |b: u8| is_float_byte(b)) == span_end(
                buf@,
                i as int,
                |b: u8| is_float_byte(b),
            ),
        decreases buf@.len() - i,
    {
        i += 1;
    }
    Span { start, end: i }
}

/// The value of a run of decimal digits.
pub open spec fn digits_value(s: Seq<u8>) -> int
    decreases s.len(),
{
    if s.len() == 0 {
        0
    } else {
        digits_value(s.drop_last()) * 10 + (s.last() - 48)
    }
}

pub open spec fn all_digits(s: Seq<u8>) -> bool {
    forall|k: int| 0 <= k < s.len() ==> 48 <= #[trigger] s[k] <= 57
}

/// What `str::parse::<i32>` gives for the text `s`: an optional sign, at
/// least one digit, only digits after it, and a value in range.
pub open spec fn spec_parse_i32_text(s: Seq<u8>) -> Option<i32> {
    if s.len() > 0 && (s[0] == 45 || s[0] == 43) {
        let d = s.subrange(1, s.len() as int);
        let v = if s[0] == 45 { -digits_value(d) } else { digits_value(d) };
        if d.len() > 0 && all_digits(d) && i32::MIN <= v <= i32::MAX {
            Some(v as i32)
        } else {
            None
        }
    } else if s.len() > 0 && all_digits(s) && digits_value(s) <= i32::MAX {
        Some(digits_value(s) as i32)
    } else {
        None
    }
}

/// The integer that `parse_i32` reads at `pos`: the run of digits and `-`
/// after optional whitespace, parsed as an `i32`, or 0 where that fails.
pub open spec fn spec_parse_i32(buf: Seq<u8>, pos: int) -> i32 {
    let start = spec_skip_ws(buf, pos);
    let end = span_end(buf, start, |b: u8| is_int_byte(b));
    match spec_parse_i32_text(buf.subrange(start, end)) {
        Some(v) => v,
        None => 0,
    }
}

/// The bound at which decimal accumulation saturates.
pub open spec fn sat(v: int, bound: int) -> int {
    if v < bound {
        v
    } else {
        bound
    }
}

/// The value of the digits `s[from..to]`, saturated at 2^31 + 1.
fn saturated_digits(s: &[u8], from: usize, to: usize) -> (r: u64)
    requires
        from <= to <= s@.len(),
        all_digits(s@.subrange(from as int, to as int)),
    ensures
        r == sat(digits_value(s@.subrange(from as int, to as int)), 0x8000_0001),
{
    let mut acc: u64 = 0;
    let mut i = from;
    while i < to
        invariant
            from <= i <= to <= s@.len(),
            all_digits(s@.subrange(from as int, to as int)),
            acc == sat(digits_value(s@.subrange(from as int, i as int)), 0x8000_0001),
        decreases to - i,
    {
        assert(s@.subrange(from as int, to as int)[i - from] == s@[i as int]);
        let d = (s[i] - 48) as u64;
        let next = acc * 10 + d;
        acc = if next < 0x8000_0001 { next } else { 0x8000_0001 };
        let ghost pre = s@.subrange(from as int, i as int);
        i += 1;
        proof {
            let cur = s@.subrange(from as int, i as int);
            assert(cur.drop_last() =~= pre);
            assert(cur.last() == s@[i - 1]);
            assert(digits_value(pre) >= 0) by {
                lemma_digits_value_nonneg(pre);
            }
        }
    }
    acc
}

pub proof fn lemma_digits_value_nonneg(s: Seq<u8>)
    requires
        all_digits(s),
    ensures
        digits_value(s) >= 0,
    decreases s.len(),
{
    if s.len() > 0 {
        assert(all_digits(s.drop_last())) by {
            assert forall|k: int| 0 <= k < s.drop_last().len() implies 48 <= #[trigger] s.drop_last()[k] <= 57 by {
                assert(s.drop_last()[k] == s[k]);
            }
        }
        lemma_digits_value_nonneg(s.drop_last());
        assert(48 <= s[s.len() - 1] <= 57);
    }
}

/// Whether every byte of `s[from..to]` is a decimal digit.
fn check_digits(s: &[u8], from: usize, to: usize) -> (r: bool)
    requires
        from <= to <= s@.len(),
    ensures
        r == all_digits(s@.subrange(from as int, to as int)),
{
    let mut i = from;
    while i < to
        invariant
            from <= i <= to <= s@.len(),
            forall|k: int| from <= k < i ==> 48 <= #[trigger] s@[k] <= 57,
        decreases to - i,
    {
        if s[i] < 48 || s[i] > 57 {
            assert(s@.subrange(from as int, to as int)[i - from] == s@[i as int]);
            return false;
        }
        i += 1;
    }
    assert forall|k: int| 0 <= k < to - from implies 48 <= #[trigger] s@.subrange(
        from as int,
        to as int,
    )[k] <= 57 by {
        assert(s@.subrange(from as int, to as int)[k] == s@[from + k]);
    }
    true
}

/// `str::parse::<i32>` on the ASCII text `s[from..to]`.
fn parse_i32_text(s: &[u8], from: usize, to: usize) -> (r: Option<i32>)
    requires
        from <= to <= s@.len(),
    ensures
        r == spec_parse_i32_text(s@.subrange(from as int, to as int)),
{
    let ghost t = s@.subrange(from as int, to as int);
    if from < to && (s[from] == 45 || s[from] == 43) {
        assert(t[0] == s@[from as int]);
        let ghost d = t.subrange(1, t.len() as int);
        assert(d =~= s@.subrange(from + 1, to as int));
        if from + 1 == to || !check_digits(s, from + 1, to) {
            return None;
        }
        let v = saturated_digits(s, from + 1, to);
        if s[from] == 45 {
            if v < 0x8000_0000 {
                Some(-(v as i32))
            } else if v == 0x8000_0000 {
                Some(i32::MIN)
            } else {
                None
            }
        } else {
            if v < 0x8000_0000 {
                Some(v as i32)
            } else {
                None
            }
        }
    } else {
        if from == to || !check_digits(s, from, to) {
            return None;
        }
        let v = saturated_digits(s, from, to);
        if v < 0x8000_0000 {
            Some(v as i32)
        } else {
            None
        }
    }
}

/// Reads an integer at `pos`: the run of digits and `-` after optional
/// whitespace, parsed as an `i32`; 0 where that text is not an `i32`.
pub fn parse_i32(buf: &[u8], pos: usize) -> (r: i32)
    requires
        pos <= buf@.len(),
    ensures
        r == spec_parse_i32(buf@, pos as int),
{
    let start = skip_ws(buf, pos);
    proof {
        lemma_skip_ws_bounds(buf@, pos as int);
    }
    let mut end = start;
    while end < buf.len() && ((48 <= buf[end] && buf[end] <= 57) || buf[end] == 45)
        invariant
            start <= end <= buf@.len(),
            span_end(buf@, start as int, |b: u8| is_int_byte(b)) == span_end(
                buf@,
                end as int,
                |b: u8| is_int_byte(b),
            ),
        decreases buf@.len() - end,
    {
        end += 1;
    }
    match parse_i32_text(buf, start, end) {
        Some(v) => v,
        None => 0,
    }
}

/// Where the quoted string read at `pos` starts and ends: after optional
/// whitespace, past an opening quote if there is one, up to the next quote
/// (or the end of the buffer).
pub open spec fn spec_quoted(buf: Seq<u8>, pos: int) -> (int, int) {
    let start = spec_skip_ws(buf, pos);
    let content = if start < buf.len() && buf[start] == 34 {
        start + 1
    } else {
        start
    };
    (content, span_end(buf, content, |b: u8| b != 34))
}

/// Reads a quoted string at `pos`: returns its contents and the index just
/// past its closing quote.
pub fn parse_quoted(buf: &[u8], pos: usize) -> (r: (&[u8], usize))
    requires
        pos <= buf@.len(),
        buf@.len() < usize::MAX,
    ensures
        ({
            let (c, e) = spec_quoted(buf@, pos as int);
            &&& r.0@ == buf@.subrange(c, e)
            &&& r.1 == e + 1
            &&& pos <= c <= e <= buf@.len()
        }),
{
    let start = skip_ws(buf, pos);
    proof {
        lemma_skip_ws_bounds(buf@, pos as int);
    }
    let content_start = if start < buf.len() && buf[start] == 34 {
        start + 1
    } else {
        start
    };
    let mut end = content_start;
    while end < buf.len() && buf[end] != 34
        invariant
            content_start <= end <= buf@.len(),
            span_end(buf@, content_start as int, |b: u8| b != 34) == span_end(
                buf@,
                end as int,
                |b: u8| b != 34,
            ),
        decreases buf@.len() - end,
    {
        end += 1;
    }
    (&buf[content_start..end], end + 1)
}

/// The FNV-1a offset basis.
pub const FNV_OFFSET: u64 = 0xcbf2_9ce4_8422_2325;

/// The FNV-1a prime.
pub const FNV_PRIME: u64 = 0x0100_0000_01b3;

/// The 64-bit FNV-1a hash of `s`.
pub open spec fn spec_fnv1a(s: Seq<u8>) -> u64
    decreases s.len(),
{
    if s.len() == 0 {
        FNV_OFFSET
    } else {
        vstd::wrapping::u64_specs::wrapping_mul(spec_fnv1a(s.drop_last()) ^ (s.last() as u64), FNV_PRIME)
    }
}

/// The 64-bit FNV-1a hash of `s`.
pub fn fnv1a(s: &[u8]) -> (r: u64)
    ensures
        r == spec_fnv1a(s@),
{
    let mut h: u64 = FNV_OFFSET;
    let mut i: usize = 0;
    while i < s.len()
        invariant
            i <= s@.len(),
            h == spec_fnv1a(s@.take(i as int)),
        decreases s@.len() - i,
    {
        h = h ^ (s[i] as u64);
        h = h.wrapping_mul(FNV_PRIME);
        proof {
            assert(s@.take(i + 1).drop_last() =~= s@.take(i as int));
        }
        i += 1;
    }
    assert(s@.take(i as int) =~= s@);
    h
}

/// The merchant category code read from the digits of `s`, other bytes
/// skipped: `code = code * 10 + digit` for each digit in turn.
pub open spec fn spec_mcc_code(s: Seq<u8>) -> int
    decreases s.len(),
{
    if s.len() == 0 {
        0
    } else if 48 <= s.last() <= 57 {
        spec_mcc_code(s.drop_last()) * 10 + (s.last() - 48)
    } else {
        spec_mcc_code(s.drop_last())
    }
}

pub proof fn lemma_mcc_code_monotone(s: Seq<u8>, i: int)
    requires
        0 <= i <= s.len(),
    ensures
        0 <= spec_mcc_code(s.take(i)) <= spec_mcc_code(s),
    decreases s.len() - i,
{
    if i < s.len() {
        lemma_mcc_code_monotone(s, i + 1);
        assert(s.take(i + 1).drop_last() =~= s.take(i));
    } else {
        assert(s.take(i) =~= s);
        lemma_mcc_code_nonneg(s);
    }
}

pub proof fn lemma_mcc_code_nonneg(s: Seq<u8>)
    ensures
        spec_mcc_code(s) >= 0,
    decreases s.len(),
{
    if s.len() > 0 {
        lemma_mcc_code_nonneg(s.drop_last());
    }
}

/// The merchant category code of `s` as a `u16`, or `None` where it does not
/// fit (the `u16` accumulation would overflow there).
pub fn mcc_code(s: &[u8]) -> (r: Option<u16>)
    ensures
        r matches Some(c) ==> c == spec_mcc_code(s@),
        r is None <==> spec_mcc_code(s@) > u16::MAX,
{
    let mut code: u32 = 0;
    let mut i: usize = 0;
    while i < s.len()
        invariant
            i <= s@.len(),
            code == sat(spec_mcc_code(s@.take(i as int)), 65536),
        decreases s@.len() - i,
    {
        proof {
            assert(s@.take(i + 1).drop_last() =~= s@.take(i as int));
            lemma_mcc_code_nonneg(s@.take(i as int));
        }
        if 48 <= s[i] && s[i] <= 57 {
            let next = code * 10 + (s[i] - 48) as u32;
            code = if next < 65536 { next } else { 65536 };
        }
        i += 1;
    }
    assert(s@.take(i as int) =~= s@);
    if code < 65536 {
        Some(code as u16)
    } else {
        None
    }
}

/// The key search finds the first occurrence: if `needle` occurs at `i` and
/// nowhere in `from..i`, the search from `from` ends just past `i`.
pub proof fn lemma_find_key_first(buf: Seq<u8>, from: int, needle: Seq<u8>, i: int)
    requires
        0 <= from <= i,
        occurs_at(buf, i, needle),
        forall|j: int| from <= j < i ==> !#[trigger] occurs_at(buf, j, needle),
    ensures
        spec_find_key(buf, from, needle) == Some(i + needle.len()),
    decreases i - from,
{
    if from < i {
        lemma_find_key_first(buf, from + 1, needle, i);
    }
}

/// Where no occurrence of `needle` starts at or after `from`, the key search
/// finds nothing.
pub proof fn lemma_find_key_absent(buf: Seq<u8>, from: int, needle: Seq<u8>)
    requires
        0 <= from,
        forall|j: int| from <= j ==> !#[trigger] occurs_at(buf, j, needle),
    ensures
        spec_find_key(buf, from, needle) is None,
    decreases last_start(buf, needle) + 1 - from,
{
    if from <= last_start(buf, needle) {
        lemma_find_key_absent(buf, from + 1, needle);
    }
}

/// The key search finds the first occurrence: where it returns `p`, the
/// needle occurs at `p - needle.len()` and nowhere in `from..p - needle.len()`;
/// where it returns nothing, the needle occurs nowhere from `from` on.
pub proof fn lemma_find_key_is_first(buf: Seq<u8>, from: int, needle: Seq<u8>)
    requires
        0 <= from,
    ensures
        spec_find_key(buf, from, needle) matches Some(p) ==> occurs_at(buf, p - needle.len(), needle)
            && forall|j: int| from <= j < p - needle.len() ==> !#[trigger] occurs_at(buf, j, needle),
        spec_find_key(buf, from, needle) is None ==> forall|j: int|
            from <= j ==> !#[trigger] occurs_at(buf, j, needle),
    decreases last_start(buf, needle) + 1 - from,
{
    if from > last_start(buf, needle) {
        assert forall|j: int| from <= j implies !#[trigger] occurs_at(buf, j, needle) by {}
    } else if occurs_at(buf, from, needle) {
    } else {
        lemma_find_key_is_first(buf, from + 1, needle);
    }
}

/// Skipping whitespace stops at the first byte from `pos` on that is not
/// whitespace: every byte it passes is whitespace.
pub proof fn lemma_skip_ws_passes_only_ws(buf: Seq<u8>, pos: int)
    requires
        0 <= pos,
    ensures
        forall|k: int| pos <= k < spec_skip_ws(buf, pos) ==> is_ws(#[trigger] buf[k]),
        spec_skip_ws(buf, pos) < buf.len() ==> !is_ws(buf[spec_skip_ws(buf, pos)]),
    decreases buf.len() - pos,
{
    lemma_skip_ws_bounds(buf, pos);
    if 0 <= pos < buf.len() && is_ws(buf[pos]) {
        lemma_skip_ws_passes_only_ws(buf, pos + 1);
    }
}

/// `needle` occurs at `p`, at or after `from`, and nowhere in `from..p`.
pub open spec fn first_occurrence(buf: Seq<u8>, from: int, needle: Seq<u8>, p: int) -> bool {
    &&& 0 <= from <= p
    &&& occurs_at(buf, p, needle)
    &&& forall|j: int| from <= j < p ==> !#[trigger] occurs_at(buf, j, needle)
}

/// `needle` occurs nowhere at or after `from`.
pub open spec fn no_occurrence(buf: Seq<u8>, from: int, needle: Seq<u8>) -> bool {
    forall|j: int| from <= j ==> !#[trigger] occurs_at(buf, j, needle)
}

/// `sp` is the literal read at `pos`: whitespace from `pos` up to its start,
/// then the longest run of bytes among digits and `. - e E +`.
pub open spec fn float_literal_at(buf: Seq<u8>, pos: int, sp: Span) -> bool {
    &&& pos <= sp.start <= sp.end <= buf.len()
    &&& forall|k: int| pos <= k < sp.start ==> is_ws(#[trigger] buf[k])
    &&& sp.start < buf.len() ==> !is_ws(buf[sp.start as int])
    &&& forall|k: int| sp.start <= k < sp.end ==> is_float_byte(#[trigger] buf[k])
    &&& sp.end < buf.len() ==> !is_float_byte(buf[sp.end as int])
}

/// The span of a floating-point literal is the literal read at `pos`.
pub proof fn lemma_float_span_is_literal(buf: Seq<u8>, pos: int)
    requires
        0 <= pos <= buf.len() <= usize::MAX,
    ensures
        float_literal_at(buf, pos, spec_float_span(buf, pos)),
{
    lemma_skip_ws_bounds(buf, pos);
    lemma_skip_ws_passes_only_ws(buf, pos);
    let start = spec_skip_ws(buf, pos);
    lemma_span_end_bounds(buf, start, |b: u8| is_float_byte(b));
}

/// The merchant category code is the value of the digits of `s` in order,
/// with every other byte left out.
pub proof fn lemma_mcc_code_digits(s: Seq<u8>)
    ensures
        spec_mcc_code(s) == digits_value(s.filter(|b: u8| 48 <= b <= 57)),
    decreases s.len(),
{
    reveal(Seq::filter);
    let pred = |b: u8| 48 <= b <= 57;
    if s.len() > 0 {
        lemma_mcc_code_digits(s.drop_last());
        let f = s.drop_last().filter(pred);
        assert(s.filter(pred) == if pred(s.last()) {
            f.push(s.last())
        } else {
            f
        });
        assert(f.push(s.last()).drop_last() =~= f);
    }
}

/// `10^n`.
pub open spec fn pow10(n: nat) -> int
    decreases n,
{
    if n == 0 {
        1
    } else {
        10 * pow10((n - 1) as nat)
    }
}

/// Decimal digit strings concatenate by place value: the value of `a + b`
/// is the value of `a` shifted past `b`, plus the value of `b`; a single
/// digit is worth itself.
pub proof fn lemma_digits_value_concat(a: Seq<u8>, b: Seq<u8>, d: u8)
    ensures
        digits_value(a + b) == digits_value(a) * pow10(b.len()) + digits_value(b),
        digits_value(seq![d]) == d - 48,
    decreases b.len(),
{
    assert(seq![d].drop_last() =~= Seq::<u8>::empty());
    assert(seq![d].last() == d);
    assert(digits_value(Seq::<u8>::empty()) == 0);
    assert(digits_value(seq![d]) == digits_value(seq![d].drop_last()) * 10 + (seq![d].last() - 48));
    if b.len() == 0 {
        assert(a + b =~= a);
    } else {
        let c = b.drop_last();
        lemma_digits_value_concat(a, c, d);
        assert((a + b).drop_last() =~= a + c);
        assert((a + b).last() == b.last());
        assert(pow10(b.len()) == 10 * pow10(c.len()));
        assert((digits_value(a) * pow10(c.len()) + digits_value(c)) * 10 + (b.last() - 48)
            == digits_value(a) * (10 * pow10(c.len())) + (digits_value(c) * 10 + (b.last() - 48)))
            by (nonlinear_arith);
    }
}

/// The end of a run is the first index whose byte fails `keep`.
proof fn lemma_span_end_unique(buf: Seq<u8>, start: int, keep: spec_fn(u8) -> bool, e: int)
    requires
        0 <= start <= e <= buf.len(),
        forall|k: int| start <= k < e ==> keep(#[trigger] buf[k]),
        e < buf.len() ==> !keep(buf[e]),
    ensures
        span_end(buf, start, keep) == e,
    decreases e - start,
{
    if start < e {
        lemma_span_end_unique(buf, start + 1, keep, e);
    }
}

/// The integer read at `pos` is the one written there: after whitespace,
/// the longest run of digits and `-` (here `buf[start..e]`); digits alone
/// give their value, `-` and digits the negated value, while it fits an
/// `i32`; no run gives 0, and so does a `-` anywhere but first.
pub proof fn lemma_parse_i32_read(buf: Seq<u8>, pos: int, e: int)
    requires
        0 <= pos <= buf.len(),
        spec_skip_ws(buf, pos) <= e <= buf.len(),
        forall|k: int| spec_skip_ws(buf, pos) <= k < e ==> is_int_byte(#[trigger] buf[k]),
        e < buf.len() ==> !is_int_byte(buf[e]),
    ensures
        ({
            let t = buf.subrange(spec_skip_ws(buf, pos), e);
            let u = t.subrange(1, t.len() as int);
            &&& t.len() > 0 && all_digits(t) && digits_value(t) <= i32::MAX ==> spec_parse_i32(
                buf,
                pos,
            ) == digits_value(t)
            &&& t.len() > 1 && t[0] == 45 && all_digits(u) && digits_value(u) <= 0x8000_0000
                ==> spec_parse_i32(buf, pos) == -digits_value(u)
            &&& t.len() == 0 ==> spec_parse_i32(buf, pos) == 0
            &&& (exists|k: int| 0 < k < t.len() && t[k] == 45) ==> spec_parse_i32(buf, pos) == 0
        }),
{
    lemma_skip_ws_bounds(buf, pos);
    let st = spec_skip_ws(buf, pos);
    lemma_span_end_unique(buf, st, |b: u8| is_int_byte(b), e);
    let t = buf.subrange(st, e);
    let u = t.subrange(1, t.len() as int);
    assert(spec_parse_i32(buf, pos) == match spec_parse_i32_text(t) {
        Some(v) => v,
        None => 0i32,
    });
    if t.len() > 0 {
        assert(t[0] == buf[st]);
        assert(t[0] != 43);
    }
    if all_digits(t) {
        lemma_digits_value_nonneg(t);
    }
    if t.len() > 1 && t[0] == 45 && all_digits(u) && digits_value(u) <= 0x8000_0000 {
        lemma_digits_value_nonneg(u);
        assert(spec_parse_i32_text(t) == Some((-digits_value(u)) as i32));
    }
    if exists|k: int| 0 < k < t.len() && t[k] == 45 {
        let k = choose|k: int| 0 < k < t.len() && t[k] == 45;
        if t[0] == 45 {
            assert(u[k - 1] == 45);
            assert(!all_digits(u));
        } else {
            assert(!(48 <= t[k] <= 57));
            assert(!all_digits(t));
        }
        assert(spec_parse_i32_text(t) is None);
    }
}

/// The FNV-1a hash starts at the offset basis and takes each byte in turn:
/// xor it in, then multiply by the prime modulo `2^64`.
pub proof fn lemma_fnv1a_steps(s: Seq<u8>, b: u8)
    ensures
        spec_fnv1a(Seq::<u8>::empty()) == 0xcbf2_9ce4_8422_2325u64,
        spec_fnv1a(s.push(b)) as int == ((spec_fnv1a(s) ^ (b as u64)) as int * 0x0100_0000_01b3)
            % 0x1_0000_0000_0000_0000,
{
    assert(s.push(b).drop_last() =~= s);
    assert(s.push(b).last() == b);
}

/// A quoted string read at `pos` starts after whitespace and an opening
/// quote, if there is one, and runs up to the next quote or the end: no byte
/// of it is a quote.
pub proof fn lemma_quoted_read(buf: Seq<u8>, pos: int)
    requires
        0 <= pos <= buf.len(),
    ensures
        ({
            let (c, e) = spec_quoted(buf, pos);
            let st = spec_skip_ws(buf, pos);
            &&& c == if st < buf.len() && buf[st] == 34 { st + 1 } else { st }
            &&& c <= e <= buf.len()
            &&& forall|k: int| c <= k < e ==> #[trigger] buf[k] != 34u8
            &&& e < buf.len() ==> buf[e] == 34u8
        }),
{
    lemma_skip_ws_bounds(buf, pos);
    let st = spec_skip_ws(buf, pos);
    let c = if st < buf.len() && buf[st] == 34 {
        st + 1
    } else {
        st
    };
    lemma_span_end_bounds(buf, c, |x: u8| x != 34);
}

} // verus!
