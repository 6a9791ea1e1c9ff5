//! HTTP/1.1 request framing over a connection buffer: the end of the header
//! block, the `Content-Length`, the route, and the canned responses.
use crate::engine::K;
use crate::scan::{
    digits_value, find_key, lemma_find_key_bounds, lemma_find_key_is_first, pow10, lemma_find_key_first, occurs_at, spec_find_key,
};
use vstd::prelude::*;
use vstd::slice::slice_to_vec;

verus! {

/// Size of a connection's receive buffer.
pub const BUF_SIZE: usize = 8192;

/// `"\r\n\r\n"`, the end of the header block.
pub open spec fn spec_crlfcrlf() -> Seq<u8> {
    seq![13u8, 10u8, 13u8, 10u8]
}

fn crlfcrlf() -> (r: [u8; 4])
    ensures
        r@ == spec_crlfcrlf(),
{
    let r: [u8; 4] = [13, 10, 13, 10];
    assert(r@ =~= spec_crlfcrlf());
    r
}

/// Index of the first `"\r\n\r\n"` in `buf`.
pub open spec fn spec_find_crlfcrlf(buf: Seq<u8>) -> Option<int> {
    if buf.len() < 4 {
        None
    } else {
        match spec_find_key(buf, 0, spec_crlfcrlf()) {
            Some(p) => Some(p - 4),
            None => None,
        }
    }
}

/// Index of the first `"\r\n\r\n"` in `buf`, the end of the header block.
pub fn find_crlfcrlf(buf: &[u8]) -> (r: Option<usize>)
    ensures
        r matches Some(i) ==> spec_find_crlfcrlf(buf@) == Some(i as int),
        r is None ==> spec_find_crlfcrlf(buf@) is None,
{
    if buf.len() < 4 {
        return None;
    }
    let needle = crlfcrlf();
    match find_key(buf, 0, &needle) {
        Some(p) => {
            proof {
                lemma_find_key_bounds(buf@, 0, needle@);
            }
            Some(p - 4)
        },
        None => None,
    }
}

/// `"Content-Length:"`.
pub open spec fn spec_content_length_key() -> Seq<u8> {
    seq![67u8, 111u8, 110u8, 116u8, 101u8, 110u8, 116u8, 45u8, 76u8, 101u8, 110u8, 103u8, 116u8, 104u8, 58u8]
}

fn content_length_key() -> (r: [u8; 15])
    ensures
        r@ == spec_content_length_key(),
{
    let r: [u8; 15] = [67, 111, 110, 116, 101, 110, 116, 45, 76, 101, 110, 103, 116, 104, 58];
    assert(r@ =~= spec_content_length_key());
    r
}

/// The first index at or after `j` that is not a space or a tab.
pub open spec fn skip_blanks(s: Seq<u8>, j: int) -> int
    decreases s.len() - j,
{
    if 0 <= j < s.len() && (s[j] == 32 || s[j] == 9) {
        skip_blanks(s, j + 1)
    } else {
        j
    }
}

/// The value of the decimal digits of `s` from `j` on, up to the first
/// non-digit: `lead` followed by those digits.
pub open spec fn digits_from(s: Seq<u8>, j: int, lead: int) -> int
    decreases s.len() - j,
{
    if 0 <= j < s.len() && 48 <= s[j] <= 57 {
        digits_from(s, j + 1, lead * 10 + (s[j] - 48))
    } else {
        lead
    }
}

/// The `Content-Length` of a header block: the digits after the first
/// `"Content-Length:"` and any spaces or tabs; 0 where there is none.
pub open spec fn spec_content_length(headers: Seq<u8>) -> int {
    match spec_find_key(headers, 0, spec_content_length_key()) {
        Some(p) => digits_from(headers, skip_blanks(headers, p), 0),
        None => 0,
    }
}

pub proof fn lemma_digits_from_grows(s: Seq<u8>, j: int, lead: int)
    requires
        lead >= 0,
    ensures
        digits_from(s, j, lead) >= lead,
    decreases s.len() - j,
{
    if 0 <= j < s.len() && 48 <= s[j] <= 57 {
        lemma_digits_from_grows(s, j + 1, lead * 10 + (s[j] - 48));
    }
}

/// The end of the header block is the first `"\r\n\r\n"`: where one is
/// found at `h`, it occurs there and nowhere before; where none is found,
/// none occurs.
pub proof fn lemma_find_crlfcrlf_first(buf: Seq<u8>)
    ensures
        spec_find_crlfcrlf(buf) matches Some(h) ==> occurs_at(buf, h, spec_crlfcrlf()) && forall|j: int|
            0 <= j < h ==> !#[trigger] occurs_at(buf, j, spec_crlfcrlf()),
        spec_find_crlfcrlf(buf) is None ==> forall|j: int|
            0 <= j ==> !#[trigger] occurs_at(buf, j, spec_crlfcrlf()),
{
    lemma_find_key_is_first(buf, 0, spec_crlfcrlf());
    if buf.len() < 4 {
        assert forall|j: int| 0 <= j implies !#[trigger] occurs_at(buf, j, spec_crlfcrlf()) by {}
    }
}

/// Where the run of decimal digits that starts at `j` ends.
pub open spec fn digit_run_end(s: Seq<u8>, j: int) -> int
    decreases s.len() - j,
{
    if 0 <= j < s.len() && 48 <= s[j] <= 57 {
        digit_run_end(s, j + 1)
    } else {
        j
    }
}

proof fn lemma_digit_run_end_bounds(s: Seq<u8>, j: int)
    requires
        0 <= j <= s.len(),
    ensures
        j <= digit_run_end(s, j) <= s.len(),
        forall|k: int| j <= k < digit_run_end(s, j) ==> 48 <= #[trigger] s[k] <= 57,
    decreases s.len() - j,
{
    if j < s.len() && 48 <= s[j] <= 57 {
        lemma_digit_run_end_bounds(s, j + 1);
    }
}

/// A digit put in front of a digit string adds its place value.
proof fn lemma_decimal_prepend(d: u8, t: Seq<u8>)
    ensures
        digits_value(seq![d] + t) == (d - 48) * pow10(t.len()) + digits_value(t),
    decreases t.len(),
{
    let st = seq![d] + t;
    if t.len() == 0 {
        assert(st.drop_last() =~= Seq::<u8>::empty());
        assert(st.last() == d);
        assert(digits_value(st) == digits_value(st.drop_last()) * 10 + (d - 48));
        assert(pow10(0) == 1);
    } else {
        let u = t.drop_last();
        assert(st.drop_last() =~= seq![d] + u);
        assert(st.last() == t.last());
        assert(digits_value(st) == digits_value(seq![d] + u) * 10 + (t.last() - 48));
        assert(digits_value(t) == digits_value(u) * 10 + (t.last() - 48));
        lemma_decimal_prepend(d, u);
        assert(pow10(t.len()) == 10 * pow10(u.len()));
        assert(((d - 48) * pow10(u.len()) + digits_value(u)) * 10 + (t.last() - 48) == (d - 48)
            * (10 * pow10(u.len())) + (digits_value(u) * 10 + (t.last() - 48)))
            by (nonlinear_arith);
    }
}

/// Reading the digits from `j` with `lead` already read gives `lead`
/// shifted past the digit run, plus the value of the run.
pub proof fn lemma_digits_from_value(s: Seq<u8>, j: int, lead: int)
    requires
        0 <= j <= s.len(),
    ensures
        digits_from(s, j, lead) == lead * pow10((digit_run_end(s, j) - j) as nat) + digits_value(
            s.subrange(j, digit_run_end(s, j)),
        ),
    decreases s.len() - j,
{
    lemma_digit_run_end_bounds(s, j);
    let e = digit_run_end(s, j);
    if j < s.len() && 48 <= s[j] <= 57 {
        let d = s[j];
        lemma_digit_run_end_bounds(s, j + 1);
        assert(e == digit_run_end(s, j + 1));
        lemma_digits_from_value(s, j + 1, lead * 10 + (d - 48));
        let t = s.subrange(j + 1, e);
        assert(s.subrange(j, e) =~= seq![d] + t);
        lemma_decimal_prepend(d, t);
        let k = (e - j - 1) as nat;
        assert(pow10((e - j) as nat) == 10 * pow10(k));
        assert((lead * 10 + (d - 48)) * pow10(k) == lead * (10 * pow10(k)) + (d - 48) * pow10(k))
            by (nonlinear_arith);
    } else {
        assert(s.subrange(j, e) =~= Seq::<u8>::empty());
    }
}

/// The `Content-Length` is the decimal value of the digit run that follows
/// the first `"Content-Length:"` and its spaces or tabs (0 for no digits or
/// no such header).
pub proof fn lemma_content_length_value(headers: Seq<u8>)
    ensures
        spec_content_length(headers) == match spec_find_key(headers, 0, spec_content_length_key()) {
            Some(p) => {
                let q = skip_blanks(headers, p);
                digits_value(headers.subrange(q, digit_run_end(headers, q)))
            },
            None => 0,
        },
{
    match spec_find_key(headers, 0, spec_content_length_key()) {
        Some(p) => {
            lemma_find_key_bounds(headers, 0, spec_content_length_key());
            lemma_skip_blanks_bounds(headers, p);
            lemma_digits_from_value(headers, skip_blanks(headers, p), 0);
        },
        None => {},
    }
}

proof fn lemma_skip_blanks_bounds(s: Seq<u8>, j: int)
    requires
        0 <= j <= s.len(),
    ensures
        j <= skip_blanks(s, j) <= s.len(),
    decreases s.len() - j,
{
    if j < s.len() && (s[j] == 32 || s[j] == 9) {
        lemma_skip_blanks_bounds(s, j + 1);
    }
}

/// The `Content-Length` of `headers`, or `None` where it does not fit a
/// `usize` (the decimal accumulation would overflow there).
pub fn parse_content_length_checked(headers: &[u8]) -> (r: Option<usize>)
    ensures
        r matches Some(n) ==> n == spec_content_length(headers@),
        r is None <==> spec_content_length(headers@) > usize::MAX,
        r matches Some(n) ==> n == match spec_find_key(headers@, 0, spec_content_length_key()) {
            Some(p) => {
                let q = skip_blanks(headers@, p);
                digits_value(headers@.subrange(q, digit_run_end(headers@, q)))
            },
            None => 0,
        },
{
    proof {
        lemma_content_length_value(headers@);
    }
    let needle = content_length_key();
    if headers.len() < needle.len() {
        assert(spec_find_key(headers@, 0, needle@) is None) by {
            assert(!occurs_at(headers@, 0, needle@));
            assert(spec_find_key(headers@, 1, needle@) is None);
        }
        return Some(0);
    }
    match find_key(headers, 0, &needle) {
        None => Some(0),
        Some(p) => {
            proof {
                lemma_find_key_bounds(headers@, 0, needle@);
            }
            let mut j = p;
            while j < headers.len() && (headers[j] == 32 || headers[j] == 9)
                invariant
                    p <= j <= headers@.len(),
                    skip_blanks(headers@, p as int) == skip_blanks(headers@, j as int),
                decreases headers@.len() - j,
            {
                j += 1;
            }
            let mut n: usize = 0;
            while j < headers.len() && 48 <= headers[j] && headers[j] <= 57
                invariant
                    j <= headers@.len(),
                    spec_content_length(headers@) == digits_from(headers@, j as int, n as int),
                decreases headers@.len() - j,
            {
                let d = (headers[j] - 48) as usize;
                proof {
                    lemma_digits_from_grows(headers@, j + 1, n * 10 + d);
                }
                if n > (usize::MAX - d) / 10 {
                    return None;
                }
                n = n * 10 + d;
                j += 1;
            }
            Some(n)
        },
    }
}

/// The `Content-Length` of a header block (see `spec_content_length`).
pub fn parse_content_length(headers: &[u8]) -> (r: usize)
    requires
        spec_content_length(headers@) <= usize::MAX,
    ensures
        r == spec_content_length(headers@),
{
    parse_content_length_checked(headers).unwrap()
}

/// `"POST /fraud-score "`.
pub open spec fn spec_post_fraud_score() -> Seq<u8> {
    seq![80u8, 79u8, 83u8, 84u8, 32u8, 47u8, 102u8, 114u8, 97u8, 117u8, 100u8, 45u8, 115u8, 99u8, 111u8, 114u8, 101u8, 32u8]
}

/// `"GET /ready "`.
pub open spec fn spec_get_ready() -> Seq<u8> {
    seq![71u8, 69u8, 84u8, 32u8, 47u8, 114u8, 101u8, 97u8, 100u8, 121u8, 32u8]
}

fn post_fraud_score() -> (r: [u8; 18])
    ensures
        r@ == spec_post_fraud_score(),
{
    let r: [u8; 18] = [80, 79, 83, 84, 32, 47, 102, 114, 97, 117, 100, 45, 115, 99, 111, 114, 101, 32];
    assert(r@ =~= spec_post_fraud_score());
    r
}

fn get_ready() -> (r: [u8; 11])
    ensures
        r@ == spec_get_ready(),
{
    let r: [u8; 11] = [71, 69, 84, 32, 47, 114, 101, 97, 100, 121, 32];
    assert(r@ =~= spec_get_ready());
    r
}

/// What a request asks for.
#[derive(Debug, Clone, Copy, PartialEq, Eq, Structural)]
pub enum Route {
    /// `POST /fraud-score`: score the body.
    FraudScore,
    /// `GET /ready`: health check.
    Ready,
    /// Anything else.
    NotFound,
}

/// `s` begins with `prefix`.
pub open spec fn starts_with(s: Seq<u8>, prefix: Seq<u8>) -> bool {
    prefix.len() <= s.len() && s.subrange(0, prefix.len() as int) == prefix
}

/// The route of a request by the start of its header block.
pub open spec fn spec_route(headers: Seq<u8>) -> Route {
    if starts_with(headers, spec_post_fraud_score()) {
        Route::FraudScore
    } else if starts_with(headers, spec_get_ready()) {
        Route::Ready
    } else {
        Route::NotFound
    }
}

fn has_prefix(s: &[u8], prefix: &[u8]) -> (r: bool)
    ensures
        r == starts_with(s@, prefix@),
{
    if s.len() < prefix.len() {
        return false;
    }
    let mut i: usize = 0;
    while i < prefix.len()
        invariant
            i <= prefix@.len() <= s@.len(),
            forall|k: int| 0 <= k < i ==> s@[k] == prefix@[k],
        decreases prefix@.len() - i,
    {
        if s[i] != prefix[i] {
            assert(s@.subrange(0, prefix@.len() as int)[i as int] != prefix@[i as int]);
            return false;
        }
        i += 1;
    }
    assert(s@.subrange(0, prefix@.len() as int) =~= prefix@);
    true
}

/// The route of a request: the request line decides, by its method and path.
pub fn route(headers: &[u8]) -> (r: Route)
    ensures
        r == spec_route(headers@),
{
    if headers.len() > 0 && headers[0] == 80 {
        let p = post_fraud_score();
        if has_prefix(headers, &p) {
            return Route::FraudScore;
        }
    }
    if headers.len() > 0 && headers[0] == 71 {
        let g = get_ready();
        if has_prefix(headers, &g) {
            return Route::Ready;
        }
    }
    proof {
        if starts_with(headers@, spec_post_fraud_score()) {
            assert(headers@[0] == headers@.subrange(0, 18)[0]);
        }
        if starts_with(headers@, spec_get_ready()) {
            assert(headers@[0] == headers@.subrange(0, 11)[0]);
        }
    }
    Route::NotFound
}

/// A connection's receive buffer: `buf[..buf_len]` holds bytes received and
/// not yet consumed.
pub struct Conn {
    pub buf: Vec<u8>,
    pub buf_len: usize,
}

impl Conn {
    pub open spec fn wf(&self) -> bool {
        self.buf_len <= self.buf@.len()
    }

    /// The bytes received and not yet consumed.
    pub open spec fn pending(&self) -> Seq<u8> {
        self.buf@.subrange(0, self.buf_len as int)
    }

    /// An empty connection buffer of `BUF_SIZE` bytes.
    pub fn new() -> (c: Conn)
        ensures
            c.wf(),
            c.buf_len == 0,
            c.buf@.len() == BUF_SIZE,
    {
        let mut buf: Vec<u8> = Vec::new();
        let mut i: usize = 0;
        while i < BUF_SIZE
            invariant
                i <= BUF_SIZE,
                buf@.len() == i,
            decreases BUF_SIZE - i,
        {
            buf.push(0);
            i += 1;
        }
        Conn { buf, buf_len: 0 }
    }
}

/// A complete request taken off the front of a connection buffer.
pub struct Request {
    pub route: Route,
    pub body: Vec<u8>,
}

/// Where the header block of `data` ends and how long the body is, once a
/// whole request is buffered.
pub open spec fn spec_frame(data: Seq<u8>) -> Option<(int, int)> {
    if data.len() == 0 {
        None
    } else {
        match spec_find_crlfcrlf(data) {
            None => None,
            Some(h) => {
                let cl = spec_content_length(data.subrange(0, h));
                if data.len() - (h + 4) < cl {
                    None
                } else {
                    Some((h, cl))
                }
            },
        }
    }
}

/// Framing `data` does not overflow the `Content-Length` accumulation.
pub open spec fn frame_defined(data: Seq<u8>) -> bool {
    spec_find_crlfcrlf(data) matches Some(h) ==> spec_content_length(data.subrange(0, h))
        <= usize::MAX
}

pub proof fn lemma_find_crlfcrlf_bounds(buf: Seq<u8>)
    ensures
        spec_find_crlfcrlf(buf) matches Some(h) ==> 0 <= h && h + 4 <= buf.len(),
{
    lemma_find_key_bounds(buf, 0, spec_crlfcrlf());
}

/// Whether the pending bytes of `conn` can be framed: where a header block
/// is complete, its `Content-Length` fits a `usize`.
pub fn frame_is_defined(conn: &Conn) -> (r: bool)
    requires
        conn.wf(),
    ensures
        r == frame_defined(conn.pending()),
{
    let data = &conn.buf[0..conn.buf_len];
    assert(data@ =~= conn.pending());
    match find_crlfcrlf(data) {
        Some(h) => {
            proof {
                lemma_find_crlfcrlf_bounds(data@);
            }
            let headers = &data[0..h];
            assert(headers@ =~= data@.subrange(0, h as int));
            parse_content_length_checked(headers).is_some()
        },
        None => true,
    }
}

/// Takes the first complete request off the front of the buffer: the header
/// block up to `"\r\n\r\n"` and `Content-Length` bytes of body. Returns
/// its route and body, and moves the bytes after it to the front. `None`
/// (buffer untouched) while no complete request is buffered.
pub fn try_process_one(conn: &mut Conn) -> (r: Option<Request>)
    requires
        old(conn).wf(),
        frame_defined(old(conn).pending()),
    ensures
        final(conn).wf(),
        final(conn).buf@.len() == old(conn).buf@.len(),
        match spec_frame(old(conn).pending()) {
            None => r is None && *final(conn) == *old(conn),
            Some((h, cl)) => {
                let data = old(conn).pending();
                &&& r is Some
                &&& r->Some_0.route == spec_route(data.subrange(0, h))
                &&& r->Some_0.body@ == data.subrange(h + 4, h + 4 + cl)
                &&& final(conn).pending() == data.subrange(h + 4 + cl, data.len() as int)
            },
        },
{
    if conn.buf_len == 0 {
        return None;
    }
    let len = conn.buf_len;
    let hdr_end = match find_crlfcrlf(&conn.buf[0..len]) {
        Some(h) => h,
        None => {
            return None;
        },
    };
    proof {
        lemma_find_crlfcrlf_bounds(conn.buf@.subrange(0, len as int));
    }
    let headers = &conn.buf[0..hdr_end];
    assert(headers@ =~= conn.pending().subrange(0, hdr_end as int));
    let content_length = parse_content_length(headers);
    let body_start = hdr_end + 4;
    let body_in_buf = len - body_start;
    if body_in_buf < content_length {
        return None;
    }
    let r = route(headers);
    let body = slice_to_vec(&conn.buf[body_start..body_start + content_length]);
    let next_start = body_start + content_length;
    let ghost old_buf = conn.buf@;
    let mut k: usize = 0;
    while k < len - next_start
        invariant
            next_start <= len <= old_buf.len(),
            conn.buf@.len() == old_buf.len(),
            k <= len - next_start,
            forall|i: int| 0 <= i < k ==> conn.buf@[i] == old_buf[next_start + i],
            forall|i: int| k <= i < old_buf.len() ==> conn.buf@[i] == old_buf[i],
        decreases len - next_start - k,
    {
        let x = conn.buf[next_start + k];
        conn.buf.set(k, x);
        k += 1;
    }
    conn.buf_len = len - next_start;
    assert(conn.pending() =~= old_buf.subrange(0, len as int).subrange(
        next_start as int,
        len as int,
    ));
    Some(Request { route: r, body })
}

/// A request written as a header block, `"\r\n\r\n"` and a body whose
/// length the block announces, is read back whole, whatever follows it: the
/// framing finds that header block and that body.
pub proof fn lemma_frame_request(headers: Seq<u8>, body: Seq<u8>, rest: Seq<u8>)
    requires
        forall|j: int|
            0 <= j < headers.len() ==> !#[trigger] occurs_at(
                headers + spec_crlfcrlf(),
                j,
                spec_crlfcrlf(),
            ),
        spec_content_length(headers) == body.len(),
    ensures
        ({
            let data = headers + spec_crlfcrlf() + body + rest;
            &&& spec_frame(data) == Some((headers.len() as int, body.len() as int))
            &&& data.subrange(0, headers.len() as int) == headers
            &&& data.subrange(headers.len() + 4int, headers.len() + 4int + body.len()) == body
            &&& data.subrange(headers.len() + 4int + body.len(), data.len() as int) == rest
        }),
{
    let c = spec_crlfcrlf();
    let hc = headers + c;
    let data = hc + body + rest;
    let h = headers.len() as int;
    assert(occurs_at(data, h, c)) by {
        assert(data.subrange(h, h + 4) =~= c);
    }
    assert forall|j: int| 0 <= j < h implies !#[trigger] occurs_at(data, j, c) by {
        if occurs_at(data, j, c) {
            assert(data.subrange(j, j + 4) =~= hc.subrange(j, j + 4));
            assert(occurs_at(hc, j, c));
        }
    }
    lemma_find_key_first(data, 0, c, h);
    assert(data.subrange(0, h) =~= headers);
    assert(data.subrange(h + 4, h + 4 + body.len()) =~= body);
    assert(data.subrange(h + 4 + body.len(), data.len() as int) =~= rest);
}

} // verus!
