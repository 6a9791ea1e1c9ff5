//! The HTTP responses of the service. A fraud score is one of six values
//! (`fraud_count / K` with `K = 5`), so each response is one of six texts.
use crate::bytes_le::push_bytes;
use crate::engine::{spec_is_approved, K};
use crate::http::{
    digits_from, skip_blanks, spec_content_length, spec_content_length_key, spec_crlfcrlf,
    spec_find_crlfcrlf, spec_frame,
};
use crate::scan::{lemma_find_key_first, occurs_at};
use vstd::prelude::*;

verus! {

/// The status line `HTTP/1.1 200 OK`.
pub open spec fn spec_status_ok() -> Seq<u8> {
    seq![72u8, 84u8, 84u8, 80u8, 47u8, 49u8, 46u8, 49u8, 32u8, 50u8, 48u8, 48u8, 32u8, 79u8, 75u8, 13u8, 10u8]
}

fn status_ok() -> (r: [u8; 17])
    ensures
        r@ == spec_status_ok(),
{
    let r: [u8; 17] = [72, 84, 84, 80, 47, 49, 46, 49, 32, 50, 48, 48, 32, 79, 75, 13, 10];
    assert(r@ =~= spec_status_ok());
    r
}

/// The header `Content-Type: application/json`.
pub open spec fn spec_json_type() -> Seq<u8> {
    seq![67u8, 111u8, 110u8, 116u8, 101u8, 110u8, 116u8, 45u8, 84u8, 121u8, 112u8, 101u8, 58u8, 32u8, 97u8, 112u8, 112u8, 108u8, 105u8, 99u8, 97u8, 116u8, 105u8, 111u8, 110u8, 47u8, 106u8, 115u8, 111u8, 110u8, 13u8, 10u8]
}

fn json_type() -> (r: [u8; 32])
    ensures
        r@ == spec_json_type(),
{
    let r: [u8; 32] = [67, 111, 110, 116, 101, 110, 116, 45, 84, 121, 112, 101, 58, 32, 97, 112, 112, 108, 105, 99, 97, 116, 105, 111, 110, 47, 106, 115, 111, 110, 13, 10];
    assert(r@ =~= spec_json_type());
    r
}

/// The header name `Content-Length: `.
pub open spec fn spec_length_name() -> Seq<u8> {
    seq![67u8, 111u8, 110u8, 116u8, 101u8, 110u8, 116u8, 45u8, 76u8, 101u8, 110u8, 103u8, 116u8, 104u8, 58u8, 32u8]
}

fn length_name() -> (r: [u8; 16])
    ensures
        r@ == spec_length_name(),
{
    let r: [u8; 16] = [67, 111, 110, 116, 101, 110, 116, 45, 76, 101, 110, 103, 116, 104, 58, 32];
    assert(r@ =~= spec_length_name());
    r
}

/// The end of the `Content-Length` line, `Connection: keep-alive` and the blank line.
pub open spec fn spec_keep_alive_end() -> Seq<u8> {
    seq![13u8, 10u8, 67u8, 111u8, 110u8, 110u8, 101u8, 99u8, 116u8, 105u8, 111u8, 110u8, 58u8, 32u8, 107u8, 101u8, 101u8, 112u8, 45u8, 97u8, 108u8, 105u8, 118u8, 101u8, 13u8, 10u8, 13u8, 10u8]
}

fn keep_alive_end() -> (r: [u8; 28])
    ensures
        r@ == spec_keep_alive_end(),
{
    let r: [u8; 28] = [13, 10, 67, 111, 110, 110, 101, 99, 116, 105, 111, 110, 58, 32, 107, 101, 101, 112, 45, 97, 108, 105, 118, 101, 13, 10, 13, 10];
    assert(r@ =~= spec_keep_alive_end());
    r
}

/// The header `content-type: application/json`.
pub open spec fn spec_json_type_lower() -> Seq<u8> {
    seq![99u8, 111u8, 110u8, 116u8, 101u8, 110u8, 116u8, 45u8, 116u8, 121u8, 112u8, 101u8, 58u8, 32u8, 97u8, 112u8, 112u8, 108u8, 105u8, 99u8, 97u8, 116u8, 105u8, 111u8, 110u8, 47u8, 106u8, 115u8, 111u8, 110u8, 13u8, 10u8]
}

fn json_type_lower() -> (r: [u8; 32])
    ensures
        r@ == spec_json_type_lower(),
{
    let r: [u8; 32] = [99, 111, 110, 116, 101, 110, 116, 45, 116, 121, 112, 101, 58, 32, 97, 112, 112, 108, 105, 99, 97, 116, 105, 111, 110, 47, 106, 115, 111, 110, 13, 10];
    assert(r@ =~= spec_json_type_lower());
    r
}

/// The header name `content-length: `.
pub open spec fn spec_length_name_lower() -> Seq<u8> {
    seq![99u8, 111u8, 110u8, 116u8, 101u8, 110u8, 116u8, 45u8, 108u8, 101u8, 110u8, 103u8, 116u8, 104u8, 58u8, 32u8]
}

fn length_name_lower() -> (r: [u8; 16])
    ensures
        r@ == spec_length_name_lower(),
{
    let r: [u8; 16] = [99, 111, 110, 116, 101, 110, 116, 45, 108, 101, 110, 103, 116, 104, 58, 32];
    assert(r@ =~= spec_length_name_lower());
    r
}

/// The end of the last header line and the blank line.
pub open spec fn spec_line_end_blank() -> Seq<u8> {
    seq![13u8, 10u8, 13u8, 10u8]
}

fn line_end_blank() -> (r: [u8; 4])
    ensures
        r@ == spec_line_end_blank(),
{
    let r: [u8; 4] = [13, 10, 13, 10];
    assert(r@ =~= spec_line_end_blank());
    r
}

/// The start of the body, `{"approved":`.
pub open spec fn spec_approved_open() -> Seq<u8> {
    seq![123u8, 34u8, 97u8, 112u8, 112u8, 114u8, 111u8, 118u8, 101u8, 100u8, 34u8, 58u8]
}

fn approved_open() -> (r: [u8; 12])
    ensures
        r@ == spec_approved_open(),
{
    let r: [u8; 12] = [123, 34, 97, 112, 112, 114, 111, 118, 101, 100, 34, 58];
    assert(r@ =~= spec_approved_open());
    r
}

/// `true`.
pub open spec fn spec_json_true() -> Seq<u8> {
    seq![116u8, 114u8, 117u8, 101u8]
}

fn json_true() -> (r: [u8; 4])
    ensures
        r@ == spec_json_true(),
{
    let r: [u8; 4] = [116, 114, 117, 101];
    assert(r@ =~= spec_json_true());
    r
}

/// `false`.
pub open spec fn spec_json_false() -> Seq<u8> {
    seq![102u8, 97u8, 108u8, 115u8, 101u8]
}

fn json_false() -> (r: [u8; 5])
    ensures
        r@ == spec_json_false(),
{
    let r: [u8; 5] = [102, 97, 108, 115, 101];
    assert(r@ =~= spec_json_false());
    r
}

/// `,"fraud_score":`.
pub open spec fn spec_score_key() -> Seq<u8> {
    seq![44u8, 34u8, 102u8, 114u8, 97u8, 117u8, 100u8, 95u8, 115u8, 99u8, 111u8, 114u8, 101u8, 34u8, 58u8]
}

fn score_key() -> (r: [u8; 15])
    ensures
        r@ == spec_score_key(),
{
    let r: [u8; 15] = [44, 34, 102, 114, 97, 117, 100, 95, 115, 99, 111, 114, 101, 34, 58];
    assert(r@ =~= spec_score_key());
    r
}

/// The `GET /ready` response on a kept-alive connection.
pub open spec fn spec_ready_keep_alive() -> Seq<u8> {
    seq![72u8, 84u8, 84u8, 80u8, 47u8, 49u8, 46u8, 49u8, 32u8, 50u8, 48u8, 48u8, 32u8, 79u8, 75u8, 13u8, 10u8, 67u8, 111u8, 110u8, 116u8, 101u8, 110u8, 116u8, 45u8, 76u8, 101u8, 110u8, 103u8, 116u8, 104u8, 58u8, 32u8, 48u8, 13u8, 10u8, 67u8, 111u8, 110u8, 110u8, 101u8, 99u8, 116u8, 105u8, 111u8, 110u8, 58u8, 32u8, 107u8, 101u8, 101u8, 112u8, 45u8, 97u8, 108u8, 105u8, 118u8, 101u8, 13u8, 10u8, 13u8, 10u8]
}

fn ready_keep_alive() -> (r: [u8; 62])
    ensures
        r@ == spec_ready_keep_alive(),
{
    let r: [u8; 62] = [72, 84, 84, 80, 47, 49, 46, 49, 32, 50, 48, 48, 32, 79, 75, 13, 10, 67, 111, 110, 116, 101, 110, 116, 45, 76, 101, 110, 103, 116, 104, 58, 32, 48, 13, 10, 67, 111, 110, 110, 101, 99, 116, 105, 111, 110, 58, 32, 107, 101, 101, 112, 45, 97, 108, 105, 118, 101, 13, 10, 13, 10];
    assert(r@ =~= spec_ready_keep_alive());
    r
}

/// The 404 response on a kept-alive connection.
pub open spec fn spec_not_found_keep_alive() -> Seq<u8> {
    seq![72u8, 84u8, 84u8, 80u8, 47u8, 49u8, 46u8, 49u8, 32u8, 52u8, 48u8, 52u8, 32u8, 78u8, 111u8, 116u8, 32u8, 70u8, 111u8, 117u8, 110u8, 100u8, 13u8, 10u8, 67u8, 111u8, 110u8, 116u8, 101u8, 110u8, 116u8, 45u8, 76u8, 101u8, 110u8, 103u8, 116u8, 104u8, 58u8, 32u8, 48u8, 13u8, 10u8, 67u8, 111u8, 110u8, 110u8, 101u8, 99u8, 116u8, 105u8, 111u8, 110u8, 58u8, 32u8, 107u8, 101u8, 101u8, 112u8, 45u8, 97u8, 108u8, 105u8, 118u8, 101u8, 13u8, 10u8, 13u8, 10u8]
}

fn not_found_keep_alive() -> (r: [u8; 69])
    ensures
        r@ == spec_not_found_keep_alive(),
{
    let r: [u8; 69] = [72, 84, 84, 80, 47, 49, 46, 49, 32, 52, 48, 52, 32, 78, 111, 116, 32, 70, 111, 117, 110, 100, 13, 10, 67, 111, 110, 116, 101, 110, 116, 45, 76, 101, 110, 103, 116, 104, 58, 32, 48, 13, 10, 67, 111, 110, 110, 101, 99, 116, 105, 111, 110, 58, 32, 107, 101, 101, 112, 45, 97, 108, 105, 118, 101, 13, 10, 13, 10];
    assert(r@ =~= spec_not_found_keep_alive());
    r
}

/// The `GET /ready` response.
pub open spec fn spec_ready_lower() -> Seq<u8> {
    seq![72u8, 84u8, 84u8, 80u8, 47u8, 49u8, 46u8, 49u8, 32u8, 50u8, 48u8, 48u8, 32u8, 79u8, 75u8, 13u8, 10u8, 99u8, 111u8, 110u8, 116u8, 101u8, 110u8, 116u8, 45u8, 108u8, 101u8, 110u8, 103u8, 116u8, 104u8, 58u8, 32u8, 48u8, 13u8, 10u8, 13u8, 10u8]
}

fn ready_lower() -> (r: [u8; 38])
    ensures
        r@ == spec_ready_lower(),
{
    let r: [u8; 38] = [72, 84, 84, 80, 47, 49, 46, 49, 32, 50, 48, 48, 32, 79, 75, 13, 10, 99, 111, 110, 116, 101, 110, 116, 45, 108, 101, 110, 103, 116, 104, 58, 32, 48, 13, 10, 13, 10];
    assert(r@ =~= spec_ready_lower());
    r
}

/// The 404 response.
pub open spec fn spec_not_found_lower() -> Seq<u8> {
    seq![72u8, 84u8, 84u8, 80u8, 47u8, 49u8, 46u8, 49u8, 32u8, 52u8, 48u8, 52u8, 32u8, 78u8, 111u8, 116u8, 32u8, 70u8, 111u8, 117u8, 110u8, 100u8, 13u8, 10u8, 99u8, 111u8, 110u8, 116u8, 101u8, 110u8, 116u8, 45u8, 108u8, 101u8, 110u8, 103u8, 116u8, 104u8, 58u8, 32u8, 48u8, 13u8, 10u8, 13u8, 10u8]
}

fn not_found_lower() -> (r: [u8; 45])
    ensures
        r@ == spec_not_found_lower(),
{
    let r: [u8; 45] = [72, 84, 84, 80, 47, 49, 46, 49, 32, 52, 48, 52, 32, 78, 111, 116, 32, 70, 111, 117, 110, 100, 13, 10, 99, 111, 110, 116, 101, 110, 116, 45, 108, 101, 110, 103, 116, 104, 58, 32, 48, 13, 10, 13, 10];
    assert(r@ =~= spec_not_found_lower());
    r
}

/// The 400 response.
pub open spec fn spec_bad_request_lower() -> Seq<u8> {
    seq![72u8, 84u8, 84u8, 80u8, 47u8, 49u8, 46u8, 49u8, 32u8, 52u8, 48u8, 48u8, 32u8, 66u8, 97u8, 100u8, 32u8, 82u8, 101u8, 113u8, 117u8, 101u8, 115u8, 116u8, 13u8, 10u8, 99u8, 111u8, 110u8, 116u8, 101u8, 110u8, 116u8, 45u8, 108u8, 101u8, 110u8, 103u8, 116u8, 104u8, 58u8, 32u8, 48u8, 13u8, 10u8, 13u8, 10u8]
}

fn bad_request_lower() -> (r: [u8; 47])
    ensures
        r@ == spec_bad_request_lower(),
{
    let r: [u8; 47] = [72, 84, 84, 80, 47, 49, 46, 49, 32, 52, 48, 48, 32, 66, 97, 100, 32, 82, 101, 113, 117, 101, 115, 116, 13, 10, 99, 111, 110, 116, 101, 110, 116, 45, 108, 101, 110, 103, 116, 104, 58, 32, 48, 13, 10, 13, 10];
    assert(r@ =~= spec_bad_request_lower());
    r
}

/// The score `fraud_count / 5` with one decimal: `0.0`, `0.2`, ..., `1.0`.
pub open spec fn spec_score_text(fraud_count: int) -> Seq<u8> {
    if fraud_count >= 5 {
        seq![49u8, 46u8, 48u8]
    } else {
        seq![48u8, 46u8, (48 + 2 * fraud_count) as u8]
    }
}

/// `{"approved":<bool>,"fraud_score":<score>}`.
pub open spec fn spec_fraud_body(fraud_count: int) -> Seq<u8> {
    spec_approved_open() + (if spec_is_approved(fraud_count) {
        spec_json_true()
    } else {
        spec_json_false()
    }) + spec_score_key() + spec_score_text(fraud_count) + seq![125u8]
}

/// Two decimal digits of `n` (for `10 <= n < 100`).
pub open spec fn spec_decimal2(n: int) -> Seq<u8> {
    seq![(48 + n / 10) as u8, (48 + n % 10) as u8]
}

/// The full response for `fraud_count` on a kept-alive connection.
pub open spec fn spec_fraud_response(fraud_count: int) -> Seq<u8> {
    let body = spec_fraud_body(fraud_count);
    spec_status_ok() + spec_json_type() + spec_length_name() + spec_decimal2(body.len() as int)
        + spec_keep_alive_end() + body
}

/// The full response for `fraud_count`, with lower-case header names.
pub open spec fn spec_fraud_response_lower(fraud_count: int) -> Seq<u8> {
    let body = spec_fraud_body(fraud_count);
    spec_status_ok() + spec_json_type_lower() + spec_length_name_lower() + spec_decimal2(
        body.len() as int,
    ) + spec_line_end_blank() + body
}

/// The score in the body of `fraud_count` (at most 5) is `fraud_count / 5`
/// written with one decimal: the body ends with `a.b}`, where the digits
/// read `a + b / 10 == fraud_count / 5`, i.e. ten times the score,
/// `10 a + b`, is `2 * fraud_count`. The approval word right after
/// `{"approved":` is `true` exactly when fewer than 3 of 5 are fraudulent.
pub proof fn lemma_fraud_body_score(fraud_count: int)
    requires
        0 <= fraud_count <= K,
    ensures
        ({
            let body = spec_fraud_body(fraud_count);
            let n = body.len() as int;
            &&& n >= 16
            &&& body[n - 1] == 125u8
            &&& body[n - 3] == 46u8
            &&& 48 <= body[n - 4] <= 57 && 48 <= body[n - 2] <= 57
            &&& 10 * (body[n - 4] - 48) + (body[n - 2] - 48) == 2 * fraud_count
            &&& body.subrange(0, 12) == spec_approved_open()
            &&& (body[12] == 116u8 <==> fraud_count < 3)
        }),
{
    let body = spec_fraud_body(fraud_count);
    let w = if spec_is_approved(fraud_count) {
        spec_json_true()
    } else {
        spec_json_false()
    };
    let t = spec_score_text(fraud_count);
    assert(body =~= spec_approved_open() + w + spec_score_key() + t + seq![125u8]);
    let n = body.len() as int;
    assert(body.subrange(0, 12) =~= spec_approved_open());
    assert(body[12] == w[0]);
    assert(body[n - 4] == t[0]);
    assert(body[n - 3] == t[1]);
    assert(body[n - 2] == t[2]);
}

/// The JSON body for `fraud_count` (at most 5).
pub fn fraud_body(fraud_count: usize) -> (r: Vec<u8>)
    requires
        fraud_count <= K,
    ensures
        r@ == spec_fraud_body(fraud_count as int),
        r@.len() == if fraud_count < 3 { 35int } else { 36int },
        10 * (r@[r@.len() - 4] - 48) + (r@[r@.len() - 2] - 48) == 2 * fraud_count,
        r@[12] == 116u8 <==> fraud_count < 3,
{
    proof {
        lemma_fraud_body_score(fraud_count as int);
    }
    let mut out: Vec<u8> = Vec::new();
    push_bytes(&mut out, &approved_open());
    if fraud_count < 3 {
        push_bytes(&mut out, &json_true());
    } else {
        push_bytes(&mut out, &json_false());
    }
    push_bytes(&mut out, &score_key());
    if fraud_count >= 5 {
        out.push(49);
        out.push(46);
        out.push(48);
    } else {
        out.push(48);
        out.push(46);
        out.push((48 + 2 * fraud_count) as u8);
    }
    out.push(125);
    assert(out@ =~= spec_fraud_body(fraud_count as int));
    out
}

fn push_decimal2(out: &mut Vec<u8>, n: usize)
    requires
        10 <= n < 100,
    ensures
        final(out)@ == old(out)@ + spec_decimal2(n as int),
{
    out.push((48 + n / 10) as u8);
    out.push((48 + n % 10) as u8);
    assert(final(out)@ =~= old(out)@ + spec_decimal2(n as int));
}

/// The response carrying the score of `fraud_count` neighbours among `K`
/// (counts above `K` are answered as `K`), on a kept-alive connection.
pub fn keep_alive_fraud_response(fraud_count: usize) -> (r: Vec<u8>)
    ensures
        r@ == spec_fraud_response(if fraud_count < 5 { fraud_count as int } else { 5 }),
{
    let c = if fraud_count < 5 {
        fraud_count
    } else {
        5
    };
    let body = fraud_body(c);
    let mut out: Vec<u8> = Vec::new();
    push_bytes(&mut out, &status_ok());
    push_bytes(&mut out, &json_type());
    push_bytes(&mut out, &length_name());
    push_decimal2(&mut out, body.len());
    push_bytes(&mut out, &keep_alive_end());
    push_bytes(&mut out, body.as_slice());
    out
}

/// The response for `fraud_count` (at most 5), with lower-case header names.
fn fraud_response_lower(fraud_count: usize) -> (r: Vec<u8>)
    requires
        fraud_count <= K,
    ensures
        r@ == spec_fraud_response_lower(fraud_count as int),
{
    let body = fraud_body(fraud_count);
    let mut out: Vec<u8> = Vec::new();
    push_bytes(&mut out, &status_ok());
    push_bytes(&mut out, &json_type_lower());
    push_bytes(&mut out, &length_name_lower());
    push_decimal2(&mut out, body.len());
    push_bytes(&mut out, &line_end_blank());
    push_bytes(&mut out, body.as_slice());
    out
}

/// The six responses, indexed by the number of fraudulent neighbours.
pub fn responses() -> (r: Vec<Vec<u8>>)
    ensures
        r@.len() == K + 1,
        forall|i: int| 0 <= i <= K ==> (#[trigger] r@[i])@ == spec_fraud_response_lower(i),
{
    let mut r: Vec<Vec<u8>> = Vec::new();
    let mut i: usize = 0;
    while i <= K
        invariant
            i <= K + 1,
            r@.len() == i,
            forall|j: int| 0 <= j < i ==> (#[trigger] r@[j])@ == spec_fraud_response_lower(j),
        decreases K + 1 - i,
    {
        r.push(fraud_response_lower(i));
        i += 1;
    }
    r
}

/// The response to `GET /ready`.
pub fn ready_response() -> (r: Vec<u8>)
    ensures
        r@ == spec_ready_lower(),
{
    let mut out: Vec<u8> = Vec::new();
    push_bytes(&mut out, &ready_lower());
    out
}

/// The response to an unknown route.
pub fn not_found_response() -> (r: Vec<u8>)
    ensures
        r@ == spec_not_found_lower(),
{
    let mut out: Vec<u8> = Vec::new();
    push_bytes(&mut out, &not_found_lower());
    out
}

/// The response to a malformed request.
pub fn bad_request_response() -> (r: Vec<u8>)
    ensures
        r@ == spec_bad_request_lower(),
{
    let mut out: Vec<u8> = Vec::new();
    push_bytes(&mut out, &bad_request_lower());
    out
}

/// The response to `GET /ready` on a kept-alive connection.
pub fn keep_alive_ready_response() -> (r: Vec<u8>)
    ensures
        r@ == spec_ready_keep_alive(),
{
    let mut out: Vec<u8> = Vec::new();
    push_bytes(&mut out, &ready_keep_alive());
    out
}

/// The response to an unknown route on a kept-alive connection.
pub fn keep_alive_not_found_response() -> (r: Vec<u8>)
    ensures
        r@ == spec_not_found_keep_alive(),
{
    let mut out: Vec<u8> = Vec::new();
    push_bytes(&mut out, &not_found_keep_alive());
    out
}

/// Every fraud-score response frames itself: its header block ends where the
/// body starts, and its `Content-Length` is the length of the body. Read by
/// this crate's own request framing, it yields exactly its body.
pub proof fn lemma_fraud_response_frames(fraud_count: int)
    requires
        0 <= fraud_count <= K,
    ensures
        ({
            let r = spec_fraud_response(fraud_count);
            let body = spec_fraud_body(fraud_count);
            let h = r.len() - body.len() - 4;
            &&& spec_find_crlfcrlf(r) == Some(h)
            &&& spec_content_length(r.subrange(0, h)) == body.len()
            &&& spec_frame(r) == Some((h, body.len() as int))
            &&& r.subrange(h + 4, r.len() as int) == body
        }),
{
    let body = spec_fraud_body(fraud_count);
    let r = spec_fraud_response(fraud_count);
    assert(body.len() == 35 || body.len() == 36);
    let n = body.len() as int;
    let d = spec_decimal2(n);
    let h: int = 91;
    let head = r.subrange(0, h + 4);
    assert(head =~= seq![
        72u8, 84u8, 84u8, 80u8, 47u8, 49u8, 46u8, 49u8, 32u8, 50u8, 48u8, 48u8, 32u8, 79u8, 75u8,
        13u8, 10u8,
        67u8, 111u8, 110u8, 116u8, 101u8, 110u8, 116u8, 45u8, 84u8, 121u8, 112u8, 101u8, 58u8,
        32u8, 97u8, 112u8, 112u8, 108u8, 105u8, 99u8, 97u8, 116u8, 105u8, 111u8, 110u8, 47u8,
        106u8, 115u8, 111u8, 110u8, 13u8, 10u8,
        67u8, 111u8, 110u8, 116u8, 101u8, 110u8, 116u8, 45u8, 76u8, 101u8, 110u8, 103u8, 116u8,
        104u8, 58u8, 32u8,
        d[0], d[1],
        13u8, 10u8, 67u8, 111u8, 110u8, 110u8, 101u8, 99u8, 116u8, 105u8, 111u8, 110u8, 58u8,
        32u8, 107u8, 101u8, 101u8, 112u8, 45u8, 97u8, 108u8, 105u8, 118u8, 101u8, 13u8, 10u8,
        13u8, 10u8
    ]);
    assert(r.len() == h + 4 + n);
    assert forall|j: int| 0 <= j < h + 4 implies r[j] == head[j] by {}
    // the header block ends at h
    assert(occurs_at(r, h, spec_crlfcrlf())) by {
        assert(r.subrange(h, h + 4) =~= spec_crlfcrlf());
    }
    assert forall|j: int| 0 <= j < h implies !#[trigger] occurs_at(r, j, spec_crlfcrlf()) by {
        if occurs_at(r, j, spec_crlfcrlf()) {
            assert(r.subrange(j, j + 4)[0] == 13u8);
            assert(r.subrange(j, j + 4)[2] == 13u8);
            assert(head[j] == 13u8 && head[j + 2] == 13u8);
        }
    }
    lemma_find_key_first(r, 0, spec_crlfcrlf(), h);
    // the Content-Length value
    let hd = r.subrange(0, h);
    let key = spec_content_length_key();
    assert forall|j: int| 0 <= j < h implies hd[j] == head[j] by {}
    assert(occurs_at(hd, 49, key)) by {
        assert(hd.subrange(49, 64) =~= key);
    }
    assert forall|j: int| 0 <= j < 49 implies !#[trigger] occurs_at(hd, j, key) by {
        if occurs_at(hd, j, key) {
            assert(hd.subrange(j, j + 15)[0] == 67u8);
            assert(hd.subrange(j, j + 15)[8] == 76u8);
            assert(head[j] == 67u8 && head[j + 8] == 76u8);
        }
    }
    lemma_find_key_first(hd, 0, key, 49);
    assert(skip_blanks(hd, 64) == 65) by {
        reveal_with_fuel(skip_blanks, 2);
    }
    assert(digits_from(hd, 65, 0) == n) by {
        reveal_with_fuel(digits_from, 3);
        assert(hd[65] == d[0] && hd[66] == d[1] && hd[67] == 13u8);
    }
    assert(r.subrange(h + 4, r.len() as int) =~= body);
}

} // verus!
