//! Extraction of the fields of a fraud-score request body, scanning the raw
//! JSON bytes for known keys. Turning the numeric spans into normalized,
//! quantized features is floating-point work left to the caller.
use crate::scan::{
    digits_value, find_key, first_occurrence, float_literal_at, float_span, fnv1a,
    lemma_find_key_absent, lemma_find_key_bounds, lemma_find_key_first, lemma_float_span_is_literal,
    lemma_mcc_code_digits, lemma_mcc_code_nonneg, lemma_skip_ws_bounds, no_occurrence, occurs_at,
    lemma_span_end_bounds, mcc_code, parse_i32, parse_quoted, skip_ws, spec_find_key,
    spec_float_span, spec_fnv1a, spec_mcc_code, spec_parse_i32, spec_quoted, spec_skip_ws, Span,
};
use crate::vector::{parse_u32, spec_parse_u32};
use crate::timestamp::{
    parse_timestamp, spec_parse_timestamp, timestamp_defined, timestamp_is_defined,
};
use vstd::prelude::*;

verus! {

/// The key `"amount":`.
pub open spec fn spec_key_amount() -> Seq<u8> {
    seq![34u8, 97u8, 109u8, 111u8, 117u8, 110u8, 116u8, 34u8, 58u8]
}

/// The key `"amount":`.
fn key_amount() -> (r: [u8; 9])
    ensures
        r@ == spec_key_amount(),
{
    let r: [u8; 9] = [34, 97, 109, 111, 117, 110, 116, 34, 58];
    assert(r@ =~= spec_key_amount());
    r
}

/// The key `"installments":`.
pub open spec fn spec_key_installments() -> Seq<u8> {
    seq![34u8, 105u8, 110u8, 115u8, 116u8, 97u8, 108u8, 108u8, 109u8, 101u8, 110u8, 116u8, 115u8, 34u8, 58u8]
}

/// The key `"installments":`.
fn key_installments() -> (r: [u8; 15])
    ensures
        r@ == spec_key_installments(),
{
    let r: [u8; 15] = [34, 105, 110, 115, 116, 97, 108, 108, 109, 101, 110, 116, 115, 34, 58];
    assert(r@ =~= spec_key_installments());
    r
}

/// The key `"requested_at":`.
pub open spec fn spec_key_requested_at() -> Seq<u8> {
    seq![34u8, 114u8, 101u8, 113u8, 117u8, 101u8, 115u8, 116u8, 101u8, 100u8, 95u8, 97u8, 116u8, 34u8, 58u8]
}

/// The key `"requested_at":`.
fn key_requested_at() -> (r: [u8; 15])
    ensures
        r@ == spec_key_requested_at(),
{
    let r: [u8; 15] = [34, 114, 101, 113, 117, 101, 115, 116, 101, 100, 95, 97, 116, 34, 58];
    assert(r@ =~= spec_key_requested_at());
    r
}

/// The key `"avg_amount":`.
pub open spec fn spec_key_avg_amount() -> Seq<u8> {
    seq![34u8, 97u8, 118u8, 103u8, 95u8, 97u8, 109u8, 111u8, 117u8, 110u8, 116u8, 34u8, 58u8]
}

/// The key `"avg_amount":`.
fn key_avg_amount() -> (r: [u8; 13])
    ensures
        r@ == spec_key_avg_amount(),
{
    let r: [u8; 13] = [34, 97, 118, 103, 95, 97, 109, 111, 117, 110, 116, 34, 58];
    assert(r@ =~= spec_key_avg_amount());
    r
}

/// The key `"tx_count_24h":`.
pub open spec fn spec_key_tx_count_24h() -> Seq<u8> {
    seq![34u8, 116u8, 120u8, 95u8, 99u8, 111u8, 117u8, 110u8, 116u8, 95u8, 50u8, 52u8, 104u8, 34u8, 58u8]
}

/// The key `"tx_count_24h":`.
fn key_tx_count_24h() -> (r: [u8; 15])
    ensures
        r@ == spec_key_tx_count_24h(),
{
    let r: [u8; 15] = [34, 116, 120, 95, 99, 111, 117, 110, 116, 95, 50, 52, 104, 34, 58];
    assert(r@ =~= spec_key_tx_count_24h());
    r
}

/// The key `"known_merchants":`.
pub open spec fn spec_key_known_merchants() -> Seq<u8> {
    seq![34u8, 107u8, 110u8, 111u8, 119u8, 110u8, 95u8, 109u8, 101u8, 114u8, 99u8, 104u8, 97u8, 110u8, 116u8, 115u8, 34u8, 58u8]
}

/// The key `"known_merchants":`.
fn key_known_merchants() -> (r: [u8; 18])
    ensures
        r@ == spec_key_known_merchants(),
{
    let r: [u8; 18] = [34, 107, 110, 111, 119, 110, 95, 109, 101, 114, 99, 104, 97, 110, 116, 115, 34, 58];
    assert(r@ =~= spec_key_known_merchants());
    r
}

/// The key `"merchant":`.
pub open spec fn spec_key_merchant() -> Seq<u8> {
    seq![34u8, 109u8, 101u8, 114u8, 99u8, 104u8, 97u8, 110u8, 116u8, 34u8, 58u8]
}

/// The key `"merchant":`.
fn key_merchant() -> (r: [u8; 11])
    ensures
        r@ == spec_key_merchant(),
{
    let r: [u8; 11] = [34, 109, 101, 114, 99, 104, 97, 110, 116, 34, 58];
    assert(r@ =~= spec_key_merchant());
    r
}

/// The key `"id":`.
pub open spec fn spec_key_id() -> Seq<u8> {
    seq![34u8, 105u8, 100u8, 34u8, 58u8]
}

/// The key `"id":`.
fn key_id() -> (r: [u8; 5])
    ensures
        r@ == spec_key_id(),
{
    let r: [u8; 5] = [34, 105, 100, 34, 58];
    assert(r@ =~= spec_key_id());
    r
}

/// The key `"mcc":`.
pub open spec fn spec_key_mcc() -> Seq<u8> {
    seq![34u8, 109u8, 99u8, 99u8, 34u8, 58u8]
}

/// The key `"mcc":`.
fn key_mcc() -> (r: [u8; 6])
    ensures
        r@ == spec_key_mcc(),
{
    let r: [u8; 6] = [34, 109, 99, 99, 34, 58];
    assert(r@ =~= spec_key_mcc());
    r
}

/// The key `"terminal":`.
pub open spec fn spec_key_terminal() -> Seq<u8> {
    seq![34u8, 116u8, 101u8, 114u8, 109u8, 105u8, 110u8, 97u8, 108u8, 34u8, 58u8]
}

/// The key `"terminal":`.
fn key_terminal() -> (r: [u8; 11])
    ensures
        r@ == spec_key_terminal(),
{
    let r: [u8; 11] = [34, 116, 101, 114, 109, 105, 110, 97, 108, 34, 58];
    assert(r@ =~= spec_key_terminal());
    r
}

/// The key `"is_online":`.
pub open spec fn spec_key_is_online() -> Seq<u8> {
    seq![34u8, 105u8, 115u8, 95u8, 111u8, 110u8, 108u8, 105u8, 110u8, 101u8, 34u8, 58u8]
}

/// The key `"is_online":`.
fn key_is_online() -> (r: [u8; 12])
    ensures
        r@ == spec_key_is_online(),
{
    let r: [u8; 12] = [34, 105, 115, 95, 111, 110, 108, 105, 110, 101, 34, 58];
    assert(r@ =~= spec_key_is_online());
    r
}

/// The key `"card_present":`.
pub open spec fn spec_key_card_present() -> Seq<u8> {
    seq![34u8, 99u8, 97u8, 114u8, 100u8, 95u8, 112u8, 114u8, 101u8, 115u8, 101u8, 110u8, 116u8, 34u8, 58u8]
}

/// The key `"card_present":`.
fn key_card_present() -> (r: [u8; 15])
    ensures
        r@ == spec_key_card_present(),
{
    let r: [u8; 15] = [34, 99, 97, 114, 100, 95, 112, 114, 101, 115, 101, 110, 116, 34, 58];
    assert(r@ =~= spec_key_card_present());
    r
}

/// The key `"km_from_home":`.
pub open spec fn spec_key_km_from_home() -> Seq<u8> {
    seq![34u8, 107u8, 109u8, 95u8, 102u8, 114u8, 111u8, 109u8, 95u8, 104u8, 111u8, 109u8, 101u8, 34u8, 58u8]
}

/// The key `"km_from_home":`.
fn key_km_from_home() -> (r: [u8; 15])
    ensures
        r@ == spec_key_km_from_home(),
{
    let r: [u8; 15] = [34, 107, 109, 95, 102, 114, 111, 109, 95, 104, 111, 109, 101, 34, 58];
    assert(r@ =~= spec_key_km_from_home());
    r
}

/// The key `"last_transaction":`.
pub open spec fn spec_key_last_transaction() -> Seq<u8> {
    seq![34u8, 108u8, 97u8, 115u8, 116u8, 95u8, 116u8, 114u8, 97u8, 110u8, 115u8, 97u8, 99u8, 116u8, 105u8, 111u8, 110u8, 34u8, 58u8]
}

/// The key `"last_transaction":`.
fn key_last_transaction() -> (r: [u8; 19])
    ensures
        r@ == spec_key_last_transaction(),
{
    let r: [u8; 19] = [34, 108, 97, 115, 116, 95, 116, 114, 97, 110, 115, 97, 99, 116, 105, 111, 110, 34, 58];
    assert(r@ =~= spec_key_last_transaction());
    r
}

/// The key `"timestamp":`.
pub open spec fn spec_key_timestamp() -> Seq<u8> {
    seq![34u8, 116u8, 105u8, 109u8, 101u8, 115u8, 116u8, 97u8, 109u8, 112u8, 34u8, 58u8]
}

/// The key `"timestamp":`.
fn key_timestamp() -> (r: [u8; 12])
    ensures
        r@ == spec_key_timestamp(),
{
    let r: [u8; 12] = [34, 116, 105, 109, 101, 115, 116, 97, 109, 112, 34, 58];
    assert(r@ =~= spec_key_timestamp());
    r
}

/// The key `"km_from_current":`.
pub open spec fn spec_key_km_from_current() -> Seq<u8> {
    seq![34u8, 107u8, 109u8, 95u8, 102u8, 114u8, 111u8, 109u8, 95u8, 99u8, 117u8, 114u8, 114u8, 101u8, 110u8, 116u8, 34u8, 58u8]
}

/// The key `"km_from_current":`.
fn key_km_from_current() -> (r: [u8; 18])
    ensures
        r@ == spec_key_km_from_current(),
{
    let r: [u8; 18] = [34, 107, 109, 95, 102, 114, 111, 109, 95, 99, 117, 114, 114, 101, 110, 116, 34, 58];
    assert(r@ =~= spec_key_km_from_current());
    r
}

/// At most this many known merchants are read.
pub const MAX_KNOWN_MERCHANTS: usize = 16;

/// The fields of a request body that the feature vector is built from.
#[derive(Debug, Clone, Copy, PartialEq, Eq, Structural)]
pub struct BodyFields {
    /// Literal after the first `"amount":` (absent: the amount is 0).
    pub amount: Option<Span>,
    /// Integer after the first `"installments":` (0 where absent or not an `i32`).
    pub installments: i32,
    /// Hour, day of week (Monday = 0) and seconds since 1970 of `"requested_at":`.
    pub requested_hour: u8,
    pub requested_weekday: u8,
    pub requested_epoch: i64,
    /// Literal after the first `"avg_amount":` anywhere (the customer's).
    pub customer_avg_amount: Option<Span>,
    pub tx_count_24h: i32,
    /// The merchant id is not among the known merchants (or either is missing).
    pub unknown_merchant: bool,
    pub merchant_mcc: u16,
    /// Literal after `"avg_amount":` past `"merchant":`.
    pub merchant_avg_amount: Option<Span>,
    pub is_online: bool,
    pub card_present: bool,
    pub km_from_home: Option<Span>,
    /// `"last_transaction":` is absent or its value starts with `n`.
    pub last_tx_null: bool,
    pub last_tx_epoch: i64,
    pub km_from_current: Option<Span>,
}

// ---------------------------------------------------------------- spec

/// The literal after `key` (searched from `from`), if the key occurs.
pub open spec fn spec_float_field(b: Seq<u8>, from: int, key: Seq<u8>) -> Option<Span> {
    match spec_find_key(b, from, key) {
        Some(p) => Some(spec_float_span(b, p)),
        None => None,
    }
}

/// The integer after the first `key`, 0 where the key is absent.
pub open spec fn spec_int_field(b: Seq<u8>, key: Seq<u8>) -> i32 {
    match spec_find_key(b, 0, key) {
        Some(p) => spec_parse_i32(b, p),
        None => 0,
    }
}

/// The value after `key` (searched from `from`) starts with `t`.
pub open spec fn spec_flag_field(b: Seq<u8>, from: int, key: Seq<u8>) -> bool {
    match spec_find_key(b, from, key) {
        Some(p) => {
            let p2 = spec_skip_ws(b, p);
            p2 < b.len() && b[p2] == 116
        },
        None => false,
    }
}

/// The contents of the quoted string after `key` (searched from `from`);
/// the scan starts one byte past the first non-blank byte after the key.
pub open spec fn spec_quoted_after(b: Seq<u8>, p: int) -> Seq<u8> {
    let (c, e) = spec_quoted(b, spec_skip_ws(b, p) + 1);
    b.subrange(c, e)
}

/// Hashes of the quoted entries of the known-merchant array, from `p` on,
/// appended to `acc`; non-string entries are skipped, at most 16 are read.
pub open spec fn spec_merchants_from(b: Seq<u8>, p: int, acc: Seq<u64>) -> Seq<u64>
    decreases b.len() + 1 - p,
{
    if !(0 <= p < b.len() && acc.len() < MAX_KNOWN_MERCHANTS) {
        acc
    } else {
        let p2 = spec_skip_ws(b, p);
        if p2 >= b.len() || b[p2] == 93 {
            acc
        } else if b[p2] == 34 {
            let (c, e) = spec_quoted(b, p2 + 1);
            proof {
                lemma_skip_ws_bounds(b, p);
                lemma_quoted_bounds(b, p2 + 1);
            }
            spec_merchants_from(b, e + 1, acc.push(spec_fnv1a(b.subrange(c, e))))
        } else {
            proof {
                lemma_skip_ws_bounds(b, p);
            }
            spec_merchants_from(b, p2 + 1, acc)
        }
    }
}

pub proof fn lemma_quoted_bounds(b: Seq<u8>, pos: int)
    requires
        0 <= pos <= b.len(),
    ensures
        pos <= spec_quoted(b, pos).0 <= spec_quoted(b, pos).1 <= b.len(),
{
    lemma_skip_ws_bounds(b, pos);
    let start = spec_skip_ws(b, pos);
    let content = if start < b.len() && b[start] == 34 {
        start + 1
    } else {
        start
    };
    lemma_span_end_bounds(b, content, |x: u8| x != 34);
}

/// Hashes of the known merchants.
pub open spec fn spec_known_merchants(b: Seq<u8>) -> Seq<u64> {
    match spec_find_key(b, 0, spec_key_known_merchants()) {
        Some(p) => {
            let bracket = spec_skip_ws(b, p);
            if bracket < b.len() && b[bracket] == 91 {
                spec_merchants_from(b, bracket + 1, Seq::empty())
            } else {
                Seq::empty()
            }
        },
        None => Seq::empty(),
    }
}

/// Hash of the merchant id (0 where absent).
pub open spec fn spec_merchant_id_hash(b: Seq<u8>) -> u64 {
    match spec_find_key(b, 0, spec_key_merchant()) {
        Some(mp) => match spec_find_key(b, mp, spec_key_id()) {
            Some(p) => spec_fnv1a(spec_quoted_after(b, p)),
            None => 0,
        },
        None => 0,
    }
}

/// The merchant category code (0 where absent).
pub open spec fn spec_merchant_mcc(b: Seq<u8>) -> int {
    match spec_find_key(b, 0, spec_key_merchant()) {
        Some(mp) => match spec_find_key(b, mp, spec_key_mcc()) {
            Some(p) => spec_mcc_code(spec_quoted_after(b, p)),
            None => 0,
        },
        None => 0,
    }
}

/// Whether the merchant counts as unknown to the customer.
pub open spec fn spec_unknown_merchant(b: Seq<u8>) -> bool {
    let id = spec_merchant_id_hash(b);
    let known = spec_known_merchants(b);
    if id != 0 && known.len() > 0 {
        !known.contains(id)
    } else {
        true
    }
}

/// Where the value of `"last_transaction":` starts, if the key occurs.
pub open spec fn spec_last_tx_pos(b: Seq<u8>) -> Option<int> {
    match spec_find_key(b, 0, spec_key_last_transaction()) {
        Some(p) => {
            let p2 = spec_skip_ws(b, p);
            if p2 < b.len() && b[p2] != 110 {
                Some(p2)
            } else {
                None
            }
        },
        None => None,
    }
}

/// Reading `b` stays within bounds and fixed-width arithmetic: the keys searched from the start
/// fit in the body, the timestamps are within the calendar arithmetic, the
/// merchant id and code are not at the very end, and the code fits a `u16`.
pub open spec fn body_defined(b: Seq<u8>) -> bool {
    &&& b.len() >= spec_key_last_transaction().len()
    &&& b.len() < usize::MAX
    &&& (spec_find_key(b, 0, spec_key_requested_at()) matches Some(p) ==> timestamp_defined(
        b,
        spec_skip_ws(b, p),
    ))
    &&& (spec_find_key(b, 0, spec_key_merchant()) matches Some(mp) ==> {
        &&& (spec_find_key(b, mp, spec_key_id()) matches Some(p) ==> spec_skip_ws(b, p) < b.len())
        &&& (spec_find_key(b, mp, spec_key_mcc()) matches Some(p) ==> spec_skip_ws(b, p) < b.len()
            && spec_mcc_code(spec_quoted_after(b, p)) <= u16::MAX)
    })
    &&& (spec_last_tx_pos(b) matches Some(p2) ==> (spec_find_key(b, p2, spec_key_timestamp())
        matches Some(tp) ==> timestamp_defined(b, spec_skip_ws(b, tp))))
}

/// The fields of the request body `b`.
pub open spec fn spec_body_fields(b: Seq<u8>) -> BodyFields {
    let requested = match spec_find_key(b, 0, spec_key_requested_at()) {
        Some(p) => spec_parse_timestamp(b, spec_skip_ws(b, p)),
        None => (0u8, 0u8, 0i64),
    };
    let merchant = spec_find_key(b, 0, spec_key_merchant());
    let terminal = spec_find_key(b, 0, spec_key_terminal());
    let last = spec_last_tx_pos(b);
    BodyFields {
        amount: spec_float_field(b, 0, spec_key_amount()),
        installments: spec_int_field(b, spec_key_installments()),
        requested_hour: requested.0,
        requested_weekday: requested.1,
        requested_epoch: requested.2,
        customer_avg_amount: spec_float_field(b, 0, spec_key_avg_amount()),
        tx_count_24h: spec_int_field(b, spec_key_tx_count_24h()),
        unknown_merchant: spec_unknown_merchant(b),
        merchant_mcc: spec_merchant_mcc(b) as u16,
        merchant_avg_amount: match merchant {
            Some(mp) => spec_float_field(b, mp, spec_key_avg_amount()),
            None => None,
        },
        is_online: match terminal {
            Some(tp) => spec_flag_field(b, tp, spec_key_is_online()),
            None => false,
        },
        card_present: match terminal {
            Some(tp) => spec_flag_field(b, tp, spec_key_card_present()),
            None => false,
        },
        km_from_home: match terminal {
            Some(tp) => spec_float_field(b, tp, spec_key_km_from_home()),
            None => None,
        },
        last_tx_null: last is None,
        last_tx_epoch: match last {
            Some(p2) => match spec_find_key(b, p2, spec_key_timestamp()) {
                Some(tp) => spec_parse_timestamp(b, spec_skip_ws(b, tp)).2,
                None => 0,
            },
            None => 0,
        },
        km_from_current: match last {
            Some(p2) => spec_float_field(b, p2, spec_key_km_from_current()),
            None => None,
        },
    }
}

/// The flag after `key`, searched from `from`, where the first occurrence of
/// `key` from `from` on is at `p`: set exactly when the first non-blank byte
/// after the key is `t`.
proof fn lemma_flag_at(b: Seq<u8>, from: int, key: Seq<u8>, p: int)
    requires
        0 <= from <= p,
        occurs_at(b, p, key),
        forall|j: int| from <= j < p ==> !#[trigger] occurs_at(b, j, key),
    ensures
        spec_flag_field(b, from, key) <==> ({
            let q = spec_skip_ws(b, p + key.len());
            q < b.len() && b[q] == 116u8
        }),
{
    lemma_find_key_first(b, from, key, p);
}

/// `is_online` is the flag of the terminal object: with the first
/// `"terminal":` at `t` and the first `"is_online":` after it at `p`, it is
/// set exactly when the value after that key (past blanks) starts with `t`.
pub proof fn lemma_is_online_read(b: Seq<u8>, t: int, p: int)
    requires
        occurs_at(b, t, spec_key_terminal()),
        forall|j: int| 0 <= j < t ==> !#[trigger] occurs_at(b, j, spec_key_terminal()),
        t + spec_key_terminal().len() <= p,
        occurs_at(b, p, spec_key_is_online()),
        forall|j: int|
            t + spec_key_terminal().len() <= j < p ==> !#[trigger] occurs_at(b, j, spec_key_is_online()),
    ensures
        spec_body_fields(b).is_online <==> ({
            let q = spec_skip_ws(b, p + spec_key_is_online().len());
            q < b.len() && b[q] == 116u8
        }),
{
    lemma_find_key_first(b, 0, spec_key_terminal(), t);
    lemma_flag_at(b, t + spec_key_terminal().len(), spec_key_is_online(), p);
}

/// `is_online` is clear when the body has no `"terminal":`, or no
/// `"is_online":` after its first `"terminal":` at `t`.
pub proof fn lemma_is_online_missing(b: Seq<u8>, t: int)
    requires
        (forall|j: int| 0 <= j ==> !#[trigger] occurs_at(b, j, spec_key_terminal())) || ({
            &&& occurs_at(b, t, spec_key_terminal())
            &&& forall|j: int| 0 <= j < t ==> !#[trigger] occurs_at(b, j, spec_key_terminal())
            &&& forall|j: int|
                t + spec_key_terminal().len() <= j ==> !#[trigger] occurs_at(b, j, spec_key_is_online())
        }),
    ensures
        !spec_body_fields(b).is_online,
{
    if forall|j: int| 0 <= j ==> !#[trigger] occurs_at(b, j, spec_key_terminal()) {
        lemma_find_key_absent(b, 0, spec_key_terminal());
    } else {
        lemma_find_key_first(b, 0, spec_key_terminal(), t);
        lemma_find_key_absent(b, t + spec_key_terminal().len(), spec_key_is_online());
    }
}

/// `card_present` is the flag of the terminal object: with the first
/// `"terminal":` at `t` and the first `"card_present":` after it at `p`, it
/// is set exactly when the value after that key (past blanks) starts with `t`.
pub proof fn lemma_card_present_read(b: Seq<u8>, t: int, p: int)
    requires
        occurs_at(b, t, spec_key_terminal()),
        forall|j: int| 0 <= j < t ==> !#[trigger] occurs_at(b, j, spec_key_terminal()),
        t + spec_key_terminal().len() <= p,
        occurs_at(b, p, spec_key_card_present()),
        forall|j: int|
            t + spec_key_terminal().len() <= j < p ==> !#[trigger] occurs_at(
                b,
                j,
                spec_key_card_present(),
            ),
    ensures
        spec_body_fields(b).card_present <==> ({
            let q = spec_skip_ws(b, p + spec_key_card_present().len());
            q < b.len() && b[q] == 116u8
        }),
{
    lemma_find_key_first(b, 0, spec_key_terminal(), t);
    lemma_flag_at(b, t + spec_key_terminal().len(), spec_key_card_present(), p);
}

/// `card_present` is clear when the body has no `"terminal":`, or no
/// `"card_present":` after its first `"terminal":` at `t`.
pub proof fn lemma_card_present_missing(b: Seq<u8>, t: int)
    requires
        (forall|j: int| 0 <= j ==> !#[trigger] occurs_at(b, j, spec_key_terminal())) || ({
            &&& occurs_at(b, t, spec_key_terminal())
            &&& forall|j: int| 0 <= j < t ==> !#[trigger] occurs_at(b, j, spec_key_terminal())
            &&& forall|j: int|
                t + spec_key_terminal().len() <= j ==> !#[trigger] occurs_at(
                    b,
                    j,
                    spec_key_card_present(),
                )
        }),
    ensures
        !spec_body_fields(b).card_present,
{
    if forall|j: int| 0 <= j ==> !#[trigger] occurs_at(b, j, spec_key_terminal()) {
        lemma_find_key_absent(b, 0, spec_key_terminal());
    } else {
        lemma_find_key_first(b, 0, spec_key_terminal(), t);
        lemma_find_key_absent(b, t + spec_key_terminal().len(), spec_key_card_present());
    }
}

/// The literal after the first `key` from `from` on, at `p`, is the literal
/// read after the key.
proof fn lemma_float_field_at(b: Seq<u8>, from: int, key: Seq<u8>, p: int)
    requires
        first_occurrence(b, from, key, p),
        b.len() <= usize::MAX,
    ensures
        spec_float_field(b, from, key) == Some(spec_float_span(b, p + key.len())),
        float_literal_at(b, p + key.len(), spec_float_span(b, p + key.len())),
{
    lemma_find_key_first(b, from, key, p);
    lemma_float_span_is_literal(b, p + key.len());
}

/// With no `key` from `from` on, there is no literal.
proof fn lemma_float_field_none(b: Seq<u8>, from: int, key: Seq<u8>)
    requires
        0 <= from,
        no_occurrence(b, from, key),
    ensures
        spec_float_field(b, from, key) is None,
{
    lemma_find_key_absent(b, from, key);
}

/// The amount is the literal after the first `"amount":`, none without one.
pub proof fn lemma_amount_read(b: Seq<u8>, p: int)
    requires
        b.len() <= usize::MAX,
    ensures
        first_occurrence(b, 0, spec_key_amount(), p) ==> (spec_body_fields(b).amount is Some && float_literal_at(b, p + spec_key_amount().len(), spec_body_fields(b).amount->Some_0)),
        no_occurrence(b, 0, spec_key_amount()) ==> spec_body_fields(b).amount is None,
{
    if first_occurrence(b, 0, spec_key_amount(), p) {
        lemma_float_field_at(b, 0, spec_key_amount(), p);
    }
    if no_occurrence(b, 0, spec_key_amount()) {
        lemma_float_field_none(b, 0, spec_key_amount());
    }
}

/// The customer's average amount is the literal after the first
/// `"avg_amount":` of the body, none without one.
pub proof fn lemma_customer_avg_amount_read(b: Seq<u8>, p: int)
    requires
        b.len() <= usize::MAX,
    ensures
        first_occurrence(b, 0, spec_key_avg_amount(), p) ==> (spec_body_fields(b).customer_avg_amount is Some && float_literal_at(b, p + spec_key_avg_amount().len(), spec_body_fields(b).customer_avg_amount->Some_0)),
        no_occurrence(b, 0, spec_key_avg_amount()) ==> spec_body_fields(
            b,
        ).customer_avg_amount is None,
{
    if first_occurrence(b, 0, spec_key_avg_amount(), p) {
        lemma_float_field_at(b, 0, spec_key_avg_amount(), p);
    }
    if no_occurrence(b, 0, spec_key_avg_amount()) {
        lemma_float_field_none(b, 0, spec_key_avg_amount());
    }
}

/// The merchant's average amount is the literal after the first
/// `"avg_amount":` that follows the first `"merchant":` (at `m`); none
/// without either.
pub proof fn lemma_merchant_avg_amount_read(b: Seq<u8>, m: int, p: int)
    requires
        b.len() <= usize::MAX,
    ensures
        first_occurrence(b, 0, spec_key_merchant(), m) && first_occurrence(
            b,
            m + spec_key_merchant().len(),
            spec_key_avg_amount(),
            p,
        ) ==> (spec_body_fields(b).merchant_avg_amount is Some && float_literal_at(b, p + spec_key_avg_amount().len(), spec_body_fields(b).merchant_avg_amount->Some_0)),
        no_occurrence(b, 0, spec_key_merchant()) || (first_occurrence(b, 0, spec_key_merchant(), m)
            && no_occurrence(b, m + spec_key_merchant().len(), spec_key_avg_amount()))
            ==> spec_body_fields(b).merchant_avg_amount is None,
{
    if first_occurrence(b, 0, spec_key_merchant(), m) {
        lemma_find_key_first(b, 0, spec_key_merchant(), m);
        if first_occurrence(b, m + spec_key_merchant().len(), spec_key_avg_amount(), p) {
            lemma_float_field_at(b, m + spec_key_merchant().len(), spec_key_avg_amount(), p);
        }
        if no_occurrence(b, m + spec_key_merchant().len(), spec_key_avg_amount()) {
            lemma_float_field_none(b, m + spec_key_merchant().len(), spec_key_avg_amount());
        }
    }
    if no_occurrence(b, 0, spec_key_merchant()) {
        lemma_find_key_absent(b, 0, spec_key_merchant());
    }
}

/// The distance from home is the literal after the first `"km_from_home":`
/// that follows the first `"terminal":` (at `t`); none without either.
pub proof fn lemma_km_from_home_read(b: Seq<u8>, t: int, p: int)
    requires
        b.len() <= usize::MAX,
    ensures
        first_occurrence(b, 0, spec_key_terminal(), t) && first_occurrence(
            b,
            t + spec_key_terminal().len(),
            spec_key_km_from_home(),
            p,
        ) ==> (spec_body_fields(b).km_from_home is Some && float_literal_at(b, p + spec_key_km_from_home().len(), spec_body_fields(b).km_from_home->Some_0)),
        no_occurrence(b, 0, spec_key_terminal()) || (first_occurrence(b, 0, spec_key_terminal(), t)
            && no_occurrence(b, t + spec_key_terminal().len(), spec_key_km_from_home()))
            ==> spec_body_fields(b).km_from_home is None,
{
    if first_occurrence(b, 0, spec_key_terminal(), t) {
        lemma_find_key_first(b, 0, spec_key_terminal(), t);
        if first_occurrence(b, t + spec_key_terminal().len(), spec_key_km_from_home(), p) {
            lemma_float_field_at(b, t + spec_key_terminal().len(), spec_key_km_from_home(), p);
        }
        if no_occurrence(b, t + spec_key_terminal().len(), spec_key_km_from_home()) {
            lemma_float_field_none(b, t + spec_key_terminal().len(), spec_key_km_from_home());
        }
    }
    if no_occurrence(b, 0, spec_key_terminal()) {
        lemma_find_key_absent(b, 0, spec_key_terminal());
    }
}

/// The last transaction is null exactly when there is no
/// `"last_transaction":`, or the first byte after its first occurrence (at
/// `l`) and any whitespace is missing or `n`; otherwise the distance from it
/// is the literal after the first `"km_from_current":` from that byte on
/// (at `p`).
pub proof fn lemma_last_transaction_read(b: Seq<u8>, l: int, p: int)
    requires
        b.len() <= usize::MAX,
    ensures
        no_occurrence(b, 0, spec_key_last_transaction()) ==> spec_body_fields(b).last_tx_null,
        first_occurrence(b, 0, spec_key_last_transaction(), l) ==> ({
            let q = spec_skip_ws(b, l + spec_key_last_transaction().len());
            &&& spec_body_fields(b).last_tx_null <==> !(q < b.len() && b[q] != 110u8)
            &&& (q < b.len() && b[q] != 110u8 && first_occurrence(
                b,
                q,
                spec_key_km_from_current(),
                p,
            )) ==> (spec_body_fields(b).km_from_current is Some && float_literal_at(b, p + spec_key_km_from_current().len(), spec_body_fields(b).km_from_current->Some_0))
        }),
{
    if no_occurrence(b, 0, spec_key_last_transaction()) {
        lemma_find_key_absent(b, 0, spec_key_last_transaction());
    }
    if first_occurrence(b, 0, spec_key_last_transaction(), l) {
        lemma_find_key_first(b, 0, spec_key_last_transaction(), l);
        let q = spec_skip_ws(b, l + spec_key_last_transaction().len());
        lemma_skip_ws_bounds(b, l + spec_key_last_transaction().len());
        if q < b.len() && b[q] != 110u8 && first_occurrence(b, q, spec_key_km_from_current(), p) {
            lemma_float_field_at(b, q, spec_key_km_from_current(), p);
        }
    }
}

/// The merchant category code is the value of the digits of the quoted
/// string after the first `"mcc":` that follows the first `"merchant":` (at
/// `m`, the key at `p`), other bytes left out.
pub proof fn lemma_merchant_mcc_read(b: Seq<u8>, m: int, p: int)
    requires
        body_defined(b),
        first_occurrence(b, 0, spec_key_merchant(), m),
        first_occurrence(b, m + spec_key_merchant().len(), spec_key_mcc(), p),
    ensures
        spec_body_fields(b).merchant_mcc as int == digits_value(
            spec_quoted_after(b, p + spec_key_mcc().len()).filter(|c: u8| 48 <= c <= 57),
        ),
{
    lemma_find_key_first(b, 0, spec_key_merchant(), m);
    lemma_find_key_first(b, m + spec_key_merchant().len(), spec_key_mcc(), p);
    let s = spec_quoted_after(b, p + spec_key_mcc().len());
    lemma_mcc_code_digits(s);
    lemma_mcc_code_nonneg(s);
}

/// The request time is the timestamp read after the first
/// `"requested_at":` (and any whitespace); hour, weekday and time are 0
/// without one.
pub proof fn lemma_requested_at_read(b: Seq<u8>, p: int)
    ensures
        first_occurrence(b, 0, spec_key_requested_at(), p) ==> ({
            let t = spec_parse_timestamp(b, spec_skip_ws(b, p + spec_key_requested_at().len()));
            let f = spec_body_fields(b);
            f.requested_hour == t.0 && f.requested_weekday == t.1 && f.requested_epoch == t.2
        }),
        no_occurrence(b, 0, spec_key_requested_at()) ==> ({
            let f = spec_body_fields(b);
            f.requested_hour == 0 && f.requested_weekday == 0 && f.requested_epoch == 0
        }),
{
    if first_occurrence(b, 0, spec_key_requested_at(), p) {
        lemma_find_key_first(b, 0, spec_key_requested_at(), p);
    }
    if no_occurrence(b, 0, spec_key_requested_at()) {
        lemma_find_key_absent(b, 0, spec_key_requested_at());
    }
}

/// The installments and the transaction count of the last day are the
/// integers read after the first `"installments":` (at `p`) and the first
/// `"tx_count_24h":` (at `q`); 0 without the key.
pub proof fn lemma_int_fields_read(b: Seq<u8>, p: int, q: int)
    ensures
        first_occurrence(b, 0, spec_key_installments(), p) ==> spec_body_fields(b).installments
            == spec_parse_i32(b, p + spec_key_installments().len()),
        no_occurrence(b, 0, spec_key_installments()) ==> spec_body_fields(b).installments == 0,
        first_occurrence(b, 0, spec_key_tx_count_24h(), q) ==> spec_body_fields(b).tx_count_24h
            == spec_parse_i32(b, q + spec_key_tx_count_24h().len()),
        no_occurrence(b, 0, spec_key_tx_count_24h()) ==> spec_body_fields(b).tx_count_24h == 0,
{
    if first_occurrence(b, 0, spec_key_installments(), p) {
        lemma_find_key_first(b, 0, spec_key_installments(), p);
    }
    if no_occurrence(b, 0, spec_key_installments()) {
        lemma_find_key_absent(b, 0, spec_key_installments());
    }
    if first_occurrence(b, 0, spec_key_tx_count_24h(), q) {
        lemma_find_key_first(b, 0, spec_key_tx_count_24h(), q);
    }
    if no_occurrence(b, 0, spec_key_tx_count_24h()) {
        lemma_find_key_absent(b, 0, spec_key_tx_count_24h());
    }
}

/// The merchant counts as unknown unless it has an id whose hash is among
/// the hashes of the known merchants: a missing id, or no known merchants,
/// makes it unknown.
pub proof fn lemma_unknown_merchant_read(b: Seq<u8>)
    ensures
        !spec_body_fields(b).unknown_merchant <==> (spec_merchant_id_hash(b) != 0
            && spec_known_merchants(b).contains(spec_merchant_id_hash(b))),
{
    if spec_known_merchants(b).contains(spec_merchant_id_hash(b)) {
        assert(spec_known_merchants(b).len() > 0);
    }
}

// ---------------------------------------------------------------- exec

/// The literal after `key`, searched from `from`.
fn float_field(b: &[u8], from: usize, key: &[u8]) -> (r: Option<Span>)
    requires
        b@.len() >= key@.len() || from > 0,
    ensures
        r == spec_float_field(b@, from as int, key@),
{
    match find_key(b, from, key) {
        Some(p) => {
            proof {
                lemma_find_key_bounds(b@, from as int, key@);
            }
            Some(float_span(b, p))
        },
        None => None,
    }
}

/// Whether the value after `key`, searched from `from`, starts with `t`.
fn flag_field(b: &[u8], from: usize, key: &[u8]) -> (r: bool)
    requires
        b@.len() >= key@.len() || from > 0,
    ensures
        r == spec_flag_field(b@, from as int, key@),
{
    match find_key(b, from, key) {
        Some(p) => {
            let p2 = skip_ws(b, p);
            p2 < b.len() && b[p2] == 116
        },
        None => false,
    }
}

/// The contents of the quoted string one byte past the first non-blank
/// byte at or after `p`.
fn quoted_after(b: &[u8], p: usize) -> (r: &[u8])
    requires
        spec_skip_ws(b@, p as int) < b@.len(),
        b@.len() < usize::MAX,
    ensures
        r@ == spec_quoted_after(b@, p as int),
{
    let p2 = skip_ws(b, p);
    let (s, _) = parse_quoted(b, p2 + 1);
    s
}

/// Hashes of the known merchants listed in `b`.
fn known_merchants(b: &[u8]) -> (r: Vec<u64>)
    requires
        b@.len() >= spec_key_known_merchants().len(),
        b@.len() < usize::MAX,
    ensures
        r@ == spec_known_merchants(b@),
{
    let mut hashes: Vec<u64> = Vec::new();
    let key = key_known_merchants();
    if let Some(arr_start) = find_key(b, 0, &key) {
        proof {
            lemma_find_key_bounds(b@, 0, key@);
        }
        let bracket = skip_ws(b, arr_start);
        if bracket < b.len() && b[bracket] == 91 {
            let mut p = bracket + 1;
            let mut done = false;
            while !done && p < b.len() && hashes.len() < MAX_KNOWN_MERCHANTS
                invariant
                    b@.len() < usize::MAX,
                    p <= b@.len() + 1,
                    spec_known_merchants(b@) == if done {
                        hashes@
                    } else {
                        spec_merchants_from(b@, p as int, hashes@)
                    },
                decreases b@.len() + 1 - p, if done { 0int } else { 1int },
            {
                let p2 = skip_ws(b, p);
                proof {
                    lemma_skip_ws_bounds(b@, p as int);
                }
                if p2 >= b.len() || b[p2] == 93 {
                    done = true;
                } else if b[p2] == 34 {
                    let (s, after) = parse_quoted(b, p2 + 1);
                    hashes.push(fnv1a(s));
                    p = after;
                } else {
                    p = p2 + 1;
                }
            }
        }
    }
    hashes
}

/// Hash of the merchant id and the merchant category code, or `None` where
/// reading them would go past the end or overflow the code.
fn merchant_fields(b: &[u8]) -> (r: Option<(u64, u16, Option<Span>)>)
    requires
        b@.len() >= spec_key_merchant().len(),
        b@.len() < usize::MAX,
    ensures
        r is Some <==> (spec_find_key(b@, 0, spec_key_merchant()) matches Some(mp) ==> {
            &&& (spec_find_key(b@, mp, spec_key_id()) matches Some(p) ==> spec_skip_ws(b@, p)
                < b@.len())
            &&& (spec_find_key(b@, mp, spec_key_mcc()) matches Some(p) ==> spec_skip_ws(b@, p)
                < b@.len() && spec_mcc_code(spec_quoted_after(b@, p)) <= u16::MAX)
        }),
        r matches Some(f) ==> f.0 == spec_merchant_id_hash(b@) && f.1 == spec_merchant_mcc(b@)
            && f.2 == match spec_find_key(b@, 0, spec_key_merchant()) {
            Some(mp) => spec_float_field(b@, mp, spec_key_avg_amount()),
            None => None,
        },
{
    let key = key_merchant();
    match find_key(b, 0, &key) {
        None => Some((0, 0, None)),
        Some(mp) => {
            proof {
                lemma_find_key_bounds(b@, 0, key@);
            }
            let mut id_hash: u64 = 0;
            let key_id = key_id();
            if let Some(p) = find_key(b, mp, &key_id) {
                if skip_ws(b, p) >= b.len() {
                    return None;
                }
                id_hash = fnv1a(quoted_after(b, p));
            }
            let mut code: u16 = 0;
            let key_mcc = key_mcc();
            if let Some(p) = find_key(b, mp, &key_mcc) {
                if skip_ws(b, p) >= b.len() {
                    return None;
                }
                match mcc_code(quoted_after(b, p)) {
                    Some(c) => {
                        code = c;
                    },
                    None => {
                        return None;
                    },
                }
            }
            let key_avg = key_avg_amount();
            let avg = float_field(b, mp, &key_avg);
            Some((id_hash, code, avg))
        },
    }
}

/// Whether `hashes` contains `h`.
fn contains_hash(hashes: &Vec<u64>, h: u64) -> (r: bool)
    ensures
        r == hashes@.contains(h),
{
    let mut i: usize = 0;
    while i < hashes.len()
        invariant
            i <= hashes@.len(),
            forall|k: int| 0 <= k < i ==> hashes@[k] != h,
        decreases hashes@.len() - i,
    {
        if hashes[i] == h {
            assert(hashes@[i as int] == h);
            return true;
        }
        i += 1;
    }
    false
}

/// The fields of the request body `b`, or `None` exactly where reading it
/// would go out of bounds or overflow (see `body_defined`).
pub fn parse_body_checked(b: &[u8]) -> (r: Option<BodyFields>)
    ensures
        r is Some <==> body_defined(b@),
        r matches Some(f) ==> f == spec_body_fields(b@),
{
    let key_last = key_last_transaction();
    if b.len() < key_last.len() || b.len() == usize::MAX {
        return None;
    }
    // amount, installments
    let key_amount = key_amount();
    let amount = float_field(b, 0, &key_amount);
    let key_inst = key_installments();
    let installments = match find_key(b, 0, &key_inst) {
        Some(p) => {
            proof {
                lemma_find_key_bounds(b@, 0, key_inst@);
            }
            parse_i32(b, p)
        },
        None => 0,
    };
    // requested_at
    let key_req = key_requested_at();
    let (requested_hour, requested_weekday, requested_epoch) = match find_key(b, 0, &key_req) {
        Some(p) => {
            proof {
                lemma_find_key_bounds(b@, 0, key_req@);
                lemma_skip_ws_bounds(b@, p as int);
            }
            let p2 = skip_ws(b, p);
            if !timestamp_is_defined(b, p2) {
                return None;
            }
            parse_timestamp(b, p2)
        },
        None => (0, 0, 0),
    };
    // customer
    let key_avg = key_avg_amount();
    let customer_avg_amount = float_field(b, 0, &key_avg);
    let key_tx = key_tx_count_24h();
    let tx_count_24h = match find_key(b, 0, &key_tx) {
        Some(p) => {
            proof {
                lemma_find_key_bounds(b@, 0, key_tx@);
            }
            parse_i32(b, p)
        },
        None => 0,
    };
    let known = known_merchants(b);
    // merchant
    let (merchant_id_hash, merchant_mcc, merchant_avg_amount) = match merchant_fields(b) {
        Some(f) => f,
        None => {
            return None;
        },
    };
    // terminal
    let key_term = key_terminal();
    let (is_online, card_present, km_from_home) = match find_key(b, 0, &key_term) {
        Some(tp) => {
            proof {
                lemma_find_key_bounds(b@, 0, key_term@);
            }
            let key_online = key_is_online();
            let key_card = key_card_present();
            let key_km = key_km_from_home();
            (flag_field(b, tp, &key_online), flag_field(b, tp, &key_card), float_field(b, tp, &key_km))
        },
        None => (false, false, None),
    };
    // last_transaction
    let mut last_tx_null = true;
    let mut last_tx_epoch: i64 = 0;
    let mut km_from_current: Option<Span> = None;
    if let Some(p) = find_key(b, 0, &key_last) {
        proof {
            lemma_find_key_bounds(b@, 0, key_last@);
        }
        let p2 = skip_ws(b, p);
        if p2 < b.len() && b[p2] != 110 {
            last_tx_null = false;
            let key_ts = key_timestamp();
            if let Some(tp) = find_key(b, p2, &key_ts) {
                proof {
                    lemma_find_key_bounds(b@, p2 as int, key_ts@);
                    lemma_skip_ws_bounds(b@, tp as int);
                }
                let tp2 = skip_ws(b, tp);
                if !timestamp_is_defined(b, tp2) {
                    return None;
                }
                let (_, _, epoch) = parse_timestamp(b, tp2);
                last_tx_epoch = epoch;
            }
            let key_kfc = key_km_from_current();
            km_from_current = float_field(b, p2, &key_kfc);
        }
    }
    let unknown_merchant = if merchant_id_hash != 0 && known.len() > 0 {
        !contains_hash(&known, merchant_id_hash)
    } else {
        true
    };
    Some(
        BodyFields {
            amount,
            installments,
            requested_hour,
            requested_weekday,
            requested_epoch,
            customer_avg_amount,
            tx_count_24h,
            unknown_merchant,
            merchant_mcc,
            merchant_avg_amount,
            is_online,
            card_present,
            km_from_home,
            last_tx_null,
            last_tx_epoch,
            km_from_current,
        },
    )
}

/// The fields of the request body `b`: amounts and distances as spans of
/// their literals, the rest as values (see `BodyFields`).
pub fn parse_body(b: &[u8]) -> (r: BodyFields)
    requires
        body_defined(b@),
    ensures
        r == spec_body_fields(b@),
{
    parse_body_checked(b).unwrap()
}

// ---------------------------------------------------------------- merchant risk

/// Bit pattern of `0.5f32`, the risk of a merchant category not in the table.
pub const DEFAULT_MCC_RISK_BITS: u32 = 0x3f00_0000;

/// The table is ordered by merchant category code.
pub open spec fn sorted_by_code(t: Seq<(u16, u32)>) -> bool {
    forall|i: int, j: int| 0 <= i < j < t.len() ==> t[i].0 <= t[j].0
}

/// `code` occurs in the table.
pub open spec fn has_code(t: Seq<(u16, u32)>, code: u16) -> bool {
    exists|i: int| 0 <= i < t.len() && #[trigger] t[i].0 == code
}

/// The risk (an `f32` bit pattern) of merchant category `mcc`: the value of
/// an entry with that code, found by binary search, or 0.5 where there is none.
pub fn mcc_risk(table: &[(u16, u32)], mcc: u16) -> (r: u32)
    requires
        sorted_by_code(table@),
    ensures
        has_code(table@, mcc) ==> exists|i: int|
            0 <= i < table@.len() && table@[i].0 == mcc && #[trigger] table@[i].1 == r,
        !has_code(table@, mcc) ==> r == DEFAULT_MCC_RISK_BITS,
{
    let mut lo: usize = 0;
    let mut hi: usize = table.len();
    while lo < hi
        invariant
            lo <= hi <= table@.len(),
            sorted_by_code(table@),
            forall|i: int| 0 <= i < lo ==> #[trigger] table@[i].0 < mcc,
            forall|i: int| hi <= i < table@.len() ==> #[trigger] table@[i].0 > mcc,
        decreases hi - lo,
    {
        let mid = lo + (hi - lo) / 2;
        let (code, risk) = table[mid];
        if code == mcc {
            assert(table@[mid as int].1 == risk);
            return risk;
        } else if code < mcc {
            lo = mid + 1;
        } else {
            hi = mid;
        }
    }
    assert(!has_code(table@, mcc)) by {
        if has_code(table@, mcc) {
            let i = choose|i: int| 0 <= i < table@.len() && #[trigger] table@[i].0 == mcc;
            assert(table@[i].0 == mcc);
        }
    }
    DEFAULT_MCC_RISK_BITS
}

/// What `str::parse::<u16>(..).ok()` gives for the key text `s`.
pub open spec fn spec_parse_u16_ok(s: Seq<u8>) -> Option<u16> {
    match spec_parse_u32(s) {
        Ok(v) => if v <= u16::MAX {
            Some(v as u16)
        } else {
            None
        },
        Err(_) => None,
    }
}

/// The entries whose key is a `u16`, with the key parsed, in order.
pub open spec fn parsed_entries(entries: Seq<(Seq<u8>, u32)>) -> Seq<(u16, u32)>
    decreases entries.len(),
{
    if entries.len() == 0 {
        Seq::empty()
    } else {
        let rest = parsed_entries(entries.drop_last());
        match spec_parse_u16_ok(entries.last().0) {
            Some(code) => rest.push((code, entries.last().1)),
            None => rest,
        }
    }
}

/// The parsed entries are built by appending: none for no entries, and for
/// one more entry, its parsed code with its value exactly when its key
/// parses as a `u16`.
pub proof fn lemma_parsed_entries_append(entries: Seq<(Seq<u8>, u32)>, e: (Seq<u8>, u32))
    ensures
        parsed_entries(Seq::<(Seq<u8>, u32)>::empty()) == Seq::<(u16, u32)>::empty(),
        parsed_entries(entries.push(e)) == match spec_parse_u16_ok(e.0) {
            Some(c) => parsed_entries(entries).push((c, e.1)),
            None => parsed_entries(entries),
        },
{
    assert(entries.push(e).drop_last() =~= entries);
}

/// Every entry whose key parses as a `u16` is among the parsed entries, with
/// its value, and every parsed entry comes from such an entry.
pub proof fn lemma_parsed_entries_members(entries: Seq<(Seq<u8>, u32)>)
    ensures
        forall|i: int|
            0 <= i < entries.len() && (#[trigger] spec_parse_u16_ok(entries[i].0)) is Some
                ==> parsed_entries(entries).contains(
                (spec_parse_u16_ok(entries[i].0)->0, entries[i].1),
            ),
        forall|x: (u16, u32)|
            #[trigger] parsed_entries(entries).contains(x) ==> exists|i: int|
                0 <= i < entries.len() && spec_parse_u16_ok(#[trigger] entries[i].0) == Some(x.0)
                    && entries[i].1 == x.1,
    decreases entries.len(),
{
    if entries.len() > 0 {
        let rest = entries.drop_last();
        let e = entries.last();
        lemma_parsed_entries_members(rest);
        assert(rest.push(e) =~= entries);
        lemma_parsed_entries_append(rest, e);
        let pr = parsed_entries(rest);
        assert forall|i: int|
            0 <= i < entries.len() && (#[trigger] spec_parse_u16_ok(entries[i].0)) is Some
                implies parsed_entries(entries).contains(
            (spec_parse_u16_ok(entries[i].0)->0, entries[i].1),
        ) by {
            let x = (spec_parse_u16_ok(entries[i].0)->0, entries[i].1);
            if i < entries.len() - 1 {
                assert(entries[i] == rest[i]);
                assert(spec_parse_u16_ok(rest[i].0) is Some);
                assert(pr.contains(x));
                let k = choose|k: int| 0 <= k < pr.len() && pr[k] == x;
                match spec_parse_u16_ok(e.0) {
                    Some(c) => {
                        assert(parsed_entries(entries)[k] == x);
                    },
                    None => {},
                }
            } else {
                assert(parsed_entries(entries)[pr.len() as int] == x);
            }
        }
        assert forall|x: (u16, u32)|
            #[trigger] parsed_entries(entries).contains(x) implies exists|i: int|
                0 <= i < entries.len() && spec_parse_u16_ok(#[trigger] entries[i].0) == Some(x.0)
                    && entries[i].1 == x.1 by {
            let k = choose|k: int| 0 <= k < parsed_entries(entries).len() && parsed_entries(entries)[k] == x;
            if k < pr.len() {
                assert(pr[k] == x);
                assert(pr.contains(x));
                let i = choose|i: int|
                    0 <= i < rest.len() && spec_parse_u16_ok(#[trigger] rest[i].0) == Some(x.0)
                        && rest[i].1 == x.1;
                assert(entries[i] == rest[i]);
            } else {
                let i = entries.len() - 1;
                assert(entries[i] == e);
            }
        }
    }
}

/// Inserts `e` into a table ordered by code, after the entries with a code
/// not above its own.
fn insert_by_code(table: &mut Vec<(u16, u32)>, e: (u16, u32))
    requires
        sorted_by_code(old(table)@),
    ensures
        sorted_by_code(final(table)@),
        final(table)@.to_multiset() == old(table)@.to_multiset().insert(e),
{
    let mut pos: usize = 0;
    while pos < table.len() && table[pos].0 <= e.0
        invariant
            pos <= table@.len(),
            forall|i: int| 0 <= i < pos ==> #[trigger] table@[i].0 <= e.0,
        decreases table@.len() - pos,
    {
        pos += 1;
    }
    let ghost before = table@;
    proof {
        vstd::seq_lib::to_multiset_insert(before, pos as int, e);
    }
    table.insert(pos, e);
    assert forall|i: int, j: int| 0 <= i < j < table@.len() implies table@[i].0 <= table@[j].0 by {
        if j < pos {
        } else if j == pos {
        } else if i == pos {
            assert(pos < before.len() ==> before[pos as int].0 > e.0);
            assert(before[j - 1].0 >= before[pos as int].0 || j - 1 == pos);
        } else if i < pos {
        } else {
        }
    }
}

/// The merchant risk table: the entries whose key parses as a `u16` code,
/// ordered by code.
pub fn build_mcc_table(entries: &[(Vec<u8>, u32)]) -> (r: Vec<(u16, u32)>)
    ensures
        sorted_by_code(r@),
        r@.to_multiset() == parsed_entries(entries@.map_values(|e: (Vec<u8>, u32)| (e.0@, e.1))).to_multiset(),
        forall|i: int|
            0 <= i < entries@.len() && (#[trigger] spec_parse_u16_ok(entries@[i].0@)) is Some
                ==> r@.contains((spec_parse_u16_ok(entries@[i].0@)->0, entries@[i].1)),
        forall|x: (u16, u32)|
            #[trigger] r@.contains(x) ==> exists|i: int|
                0 <= i < entries@.len() && spec_parse_u16_ok(#[trigger] entries@[i].0@) == Some(x.0)
                    && entries@[i].1 == x.1,
{
    let ghost src = entries@.map_values(|e: (Vec<u8>, u32)| (e.0@, e.1));
    let mut table: Vec<(u16, u32)> = Vec::new();
    let mut i: usize = 0;
    assert(src.take(0) =~= Seq::<(Seq<u8>, u32)>::empty());
    while i < entries.len()
        invariant
            i <= entries@.len(),
            src == entries@.map_values(|e: (Vec<u8>, u32)| (e.0@, e.1)),
            sorted_by_code(table@),
            table@.to_multiset() == parsed_entries(src.take(i as int)).to_multiset(),
        decreases entries@.len() - i,
    {
        let key = &entries[i].0;
        let value = entries[i].1;
        assert(src.take(i + 1).drop_last() =~= src.take(i as int));
        assert(src.take(i + 1).last() == (key@, value));
        match parse_u32(key.as_slice(), 0, key.len()) {
            Ok(v) => {
                assert(key@.subrange(0, key@.len() as int) =~= key@);
                if v <= 65535 {
                    insert_by_code(&mut table, (v as u16, value));
                    proof {
                        vstd::seq_lib::to_multiset_build(parsed_entries(src.take(i as int)), (v as u16, value));
                    }
                }
            },
            Err(_) => {
                assert(key@.subrange(0, key@.len() as int) =~= key@);
            },
        }
        i += 1;
    }
    assert(src.take(i as int) =~= src);
    proof {
        let pe = parsed_entries(src);
        lemma_parsed_entries_members(src);
        table@.to_multiset_ensures();
        pe.to_multiset_ensures();
        assert forall|k: int|
            0 <= k < entries@.len() && (#[trigger] spec_parse_u16_ok(entries@[k].0@)) is Some
                implies table@.contains((spec_parse_u16_ok(entries@[k].0@)->0, entries@[k].1)) by {
            assert(src[k] == (entries@[k].0@, entries@[k].1));
            assert(spec_parse_u16_ok(src[k].0) is Some);
            let x = (spec_parse_u16_ok(entries@[k].0@)->0, entries@[k].1);
            assert(pe.contains(x));
            assert(pe.to_multiset().count(x) > 0);
        }
        assert forall|x: (u16, u32)|
            #[trigger] table@.contains(x) implies exists|k: int|
                0 <= k < entries@.len() && spec_parse_u16_ok(#[trigger] entries@[k].0@) == Some(x.0)
                    && entries@[k].1 == x.1 by {
            assert(table@.to_multiset().count(x) > 0);
            assert(pe.contains(x));
            let k = choose|k: int|
                0 <= k < src.len() && spec_parse_u16_ok(#[trigger] src[k].0) == Some(x.0) && src[k].1
                    == x.1;
            assert(src[k] == (entries@[k].0@, entries@[k].1));
        }
    }
    table
}

} // verus!
