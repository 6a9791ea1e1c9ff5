use ivf_fraud::scan::{find_key, fnv1a, mcc_code, parse_i32, parse_quoted, skip_ws, Span};
use ivf_fraud::timestamp::{day_of_week, days_in_month, is_leap, parse_timestamp, to_epoch};
use ivf_fraud::vectorize::{
    build_mcc_table, mcc_risk, parse_body, parse_body_checked, BodyFields,
    DEFAULT_MCC_RISK_BITS,
};

const LEGIT: &[u8] = br#"{
          "id": "tx-1329056812",
          "transaction":      { "amount": 41.12, "installments": 2, "requested_at": "2026-03-11T18:45:53Z" },
          "customer":         { "avg_amount": 82.24, "tx_count_24h": 3, "known_merchants": ["MERC-003", "MERC-016"] },
          "merchant":         { "id": "MERC-016", "mcc": "5411", "avg_amount": 60.25 },
          "terminal":         { "is_online": false, "card_present": true, "km_from_home": 29.23 },
          "last_transaction": null
        }"#;

const FRAUD: &[u8] = br#"{
          "id": "tx-3330991687",
          "transaction":      { "amount": 9505.97, "installments": 10, "requested_at": "2026-03-14T05:15:12Z" },
          "customer":         { "avg_amount": 81.28, "tx_count_24h": 20, "known_merchants": ["MERC-008", "MERC-007", "MERC-005"] },
          "merchant":         { "id": "MERC-068", "mcc": "7802", "avg_amount": 54.86 },
          "terminal":         { "is_online": false, "card_present": true, "km_from_home": 952.27 },
          "last_transaction": null
        }"#;

fn text(body: &[u8], span: Option<Span>) -> &str {
    let s = span.unwrap();
    std::str::from_utf8(&body[s.start..s.end]).unwrap()
}

fn num(body: &[u8], span: Option<Span>) -> f32 {
    text(body, span).parse().unwrap()
}

/// The risk table of the scenarios: `(code, risk)` as the configuration lists them.
fn scenario_table() -> Vec<(u16, u32)> {
    let rows = [
        ("4511", 0.35f32), ("5311", 0.25), ("5411", 0.15), ("5812", 0.30), ("5912", 0.20),
        ("5944", 0.45), ("5999", 0.50), ("7801", 0.80), ("7802", 0.75), ("7995", 0.85),
    ];
    let entries: Vec<(Vec<u8>, u32)> =
        rows.iter().map(|(k, v)| (k.as_bytes().to_vec(), v.to_bits())).collect();
    build_mcc_table(&entries)
}

fn unit(x: f32) -> f32 {
    x.clamp(0.0, 1.0)
}

#[test]
fn test_legit_example() {
    let f: BodyFields = parse_body(LEGIT);
    assert_eq!(text(LEGIT, f.amount), "41.12");
    assert_eq!(f.installments, 2);
    assert_eq!(f.requested_hour, 18);
    assert_eq!(f.requested_weekday, 2); // Wednesday
    assert_eq!(f.requested_epoch, 1773254753);
    assert_eq!(text(LEGIT, f.customer_avg_amount), "82.24");
    assert_eq!(f.tx_count_24h, 3);
    assert!(!f.unknown_merchant);
    assert_eq!(f.merchant_mcc, 5411);
    assert_eq!(text(LEGIT, f.merchant_avg_amount), "60.25");
    assert!(!f.is_online);
    assert!(f.card_present);
    assert_eq!(text(LEGIT, f.km_from_home), "29.23");
    assert!(f.last_tx_null);
    assert_eq!(f.last_tx_epoch, 0);
    assert_eq!(f.km_from_current, None);
    // the features these fields scale to (amount 10000, installments 12, ratio 10,
    // km 1000, tx count 20, merchant average 10000)
    let amount = num(LEGIT, f.amount);
    assert!((unit(amount / 10000.0) - 0.0041).abs() < 0.001);
    assert!((unit(f.installments as f32 / 12.0) - 0.1667).abs() < 0.002);
    assert!((unit(amount / num(LEGIT, f.customer_avg_amount) / 10.0) - 0.05).abs() < 0.001);
    assert!((f.requested_hour as f32 / 23.0 - 0.7826).abs() < 0.002);
    assert!((f.requested_weekday as f32 / 6.0 - 0.3333).abs() < 0.002);
    assert!((unit(num(LEGIT, f.km_from_home) / 1000.0) - 0.0292).abs() < 0.001);
    assert!((unit(f.tx_count_24h as f32 / 20.0) - 0.15).abs() < 0.002);
    assert!((f32::from_bits(mcc_risk(&scenario_table(), f.merchant_mcc)) - 0.15).abs() < 0.001);
    assert!((unit(num(LEGIT, f.merchant_avg_amount) / 10000.0) - 0.006).abs() < 0.001);
}

#[test]
fn test_fraud_example() {
    let f = parse_body(FRAUD);
    assert_eq!(text(FRAUD, f.amount), "9505.97");
    assert_eq!(f.installments, 10);
    assert_eq!(f.requested_hour, 5);
    assert_eq!(f.requested_weekday, 5); // Saturday
    assert_eq!(f.tx_count_24h, 20);
    assert!(f.unknown_merchant);
    assert_eq!(f.merchant_mcc, 7802);
    assert_eq!(text(FRAUD, f.merchant_avg_amount), "54.86");
    assert!(f.card_present);
    assert_eq!(text(FRAUD, f.km_from_home), "952.27");
    assert!(f.last_tx_null);
    let amount = num(FRAUD, f.amount);
    assert!((unit(amount / 10000.0) - 0.9506).abs() < 0.001);
    assert!((unit(f.installments as f32 / 12.0) - 0.8333).abs() < 0.002);
    assert!(unit(amount / num(FRAUD, f.customer_avg_amount) / 10.0) >= 1.0 - 0.001);
    assert!((f.requested_hour as f32 / 23.0 - 0.2174).abs() < 0.002);
    assert!((unit(num(FRAUD, f.km_from_home) / 1000.0) - 0.9523).abs() < 0.001);
    assert!((f32::from_bits(mcc_risk(&scenario_table(), f.merchant_mcc)) - 0.75).abs() < 0.001);
    assert!((unit(num(FRAUD, f.merchant_avg_amount) / 10000.0) - 0.0055).abs() < 0.001);
}

#[test]
fn last_transaction_is_read_when_present() {
    let body = br#"{"amount": 1, "merchant": {"id": "M", "mcc": "12"}, "last_transaction": {"timestamp": "2026-03-11T18:00:00Z", "km_from_current": 3.5}}"#;
    let f = parse_body(body);
    assert!(!f.last_tx_null);
    assert_eq!(f.last_tx_epoch, 1773252000);
    assert_eq!(text(body, f.km_from_current), "3.5");
    assert_eq!(f.merchant_mcc, 12);
    assert!(f.unknown_merchant); // no known merchants
    assert_eq!(f.requested_epoch, 0);
}

#[test]
fn bodies_the_scanner_cannot_read() {
    assert!(parse_body_checked(b"{}").is_none()); // shorter than the longest key
    let overflow = br#"{"merchant": {"mcc": "9999999"}, "last_transaction": null}"#;
    assert!(parse_body_checked(overflow).is_none());
    let bad_digit = br#"{"requested_at": "20 6-03-11T18:45:53Z", "last_transaction": null}"#;
    assert!(parse_body_checked(bad_digit).is_none());
    // a letter at or above the digit zero passes the range checks of the digit arithmetic
    let letter = br#"{"requested_at": "20x6-03-11T18:45:53Z", "last_transaction": null}"#;
    assert!(parse_body_checked(letter).is_some());
    let ok = br#"{"last_transaction": null, "requested_at": "2026"}"#;
    assert!(parse_body_checked(ok).is_some());
}

#[test]
fn scanning_primitives() {
    assert_eq!(find_key(b"ab\"k\":1", 0, b"\"k\":"), Some(6));
    assert_eq!(find_key(b"ab\"k\":1", 3, b"\"k\":"), None);
    assert_eq!(skip_ws(b"  \t\nx", 0), 4);
    assert_eq!(parse_i32(b" -42,", 0), -42);
    assert_eq!(parse_i32(b"--1", 0), 0);
    assert_eq!(parse_i32(b"2147483648", 0), 0);
    assert_eq!(parse_i32(b"-2147483648", 0), i32::MIN);
    let (s, after) = parse_quoted(b" \"abc\" x", 0);
    assert_eq!((s, after), (&b"abc"[..], 6));
    assert_eq!(fnv1a(b""), 0xcbf29ce484222325);
    assert_eq!(fnv1a(b"a"), 0xaf63dc4c8601ec8c);
    assert_eq!(mcc_code(b"54a11"), Some(5411));
    assert_eq!(mcc_code(b"65536"), None);
}

#[test]
fn calendar_arithmetic() {
    assert_eq!(day_of_week(2026, 3, 11), 2);
    assert_eq!(day_of_week(2024, 1, 1), 0);
    assert!(is_leap(2000) && is_leap(2024) && !is_leap(1900) && !is_leap(2026));
    assert_eq!(days_in_month(2, true), 29);
    assert_eq!(days_in_month(13, false), 30);
    assert_eq!(to_epoch(2026, 3, 11, 18, 45, 53), 1773254753);
    assert_eq!(to_epoch(1971, 1, 1, 0, 0, 0), 31536000);
    assert_eq!(to_epoch(1970, 1, 1, 0, 0, 0), 0);
    assert_eq!(to_epoch(1972, 3, 1, 0, 0, 0), 68256000);
    assert_eq!(to_epoch(2000, 3, 1, 0, 0, 0), 951868800);
    assert_eq!(to_epoch(2024, 12, 31, 23, 0, 0), 1735686000);
    assert_eq!(to_epoch(2025, 1, 1, 0, 0, 0), 1735689600);
    assert_eq!(to_epoch(1969, 12, 31, 0, 0, 0), -86400);
    assert_eq!(to_epoch(1968, 3, 1, 0, 0, 0), -57974400);
    assert_eq!(parse_timestamp(b" \"2026-03-11T18:45:53Z\"", 0), (18, 2, 1773254753));
    assert_eq!(parse_timestamp(b"\"2026-03", 0), (0, 0, 0));
}

#[test]
fn merchant_risk_table() {
    let half = 0.5f32.to_bits();
    assert_eq!(DEFAULT_MCC_RISK_BITS, half);
    let entries: Vec<(Vec<u8>, u32)> = vec![
        (b"7995".to_vec(), 0.85f32.to_bits()),
        (b"5411".to_vec(), 0.15f32.to_bits()),
        (b"abc".to_vec(), 0.99f32.to_bits()),
        (b"+4511".to_vec(), 0.35f32.to_bits()),
        (b"70000".to_vec(), 0.1f32.to_bits()),
    ];
    let table = build_mcc_table(&entries);
    let codes: Vec<u16> = table.iter().map(|e| e.0).collect();
    assert_eq!(codes, vec![4511, 5411, 7995]);
    assert_eq!(f32::from_bits(mcc_risk(&table, 5411)), 0.15);
    assert_eq!(f32::from_bits(mcc_risk(&table, 7995)), 0.85);
    assert_eq!(f32::from_bits(mcc_risk(&table, 9999)), 0.5);
}

#[test]
fn gap_across_a_year_end_is_sixty_minutes() {
    let body = br#"{"transaction":{"amount":100,"requested_at":"2025-01-01T00:00:00Z"},"customer":{"avg_amount":100},"merchant":{"id":"M1","mcc":"5411"},"terminal":{"is_online":true},"last_transaction":{"timestamp":"2024-12-31T23:00:00Z","km_from_current":250}}"#;
    let f = parse_body(body);
    assert!(!f.last_tx_null);
    assert_eq!(f.requested_epoch - f.last_tx_epoch, 3600);
    assert_eq!(f.last_tx_epoch, 1735686000);
    let minutes = (f.requested_epoch - f.last_tx_epoch).max(0) as f32 / 60.0;
    assert_eq!((unit(minutes / 1440.0) * 10000.0).round() as i16, 417);
}

fn sakamoto(y: i64, m: i64, d: i64) -> u8 {
    let t = [0i64, 3, 2, 5, 0, 3, 5, 1, 4, 6, 2, 4];
    let y = if m < 3 { y - 1 } else { y };
    let dow = (y + y / 4 - y / 100 + y / 400 + t[(m - 1) as usize] + d).rem_euclid(7);
    if dow == 0 { 6 } else { (dow - 1) as u8 }
}

#[test]
fn weekday_over_the_whole_range() {
    assert_eq!(day_of_week(1_700_000_000, 5, 17), sakamoto(1_700_000_000, 5, 17));
    assert_eq!(day_of_week(-1_700_000_000, 1, 3), sakamoto(-1_700_000_000, 1, 3));
    assert_eq!(day_of_week(2026, 3, u32::MAX), sakamoto(2026, 3, -1));
    assert_eq!(day_of_week(1970, 1, 1), 3); // Thursday
}
