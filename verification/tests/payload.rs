use fraud_detector::cache::{contains_quoted, days_from_civil, fill, mcc4_u32, parse_iso};
use fraud_detector::fast_path::{try_fast_fraud_count, try_fast_safe_count};
use fraud_detector::json::extract;
use fraud_detector::linear::{extract_linear, looks_compact_rinha};
use fraud_detector::tier::{obvious_fraud, obvious_legit, ratio_only_count, tier_path, TierPath};

const SAMPLE: &[u8] = br#"{"id":"tx-100","transaction":{"amount":41.12,"installments":2,"requested_at":"2026-03-11T18:45:53Z"},"customer":{"avg_amount":82.24,"tx_count_24h":3,"known_merchants":["MERC-003","MERC-016"]},"merchant":{"id":"MERC-016","mcc":"5411","avg_amount":60.25},"terminal":{"is_online":false,"card_present":true,"km_from_home":29.2331},"last_transaction":null}"#;

const FRAUDY: &[u8] = br#"{"id":"w2","transaction":{"amount":9500.0,"installments":6,"requested_at":"2026-03-11T02:15:00Z"},"customer":{"avg_amount":120.0,"tx_count_24h":8,"known_merchants":[]},"merchant":{"id":"MERC-UNK","mcc":"7995","avg_amount":500.0},"terminal":{"is_online":true,"card_present":false,"km_from_home":200.0},"last_transaction":null}"#;

const WITH_LAST: &[u8] = br#"{"id":"w3","transaction":{"amount":1200.0,"installments":4,"requested_at":"2026-03-11T14:22:11Z"},"customer":{"avg_amount":400.0,"tx_count_24h":4,"known_merchants":["MERC-001"]},"merchant":{"id":"MERC-099","mcc":"5944","avg_amount":800.0},"terminal":{"is_online":false,"card_present":true,"km_from_home":80.0},"last_transaction":{"timestamp":"2026-03-11T13:00:00Z","km_from_current":12.5}}"#;

#[test]
fn extracts_known_fields() {
    let p = extract(SAMPLE).unwrap();
    assert_eq!(p.amount_milli, 41120);
    assert_eq!(p.installments, 2);
    assert_eq!(p.merchant_id, b"MERC-016");
    assert_eq!(p.merchant_mcc, b"5411");
    assert!(!p.is_online);
    assert!(p.card_present);
    assert!(p.last_timestamp.is_none());
    assert!(p.last_km_milli.is_none());
    assert_eq!(p.customer_avg_amount_milli, 82240);
    assert_eq!(p.km_from_home_milli, 29233);
    assert_eq!(p.known_merchants, br#""MERC-003","MERC-016""#);
    assert_eq!(p.requested_at, b"2026-03-11T18:45:53Z");
    assert!(p.cache.merchant_known);
    assert_eq!(p.cache.mcc_u32, 0x3534_3131);
    assert_eq!(p.cache.ratio_count, 0);
}

#[test]
fn extract_reads_previous_transaction_and_skips_unknown_keys() {
    let p = extract(WITH_LAST).unwrap();
    assert_eq!(p.last_timestamp, Some(&b"2026-03-11T13:00:00Z"[..]));
    assert_eq!(p.last_km_milli, Some(12500));
    assert!(!p.cache.merchant_known);
    let spaced = br#" {"x": [1, {"y": "}"}], "transaction" : { "amount" : 3 } }"#;
    assert!(extract(spaced).is_none());
    let spaced = br#"{"x": [1, {"y": "}"}], "transaction" : { "amount" : 3 } }"#;
    let p = extract(spaced).unwrap();
    assert_eq!(p.amount_milli, 3000);
}

#[test]
fn extract_refuses_malformed_fields() {
    assert!(extract(b"").is_none());
    assert!(extract(b"[]").is_none());
    assert!(extract(br#"{"transaction":{"amount":"x"}}"#).is_none());
    assert!(extract(br#"{"transaction":{"installments":true}}"#).is_none());
    assert!(extract(br#"{"terminal":{"is_online":1}}"#).is_none());
    assert!(extract(br#"{"transaction":{"amount":1"#).is_none());
    assert!(extract(br#"{}"#).is_some());
}

#[test]
fn ratio_verdict() {
    let p = extract(FRAUDY).unwrap();
    assert_eq!(p.cache.ratio_count, 5);
    assert_eq!(ratio_only_count(&p), 5);
}

#[test]
fn mcc_and_known_merchants() {
    assert_eq!(mcc4_u32(b"5411"), 0x3534_3131);
    assert_eq!(mcc4_u32(b"541"), u32::MAX);
    assert!(contains_quoted(br#""MERC-003","MERC-016""#, b"MERC-016"));
    assert!(!contains_quoted(br#""MERC-0160""#, b"MERC-016"));
    assert!(!contains_quoted(br#""MERC-016""#, b""));
    let long = [b'a'; 40];
    let mut hay = vec![b'"'];
    hay.extend_from_slice(&long);
    hay.push(b'"');
    assert!(contains_quoted(&hay, &long));
}

#[test]
fn iso_timestamps() {
    assert_eq!(days_from_civil(1970, 1, 1), 0);
    assert_eq!(days_from_civil(2000, 3, 1), 11017);
    let (h, w, e) = parse_iso(b"2026-03-11T18:45:53Z").unwrap();
    assert_eq!(h, 18);
    assert_eq!(w, 2); // a Wednesday
    assert_eq!(e, 1773254753);
    assert_eq!(parse_iso(b"1970-01-01T00:00:00Z"), Some((0, 3, 0))); // a Thursday
    assert!(parse_iso(b"2026-03-11 18:45:53Z").is_none());
    assert!(parse_iso(b"2026-03-11T18:45").is_none());
}

#[test]
fn cache_fill_sets_timestamps() {
    let p = extract(WITH_LAST).unwrap();
    let c = fill(&p);
    assert!(c.requested_valid);
    assert!(c.last_present && c.last_epoch_ok);
    assert_eq!(c.req_epoch - c.last_epoch, 4931);
    assert!(!c.gray_ratio_only);
}

#[test]
fn fast_path_approves_only_ordinary_purchases() {
    let p = extract(SAMPLE).unwrap();
    assert_eq!(try_fast_fraud_count(&p), Some(0));
    assert_eq!(try_fast_safe_count(&p), Some(0));
    let q = extract(FRAUDY).unwrap();
    assert_eq!(try_fast_fraud_count(&q), None);
}

#[test]
fn tier_paths() {
    let mut p = extract(SAMPLE).unwrap();
    p.cache = fill(&p);
    assert!(obvious_legit(&p));
    assert_eq!(tier_path(&p), TierPath::ObviousLegit);
    let mut q = extract(FRAUDY).unwrap();
    q.cache = fill(&q);
    assert!(obvious_fraud(&q));
    assert_eq!(tier_path(&q), TierPath::ObviousFraud);
    let mut r = extract(WITH_LAST).unwrap();
    r.cache = fill(&r);
    assert_eq!(tier_path(&r), TierPath::Tree);
}

#[test]
fn compact_extractor_defers_to_full_parser() {
    assert!(looks_compact_rinha(SAMPLE));
    // The request-time tag already holds the opening quote, so the compact
    // reader never finds a quoted value there and hands the body back.
    assert!(extract_linear(SAMPLE).is_none());
    assert!(!looks_compact_rinha(b"{\"transaction\":{\"amount\":1}}"));
}

#[test]
fn obviously_legit_stops_at_half_the_average() {
    let mut p = extract(SAMPLE).unwrap();
    p.customer_avg_amount_milli = 82_240;
    p.amount_milli = 41_120;
    assert!(obvious_legit(&p));
    p.amount_milli = 41_121;
    assert!(!obvious_legit(&p));
    assert_ne!(tier_path(&p), TierPath::ObviousLegit);
}
