use fraud_detector::quantize::{
    lower_bound_vec, lower_bound_vec_cutoff, partition_key, quantize_amount_ratio,
    quantize_milli_div, quantize_uint_div, vectorize, IndexHeader, QueryVector, RawFeatures,
    HEADER_SIZE, MAGIC, PACKED_DIMS,
};

#[test]
fn header_size_64() {
    assert_eq!(std::mem::size_of::<IndexHeader>(), 64);
    assert_eq!(HEADER_SIZE, 64);
}

#[test]
fn magic_value() {
    assert_eq!(MAGIC, *b"FRAUDIDX");
}

#[test]
fn partition_key_obvious() {
    let mut v: QueryVector = [0; PACKED_DIMS];
    // all-zero → key = 1 (bit 0 set because v[5]==0 >= 0)
    assert_eq!(partition_key(&v), 0b00000001);
    v[5] = -10000;
    assert_eq!(partition_key(&v), 0); // sentinel last-tx clears bit 0
}

#[test]
fn lower_bound_zero_inside_box() {
    let q: QueryVector = [100; PACKED_DIMS];
    let lo: QueryVector = [50; PACKED_DIMS];
    let hi: QueryVector = [200; PACKED_DIMS];
    assert_eq!(lower_bound_vec(&q, &lo, &hi), 0);
}

#[test]
fn lower_bound_outside() {
    let q: QueryVector = [300; PACKED_DIMS]; // beyond hi=200
    let lo: QueryVector = [50; PACKED_DIMS];
    let hi: QueryVector = [200; PACKED_DIMS];
    // diff per dim = 100, squared = 10000, over 14 dims = 140000
    assert_eq!(lower_bound_vec(&q, &lo, &hi), 14 * 10000);
    assert_eq!(lower_bound_vec_cutoff(&q, &lo, &hi, i64::MAX), 14 * 10000);
    assert!(lower_bound_vec_cutoff(&q, &lo, &hi, 50000) >= 50000);
}

#[test]
fn quantized_divisions_round_half_up_and_clamp() {
    assert_eq!(quantize_uint_div(2, 12), 1667);
    assert_eq!(quantize_uint_div(30, 12), 10000);
    assert_eq!(quantize_milli_div(41_120, 10_000), 41);
    assert_eq!(quantize_milli_div(5_000, 10_000), 5);
    assert_eq!(quantize_amount_ratio(41_120, 82_240), 500);
    assert_eq!(quantize_amount_ratio(10_000_000, 1_000), 10000);
    assert_eq!(quantize_amount_ratio(2, 3), 666);
    assert_eq!(quantize_amount_ratio(5, 0), 10000);
}

#[test]
fn vectorize_sentinels_without_previous_transaction() {
    let raw = RawFeatures {
        amount_milli: 41_120,
        installments: 2,
        hour_of_day: 18,
        day_of_week: 2,
        minutes_since_last_tx: None,
        km_from_last_tx_milli: None,
        km_from_home_milli: 29_233,
        customer_avg_amount_milli: 82_240,
        tx_count_24h: 3,
        is_online: false,
        card_present: true,
        unknown_merchant: false,
        mcc_risk_q: 1500,
        merchant_avg_amount_milli: 60_250,
    };
    let v = vectorize(&raw);
    assert_eq!(v[5], -10000);
    assert_eq!(v[6], -10000);
    assert_eq!(v[9], 0);
    assert_eq!(v[10], 10000);
    assert_eq!(v[12], 1500);
    assert_eq!(v[14], 0);
    assert_eq!(v[15], 0);
    assert_eq!(v[3], 7826);
}
