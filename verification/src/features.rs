//! From a payload to the quantized query vector of the k-NN search.

use crate::index::{Index, IndexView};
use crate::cache::TierCache;
use crate::json::{PayloadView, RawPayload};
use crate::numbers::{all_digits, digits_val, parse_ascii_u32};
use crate::quantize::{feature_dim, vectorize, QueryVector, RawFeatures, PACKED_DIMS};
use crate::bytes::le_i16;
use vstd::prelude::*;

verus! {

/// Whole minutes from the previous transaction to this one, 0 when the
/// previous one is later, kept to its low 32 bits.
pub open spec fn minutes_between(req_epoch: i64, last_epoch: i64) -> u32 {
    let d = req_epoch - last_epoch;
    let m = if d <= 0 {
        0
    } else {
        d / 60
    };
    (m % 0x1_0000_0000) as u32
}

/// The raw features of a payload, with the MCC risk taken from the index.
pub open spec fn raw_features_of(v: IndexView, p: PayloadView, c: TierCache, mcc: u32) -> RawFeatures {
    RawFeatures {
        amount_milli: p.amount_milli,
        installments: p.installments,
        hour_of_day: c.req_hour,
        day_of_week: c.req_weekday,
        minutes_since_last_tx: if c.last_present {
            Some(minutes_between(c.req_epoch, c.last_epoch))
        } else {
            None
        },
        km_from_last_tx_milli: p.last_km_milli,
        km_from_home_milli: p.km_from_home_milli,
        customer_avg_amount_milli: p.customer_avg_amount_milli,
        tx_count_24h: p.tx_count_24h,
        is_online: p.is_online,
        card_present: p.card_present,
        unknown_merchant: !c.merchant_known,
        mcc_risk_q: le_i16(v.bytes, v.mcc_off() + (mcc % 1024) * 2) as i16,
        merchant_avg_amount_milli: p.merchant_avg_amount_milli,
    }
}

/// The query vector of a payload.
pub open spec fn query_of(v: IndexView, p: PayloadView, c: TierCache) -> Seq<i16> {
    Seq::new(
        PACKED_DIMS as nat,
        |d: int| feature_dim(raw_features_of(v, p, c, digits_val(p.merchant_mcc) as u32), d) as i16,
    )
}

/// The payload can be vectorized: its request time parsed, its MCC is a
/// number of at most `u32::MAX`, and a given previous transaction has a
/// parsed time.
pub open spec fn vectorizable(p: PayloadView, c: TierCache) -> bool {
    &&& c.requested_valid
    &&& all_digits(p.merchant_mcc)
    &&& digits_val(p.merchant_mcc) <= u32::MAX
    &&& (c.last_present ==> c.last_epoch_ok)
}

/// Builds the query vector of a payload; `None` when the request time is
/// invalid, the MCC is not a number, or the previous transaction's time is
/// invalid.
pub fn vectorize_payload(index: &Index, p: &RawPayload) -> (r: Option<QueryVector>)
    ensures
        r is Some <==> vectorizable(p@, p.cache),
        r matches Some(q) ==> q@ == query_of(index@, p@, p.cache),
        r matches Some(q) ==> q@[9] == (if p.is_online { 10000i16 } else { 0i16 }) && q@[10] == (
        if p.card_present {
            10000i16
        } else {
            0i16
        }) && q@[11] == (if p.cache.merchant_known { 0i16 } else { 10000i16 }) && (q@[5] == -10000
            <==> !p.cache.last_present),
{
    if !p.cache.requested_valid {
        return None;
    }
    let mcc = match parse_ascii_u32(p.merchant_mcc) {
        Some(m) => m,
        None => {
            return None;
        },
    };
    let unknown = !p.cache.merchant_known;
    let mcc_risk_q = index.mcc_risk(mcc);
    let minutes_since_last_tx: Option<u32> = if p.cache.last_present {
        if !p.cache.last_epoch_ok {
            return None;
        }
        Some(minutes_since(p.cache.req_epoch, p.cache.last_epoch))
    } else {
        None
    };
    let raw = RawFeatures {
        amount_milli: p.amount_milli,
        installments: p.installments,
        hour_of_day: p.cache.req_hour,
        day_of_week: p.cache.req_weekday,
        minutes_since_last_tx,
        km_from_last_tx_milli: p.last_km_milli,
        km_from_home_milli: p.km_from_home_milli,
        customer_avg_amount_milli: p.customer_avg_amount_milli,
        tx_count_24h: p.tx_count_24h,
        is_online: p.is_online,
        card_present: p.card_present,
        unknown_merchant: unknown,
        mcc_risk_q,
        merchant_avg_amount_milli: p.merchant_avg_amount_milli,
    };
    assert(raw == raw_features_of(index@, p@, p.cache, mcc));
    let q = vectorize(&raw);
    assert(q@ =~= query_of(index@, p@, p.cache));
    Some(q)
}

/// Whole minutes between two epochs, as `minutes_between` states.
fn minutes_since(req_epoch: i64, last_epoch: i64) -> (m: u32)
    ensures
        m == minutes_between(req_epoch, last_epoch),
{
    let d: i128 = req_epoch as i128 - last_epoch as i128;
    let whole: i128 = if d <= 0 {
        0
    } else {
        d / 60
    };
    (whole % 0x1_0000_0000) as u32
}

} // verus!
