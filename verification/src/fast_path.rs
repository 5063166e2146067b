//! Conservative fast approval: a clearly ordinary purchase is approved with
//! no search; anything else goes to the exact k-NN. This path never denies.

use crate::cache::TierCache;
use crate::json::{PayloadView, RawPayload};
use vstd::prelude::*;

verus! {

/// Largest amount approved here: 500, in thousandths.
pub const MAX_AMOUNT_LEGIT_MILLI: u32 = 500_000;

pub const MAX_INSTALLMENTS_LEGIT: u32 = 3;

pub const MAX_TX24H_LEGIT: u32 = 5;

/// Largest distance from home approved here: 50 km, in thousandths.
pub const MAX_KM_HOME_LEGIT_MILLI: u32 = 50_000;

/// The MCCs of groceries, restaurants, pharmacies and department stores
/// (5411, 5812, 5912, 5311), packed as by `mcc4_u32`.
pub open spec fn safe_mcc(mcc: u32) -> bool {
    mcc == 0x3534_3131 || mcc == 0x3538_3132 || mcc == 0x3539_3132 || mcc == 0x3533_3131
}

/// A clearly ordinary purchase: at most 500, at most half the customer's
/// average (taken as at least 1), at most 3 installments, at most 5
/// transactions in 24 hours, a merchant the customer knows, at most 50 km
/// from home, and a safe MCC.
pub open spec fn obvious_legit_of(p: PayloadView, c: TierCache) -> bool {
    let safe_avg = if p.customer_avg_amount_milli < 1000 {
        1000
    } else {
        p.customer_avg_amount_milli as int
    };
    &&& p.amount_milli <= MAX_AMOUNT_LEGIT_MILLI
    &&& p.amount_milli * 2 <= safe_avg
    &&& p.installments <= MAX_INSTALLMENTS_LEGIT
    &&& p.tx_count_24h <= MAX_TX24H_LEGIT
    &&& c.merchant_known
    &&& p.km_from_home_milli <= MAX_KM_HOME_LEGIT_MILLI
    &&& safe_mcc(c.mcc_u32)
}

/// The fast path approves only at a merchant the customer knows, and only
/// amounts of at most 500 and at most half the customer's average.
pub proof fn lemma_fast_path_needs_known_merchant(p: PayloadView, c: TierCache)
    ensures
        obvious_legit_of(p, c) ==> c.merchant_known,
        obvious_legit_of(p, c) ==> p.amount_milli <= 500_000,
        obvious_legit_of(p, c) ==> p.amount_milli * 2 <= p.customer_avg_amount_milli || p.amount_milli
            <= 500,
{
}

/// The fast-path rule on a payload and its cached values.
pub open spec fn obvious_legit_spec(p: RawPayload) -> bool {
    obvious_legit_of(p@, p.cache)
}

/// The fraud count when the fast path can give it, which is always 0: the
/// fast path never denies. `None` sends the request to the k-NN.
pub fn try_fast_fraud_count(p: &RawPayload) -> (r: Option<u8>)
    ensures
        r matches Some(c) ==> c == 0,
        r is Some ==> p.cache.merchant_known,
        r is Some <==> (p.amount_milli <= 500_000 && p.amount_milli * 2 <= (if p.customer_avg_amount_milli < 1000 {
            1000
        } else {
            p.customer_avg_amount_milli as int
        }) && p.installments <= 3 && p.tx_count_24h <= 5 && p.km_from_home_milli <= 50_000 && (p.cache.mcc_u32
            == 0x3534_3131 || p.cache.mcc_u32 == 0x3538_3132 || p.cache.mcc_u32 == 0x3539_3132
            || p.cache.mcc_u32 == 0x3533_3131) && p.cache.merchant_known),
        r == (if obvious_legit_spec(*p) {
            Some(0u8)
        } else {
            None
        }),
{
    try_fast_safe_count(p)
}

/// Approves a clearly ordinary purchase with a count of 0.
pub fn try_fast_safe_count(p: &RawPayload) -> (r: Option<u8>)
    ensures
        r matches Some(c) ==> c == 0,
        r is Some ==> p.cache.merchant_known,
        r is Some <==> (p.amount_milli <= 500_000 && p.amount_milli * 2 <= (if p.customer_avg_amount_milli < 1000 {
            1000
        } else {
            p.customer_avg_amount_milli as int
        }) && p.installments <= 3 && p.tx_count_24h <= 5 && p.km_from_home_milli <= 50_000 && (p.cache.mcc_u32
            == 0x3534_3131 || p.cache.mcc_u32 == 0x3538_3132 || p.cache.mcc_u32 == 0x3539_3132
            || p.cache.mcc_u32 == 0x3533_3131) && p.cache.merchant_known),
        r == (if obvious_legit_spec(*p) {
            Some(0u8)
        } else {
            None
        }),
{
    if obvious_legit(p) {
        return Some(0);
    }
    None
}

fn obvious_legit(p: &RawPayload) -> (r: bool)
    ensures
        r == obvious_legit_spec(*p),
{
    if p.amount_milli > MAX_AMOUNT_LEGIT_MILLI {
        return false;
    }
    let safe_avg: u64 = if p.customer_avg_amount_milli < 1000 {
        1000
    } else {
        p.customer_avg_amount_milli as u64
    };
    if (p.amount_milli as u64) * 2 > safe_avg {
        return false;
    }
    if p.installments > MAX_INSTALLMENTS_LEGIT {
        return false;
    }
    if p.tx_count_24h > MAX_TX24H_LEGIT {
        return false;
    }
    if !merchant_known(p) {
        return false;
    }
    if p.km_from_home_milli > MAX_KM_HOME_LEGIT_MILLI {
        return false;
    }
    is_safe_mcc(p.cache.mcc_u32)
}

fn merchant_known(p: &RawPayload) -> (r: bool)
    ensures
        r == p.cache.merchant_known,
{
    p.cache.merchant_known
}

/// Whether a packed MCC is one of the safe ones.
pub fn is_safe_mcc(mcc: u32) -> (r: bool)
    ensures
        r == safe_mcc(mcc),
{
    mcc == 0x3534_3131 || mcc == 0x3538_3132 || mcc == 0x3539_3132 || mcc == 0x3533_3131
}

} // verus!
