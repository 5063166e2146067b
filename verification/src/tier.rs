//! The layered scorer's decision steps that need no decision tree: the
//! obvious-legit and obvious-fraud rules, which path a request takes, and
//! the amount-ratio verdict.

use crate::json::RawPayload;
use vstd::prelude::*;

verus! {

/// The path the layered scorer takes for a request.
#[derive(Copy, Clone, Debug, PartialEq, Eq, Structural)]
pub enum TierPath {
    ObviousLegit,
    ObviousFraud,
    Tree,
    Ratio,
}

/// Safe MCCs: 5411, 5812, 5912, 5311.
pub open spec fn mcc_safe(mcc: u32) -> bool {
    mcc == 0x3534_3131 || mcc == 0x3538_3132 || mcc == 0x3539_3132 || mcc == 0x3533_3131
}

/// Risky MCCs: 7995, 7801, 7802.
pub open spec fn mcc_risky(mcc: u32) -> bool {
    mcc == 0x3739_3935 || mcc == 0x3738_3031 || mcc == 0x3738_3032
}

pub fn mcc_is_safe(mcc: u32) -> (r: bool)
    ensures
        r == mcc_safe(mcc),
{
    mcc == 0x3534_3131 || mcc == 0x3538_3132 || mcc == 0x3539_3132 || mcc == 0x3533_3131
}

pub fn mcc_is_risky(mcc: u32) -> (r: bool)
    ensures
        r == mcc_risky(mcc),
{
    mcc == 0x3739_3935 || mcc == 0x3738_3031 || mcc == 0x3738_3032
}

/// Customer average in thousandths, taken as at least 1.
pub open spec fn safe_avg_milli(p: RawPayload) -> int {
    if p.customer_avg_amount_milli < 1000 {
        1000
    } else {
        p.customer_avg_amount_milli as int
    }
}

/// At most 500, at most half the customer's average, at most 3
/// installments, at most 5 transactions in 24 hours, at most 50 km from
/// home, a safe MCC and a known merchant.
pub open spec fn obvious_legit_spec(p: RawPayload) -> bool {
    &&& p.amount_milli <= 500_000
    &&& p.amount_milli * 2 <= safe_avg_milli(p)
    &&& p.installments <= 3
    &&& p.tx_count_24h <= 5
    &&& p.km_from_home_milli <= 50_000
    &&& mcc_safe(p.cache.mcc_u32)
    &&& p.cache.merchant_known
}

/// At least 5000, at least 5 installments, at least 6 transactions in 24
/// hours, at least 150 km from home, a risky MCC and an unknown merchant.
pub open spec fn obvious_fraud_spec(p: RawPayload) -> bool {
    &&& p.amount_milli >= 5_000_000
    &&& p.installments >= 5
    &&& p.tx_count_24h >= 6
    &&& p.km_from_home_milli >= 150_000
    &&& mcc_risky(p.cache.mcc_u32)
    &&& !p.cache.merchant_known
}

pub fn obvious_legit(p: &RawPayload) -> (r: bool)
    ensures
        r == obvious_legit_spec(*p),
        r ==> p.cache.merchant_known,
        r <==> (p.amount_milli <= 500_000 && p.amount_milli * 2 <= (if p.customer_avg_amount_milli < 1000 {
            1000
        } else {
            p.customer_avg_amount_milli as int
        }) && p.installments <= 3 && p.tx_count_24h <= 5 && p.km_from_home_milli <= 50_000 && (p.cache.mcc_u32
            == 0x3534_3131 || p.cache.mcc_u32 == 0x3538_3132 || p.cache.mcc_u32 == 0x3539_3132
            || p.cache.mcc_u32 == 0x3533_3131) && p.cache.merchant_known),
{
    let safe_avg: u64 = if p.customer_avg_amount_milli < 1000 {
        1000
    } else {
        p.customer_avg_amount_milli as u64
    };
    if p.amount_milli > 500_000 {
        return false;
    }
    if (p.amount_milli as u64) * 2 > safe_avg {
        return false;
    }
    if p.installments > 3 {
        return false;
    }
    if p.tx_count_24h > 5 {
        return false;
    }
    if p.km_from_home_milli > 50_000 {
        return false;
    }
    if !mcc_is_safe(p.cache.mcc_u32) {
        return false;
    }
    p.cache.merchant_known
}

pub fn obvious_fraud(p: &RawPayload) -> (r: bool)
    ensures
        r == obvious_fraud_spec(*p),
        r ==> !p.cache.merchant_known,
        r <==> (p.amount_milli >= 5_000_000 && p.installments >= 5 && p.tx_count_24h >= 6 && p.km_from_home_milli
            >= 150_000 && (p.cache.mcc_u32 == 0x3739_3935 || p.cache.mcc_u32 == 0x3738_3031
            || p.cache.mcc_u32 == 0x3738_3032) && !p.cache.merchant_known),
{
    p.amount_milli >= 5_000_000 && p.installments >= 5 && p.tx_count_24h >= 6
        && p.km_from_home_milli >= 150_000 && mcc_is_risky(p.cache.mcc_u32)
        && !p.cache.merchant_known
}

/// The tree's features can be built: the request time parsed and, when a
/// previous transaction is given, its time parsed too.
pub open spec fn tree_features_ready(p: RawPayload) -> bool {
    p.cache.requested_valid && (!p.cache.last_present || p.cache.last_epoch_ok)
}

/// The path: obvious legit, else obvious fraud, else the tree when its
/// features can be built, else the ratio.
pub open spec fn tier_path_spec(p: RawPayload) -> TierPath {
    if obvious_legit_spec(p) {
        TierPath::ObviousLegit
    } else if obvious_fraud_spec(p) {
        TierPath::ObviousFraud
    } else if tree_features_ready(p) {
        TierPath::Tree
    } else {
        TierPath::Ratio
    }
}

/// Which path the layered scorer takes for a request.
pub fn tier_path(p: &RawPayload) -> (r: TierPath)
    ensures
        r == tier_path_spec(*p),
        r == TierPath::ObviousLegit ==> p.cache.merchant_known,
        r == TierPath::ObviousFraud ==> !p.cache.merchant_known,
        r == TierPath::ObviousLegit <==> (p.amount_milli <= 500_000 && p.amount_milli * 2 <= (if p.customer_avg_amount_milli < 1000 {
            1000
        } else {
            p.customer_avg_amount_milli as int
        }) && p.installments <= 3 && p.tx_count_24h <= 5 && p.km_from_home_milli <= 50_000 && (p.cache.mcc_u32
            == 0x3534_3131 || p.cache.mcc_u32 == 0x3538_3132 || p.cache.mcc_u32 == 0x3539_3132
            || p.cache.mcc_u32 == 0x3533_3131) && p.cache.merchant_known),
        r == TierPath::ObviousFraud ==> (p.amount_milli >= 5_000_000 && p.installments >= 5 && p.tx_count_24h >= 6 && p.km_from_home_milli
            >= 150_000 && (p.cache.mcc_u32 == 0x3739_3935 || p.cache.mcc_u32 == 0x3738_3031
            || p.cache.mcc_u32 == 0x3738_3032) && !p.cache.merchant_known),
{
    if obvious_legit(p) {
        return TierPath::ObviousLegit;
    }
    if obvious_fraud(p) {
        return TierPath::ObviousFraud;
    }
    if !p.cache.requested_valid {
        return TierPath::Ratio;
    }
    if !p.cache.last_present || p.cache.last_epoch_ok {
        TierPath::Tree
    } else {
        TierPath::Ratio
    }
}

/// The amount-ratio verdict alone.
pub fn ratio_only_count(p: &RawPayload) -> (r: u8)
    ensures
        r == p.cache.ratio_count,
{
    p.cache.ratio_count
}

/// The merchant decides between the two obvious paths: a purchase at a
/// merchant the customer knows is never obviously fraudulent, and one at a
/// merchant the customer does not know is never obviously legitimate.
pub proof fn lemma_obvious_paths_follow_merchant(p: RawPayload)
    ensures
        obvious_fraud_spec(p) ==> !p.cache.merchant_known,
        obvious_legit_spec(p) ==> p.cache.merchant_known,
        tier_path_spec(p) == TierPath::ObviousFraud ==> !p.cache.merchant_known,
        p.cache.merchant_known ==> tier_path_spec(p) != TierPath::ObviousFraud,
        !p.cache.merchant_known ==> tier_path_spec(p) != TierPath::ObviousLegit,
{
}

/// No request is both obviously legitimate and obviously fraudulent.
pub proof fn lemma_obvious_rules_disjoint(p: RawPayload)
    ensures
        !(obvious_legit_spec(p) && obvious_fraud_spec(p)),
{
}

} // verus!
