//! Scoring one request body: the fast approval, otherwise the exact 5-NN
//! fraud count over the index. No other rule decides a denial.

use crate::cache::{base_cache, datetime_cache, fill_datetime, TierCache};
use crate::fast_path::{obvious_legit_of, try_fast_fraud_count};
use crate::features::{query_of, vectorizable, vectorize_payload};
use crate::index::{Index, IndexView};
use crate::json::{extract, extract_spec, PayloadView, RawPayload};
use crate::knn::{fraud_count, is_knn_count};
use crate::response::{for_count, response_for, RESP_DENIED_S10};
use vstd::prelude::*;
use vstd::string::StringSliceAdditionalSpecFns;

verus! {

/// What the count of a payload with all its cached values is: 0 on the fast
/// path; else the number of frauds among the 5 nearest entries of the index
/// (nothing when the payload cannot be vectorized).
pub open spec fn payload_count_ok(idx: IndexView, p: PayloadView, c: TierCache, r: Option<u8>) -> bool {
    if obvious_legit_of(p, c) {
        r == Some(0u8)
    } else if vectorizable(p, c) {
        r matches Some(x) && x <= 5 && is_knn_count(idx, query_of(idx, p, c), x as int)
    } else {
        r is None
    }
}

/// The count, 0 to 5, of a payload whose cached values are all filled.
pub fn score_payload(index: &Index, p: &RawPayload) -> (r: Option<u8>)
    requires
        index@.tree_ok(),
    ensures
        payload_count_ok(index@, p@, p.cache, r),
{
    match try_fast_fraud_count(p) {
        Some(c) => {
            return Some(c);
        },
        None => {},
    }
    let v = match vectorize_payload(index, p) {
        Some(v) => v,
        None => {
            return None;
        },
    };
    Some(fraud_count(index, &v))
}

/// The count of a body: what its payload scores once its timestamps are
/// read.
pub open spec fn body_count_ok(idx: IndexView, body: Seq<u8>, r: Option<u8>) -> bool {
    match extract_spec(body) {
        None => r is None,
        Some(v) => payload_count_ok(idx, v, datetime_cache(v, base_cache(v)), r),
    }
}

/// Counts 0 to 5 for the HTTP answer, or `None` when the body cannot be read
/// or vectorized.
pub fn score_http_count(index: &Index, body: &[u8]) -> (r: Option<u8>)
    requires
        index@.tree_ok(),
    ensures
        body_count_ok(index@, body@, r),
        r matches Some(c) ==> c <= 5,
{
    let mut p = match extract(body) {
        Some(p) => p,
        None => {
            return None;
        },
    };
    let mut cache = p.cache;
    fill_datetime(&p, &mut cache);
    p.cache = cache;
    score_payload(index, &p)
}

/// The count for profiling runs: the body's count, or 0.
pub fn score_for_profile(index: &Index, body: &[u8]) -> (r: u64)
    requires
        index@.tree_ok(),
    ensures
        r <= 5,
        body_count_ok(index@, body@, Some(r as u8)) || (body_count_ok(index@, body@, None) && r
            == 0),
{
    match score_http_count(index, body) {
        Some(c) => c as u64,
        None => 0,
    }
}

/// The count the blocking handler answers with: the body's count, or 5 when
/// it cannot be scored.
pub fn fraud_count_body(index: &Index, body: &[u8]) -> (r: u8)
    requires
        index@.tree_ok(),
    ensures
        body_count_ok(index@, body@, Some(r)) || (body_count_ok(index@, body@, None) && r == 5),
{
    match score_http_count(index, body) {
        Some(c) => c,
        None => 5,
    }
}

/// The response for a request body and whether it counts as a success: the
/// static answer for its count, or the denial when it cannot be scored.
pub fn fraud_response(index: &Index, body: &[u8]) -> (r: (&'static [u8], bool))
    requires
        index@.tree_ok(),
    ensures
        r.1 ==> exists|c: u8| body_count_ok(index@, body@, Some(c)) && r.0@ == response_for(c as int).spec_bytes(),
        !r.1 ==> body_count_ok(index@, body@, None) && r.0@ == RESP_DENIED_S10.spec_bytes(),
{
    match score_http_count(index, body) {
        Some(c) => (for_count(c), true),
        None => (RESP_DENIED_S10.as_bytes(), false),
    }
}

} // verus!
