//! Static HTTP responses.

use vstd::prelude::*;
use vstd::string::StringSliceAdditionalSpecFns;

verus! {

pub const RESP_READY: &'static str = "HTTP/1.1 200 OK\r\nContent-Length: 2\r\n\r\nOK";

// Minimal headers: HTTP/1.1 defaults to keep-alive; no Content-Type needed.
pub const RESP_APPROVED_S0: &'static str =
    "HTTP/1.1 200 OK\r\nContent-Length: 33\r\n\r\n{\"approved\":true,\"fraud_score\":0}";

pub const RESP_APPROVED_S2: &'static str =
    "HTTP/1.1 200 OK\r\nContent-Length: 35\r\n\r\n{\"approved\":true,\"fraud_score\":0.2}";

pub const RESP_APPROVED_S4: &'static str =
    "HTTP/1.1 200 OK\r\nContent-Length: 35\r\n\r\n{\"approved\":true,\"fraud_score\":0.4}";

pub const RESP_DENIED_S6: &'static str =
    "HTTP/1.1 200 OK\r\nContent-Length: 36\r\n\r\n{\"approved\":false,\"fraud_score\":0.6}";

pub const RESP_DENIED_S8: &'static str =
    "HTTP/1.1 200 OK\r\nContent-Length: 36\r\n\r\n{\"approved\":false,\"fraud_score\":0.8}";

pub const RESP_DENIED_S10: &'static str =
    "HTTP/1.1 200 OK\r\nContent-Length: 34\r\n\r\n{\"approved\":false,\"fraud_score\":1}";

pub const RESP_NOT_FOUND: &'static str =
    "HTTP/1.1 404 Not Found\r\nContent-Length: 0\r\nConnection: keep-alive\r\n\r\n";

/// The response text for a fraud count: the score is `count / 5` and the
/// transaction is approved when at most two of the five neighbors are frauds;
/// counts above 5 answer like 5.
pub open spec fn response_for(count: int) -> &'static str {
    if count == 0 {
        RESP_APPROVED_S0
    } else if count == 1 {
        RESP_APPROVED_S2
    } else if count == 2 {
        RESP_APPROVED_S4
    } else if count == 3 {
        RESP_DENIED_S6
    } else if count == 4 {
        RESP_DENIED_S8
    } else {
        RESP_DENIED_S10
    }
}

/// Whether a fraud count approves the transaction.
pub open spec fn approved(count: int) -> bool {
    count <= 2
}

/// Response bytes for a fraud count.
pub fn for_count(count: u8) -> (r: &'static [u8])
    ensures
        r@ == response_for(count as int).spec_bytes(),
{
    match count {
        0 => RESP_APPROVED_S0.as_bytes(),
        1 => RESP_APPROVED_S2.as_bytes(),
        2 => RESP_APPROVED_S4.as_bytes(),
        3 => RESP_DENIED_S6.as_bytes(),
        4 => RESP_DENIED_S8.as_bytes(),
        _ => RESP_DENIED_S10.as_bytes(),
    }
}

/// An approving count is answered by one of the three approving responses,
/// a denying count by one of the three denying ones.
pub proof fn lemma_response_matches_decision(count: u8)
    ensures
        approved(count as int) ==> (response_for(count as int) == RESP_APPROVED_S0
            || response_for(count as int) == RESP_APPROVED_S2 || response_for(count as int)
            == RESP_APPROVED_S4),
        !approved(count as int) ==> (response_for(count as int) == RESP_DENIED_S6
            || response_for(count as int) == RESP_DENIED_S8 || response_for(count as int)
            == RESP_DENIED_S10),
{
}

} // verus!
