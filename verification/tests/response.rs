use fraud_detector::response::{
    for_count, RESP_APPROVED_S0, RESP_APPROVED_S2, RESP_APPROVED_S4, RESP_DENIED_S10,
    RESP_DENIED_S6, RESP_DENIED_S8, RESP_NOT_FOUND, RESP_READY,
};
use fraud_detector::tools::approved_from_count;

fn assert_content_length(resp: &[u8]) {
    let sep = b"\r\n\r\n";
    let pos = resp.windows(4).position(|w| w == sep).unwrap();
    let body = &resp[pos + 4..];
    let header = std::str::from_utf8(&resp[..pos]).unwrap();
    let cl_line = header
        .lines()
        .find(|l| l.starts_with("Content-Length:"))
        .unwrap();
    let cl: usize = cl_line.split(':').nth(1).unwrap().trim().parse().unwrap();
    assert_eq!(cl, body.len(), "header CL {} != body {}", cl, body.len());
}

#[test]
fn cl_s0() {
    assert_content_length(RESP_APPROVED_S0.as_bytes());
}
#[test]
fn cl_s2() {
    assert_content_length(RESP_APPROVED_S2.as_bytes());
}
#[test]
fn cl_s4() {
    assert_content_length(RESP_APPROVED_S4.as_bytes());
}
#[test]
fn cl_s6() {
    assert_content_length(RESP_DENIED_S6.as_bytes());
}
#[test]
fn cl_s8() {
    assert_content_length(RESP_DENIED_S8.as_bytes());
}
#[test]
fn cl_s10() {
    assert_content_length(RESP_DENIED_S10.as_bytes());
}

#[test]
fn ready_and_not_found_lengths() {
    assert_content_length(RESP_READY.as_bytes());
    assert_content_length(RESP_NOT_FOUND.as_bytes());
}

#[test]
fn count_maps_to_score_table() {
    assert_eq!(for_count(0), RESP_APPROVED_S0.as_bytes());
    assert_eq!(for_count(1), RESP_APPROVED_S2.as_bytes());
    assert_eq!(for_count(2), RESP_APPROVED_S4.as_bytes());
    assert_eq!(for_count(3), RESP_DENIED_S6.as_bytes());
    assert_eq!(for_count(4), RESP_DENIED_S8.as_bytes());
    assert_eq!(for_count(5), RESP_DENIED_S10.as_bytes());
    assert_eq!(for_count(200), RESP_DENIED_S10.as_bytes());
}

#[test]
fn approval_matches_response_body() {
    for c in 0u8..=10 {
        let body = std::str::from_utf8(for_count(c)).unwrap();
        let approved = body.contains("\"approved\":true");
        assert_eq!(approved, approved_from_count(c), "count {}", c);
    }
}
