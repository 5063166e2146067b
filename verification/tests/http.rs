use fraud_detector::http::{accept_more, accept_step, fd_fits, AcceptAction, RecvOutcome};
use fraud_detector::http::{
    classify_send, consume_front, content_length, content_length_fast, find_double_crlf,
    gateway_step, memchr_crlf, parse_request_line, try_handle_one, GatewayStep, HandleOutcome,
    Reply, SendResult,
};

#[test]
fn header_end_is_past_blank_line() {
    assert_eq!(find_double_crlf(b"GET / HTTP/1.1\r\n\r\nrest"), Some(18));
    assert_eq!(find_double_crlf(b"GET / HTTP/1.1\r\n"), None);
    assert_eq!(find_double_crlf(b"\r\n\r"), None);
    assert_eq!(memchr_crlf(b"GET / HTTP/1.1\r\nHost"), Some(14));
    assert_eq!(memchr_crlf(b"\r"), None);
}

#[test]
fn content_length_variants() {
    let h = b"POST /x HTTP/1.1\r\nContent-Length: 42\r\n\r\n";
    assert_eq!(content_length_fast(h), Some(42));
    let lower = b"POST /x HTTP/1.1\r\ncontent-length: 7\r\n\r\n";
    assert_eq!(content_length_fast(lower), None);
    assert_eq!(content_length(lower), Some(7));
    let skip_empty = b"X\r\nContent-Length: \r\nContent-Length: 9\r\n";
    assert_eq!(content_length_fast(skip_empty), Some(9));
    assert_eq!(content_length(skip_empty), None);
}

#[test]
fn request_line_split() {
    let (m, p) = parse_request_line(b"GET /ready HTTP/1.1").unwrap();
    assert_eq!(m, b"GET");
    assert_eq!(p, b"/ready");
    assert!(parse_request_line(b"GET").is_none());
}

#[test]
fn blocking_handler_decisions() {
    let ready = b"GET /ready HTTP/1.1\r\nHost: x\r\n\r\n";
    assert_eq!(
        try_handle_one(ready, false),
        HandleOutcome::Consumed { consumed: ready.len(), reply: Reply::Ready }
    );
    let post = b"POST /fraud-score HTTP/1.1\r\nContent-Length: 4\r\n\r\n{}{}extra";
    let he = post.len() - 9;
    assert_eq!(
        try_handle_one(post, false),
        HandleOutcome::Consumed {
            consumed: he + 4,
            reply: Reply::Score { body_start: he, body_end: he + 4 }
        }
    );
    let short = b"POST /fraud-score HTTP/1.1\r\nContent-Length: 40\r\n\r\n{}";
    assert_eq!(try_handle_one(short, false), HandleOutcome::NeedMore);
    let no_len = b"POST /fraud-score HTTP/1.1\r\nHost: x\r\n\r\n";
    assert_eq!(
        try_handle_one(no_len, false),
        HandleOutcome::Consumed { consumed: no_len.len(), reply: Reply::Denied }
    );
    let other = b"GET /other HTTP/1.1\r\n\r\n";
    assert_eq!(
        try_handle_one(other, false),
        HandleOutcome::Consumed { consumed: other.len(), reply: Reply::NotFound }
    );
    assert_eq!(try_handle_one(b"GET /ready HTTP/1.1\r\n", false), HandleOutcome::NeedMore);
    let lower = b"POST /fraud-score HTTP/1.1\r\ncontent-length: 2\r\n\r\n{}";
    assert_eq!(
        try_handle_one(lower, false),
        HandleOutcome::Consumed { consumed: lower.len() - 2, reply: Reply::Denied }
    );
    assert_eq!(
        try_handle_one(lower, true),
        HandleOutcome::Consumed {
            consumed: lower.len(),
            reply: Reply::Score { body_start: lower.len() - 2, body_end: lower.len() }
        }
    );
}

#[test]
fn gateway_decisions() {
    let post = b"POST /fraud-score HTTP/1.1\r\nContent-Length: 2\r\n\r\n{}";
    assert_eq!(
        gateway_step(post, 5, 3),
        GatewayStep::Score { header_end: post.len() - 2, consumed: post.len() }
    );
    let bad = b"POST /fraud-score HTTP/1.1\r\n\r\n";
    assert_eq!(gateway_step(bad, 5, 3), GatewayStep::BadLength);
    let get = b"GET /ready HTTP/1.1\r\n\r\n";
    assert_eq!(gateway_step(get, 5, 3), GatewayStep::Ready { header_end: get.len() });
    assert_eq!(gateway_step(b"PUT / HTTP/1.1\r\n\r\n", 5, 3), GatewayStep::NotFound);
    assert_eq!(gateway_step(b"POST /f", 5, 3), GatewayStep::NeedMore);
    // The first-read path needs longer buffers before it treats them as POST/GET.
    assert_eq!(gateway_step(b"GET\r\n\r\n", 21, 10), GatewayStep::NotFound);
}

#[test]
fn send_results() {
    assert_eq!(classify_send(10, 10, false), SendResult::Complete);
    assert_eq!(classify_send(-1, 10, true), SendResult::WouldBlock);
    assert_eq!(classify_send(-1, 10, false), SendResult::Failed);
    assert_eq!(classify_send(4, 10, false), SendResult::Partial { sent: 4 });
}

#[test]
fn leftover_moves_to_front() {
    let mut buf = b"abcdefgh".to_vec();
    let rest = consume_front(&mut buf, 6, 4);
    assert_eq!(rest, 2);
    assert_eq!(&buf[..2], b"ef");
    assert_eq!(&buf[2..], b"cdefgh");
}

#[test]
fn accept_decisions() {
    assert!(fd_fits(8191));
    assert!(!fd_fits(8192));
    assert_eq!(accept_step(8192, 0, RecvOutcome::Data), AcceptAction::Close);
    assert_eq!(accept_step(7, 0, RecvOutcome::Data), AcceptAction::Process);
    assert_eq!(accept_step(7, 3, RecvOutcome::Closed), AcceptAction::Drop);
    assert_eq!(accept_step(7, 30, RecvOutcome::WouldBlock), AcceptAction::Retry);
    assert_eq!(accept_step(7, 31, RecvOutcome::WouldBlock), AcceptAction::WaitEpoll);
    assert!(accept_more(63));
    assert!(!accept_more(64));
}

#[test]
fn repeated_length_headers() {
    // The first exact-case header has no digits; a later one does.
    let req = b"POST /fraud-score HTTP/1.1\r\nContent-Length: x\r\nContent-Length: 2\r\ncontent-length: 1\r\n\r\n{}";
    let he = req.len() - 2;
    // Reading lower case too: first exact-case header, else first lower-case one.
    assert_eq!(
        try_handle_one(req, true),
        HandleOutcome::Consumed { consumed: he + 1, reply: Reply::Score { body_start: he, body_end: he + 1 } }
    );
    // Exact case only: the first exact-case header that carries digits.
    assert_eq!(
        try_handle_one(req, false),
        HandleOutcome::Consumed { consumed: he + 2, reply: Reply::Score { body_start: he, body_end: he + 2 } }
    );
}
