//! HTTP/1.1 request framing: where headers end, the declared body length,
//! the request line, and what each complete request is answered with.

use crate::numbers::all_digits;
use crate::numbers::digits_val;
use crate::text::{at, bytes_at, digit_run_end, digits_end, digits_wrapping_usize, lemma_digit_run};
use vstd::prelude::*;

verus! {

/// `\r\n\r\n`, the end of the header block.
pub open spec fn blank_line() -> Seq<u8> {
    seq![13u8, 10u8, 13u8, 10u8]
}

/// First index at or after `from` where `pat` occurs; `s.len()` when none.
pub open spec fn first_at(s: Seq<u8>, pat: Seq<u8>, from: int) -> int
    decreases s.len() - from,
{
    if from >= s.len() {
        s.len() as int
    } else if at(s, from, pat) {
        from
    } else {
        first_at(s, pat, from + 1)
    }
}

pub proof fn lemma_first_at(s: Seq<u8>, pat: Seq<u8>, from: int)
    requires
        0 <= from <= s.len(),
    ensures
        from <= first_at(s, pat, from) <= s.len(),
        first_at(s, pat, from) < s.len() ==> at(s, first_at(s, pat, from), pat),
        forall|j: int| from <= j < first_at(s, pat, from) ==> !at(s, j, pat),
    decreases s.len() - from,
{
    if from < s.len() && !at(s, from, pat) {
        lemma_first_at(s, pat, from + 1);
    }
}

/// The offset just past the first `\r\n\r\n`, which is where the body starts.
pub open spec fn header_end_spec(s: Seq<u8>) -> Option<int> {
    let i = first_at(s, blank_line(), 0);
    if i < s.len() {
        Some(i + 4)
    } else {
        None
    }
}

/// Finds the end of the header block: the offset just past the first
/// `\r\n\r\n`.
pub fn find_double_crlf(buf: &[u8]) -> (r: Option<usize>)
    ensures
        r matches Some(e) ==> header_end_spec(buf@) == Some(e as int),
        r is None ==> header_end_spec(buf@) is None,
{
    let pat: [u8; 4] = [13, 10, 13, 10];
    assert(pat@ =~= blank_line());
    if buf.len() < 4 {
        proof {
            assert(!at(buf@, 0, blank_line()));
            lemma_no_room(buf@, blank_line(), 0);
        }
        return None;
    }
    let mut i: usize = 0;
    while i <= buf.len() - 4
        invariant
            pat@ == blank_line(),
            buf@.len() >= 4,
            i + 3 <= buf@.len(),
            first_at(buf@, blank_line(), 0) == first_at(buf@, blank_line(), i as int),
        decreases buf@.len() - i,
    {
        if bytes_at(buf, i, &pat) {
            return Some(i + 4);
        }
        i = i + 1;
    }
    proof {
        lemma_no_room(buf@, blank_line(), i as int);
    }
    None
}

/// Past the last place where `pat` fits, there is no occurrence.
proof fn lemma_no_room(s: Seq<u8>, pat: Seq<u8>, from: int)
    requires
        0 <= from,
        from + pat.len() > s.len(),
    ensures
        first_at(s, pat, from) >= s.len(),
    decreases s.len() - from,
{
    if from < s.len() {
        assert(!at(s, from, pat));
        lemma_no_room(s, pat, from + 1);
    }
}

/// Index of the first byte equal to `c` at or after `from`; `s.len()` when
/// none.
pub open spec fn first_byte(s: Seq<u8>, c: u8, from: int) -> int
    decreases s.len() - from,
{
    if from >= s.len() {
        s.len() as int
    } else if s[from] == c {
        from
    } else {
        first_byte(s, c, from + 1)
    }
}

pub proof fn lemma_first_byte(s: Seq<u8>, c: u8, from: int)
    requires
        0 <= from <= s.len(),
    ensures
        from <= first_byte(s, c, from) <= s.len(),
        first_byte(s, c, from) < s.len() ==> s[first_byte(s, c, from)] == c,
        forall|j: int| from <= j < first_byte(s, c, from) ==> s[j] != c,
    decreases s.len() - from,
{
    if from < s.len() && s[from] != c {
        lemma_first_byte(s, c, from + 1);
    }
}

/// Index of the first byte equal to `c` at or after `from`.
pub fn find_byte(s: &[u8], c: u8, from: usize) -> (r: Option<usize>)
    requires
        from <= s@.len(),
    ensures
        r matches Some(i) ==> i == first_byte(s@, c, from as int) && i < s@.len(),
        r is None ==> first_byte(s@, c, from as int) == s@.len(),
{
    let mut i = from;
    while i < s.len()
        invariant
            from <= i <= s@.len(),
            first_byte(s@, c, from as int) == first_byte(s@, c, i as int),
        decreases s@.len() - i,
    {
        if s[i] == c {
            return Some(i);
        }
        i = i + 1;
    }
    None
}

/// Index of the first `\r\n`.
pub open spec fn crlf_spec(s: Seq<u8>) -> Option<int> {
    let i = first_at(s, seq![13u8, 10u8], 0);
    if i < s.len() {
        Some(i)
    } else {
        None
    }
}

/// Finds the first `\r\n`, which ends the request line.
pub fn memchr_crlf(buf: &[u8]) -> (r: Option<usize>)
    ensures
        r matches Some(i) ==> crlf_spec(buf@) == Some(i as int),
        r is None ==> crlf_spec(buf@) is None,
{
    let pat: [u8; 2] = [13, 10];
    assert(pat@ =~= seq![13u8, 10u8]);
    if buf.len() < 2 {
        proof {
            lemma_no_room(buf@, seq![13u8, 10u8], 0);
        }
        return None;
    }
    let mut i: usize = 0;
    while i < buf.len() - 1
        invariant
            pat@ == seq![13u8, 10u8],
            buf@.len() >= 2,
            i + 1 <= buf@.len(),
            first_at(buf@, seq![13u8, 10u8], 0) == first_at(buf@, seq![13u8, 10u8], i as int),
        decreases buf@.len() - i,
    {
        if bytes_at(buf, i, &pat) {
            return Some(i);
        }
        i = i + 1;
    }
    proof {
        lemma_no_room(buf@, seq![13u8, 10u8], i as int);
    }
    None
}

/// `\r\nContent-Length: `.
pub open spec fn length_tag() -> Seq<u8> {
    seq![13u8, 10u8, 67u8, 111u8, 110u8, 116u8, 101u8, 110u8, 116u8, 45u8, 76u8, 101u8, 110u8, 103u8, 116u8, 104u8, 58u8, 32u8]
}

/// `\r\ncontent-length: `.
pub open spec fn length_tag_lower() -> Seq<u8> {
    seq![13u8, 10u8, 99u8, 111u8, 110u8, 116u8, 101u8, 110u8, 116u8, 45u8, 108u8, 101u8, 110u8, 103u8, 116u8, 104u8, 58u8, 32u8]
}

/// `tag` occurs at `i` and at least one digit follows it.
pub open spec fn tag_with_digits(h: Seq<u8>, i: int, tag: Seq<u8>) -> bool {
    at(h, i, tag) && digit_run_end(h, i + tag.len()) > i + tag.len()
}

/// The digits after the tag at `i`, read modulo the range of `usize`.
pub open spec fn length_after(h: Seq<u8>, i: int, tag: Seq<u8>) -> int {
    digits_val(h.subrange(i + tag.len(), digit_run_end(h, i + tag.len()))) % (usize::MAX as int
        + 1)
}

/// First index at or after `from` holding `tag` followed by a digit.
pub open spec fn first_tag_with_digits(h: Seq<u8>, tag: Seq<u8>, from: int) -> int
    decreases h.len() - from,
{
    if from >= h.len() {
        h.len() as int
    } else if tag_with_digits(h, from, tag) {
        from
    } else {
        first_tag_with_digits(h, tag, from + 1)
    }
}

/// The declared body length: the digits after the first
/// `\r\nContent-Length: ` that is followed by a digit.
pub open spec fn content_length_fast_spec(h: Seq<u8>) -> Option<int> {
    let i = first_tag_with_digits(h, length_tag(), 0);
    if i < h.len() {
        Some(length_after(h, i, length_tag()))
    } else {
        None
    }
}

fn length_tag_bytes() -> (t: [u8; 18])
    ensures
        t@ == length_tag(),
{
    let t: [u8; 18] = [13, 10, 67, 111, 110, 116, 101, 110, 116, 45, 76, 101, 110, 103, 116, 104, 58, 32];
    assert(t@ =~= length_tag());
    t
}

fn length_tag_lower_bytes() -> (t: [u8; 18])
    ensures
        t@ == length_tag_lower(),
{
    let t: [u8; 18] = [13, 10, 99, 111, 110, 116, 101, 110, 116, 45, 108, 101, 110, 103, 116, 104, 58, 32];
    assert(t@ =~= length_tag_lower());
    t
}

/// Reads the value of the first `Content-Length` header (exact case) that
/// is followed by a digit; digits are folded in modulo the range of `usize`.
pub fn content_length_fast(headers: &[u8]) -> (r: Option<usize>)
    ensures
        r matches Some(n) ==> content_length_fast_spec(headers@) == Some(n as int),
        r is None ==> content_length_fast_spec(headers@) is None,
{
    let tag = length_tag_bytes();
    let mut i: usize = 0;
    while headers.len() >= 18 && i <= headers.len() - 18
        invariant
            tag@ == length_tag(),
            i <= headers@.len(),
            first_tag_with_digits(headers@, length_tag(), 0) == first_tag_with_digits(
                headers@,
                length_tag(),
                i as int,
            ),
        decreases headers@.len() - i,
    {
        if bytes_at(headers, i, &tag) {
            let start = i + 18;
            let end = digits_end(headers, start);
            if end > start {
                proof {
                    lemma_digit_run(headers@, start as int);
                }
                return Some(digits_wrapping_usize(headers, start, end));
            }
        }
        i = i + 1;
    }
    proof {
        lemma_no_tag_room(headers@, length_tag(), i as int);
    }
    None
}

proof fn lemma_no_tag_room(h: Seq<u8>, tag: Seq<u8>, from: int)
    requires
        0 <= from,
        from + tag.len() > h.len(),
    ensures
        first_tag_with_digits(h, tag, from) >= h.len(),
    decreases h.len() - from,
{
    if from < h.len() {
        lemma_no_tag_room(h, tag, from + 1);
    }
}

/// The length after the first occurrence of `tag`, if digits follow it.
pub open spec fn length_at_first(h: Seq<u8>, tag: Seq<u8>) -> Option<int> {
    let i = first_at(h, tag, 0);
    if i < h.len() && digit_run_end(h, i + tag.len()) > i + tag.len() {
        Some(length_after(h, i, tag))
    } else {
        None
    }
}

/// The declared body length, from the first `\r\nContent-Length: ` or, when
/// that has no digits or is missing, the first `\r\ncontent-length: `.
pub open spec fn content_length_spec(h: Seq<u8>) -> Option<int> {
    if length_at_first(h, length_tag()) is Some {
        length_at_first(h, length_tag())
    } else {
        length_at_first(h, length_tag_lower())
    }
}

fn length_at_first_exec(headers: &[u8], tag: &[u8; 18]) -> (r: Option<usize>)
    ensures
        r matches Some(n) ==> length_at_first(headers@, tag@) == Some(n as int),
        r is None ==> length_at_first(headers@, tag@) is None,
{
    let mut i: usize = 0;
    while headers.len() >= 18 && i <= headers.len() - 18
        invariant
            i <= headers@.len(),
            tag@.len() == 18,
            first_at(headers@, tag@, 0) == first_at(headers@, tag@, i as int),
        decreases headers@.len() - i,
    {
        if bytes_at(headers, i, tag) {
            let start = i + 18;
            let end = digits_end(headers, start);
            if end > start {
                proof {
                    lemma_digit_run(headers@, start as int);
                }
                return Some(digits_wrapping_usize(headers, start, end));
            }
            return None;
        }
        i = i + 1;
    }
    proof {
        lemma_no_room(headers@, tag@, i as int);
    }
    None
}

/// Reads the declared body length, accepting the header name in exact case
/// or all lower case.
pub fn content_length(headers: &[u8]) -> (r: Option<usize>)
    ensures
        r matches Some(n) ==> content_length_spec(headers@) == Some(n as int),
        r is None ==> content_length_spec(headers@) is None,
{
    let tag = length_tag_bytes();
    match length_at_first_exec(headers, &tag) {
        Some(n) => Some(n),
        None => {
            let lower = length_tag_lower_bytes();
            length_at_first_exec(headers, &lower)
        },
    }
}

/// Method and path of a request line: the bytes before the first space, and
/// the bytes from there to the next space.
pub open spec fn request_line_spec(line: Seq<u8>) -> Option<(int, int, int)> {
    let sp1 = first_byte(line, 32, 0);
    let sp2 = first_byte(line, 32, sp1 + 1);
    if sp1 < line.len() && sp2 < line.len() {
        Some((sp1, sp1 + 1, sp2))
    } else {
        None
    }
}

/// Splits a request line into method and path.
pub fn parse_request_line(line: &[u8]) -> (r: Option<(&[u8], &[u8])>)
    ensures
        r is None ==> request_line_spec(line@) is None,
        r matches Some((m, p)) ==> request_line_spec(line@) matches Some((sp1, a, b)) && 0 <= sp1
            < a <= b <= line@.len() && m@ == line@.subrange(0, sp1) && p@ == line@.subrange(a, b),
{
    let _n = line.len();
    let sp1 = match find_byte(line, 32, 0) {
        Some(i) => i,
        None => {
            return None;
        },
    };
    proof {
        lemma_first_byte(line@, 32, sp1 + 1);
    }
    let sp2 = match find_byte(line, 32, sp1 + 1) {
        Some(i) => i,
        None => {
            return None;
        },
    };
    Some((slice_range(line, 0, sp1), slice_range(line, sp1 + 1, sp2)))
}

/// The bytes `s[a..b]`.
pub fn slice_range(s: &[u8], a: usize, b: usize) -> (r: &[u8])
    requires
        a <= b <= s@.len(),
    ensures
        r@ == s@.subrange(a as int, b as int),
{
    vstd::slice::slice_subrange(s, a, b)
}

/// Whether two byte strings are equal.
pub fn bytes_eq(a: &[u8], b: &[u8]) -> (r: bool)
    ensures
        r == (a@ == b@),
{
    if a.len() != b.len() {
        return false;
    }
    let r = bytes_at(a, 0, b);
    proof {
        if r {
            assert(a@.subrange(0, b@.len() as int) =~= a@);
        } else {
            assert(a@.subrange(0, b@.len() as int) =~= a@);
        }
    }
    r
}

pub open spec fn get_word() -> Seq<u8> {
    seq![71u8, 69u8, 84u8]
}

pub open spec fn post_word() -> Seq<u8> {
    seq![80u8, 79u8, 83u8, 84u8]
}

pub open spec fn ready_path() -> Seq<u8> {
    seq![47u8, 114u8, 101u8, 97u8, 100u8, 121u8]
}

pub open spec fn score_path() -> Seq<u8> {
    seq![47u8, 102u8, 114u8, 97u8, 117u8, 100u8, 45u8, 115u8, 99u8, 111u8, 114u8, 101u8]
}

/// `POST ` at the start of a request.
pub open spec fn post_prefix() -> Seq<u8> {
    seq![80u8, 79u8, 83u8, 84u8, 32u8]
}

/// The static answers a request can get besides a score.
#[derive(PartialEq, Eq, Structural, Clone, Copy, Debug)]
pub enum Reply {
    /// The denial sent for malformed requests.
    Denied,
    /// The health answer.
    Ready,
    NotFound,
    /// A score for the body `buf[body_start..body_end]`.
    Score { body_start: usize, body_end: usize },
}

/// What one pass over the buffered bytes decides.
#[derive(PartialEq, Eq, Structural, Clone, Copy, Debug)]
pub enum HandleOutcome {
    /// No complete request yet.
    NeedMore,
    /// Answer with `reply` and drop the first `consumed` bytes.
    Consumed { consumed: usize, reply: Reply },
}

/// The body length a handler reads from the header block: `content_length`
/// when it reads lower case too, `content_length_fast` otherwise.
pub open spec fn declared_length(h: Seq<u8>, lower_case_too: bool) -> Option<int> {
    if lower_case_too {
        content_length_spec(h)
    } else {
        content_length_fast_spec(h)
    }
}

/// The decision for the buffered bytes `buf`: wait for a complete header
/// block; refuse a malformed request line; answer `GET /ready`; score
/// `POST /fraud-score` once its whole body is buffered (refusing it when no
/// length is declared); answer anything else with 404.
pub open spec fn handle_spec(buf: Seq<u8>, lower_case_too: bool) -> HandleOutcome {
    match header_end_spec(buf) {
        None => HandleOutcome::NeedMore,
        Some(he) => match crlf_spec(buf) {
            None => HandleOutcome::NeedMore,
            Some(le) => match request_line_spec(buf.subrange(0, le)) {
                None => HandleOutcome::Consumed { consumed: he as usize, reply: Reply::Denied },
                Some((sp1, a, b)) => {
                    let method = buf.subrange(0, sp1);
                    let path = buf.subrange(a, b);
                    if method == get_word() && path == ready_path() {
                        HandleOutcome::Consumed { consumed: he as usize, reply: Reply::Ready }
                    } else if method == post_word() && path == score_path() {
                        match declared_length(buf.subrange(0, he), lower_case_too) {
                            None => HandleOutcome::Consumed {
                                consumed: he as usize,
                                reply: Reply::Denied,
                            },
                            Some(cl) => if he + cl <= buf.len() {
                                HandleOutcome::Consumed {
                                    consumed: (he + cl) as usize,
                                    reply: Reply::Score {
                                        body_start: he as usize,
                                        body_end: (he + cl) as usize,
                                    },
                                }
                            } else {
                                HandleOutcome::NeedMore
                            },
                        }
                    } else {
                        HandleOutcome::Consumed { consumed: he as usize, reply: Reply::NotFound }
                    }
                },
            },
        },
    }
}

/// Decides what to do with the bytes buffered on a connection. With
/// `lower_case_too`, the body length is read after the first exact-case
/// `Content-Length` header or, when that has no digits, the first lower-case
/// one; without it, after the first exact-case header that carries digits.
pub fn try_handle_one(buf: &[u8], lower_case_too: bool) -> (r: HandleOutcome)
    ensures
        r == handle_spec(buf@, lower_case_too),
        r matches HandleOutcome::Consumed { consumed, reply } ==> 0 < consumed <= buf@.len(),
        r matches HandleOutcome::Consumed { consumed, reply: Reply::Score { body_start, body_end } }
            ==> body_start <= body_end == consumed,
{
    let header_end = match find_double_crlf(buf) {
        Some(p) => p,
        None => {
            return HandleOutcome::NeedMore;
        },
    };
    proof {
        lemma_first_at(buf@, blank_line(), 0);
    }
    let line_end = match memchr_crlf(buf) {
        Some(p) => p,
        None => {
            return HandleOutcome::NeedMore;
        },
    };
    proof {
        lemma_first_at(buf@, seq![13u8, 10u8], 0);
    }
    let line = slice_range(buf, 0, line_end);
    let (method, path) = match parse_request_line(line) {
        Some(x) => x,
        None => {
            return HandleOutcome::Consumed { consumed: header_end, reply: Reply::Denied };
        },
    };
    proof {
        let (sp1, a, b) = request_line_spec(line@).unwrap();
        assert(line@.subrange(0, sp1) =~= buf@.subrange(0, sp1));
        assert(line@.subrange(a, b) =~= buf@.subrange(a, b));
    }
    let get: [u8; 3] = [71, 69, 84];
    let ready: [u8; 6] = [47, 114, 101, 97, 100, 121];
    let post: [u8; 4] = [80, 79, 83, 84];
    let score: [u8; 12] = [47, 102, 114, 97, 117, 100, 45, 115, 99, 111, 114, 101];
    assert(get@ =~= get_word());
    assert(ready@ =~= ready_path());
    assert(post@ =~= post_word());
    assert(score@ =~= score_path());
    if bytes_eq(method, &get) && bytes_eq(path, &ready) {
        return HandleOutcome::Consumed { consumed: header_end, reply: Reply::Ready };
    }
    if bytes_eq(method, &post) && bytes_eq(path, &score) {
        let headers = slice_range(buf, 0, header_end);
        let declared = if lower_case_too {
            content_length(headers)
        } else {
            content_length_fast(headers)
        };
        let cl = match declared {
            Some(c) => c,
            None => {
                return HandleOutcome::Consumed { consumed: header_end, reply: Reply::Denied };
            },
        };
        if cl > buf.len() - header_end {
            return HandleOutcome::NeedMore;
        }
        return HandleOutcome::Consumed {
            consumed: header_end + cl,
            reply: Reply::Score { body_start: header_end, body_end: header_end + cl },
        };
    }
    HandleOutcome::Consumed { consumed: header_end, reply: Reply::NotFound }
}

/// What the event-driven gateway does with the bytes buffered on a client
/// connection.
#[derive(PartialEq, Eq, Structural, Clone, Copy, Debug)]
pub enum GatewayStep {
    /// No complete request yet.
    NeedMore,
    /// A `POST` without a readable `Content-Length`: deny and close.
    BadLength,
    /// Score the body `buf[header_end..consumed]`, then drop `consumed` bytes.
    Score { header_end: usize, consumed: usize },
    /// Answer the health check, then drop the header block `buf[..header_end]`.
    Ready { header_end: usize },
    /// Answer 404 and close.
    NotFound,
}

/// The gateway's decision: a request is a `POST` when the buffer is at least
/// `post_min` bytes long and starts with `POST `, and a health check when it
/// is at least `get_min` bytes long and starts with `GET`.
pub open spec fn gateway_spec(buf: Seq<u8>, post_min: int, get_min: int) -> GatewayStep {
    match header_end_spec(buf) {
        None => GatewayStep::NeedMore,
        Some(he) => if buf.len() >= post_min && at(buf, 0, post_prefix()) {
            match content_length_fast_spec(buf.subrange(0, he)) {
                None => GatewayStep::BadLength,
                Some(cl) => if he + cl <= buf.len() {
                    GatewayStep::Score { header_end: he as usize, consumed: (he + cl) as usize }
                } else {
                    GatewayStep::NeedMore
                },
            }
        } else if buf.len() >= get_min && at(buf, 0, get_word()) {
            GatewayStep::Ready { header_end: he as usize }
        } else {
            GatewayStep::NotFound
        },
    }
}

/// Decides the next step for the bytes buffered on a gateway connection.
pub fn gateway_step(buf: &[u8], post_min: usize, get_min: usize) -> (r: GatewayStep)
    ensures
        r == gateway_spec(buf@, post_min as int, get_min as int),
        r matches GatewayStep::Score { header_end, consumed } ==> header_end <= consumed
            <= buf@.len(),
        r matches GatewayStep::Ready { header_end } ==> header_end <= buf@.len(),
{
    let header_end = match find_double_crlf(buf) {
        Some(p) => p,
        None => {
            return GatewayStep::NeedMore;
        },
    };
    proof {
        lemma_first_at(buf@, blank_line(), 0);
    }
    let post: [u8; 5] = [80, 79, 83, 84, 32];
    let get: [u8; 3] = [71, 69, 84];
    assert(post@ =~= post_prefix());
    assert(get@ =~= get_word());
    if buf.len() >= post_min && bytes_at(buf, 0, &post) {
        let headers = slice_range(buf, 0, header_end);
        let cl = match content_length_fast(headers) {
            Some(c) => c,
            None => {
                return GatewayStep::BadLength;
            },
        };
        if cl > buf.len() - header_end {
            return GatewayStep::NeedMore;
        }
        return GatewayStep::Score { header_end, consumed: header_end + cl };
    }
    if buf.len() >= get_min && bytes_at(buf, 0, &get) {
        return GatewayStep::Ready { header_end };
    }
    GatewayStep::NotFound
}

/// How a non-blocking send of a whole response went.
#[derive(PartialEq, Eq, Structural, Clone, Copy, Debug)]
pub enum SendResult {
    Complete,
    /// Nothing sent; the socket would block.
    WouldBlock,
    /// The connection failed.
    Failed,
    /// Only the first `sent` bytes went out.
    Partial { sent: usize },
}

/// Classifies the return value of a `send` of `len` bytes; `would_block`
/// tells whether a failure was `EAGAIN`/`EWOULDBLOCK`.
pub fn classify_send(sent: isize, len: usize, would_block: bool) -> (r: SendResult)
    ensures
        sent >= 0 && sent == len ==> r == SendResult::Complete,
        sent < 0 && would_block ==> r == SendResult::WouldBlock,
        sent < 0 && !would_block ==> r == SendResult::Failed,
        sent >= 0 && sent != len ==> r == (SendResult::Partial { sent: sent as usize }),
{
    if sent >= 0 && sent as usize == len {
        SendResult::Complete
    } else if sent < 0 {
        if would_block {
            SendResult::WouldBlock
        } else {
            SendResult::Failed
        }
    } else {
        SendResult::Partial { sent: sent as usize }
    }
}

/// Drops the first `consumed` of the `len` buffered bytes by moving the rest
/// to the front; returns how many remain.
pub fn consume_front(buf: &mut Vec<u8>, len: usize, consumed: usize) -> (rest: usize)
    requires
        consumed <= len <= old(buf)@.len(),
    ensures
        rest == len - consumed,
        final(buf)@.len() == old(buf)@.len(),
        final(buf)@.subrange(0, rest as int) == old(buf)@.subrange(consumed as int, len as int),
        final(buf)@.subrange(rest as int, final(buf)@.len() as int) == old(buf)@.subrange(
            rest as int,
            old(buf)@.len() as int,
        ),
{
    let rest = len - consumed;
    let mut i: usize = 0;
    while i < rest
        invariant
            rest == len - consumed,
            consumed <= len <= old(buf)@.len(),
            i <= rest,
            buf@.len() == old(buf)@.len(),
            forall|k: int| 0 <= k < i ==> buf@[k] == old(buf)@[consumed + k],
            forall|k: int| i <= k < buf@.len() ==> buf@[k] == old(buf)@[k],
        decreases rest - i,
    {
        let v = buf[consumed + i];
        buf.set(i, v);
        i = i + 1;
    }
    assert(buf@.subrange(0, rest as int) =~= old(buf)@.subrange(consumed as int, len as int));
    assert(buf@.subrange(rest as int, buf@.len() as int) =~= old(buf)@.subrange(
        rest as int,
        old(buf)@.len() as int,
    ));
    rest
}

/// The elements `s[a..b]`.
pub fn slice_range_usize(s: &[usize], a: usize, b: usize) -> (r: &[usize])
    requires
        a <= b <= s@.len(),
    ensures
        r@ == s@.subrange(a as int, b as int),
{
    vstd::slice::slice_subrange(s, a, b)
}

/// The first index at or after `from` where `pat` occurs.
pub fn find_at(s: &[u8], pat: &[u8], from: usize) -> (r: Option<usize>)
    requires
        from <= s@.len(),
    ensures
        r matches Some(i) ==> i == first_at(s@, pat@, from as int) && i < s@.len() && at(
            s@,
            i as int,
            pat@,
        ),
        r is None ==> first_at(s@, pat@, from as int) == s@.len(),
{
    let mut i = from;
    while i < s.len()
        invariant
            from <= i <= s@.len(),
            first_at(s@, pat@, from as int) == first_at(s@, pat@, i as int),
        decreases s@.len() - i,
    {
        if bytes_at(s, i, pat) {
            return Some(i);
        }
        i = i + 1;
    }
    None
}

/// Descriptors at or above this number are closed as soon as they arrive.
pub const MAX_FDS: i32 = 8192;

/// Reads tried on a newly received connection before waiting on epoll.
pub const SPIN_READ_ATTEMPTS: u32 = 32;

/// Connections taken from the load balancer per wakeup.
pub const ACCEPT_BATCH: u32 = 64;

/// What one read of a newly received connection gave.
#[derive(Debug, Clone, Copy, PartialEq, Eq)]
pub enum RecvOutcome {
    /// Some bytes arrived.
    Data,
    /// The peer closed the connection.
    Closed,
    /// Nothing yet (a negative return).
    WouldBlock,
}

/// What to do with a newly received connection after one read.
#[derive(Debug, Clone, Copy, PartialEq, Eq)]
pub enum AcceptAction {
    /// Its descriptor is past the connection table: close it.
    Close,
    /// Answer what arrived.
    Process,
    /// The peer is gone: drop the connection.
    Drop,
    /// Read again.
    Retry,
    /// Stop spinning and wait for epoll to report data.
    WaitEpoll,
}

pub open spec fn accept_spec(fd: i32, attempt: u32, outcome: RecvOutcome) -> AcceptAction {
    if fd >= MAX_FDS {
        AcceptAction::Close
    } else {
        match outcome {
            RecvOutcome::Data => AcceptAction::Process,
            RecvOutcome::Closed => AcceptAction::Drop,
            RecvOutcome::WouldBlock => if attempt + 1 < SPIN_READ_ATTEMPTS {
                AcceptAction::Retry
            } else {
                AcceptAction::WaitEpoll
            },
        }
    }
}

/// The descriptor fits the connection table.
pub fn fd_fits(fd: i32) -> (b: bool)
    ensures
        b == (fd < MAX_FDS),
{
    fd < MAX_FDS
}

/// The step taken after read number `attempt` (from 0) of a new connection.
pub fn accept_step(fd: i32, attempt: u32, outcome: RecvOutcome) -> (a: AcceptAction)
    ensures
        a == accept_spec(fd, attempt, outcome),
{
    if !fd_fits(fd) {
        return AcceptAction::Close;
    }
    match outcome {
        RecvOutcome::Data => AcceptAction::Process,
        RecvOutcome::Closed => AcceptAction::Drop,
        RecvOutcome::WouldBlock => {
            if attempt < SPIN_READ_ATTEMPTS - 1 {
                AcceptAction::Retry
            } else {
                AcceptAction::WaitEpoll
            }
        },
    }
}

/// Another connection may be taken in this wakeup after `taken` of them.
pub fn accept_more(taken: u32) -> (b: bool)
    ensures
        b == (taken < ACCEPT_BATCH),
{
    taken < ACCEPT_BATCH
}

} // verus!
