//! A fast extractor for the compact, key-ordered JSON the load generator
//! sends: it looks for each field's tag in order instead of scanning the
//! whole grammar; `None` means the body must go to the full extractor.

use crate::cache::TierCache;
use crate::http::{first_at, lemma_first_at, slice_range};
use crate::json::{array_close, empty_view, string_at, u32_at, PayloadView, RawPayload};
use crate::numbers::{digits_val, parse_milli_strict, parse_milli_strict_spec, parse_u32_bytes};
use crate::text::{at, bytes_at, digit_run_end, digits_end, lemma_digit_run, memchr_byte, memmem_find};
use vstd::prelude::*;

verus! {

/// `"transaction":{"amount":`
pub open spec fn tag_tx() -> Seq<u8> {
    seq![34u8, 116u8, 114u8, 97u8, 110u8, 115u8, 97u8, 99u8, 116u8, 105u8, 111u8, 110u8, 34u8, 58u8, 123u8, 34u8, 97u8, 109u8, 111u8, 117u8, 110u8, 116u8, 34u8, 58u8]
}

fn tag_tx_bytes() -> (t: [u8; 24])
    ensures
        t@ == tag_tx(),
{
    let t: [u8; 24] = [34, 116, 114, 97, 110, 115, 97, 99, 116, 105, 111, 110, 34, 58, 123, 34, 97, 109, 111, 117, 110, 116, 34, 58];
    assert(t@ =~= tag_tx());
    t
}

/// `"installments":`
pub open spec fn tag_inst() -> Seq<u8> {
    seq![34u8, 105u8, 110u8, 115u8, 116u8, 97u8, 108u8, 108u8, 109u8, 101u8, 110u8, 116u8, 115u8, 34u8, 58u8]
}

fn tag_inst_bytes() -> (t: [u8; 15])
    ensures
        t@ == tag_inst(),
{
    let t: [u8; 15] = [34, 105, 110, 115, 116, 97, 108, 108, 109, 101, 110, 116, 115, 34, 58];
    assert(t@ =~= tag_inst());
    t
}

/// `"requested_at":"`
pub open spec fn tag_req() -> Seq<u8> {
    seq![34u8, 114u8, 101u8, 113u8, 117u8, 101u8, 115u8, 116u8, 101u8, 100u8, 95u8, 97u8, 116u8, 34u8, 58u8, 34u8]
}

fn tag_req_bytes() -> (t: [u8; 16])
    ensures
        t@ == tag_req(),
{
    let t: [u8; 16] = [34, 114, 101, 113, 117, 101, 115, 116, 101, 100, 95, 97, 116, 34, 58, 34];
    assert(t@ =~= tag_req());
    t
}

/// `"customer":{"avg_amount":`
pub open spec fn tag_cust() -> Seq<u8> {
    seq![34u8, 99u8, 117u8, 115u8, 116u8, 111u8, 109u8, 101u8, 114u8, 34u8, 58u8, 123u8, 34u8, 97u8, 118u8, 103u8, 95u8, 97u8, 109u8, 111u8, 117u8, 110u8, 116u8, 34u8, 58u8]
}

fn tag_cust_bytes() -> (t: [u8; 25])
    ensures
        t@ == tag_cust(),
{
    let t: [u8; 25] = [34, 99, 117, 115, 116, 111, 109, 101, 114, 34, 58, 123, 34, 97, 118, 103, 95, 97, 109, 111, 117, 110, 116, 34, 58];
    assert(t@ =~= tag_cust());
    t
}

/// `"tx_count_24h":`
pub open spec fn tag_tx24() -> Seq<u8> {
    seq![34u8, 116u8, 120u8, 95u8, 99u8, 111u8, 117u8, 110u8, 116u8, 95u8, 50u8, 52u8, 104u8, 34u8, 58u8]
}

fn tag_tx24_bytes() -> (t: [u8; 15])
    ensures
        t@ == tag_tx24(),
{
    let t: [u8; 15] = [34, 116, 120, 95, 99, 111, 117, 110, 116, 95, 50, 52, 104, 34, 58];
    assert(t@ =~= tag_tx24());
    t
}

/// `"known_merchants":`
pub open spec fn tag_known() -> Seq<u8> {
    seq![34u8, 107u8, 110u8, 111u8, 119u8, 110u8, 95u8, 109u8, 101u8, 114u8, 99u8, 104u8, 97u8, 110u8, 116u8, 115u8, 34u8, 58u8]
}

fn tag_known_bytes() -> (t: [u8; 18])
    ensures
        t@ == tag_known(),
{
    let t: [u8; 18] = [34, 107, 110, 111, 119, 110, 95, 109, 101, 114, 99, 104, 97, 110, 116, 115, 34, 58];
    assert(t@ =~= tag_known());
    t
}

/// `"merchant":{"id":"`
pub open spec fn tag_merch() -> Seq<u8> {
    seq![34u8, 109u8, 101u8, 114u8, 99u8, 104u8, 97u8, 110u8, 116u8, 34u8, 58u8, 123u8, 34u8, 105u8, 100u8, 34u8, 58u8, 34u8]
}

fn tag_merch_bytes() -> (t: [u8; 18])
    ensures
        t@ == tag_merch(),
{
    let t: [u8; 18] = [34, 109, 101, 114, 99, 104, 97, 110, 116, 34, 58, 123, 34, 105, 100, 34, 58, 34];
    assert(t@ =~= tag_merch());
    t
}

/// `"mcc":"`
pub open spec fn tag_mcc() -> Seq<u8> {
    seq![34u8, 109u8, 99u8, 99u8, 34u8, 58u8, 34u8]
}

fn tag_mcc_bytes() -> (t: [u8; 7])
    ensures
        t@ == tag_mcc(),
{
    let t: [u8; 7] = [34, 109, 99, 99, 34, 58, 34];
    assert(t@ =~= tag_mcc());
    t
}

/// `"avg_amount":`
pub open spec fn tag_avg() -> Seq<u8> {
    seq![34u8, 97u8, 118u8, 103u8, 95u8, 97u8, 109u8, 111u8, 117u8, 110u8, 116u8, 34u8, 58u8]
}

fn tag_avg_bytes() -> (t: [u8; 13])
    ensures
        t@ == tag_avg(),
{
    let t: [u8; 13] = [34, 97, 118, 103, 95, 97, 109, 111, 117, 110, 116, 34, 58];
    assert(t@ =~= tag_avg());
    t
}

/// `"terminal":{"is_online":`
pub open spec fn tag_term() -> Seq<u8> {
    seq![34u8, 116u8, 101u8, 114u8, 109u8, 105u8, 110u8, 97u8, 108u8, 34u8, 58u8, 123u8, 34u8, 105u8, 115u8, 95u8, 111u8, 110u8, 108u8, 105u8, 110u8, 101u8, 34u8, 58u8]
}

fn tag_term_bytes() -> (t: [u8; 24])
    ensures
        t@ == tag_term(),
{
    let t: [u8; 24] = [34, 116, 101, 114, 109, 105, 110, 97, 108, 34, 58, 123, 34, 105, 115, 95, 111, 110, 108, 105, 110, 101, 34, 58];
    assert(t@ =~= tag_term());
    t
}

/// `"card_present":`
pub open spec fn tag_card() -> Seq<u8> {
    seq![34u8, 99u8, 97u8, 114u8, 100u8, 95u8, 112u8, 114u8, 101u8, 115u8, 101u8, 110u8, 116u8, 34u8, 58u8]
}

fn tag_card_bytes() -> (t: [u8; 15])
    ensures
        t@ == tag_card(),
{
    let t: [u8; 15] = [34, 99, 97, 114, 100, 95, 112, 114, 101, 115, 101, 110, 116, 34, 58];
    assert(t@ =~= tag_card());
    t
}

/// `"km_from_home":`
pub open spec fn tag_kmh() -> Seq<u8> {
    seq![34u8, 107u8, 109u8, 95u8, 102u8, 114u8, 111u8, 109u8, 95u8, 104u8, 111u8, 109u8, 101u8, 34u8, 58u8]
}

fn tag_kmh_bytes() -> (t: [u8; 15])
    ensures
        t@ == tag_kmh(),
{
    let t: [u8; 15] = [34, 107, 109, 95, 102, 114, 111, 109, 95, 104, 111, 109, 101, 34, 58];
    assert(t@ =~= tag_kmh());
    t
}

/// `"last_transaction":`
pub open spec fn tag_last() -> Seq<u8> {
    seq![34u8, 108u8, 97u8, 115u8, 116u8, 95u8, 116u8, 114u8, 97u8, 110u8, 115u8, 97u8, 99u8, 116u8, 105u8, 111u8, 110u8, 34u8, 58u8]
}

fn tag_last_bytes() -> (t: [u8; 19])
    ensures
        t@ == tag_last(),
{
    let t: [u8; 19] = [34, 108, 97, 115, 116, 95, 116, 114, 97, 110, 115, 97, 99, 116, 105, 111, 110, 34, 58];
    assert(t@ =~= tag_last());
    t
}

/// `"timestamp":"`
pub open spec fn tag_ts() -> Seq<u8> {
    seq![34u8, 116u8, 105u8, 109u8, 101u8, 115u8, 116u8, 97u8, 109u8, 112u8, 34u8, 58u8, 34u8]
}

fn tag_ts_bytes() -> (t: [u8; 13])
    ensures
        t@ == tag_ts(),
{
    let t: [u8; 13] = [34, 116, 105, 109, 101, 115, 116, 97, 109, 112, 34, 58, 34];
    assert(t@ =~= tag_ts());
    t
}

/// `"km_from_current":`
pub open spec fn tag_kmc() -> Seq<u8> {
    seq![34u8, 107u8, 109u8, 95u8, 102u8, 114u8, 111u8, 109u8, 95u8, 99u8, 117u8, 114u8, 114u8, 101u8, 110u8, 116u8, 34u8, 58u8]
}

fn tag_kmc_bytes() -> (t: [u8; 18])
    ensures
        t@ == tag_kmc(),
{
    let t: [u8; 18] = [34, 107, 109, 95, 102, 114, 111, 109, 95, 99, 117, 114, 114, 101, 110, 116, 34, 58];
    assert(t@ =~= tag_kmc());
    t
}

/// The body is long, starts with `{`, holds the transaction-amount tag, and
/// has no line break in its first 256 bytes.
pub open spec fn looks_compact_spec(s: Seq<u8>) -> bool {
    let head = if s.len() < 256 {
        s.len() as int
    } else {
        256
    };
    &&& s.len() >= 80
    &&& s[0] == 123
    &&& first_at(s, tag_tx(), 0) < s.len()
    &&& forall|j: int| 0 <= j < head ==> s[j] != 10
}

/// Whether the body has the compact layout this extractor reads.
pub fn looks_compact_rinha(body: &[u8]) -> (r: bool)
    ensures
        r == looks_compact_spec(body@),
{
    if body.len() < 80 || body[0] != 123 {
        return false;
    }
    let tag = tag_tx_bytes();
    match needle(body, &tag, 0) {
        Some(_) => {},
        None => {
            return false;
        },
    }
    let head = if body.len() < 256 {
        body.len()
    } else {
        256
    };
    let prefix = slice_range(body, 0, head);
    match memchr_byte(10, prefix) {
        Some(j) => {
            assert(body@[j as int] == 10);
            false
        },
        None => {
            assert forall|j: int| 0 <= j < head implies body@[j] != 10 by {
                assert(prefix@[j] == body@[j]);
            }
            true
        },
    }
}

proof fn lemma_first_at_suffix(s: Seq<u8>, tag: Seq<u8>, from: int, x: int)
    requires
        0 <= from <= x <= s.len(),
        forall|j: int| from <= j < x ==> !at(s, j, tag),
    ensures
        first_at(s, tag, from) == first_at(s, tag, x),
    decreases x - from,
{
    if from < x {
        lemma_first_at_suffix(s, tag, from + 1, x);
    }
}

/// Just past the first occurrence of `tag` at or after `from`.
pub open spec fn needle_spec(s: Seq<u8>, tag: Seq<u8>, from: int) -> Option<int> {
    if 0 <= from <= s.len() && first_at(s, tag, from) < s.len() {
        Some(first_at(s, tag, from) + tag.len())
    } else {
        None
    }
}

/// The offset just past the first `tag` at or after `from`.
pub fn needle(body: &[u8], tag: &[u8], from: usize) -> (r: Option<usize>)
    requires
        tag@.len() > 0,
    ensures
        r matches Some(e) ==> needle_spec(body@, tag@, from as int) == Some(e as int) && e
            <= body@.len(),
        r is None ==> needle_spec(body@, tag@, from as int) is None,
{
    if from > body.len() {
        return None;
    }
    let sub = slice_range(body, from, body.len());
    match memmem_find(sub, tag) {
        Some(i) => {
            proof {
                assert forall|j: int| from <= j < from + i implies !at(body@, j, tag@) by {
                    assert(!at(sub@, j - from, tag@));
                    if at(body@, j, tag@) {
                        assert(sub@.subrange(j - from, j - from + tag@.len()) =~= body@.subrange(
                            j,
                            j + tag@.len(),
                        ));
                    }
                }
                lemma_first_at_suffix(body@, tag@, from as int, from + i);
                assert(body@.subrange(from + i, from + i + tag@.len()) =~= sub@.subrange(
                    i as int,
                    i + tag@.len(),
                ));
                assert(at(body@, from + i, tag@));
            }
            Some(from + i + tag.len())
        },
        None => {
            proof {
                assert forall|j: int| from <= j < body@.len() implies !at(body@, j, tag@) by {
                    assert(!at(sub@, j - from, tag@));
                    if at(body@, j, tag@) {
                        assert(sub@.subrange(j - from, j - from + tag@.len()) =~= body@.subrange(
                            j,
                            j + tag@.len(),
                        ));
                    }
                }
                lemma_first_at_suffix(body@, tag@, from as int, body@.len() as int);
            }
            None
        },
    }
}

/// A byte of a number in the compact layout: sign, point or digit.
pub open spec fn lin_num_byte(c: u8) -> bool {
    c == 45 || c == 43 || c == 46 || (48 <= c && c <= 57)
}

pub open spec fn lin_num_end(s: Seq<u8>, j: int) -> int
    decreases s.len() - j,
{
    if j >= s.len() {
        j
    } else if lin_num_byte(s[j]) {
        lin_num_end(s, j + 1)
    } else {
        j
    }
}

/// A number at `i` in thousandths, and where it ends.
pub open spec fn f32_at(s: Seq<u8>, i: int) -> Option<(u32, int)> {
    let e = lin_num_end(s, i);
    match parse_milli_strict_spec(s.subrange(i, e)) {
        Some(x) => Some((x, e)),
        None => None,
    }
}

/// Reads a number at `i` as thousandths.
pub fn parse_f32(body: &[u8], i: usize) -> (r: Option<(u32, usize)>)
    requires
        i <= body@.len(),
    ensures
        r matches Some((x, e)) ==> f32_at(body@, i as int) == Some((x, e as int)) && e <= body@.len(),
        r is None ==> f32_at(body@, i as int) is None,
{
    let mut j = i;
    while j < body.len() && (body[j] == 45 || body[j] == 43 || body[j] == 46 || (48 <= body[j]
        && body[j] <= 57))
        invariant
            i <= j <= body@.len(),
            lin_num_end(body@, i as int) == lin_num_end(body@, j as int),
        decreases body@.len() - j,
    {
        j = j + 1;
    }
    match parse_milli_strict(slice_range(body, i, j)) {
        Some(v) => Some((v, j)),
        None => None,
    }
}

/// Reads a run of digits at `i` as a number modulo 2^32.
pub fn parse_u32(body: &[u8], i: usize) -> (r: Option<(u32, usize)>)
    requires
        i <= body@.len(),
    ensures
        r matches Some((x, e)) ==> u32_at(body@, i as int) == Some((e as int, x)) && e <= body@.len(),
        r is None ==> u32_at(body@, i as int) is None,
{
    let j = digits_end(body, i);
    proof {
        lemma_digit_run(body@, i as int);
    }
    match parse_u32_bytes(slice_range(body, i, j)) {
        Some(v) => Some((v, j)),
        None => None,
    }
}

/// `true` or `false` at `i`, and where it ends.
pub fn parse_bool(body: &[u8], i: usize) -> (r: Option<(bool, usize)>)
    requires
        i <= body@.len(),
    ensures
        r matches Some((b, e)) ==> crate::json::bool_at(body@, i as int) == Some((e as int, b)) && e
            <= body@.len(),
        r is None ==> crate::json::bool_at(body@, i as int) is None,
{
    let _n = body.len();
    let t: [u8; 4] = [116, 114, 117, 101];
    let f: [u8; 5] = [102, 97, 108, 115, 101];
    assert(t@ =~= crate::json::true_word());
    assert(f@ =~= crate::json::false_word());
    if bytes_at(body, i, &t) {
        Some((true, i + 4))
    } else if bytes_at(body, i, &f) {
        Some((false, i + 5))
    } else {
        None
    }
}

/// A quoted string at `i`: its raw contents and the offset after it.
pub fn parse_quoted(body: &[u8], i: usize) -> (r: Option<(&[u8], usize)>)
    ensures
        r matches Some((v, e)) ==> string_at(body@, i as int) == Some((e as int, v@)) && e
            <= body@.len(),
        r is None ==> string_at(body@, i as int) is None,
{
    if i >= body.len() || body[i] != 34 {
        return None;
    }
    let start = i + 1;
    let n = body.len();
    let mut j = start;
    while j < n
        invariant
            start == i + 1,
            i < n == body@.len(),
            body@[i as int] == 34,
            start <= j <= n,
            crate::json::str_close(body@, start as int) == crate::json::str_close(body@, j as int),
        decreases n - j,
    {
        if body[j] == 34 {
            assert(crate::json::str_close(body@, j as int) == j as int);
            return Some((slice_range(body, start, j), j + 1));
        } else if body[j] == 92 && j + 1 < n {
            j = j + 2;
        } else {
            j = j + 1;
        }
    }
    None
}

/// ASCII whitespace as `u8::is_ascii_whitespace` sees it.
pub open spec fn ascii_ws(c: u8) -> bool {
    c == 32 || c == 9 || c == 10 || c == 12 || c == 13
}

pub open spec fn skip_ascii_ws(s: Seq<u8>, i: int) -> int
    decreases s.len() - i,
{
    if i >= s.len() {
        i
    } else if ascii_ws(s[i]) {
        skip_ascii_ws(s, i + 1)
    } else {
        i
    }
}

/// The inside of the `known_merchants` array at `i`, and the offset after it.
pub open spec fn known_at(s: Seq<u8>, i: int) -> Option<(Seq<u8>, int)> {
    let j = skip_ascii_ws(s, i);
    let c = array_close(s, j + 1, 1, false);
    if 0 <= j < s.len() && s[j] == 91 && c >= 0 {
        Some((s.subrange(j + 1, c), c + 1))
    } else {
        None
    }
}

/// Reads the `known_merchants` array at `i`, brackets excluded.
pub fn parse_known_merchants_inner(body: &[u8], i: usize) -> (r: Option<(&[u8], usize)>)
    requires
        i <= body@.len(),
    ensures
        r matches Some((v, e)) ==> known_at(body@, i as int) == Some((v@, e as int)) && e
            <= body@.len(),
        r is None ==> known_at(body@, i as int) is None,
{
    let n = body.len();
    let mut j = i;
    while j < n && (body[j] == 32 || body[j] == 9 || body[j] == 10 || body[j] == 12 || body[j] == 13)
        invariant
            i <= j <= n == body@.len(),
            skip_ascii_ws(body@, i as int) == skip_ascii_ws(body@, j as int),
        decreases n - j,
    {
        j = j + 1;
    }
    if j >= n || body[j] != 91 {
        return None;
    }
    let inner_start = j + 1;
    let mut k = inner_start;
    let mut depth: usize = 1;
    let mut in_str = false;
    while k < n
        invariant
            inner_start == j + 1,
            j < n == body@.len(),
            j == skip_ascii_ws(body@, i as int),
            body@[j as int] == 91,
            inner_start <= k <= n,
            1 <= depth <= k - inner_start + 1,
            array_close(body@, inner_start as int, 1, false) == array_close(
                body@,
                k as int,
                depth as int,
                in_str,
            ),
        decreases n - k,
    {
        let c = body[k];
        if in_str {
            if c == 92 {
                if n - k < 2 {
                    return None;
                }
                k = k + 2;
            } else {
                if c == 34 {
                    in_str = false;
                }
                k = k + 1;
            }
        } else if c == 34 {
            in_str = true;
            k = k + 1;
        } else if c == 91 {
            depth = depth + 1;
            k = k + 1;
        } else if c == 93 {
            depth = depth - 1;
            if depth == 0 {
                assert(array_close(body@, k as int, 1, false) == k as int);
                return Some((slice_range(body, inner_start, k), k + 1));
            }
            k = k + 1;
        } else {
            k = k + 1;
        }
    }
    None
}

/// Amount, installments and request time, and where they end.
pub open spec fn part_a(s: Seq<u8>) -> Option<(u32, u32, Seq<u8>, int)> {
    match needle_spec(s, tag_tx(), 0) {
        None => None,
        Some(i1) => match f32_at(s, i1) {
            None => None,
            Some((amount, i2)) => match needle_spec(s, tag_inst(), i2) {
                None => None,
                Some(i3) => match u32_at(s, i3) {
                    None => None,
                    Some((i4, inst)) => match needle_spec(s, tag_req(), i4) {
                        None => None,
                        Some(i5) => match string_at(s, i5) {
                            None => None,
                            Some((i6, req)) => Some((amount, inst, req, i6)),
                        },
                    },
                },
            },
        },
    }
}

/// Customer average, 24-hour count and known merchants after `i`.
pub open spec fn part_b(s: Seq<u8>, i: int) -> Option<(u32, u32, Seq<u8>, int)> {
    match needle_spec(s, tag_cust(), i) {
        None => None,
        Some(i7) => match f32_at(s, i7) {
            None => None,
            Some((cavg, i8)) => match needle_spec(s, tag_tx24(), i8) {
                None => None,
                Some(i9) => match u32_at(s, i9) {
                    None => None,
                    Some((i10, tx24)) => match needle_spec(s, tag_known(), i10) {
                        None => None,
                        Some(i11) => match known_at(s, i11) {
                            None => None,
                            Some((known, i12)) => Some((cavg, tx24, known, i12)),
                        },
                    },
                },
            },
        },
    }
}

/// Merchant id, MCC and merchant average after `i`.
pub open spec fn part_c(s: Seq<u8>, i: int) -> Option<(Seq<u8>, Seq<u8>, u32, int)> {
    match needle_spec(s, tag_merch(), i) {
        None => None,
        Some(i13) => match string_at(s, i13) {
            None => None,
            Some((i14, mid)) => match needle_spec(s, tag_mcc(), i14) {
                None => None,
                Some(i15) => match string_at(s, i15) {
                    None => None,
                    Some((i16, mcc)) => match needle_spec(s, tag_avg(), i16) {
                        None => None,
                        Some(i17) => match f32_at(s, i17) {
                            None => None,
                            Some((mavg, i18)) => Some((mid, mcc, mavg, i18)),
                        },
                    },
                },
            },
        },
    }
}

/// Online, card present and distance from home after `i`.
pub open spec fn part_d(s: Seq<u8>, i: int) -> Option<(bool, bool, u32)> {
    match needle_spec(s, tag_term(), i) {
        None => None,
        Some(i19) => match crate::json::bool_at(s, i19) {
            None => None,
            Some((i20, online)) => match needle_spec(s, tag_card(), i20) {
                None => None,
                Some(i21) => match crate::json::bool_at(s, i21) {
                    None => None,
                    Some((i22, card)) => match needle_spec(s, tag_kmh(), i22) {
                        None => None,
                        Some(i23) => match f32_at(s, i23) {
                            None => None,
                            Some((kmh, _)) => Some((online, card, kmh)),
                        },
                    },
                },
            },
        },
    }
}

/// The fields of a compact body, read tag by tag in the layout's order.
pub open spec fn linear_spec(s: Seq<u8>) -> Option<PayloadView> {
    if !looks_compact_spec(s) {
        None
    } else {
        match part_a(s) {
            None => None,
            Some((amount, inst, req, ia)) => match part_b(s, ia) {
                None => None,
                Some((cavg, tx24, known, ib)) => match part_c(s, ib) {
                    None => None,
                    Some((mid, mcc, mavg, ic)) => match part_d(s, ic) {
                        None => None,
                        Some((online, card, kmh)) => last_part(
                            s,
                            PayloadView {
                                amount_milli: amount,
                                installments: inst,
                                requested_at: req,
                                customer_avg_amount_milli: cavg,
                                tx_count_24h: tx24,
                                known_merchants: known,
                                merchant_id: mid,
                                merchant_mcc: mcc,
                                merchant_avg_amount_milli: mavg,
                                is_online: online,
                                card_present: card,
                                km_from_home_milli: kmh,
                                ..empty_view()
                            },
                        ),
                    },
                },
            },
        }
    }
}

/// The previous-transaction part of `linear_spec`.
pub open spec fn last_part(s: Seq<u8>, v: PayloadView) -> Option<PayloadView> {
    let lo = first_at(s, tag_last(), 0);
    if lo >= s.len() {
        None
    } else {
        let t0 = lo + 19;
        if at(s, t0, crate::json::null_word()) {
            Some(v)
        } else if first_at(s, tag_ts(), t0) < s.len() {
            let ts_start = first_at(s, tag_ts(), t0) + 13;
            match string_at(s, ts_start) {
                None => None,
                Some((j, ts)) => {
                    let v2 = PayloadView { last_timestamp: Some(ts), ..v };
                    if first_at(s, tag_kmc(), j) < s.len() {
                        match f32_at(s, first_at(s, tag_kmc(), j) + 18) {
                            None => None,
                            Some((km, _)) => Some(PayloadView { last_km_milli: Some(km), ..v2 }),
                        }
                    } else {
                        Some(v2)
                    }
                },
            }
        } else {
            None
        }
    }
}

fn read_part_a(body: &[u8]) -> (r: Option<(u32, u32, &[u8], usize)>)
    ensures
        r matches Some((x, y, z, e)) ==> part_a(body@) == Some((x, y, z@, e as int)) && e <= body@.len(),
        r is None ==> part_a(body@) is None,
{
    let i = match needle(body, &tag_tx_bytes(), 0) { Some(x) => x, None => { return None; } };
    let (amount, i) = match parse_f32(body, i) { Some(x) => x, None => { return None; } };
    let i = match needle(body, &tag_inst_bytes(), i) { Some(x) => x, None => { return None; } };
    let (inst, i) = match parse_u32(body, i) { Some(x) => x, None => { return None; } };
    let i = match needle(body, &tag_req_bytes(), i) { Some(x) => x, None => { return None; } };
    let (req, i) = match parse_quoted(body, i) { Some(x) => x, None => { return None; } };
    Some((amount, inst, req, i))
}

fn read_part_b(body: &[u8], i: usize) -> (r: Option<(u32, u32, &[u8], usize)>)
    requires
        i <= body@.len(),
    ensures
        r matches Some((x, y, z, e)) ==> part_b(body@, i as int) == Some((x, y, z@, e as int)) && e
            <= body@.len(),
        r is None ==> part_b(body@, i as int) is None,
{
    let i = match needle(body, &tag_cust_bytes(), i) { Some(x) => x, None => { return None; } };
    let (cavg, i) = match parse_f32(body, i) { Some(x) => x, None => { return None; } };
    let i = match needle(body, &tag_tx24_bytes(), i) { Some(x) => x, None => { return None; } };
    let (tx24, i) = match parse_u32(body, i) { Some(x) => x, None => { return None; } };
    let i = match needle(body, &tag_known_bytes(), i) { Some(x) => x, None => { return None; } };
    let (known, i) = match parse_known_merchants_inner(body, i) { Some(x) => x, None => { return None; } };
    Some((cavg, tx24, known, i))
}

fn read_part_c(body: &[u8], i: usize) -> (r: Option<(&[u8], &[u8], u32, usize)>)
    requires
        i <= body@.len(),
    ensures
        r matches Some((x, y, z, e)) ==> part_c(body@, i as int) == Some((x@, y@, z, e as int)) && e
            <= body@.len(),
        r is None ==> part_c(body@, i as int) is None,
{
    let i = match needle(body, &tag_merch_bytes(), i) { Some(x) => x, None => { return None; } };
    let (mid, i) = match parse_quoted(body, i) { Some(x) => x, None => { return None; } };
    let i = match needle(body, &tag_mcc_bytes(), i) { Some(x) => x, None => { return None; } };
    let (mcc, i) = match parse_quoted(body, i) { Some(x) => x, None => { return None; } };
    let i = match needle(body, &tag_avg_bytes(), i) { Some(x) => x, None => { return None; } };
    let (mavg, i) = match parse_f32(body, i) { Some(x) => x, None => { return None; } };
    Some((mid, mcc, mavg, i))
}

fn read_part_d(body: &[u8], i: usize) -> (r: Option<(bool, bool, u32)>)
    requires
        i <= body@.len(),
    ensures
        r == part_d(body@, i as int),
{
    let i = match needle(body, &tag_term_bytes(), i) { Some(x) => x, None => { return None; } };
    let (online, i) = match parse_bool(body, i) { Some(x) => x, None => { return None; } };
    let i = match needle(body, &tag_card_bytes(), i) { Some(x) => x, None => { return None; } };
    let (card, i) = match parse_bool(body, i) { Some(x) => x, None => { return None; } };
    let i = match needle(body, &tag_kmh_bytes(), i) { Some(x) => x, None => { return None; } };
    let (kmh, _i) = match parse_f32(body, i) { Some(x) => x, None => { return None; } };
    Some((online, card, kmh))
}

/// Reads the previous-transaction part into the payload.
fn read_last<'a>(body: &'a [u8], p: &mut RawPayload<'a>) -> (r: Option<()>)
    ensures
        r is Some <==> last_part(body@, old(p)@) is Some,
        r is Some ==> last_part(body@, old(p)@) == Some(final(p)@),
        final(p).cache == old(p).cache,
{
    let t0 = match needle(body, &tag_last_bytes(), 0) {
        Some(e) => e,
        None => {
            return None;
        },
    };
    let null: [u8; 4] = [110, 117, 108, 108];
    assert(null@ =~= crate::json::null_word());
    if bytes_at(body, t0, &null) {
        return Some(());
    }
    match needle(body, &tag_ts_bytes(), t0) {
        Some(ts_start) => {
            let (ts, j) = match parse_quoted(body, ts_start) {
                Some(x) => x,
                None => {
                    return None;
                },
            };
            proof {
                crate::json::lemma_string_at_le(body@, ts_start as int);
            }
            p.last_timestamp = Some(ts);
            match needle(body, &tag_kmc_bytes(), j) {
                Some(k) => {
                    let (km, _e) = match parse_f32(body, k) {
                        Some(x) => x,
                        None => {
                            return None;
                        },
                    };
                    p.last_km_milli = Some(km);
                    Some(())
                },
                None => Some(()),
            }
        },
        None => None,
    }
}

/// Extracts the fields of a compact body tag by tag; `None` when the body
/// does not have the compact layout or a field is not where the layout puts
/// it. The cached values are left at their defaults.
pub fn extract_linear(body: &[u8]) -> (r: Option<RawPayload<'_>>)
    ensures
        r is Some <==> linear_spec(body@) is Some,
        r matches Some(p) ==> linear_spec(body@) == Some(p@) && p.cache == TierCache::default_spec(),
{
    if !looks_compact_rinha(body) {
        return None;
    }
    let (amount, inst, req, ia) = match read_part_a(body) { Some(x) => x, None => { return None; } };
    let (cavg, tx24, known, ib) = match read_part_b(body, ia) { Some(x) => x, None => { return None; } };
    let (mid, mcc, mavg, ic) = match read_part_c(body, ib) { Some(x) => x, None => { return None; } };
    let (online, card, kmh) = match read_part_d(body, ic) { Some(x) => x, None => { return None; } };
    let mut p = RawPayload::empty();
    proof {
        assert(p.requested_at@ =~= Seq::<u8>::empty());
        assert(p.known_merchants@ =~= Seq::<u8>::empty());
        assert(p.merchant_id@ =~= Seq::<u8>::empty());
        assert(p.merchant_mcc@ =~= Seq::<u8>::empty());
    }
    p.amount_milli = amount;
    p.installments = inst;
    p.requested_at = req;
    p.customer_avg_amount_milli = cavg;
    p.tx_count_24h = tx24;
    p.known_merchants = known;
    p.merchant_id = mid;
    p.merchant_mcc = mcc;
    p.merchant_avg_amount_milli = mavg;
    p.is_online = online;
    p.card_present = card;
    p.km_from_home_milli = kmh;
    match read_last(body, &mut p) {
        Some(_) => Some(p),
        None => None,
    }
}

} // verus!
