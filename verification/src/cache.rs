//! Values derived once per request from the payload: the MCC as a number,
//! whether the merchant is known to the customer, the parsed timestamps and
//! the amount-ratio verdict.

use crate::json::{PayloadView, RawPayload};
use crate::numbers::is_digit;
use crate::text::{at, memmem_find};
use vstd::prelude::*;

verus! {

/// Derived values of a payload.
#[derive(Clone, Copy, Debug, PartialEq, Eq, Structural)]
pub struct TierCache {
    /// The four MCC bytes read big-endian; `u32::MAX` when the MCC is not
    /// four bytes long.
    pub mcc_u32: u32,
    pub merchant_known: bool,
    pub requested_valid: bool,
    pub req_hour: u8,
    /// Monday is 0.
    pub req_weekday: u8,
    /// Seconds since 1970-01-01T00:00:00.
    pub req_epoch: i64,
    pub last_present: bool,
    pub last_epoch_ok: bool,
    pub last_epoch: i64,
    /// Verdict of the amount-ratio rule: 0 or 5.
    pub ratio_count: u8,
    /// The request cannot use timestamps: the request time is invalid, or a
    /// previous transaction is given with an invalid time.
    pub gray_ratio_only: bool,
}

impl TierCache {
    pub open spec fn default_spec() -> TierCache {
        TierCache {
            mcc_u32: u32::MAX,
            merchant_known: false,
            requested_valid: false,
            req_hour: 0,
            req_weekday: 0,
            req_epoch: 0,
            last_present: false,
            last_epoch_ok: false,
            last_epoch: 0,
            ratio_count: 0,
            gray_ratio_only: false,
        }
    }

    /// Nothing derived yet.
    pub fn new_default() -> (c: TierCache)
        ensures
            c == TierCache::default_spec(),
    {
        TierCache {
            mcc_u32: u32::MAX,
            merchant_known: false,
            requested_valid: false,
            req_hour: 0,
            req_weekday: 0,
            req_epoch: 0,
            last_present: false,
            last_epoch_ok: false,
            last_epoch: 0,
            ratio_count: 0,
            gray_ratio_only: false,
        }
    }
}

impl Default for TierCache {
    fn default() -> (c: TierCache)
        ensures
            c == TierCache::default_spec(),
    {
        TierCache::new_default()
    }
}

/// The MCC read as a big-endian number, or `u32::MAX` unless it is exactly
/// four bytes.
pub open spec fn mcc4_spec(mcc: Seq<u8>) -> u32 {
    if mcc.len() != 4 {
        u32::MAX
    } else {
        (mcc[0] as int * 0x100_0000 + mcc[1] as int * 0x1_0000 + mcc[2] as int * 0x100
            + mcc[3] as int) as u32
    }
}

/// Packs a four-byte MCC into one number (`"5411"` becomes `0x3534_3131`).
pub fn mcc4_u32(mcc: &[u8]) -> (r: u32)
    ensures
        r == mcc4_spec(mcc@),
{
    if mcc.len() != 4 {
        return u32::MAX;
    }
    (mcc[0] as u32) * 0x100_0000 + (mcc[1] as u32) * 0x1_0000 + (mcc[2] as u32) * 0x100
        + mcc[3] as u32
}

/// `"needle"` with its quotes.
pub open spec fn quoted(needle: Seq<u8>) -> Seq<u8> {
    seq![34u8] + needle + seq![34u8]
}

/// The needle occurs in the haystack between two quotes.
pub open spec fn contains_quoted_spec(haystack: Seq<u8>, needle: Seq<u8>) -> bool {
    needle.len() > 0 && haystack.len() >= needle.len() + 2 && exists|i: int|
        #[trigger] at(haystack, i, quoted(needle))
}

/// Whether `"needle"` occurs in the haystack.
pub fn contains_quoted(haystack: &[u8], needle: &[u8]) -> (r: bool)
    ensures
        r == contains_quoted_spec(haystack@, needle@),
{
    if needle.len() == 0 || haystack.len() < 2 || haystack.len() - 2 < needle.len() {
        return false;
    }
    let mut pat: Vec<u8> = Vec::new();
    pat.push(34);
    let mut k: usize = 0;
    while k < needle.len()
        invariant
            k <= needle@.len(),
            pat@ == seq![34u8] + needle@.subrange(0, k as int),
        decreases needle@.len() - k,
    {
        pat.push(needle[k]);
        k = k + 1;
        assert(pat@ =~= seq![34u8] + needle@.subrange(0, k as int));
    }
    pat.push(34);
    assert(pat@ =~= quoted(needle@));
    if needle.len() + 2 <= 34 {
        match memmem_find(haystack, pat.as_slice()) {
            Some(found) => {
                assert(at(haystack@, found as int, quoted(needle@)));
                return found + pat.len() <= haystack.len();
            },
            None => {
                return false;
            },
        }
    }
    let mut i: usize = 0;
    while i < haystack.len()
        invariant
            pat@ == quoted(needle@),
            needle@.len() > 0,
            haystack@.len() >= needle@.len() + 2,
            i <= haystack@.len(),
            forall|j: int| 0 <= j < i ==> !at(haystack@, j, quoted(needle@)),
        decreases haystack@.len() - i,
    {
        if crate::text::bytes_at(haystack, i, pat.as_slice()) {
            assert(at(haystack@, i as int, quoted(needle@)));
            return true;
        }
        i = i + 1;
    }
    proof {
        assert forall|j: int| !#[trigger] at(haystack@, j, quoted(needle@)) by {
            if j >= haystack@.len() {
                assert(!at(haystack@, j, quoted(needle@)));
            }
        }
    }
    false
}

/// The merchant appears, quoted, in the customer's known merchants.
pub fn merchant_known(p: &RawPayload) -> (r: bool)
    ensures
        r == contains_quoted_spec(p.known_merchants@, p.merchant_id@),
{
    contains_quoted(p.known_merchants, p.merchant_id)
}

/// Two ASCII digits as a number.
pub open spec fn digit2_spec(a: u8, b: u8) -> Option<u32> {
    if is_digit(a) && is_digit(b) {
        Some(((a - 48) * 10 + (b - 48)) as u32)
    } else {
        None
    }
}

pub fn digit2(a: u8, b: u8) -> (r: Option<u32>)
    ensures
        r == digit2_spec(a, b),
{
    if 48 <= a && a <= 57 && 48 <= b && b <= 57 {
        Some((a - 48) as u32 * 10 + (b - 48) as u32)
    } else {
        None
    }
}

/// Four ASCII digits as a number.
pub open spec fn digit4_spec(a: u8, b: u8, c: u8, d: u8) -> Option<u32> {
    match (digit2_spec(a, b), digit2_spec(c, d)) {
        (Some(x), Some(y)) => Some((x * 100 + y) as u32),
        _ => None,
    }
}

pub fn digit4(a: u8, b: u8, c: u8, d: u8) -> (r: Option<u32>)
    ensures
        r == digit4_spec(a, b, c, d),
{
    let hi = match digit2(a, b) {
        Some(x) => x,
        None => {
            return None;
        },
    };
    let lo = match digit2(c, d) {
        Some(y) => y,
        None => {
            return None;
        },
    };
    Some(hi * 100 + lo)
}

/// Days from 1970-01-01 to the given date of the proleptic Gregorian
/// calendar (month 1 is January), counting March-based years in 400-year eras.
pub open spec fn days_spec(y: int, m: int, d: int) -> int {
    let year = if m <= 2 {
        y - 1
    } else {
        y
    };
    let era = year / 400;
    let yoe = year - era * 400;
    let mp = if m > 2 {
        m - 3
    } else {
        m + 9
    };
    let doy = (153 * mp + 2) / 5 + d - 1;
    let doe = yoe * 365 + yoe / 4 - yoe / 100 + doy;
    era * 146097 + doe - 719468
}

/// A Gregorian leap year.
pub open spec fn is_leap(y: int) -> bool {
    y % 4 == 0 && (y % 100 != 0 || y % 400 == 0)
}

/// Days of month `m` (1 to 12) of year `y`.
pub open spec fn month_days(y: int, m: int) -> int {
    if m == 2 {
        if is_leap(y) {
            29
        } else {
            28
        }
    } else if m == 4 || m == 6 || m == 9 || m == 11 {
        30
    } else {
        31
    }
}

/// Days from the start of the 400-year cycle of year 0 to 1 March of year
/// `x`, shifted by the cycles before it.
spec fn march_days(x: int) -> int {
    146097 * (x / 400) + 365 * (x % 400) + (x % 400) / 4 - (x % 400) / 100
}

/// A year counted from 1 March is 366 days long exactly when the following
/// February has a 29th.
proof fn lemma_march_year(y: int)
    ensures
        march_days(y) - march_days(y - 1) == if is_leap(y) {
            366int
        } else {
            365int
        },
{
    let e = y / 400;
    let r = y % 400;
    assert(y == 400 * e + r && 0 <= r < 400);
    assert(y % 4 == r % 4 && y % 100 == r % 100) by {
        assert(y == 4 * (100 * e) + r);
        assert(y == 100 * (4 * e) + r);
    }
    if r > 0 {
        assert((y - 1) / 400 == e && (y - 1) % 400 == r - 1);
    } else {
        assert((y - 1) / 400 == e - 1 && (y - 1) % 400 == 399);
    }
}

/// Day counts follow the calendar: 1970-01-01 is day 0, and every date is
/// one day after the one before it, within a month, across a month's end
/// (29 February only in leap years) and across a year's end.
pub proof fn lemma_days_calendar(y: int, m: int, d: int)
    ensures
        days_spec(1970, 1, 1) == 0,
        1 <= m <= 12 && 1 <= d < month_days(y, m) ==> days_spec(y, m, d + 1) == days_spec(y, m, d) + 1,
        1 <= m <= 11 ==> days_spec(y, m + 1, 1) == days_spec(y, m, month_days(y, m)) + 1,
        days_spec(y + 1, 1, 1) == days_spec(y, 12, 31) + 1,
{
    assert(days_spec(1970, 1, 1) == 0);
    if m == 2 {
        lemma_march_year(y);
        assert(days_spec(y, 3, 1) == march_days(y) - 719468);
        assert(days_spec(y, 2, month_days(y, 2)) == march_days(y - 1) + 336 + month_days(y, 2) - 719468);
    }
}

/// Days since 1970-01-01 of a date.
pub fn days_from_civil(y: i64, m: i64, d: i64) -> (r: i64)
    requires
        0 <= y <= 9999,
        0 <= m <= 99,
        0 <= d <= 99,
    ensures
        r == days_spec(y as int, m as int, d as int),
{
    let year = if m <= 2 {
        y - 1
    } else {
        y
    };
    let era: i64 = if year >= 0 {
        year / 400
    } else {
        -1
    };
    assert(era == year / 400);
    let yoe = year - era * 400;
    let month_adj = if m > 2 {
        m - 3
    } else {
        m + 9
    };
    let doy = (153 * month_adj + 2) / 5 + d - 1;
    let doe = yoe * 365 + yoe / 4 - yoe / 100 + doy;
    era * 146097 + doe - 719468
}

/// Day of the week of a day count from 1970-01-01, Monday being 0.
fn weekday_of(days: i64) -> (w: u8)
    requires
        -800_000 <= days <= 3_000_000,
    ensures
        w == (days + 3) % 7,
{
    let t = days + 3;
    if t >= 0 {
        (t % 7) as u8
    } else {
        let q = (0 - t) % 7;
        if q == 0 {
            0
        } else {
            (7 - q) as u8
        }
    }
}

/// Hour, weekday (Monday 0) and epoch seconds of `YYYY-MM-DDTHH:MM?SS...`.
pub open spec fn parse_iso_spec(ts: Seq<u8>) -> Option<(u8, u8, i64)> {
    if ts.len() < 19 {
        None
    } else {
        match (
            digit4_spec(ts[0], ts[1], ts[2], ts[3]),
            digit2_spec(ts[5], ts[6]),
            digit2_spec(ts[8], ts[9]),
            digit2_spec(ts[11], ts[12]),
            digit2_spec(ts[14], ts[15]),
            digit2_spec(ts[17], ts[18]),
        ) {
            (Some(y), Some(mo), Some(d), Some(h), Some(mi), Some(s)) => if ts[4] == 45 && ts[7]
                == 45 && ts[10] == 84 && ts[13] == 58 {
                let days = days_spec(y as int, mo as int, d as int);
                Some(
                    (
                        h as u8,
                        ((days + 3) % 7) as u8,
                        (days * 86400 + h * 3600 + mi * 60 + s) as i64,
                    ),
                )
            } else {
                None
            },
            _ => None,
        }
    }
}

/// A parsed timestamp is consistent with itself: for a valid time of day
/// (hour below 24, minute and second below 60) the epoch seconds fall on the
/// parsed hour of the parsed day, the weekday is that day's (1970-01-01 a
/// Thursday, Monday being 0), and the day is the calendar day count of the
/// parsed date.
pub proof fn lemma_parse_iso_consistent(ts: Seq<u8>)
    ensures
        parse_iso_spec(ts) matches Some((h, w, e)) ==> {
            let mi = digit2_spec(ts[14], ts[15]).unwrap();
            let sec = digit2_spec(ts[17], ts[18]).unwrap();
            let y = digit4_spec(ts[0], ts[1], ts[2], ts[3]).unwrap();
            let mo = digit2_spec(ts[5], ts[6]).unwrap();
            let d = digit2_spec(ts[8], ts[9]).unwrap();
            (h < 24 && mi < 60 && sec < 60) ==> {
                &&& e / 86400 == days_spec(y as int, mo as int, d as int)
                &&& (e % 86400) / 3600 == h
                &&& (e % 3600) / 60 == mi
                &&& e % 60 == sec
                &&& w == (e / 86400 + 3) % 7
            }
        },
{
    if let Some((h, w, e)) = parse_iso_spec(ts) {
        let mi = digit2_spec(ts[14], ts[15]).unwrap();
        let sec = digit2_spec(ts[17], ts[18]).unwrap();
        let y = digit4_spec(ts[0], ts[1], ts[2], ts[3]).unwrap();
        let mo = digit2_spec(ts[5], ts[6]).unwrap();
        let d = digit2_spec(ts[8], ts[9]).unwrap();
        if h < 24 && mi < 60 && sec < 60 {
            let days = days_spec(y as int, mo as int, d as int);
            let t = h * 3600 + mi * 60 + sec;
            assert(e == days * 86400 + t);
            vstd::arithmetic::div_mod::lemma_fundamental_div_mod_converse(e as int, 86400, days, t as int);
            vstd::arithmetic::div_mod::lemma_fundamental_div_mod_converse(
                e as int,
                3600,
                days * 24 + h,
                (mi * 60 + sec) as int,
            );
            vstd::arithmetic::div_mod::lemma_fundamental_div_mod_converse(
                e as int,
                60,
                days * 1440 + h * 60 + mi,
                sec as int,
            );
            vstd::arithmetic::div_mod::lemma_fundamental_div_mod_converse(t as int, 3600, h as int, (mi * 60 + sec) as int);
            vstd::arithmetic::div_mod::lemma_fundamental_div_mod_converse((mi * 60 + sec) as int, 60, mi as int, sec as int);
        }
    }
}

/// Parses the date and time at the start of an ISO-8601 timestamp; the
/// seconds separator is not checked and a zone suffix is ignored.
pub fn parse_iso(ts: &[u8]) -> (r: Option<(u8, u8, i64)>)
    ensures
        r == parse_iso_spec(ts@),
{
    if ts.len() < 19 {
        return None;
    }
    let year = match digit4(ts[0], ts[1], ts[2], ts[3]) {
        Some(v) => v as i64,
        None => {
            return None;
        },
    };
    if ts[4] != 45 || ts[7] != 45 || ts[10] != 84 || ts[13] != 58 {
        return None;
    }
    let month = match digit2(ts[5], ts[6]) {
        Some(v) => v as i64,
        None => {
            return None;
        },
    };
    let day = match digit2(ts[8], ts[9]) {
        Some(v) => v as i64,
        None => {
            return None;
        },
    };
    let hour = match digit2(ts[11], ts[12]) {
        Some(v) => v as i64,
        None => {
            return None;
        },
    };
    let minute = match digit2(ts[14], ts[15]) {
        Some(v) => v as i64,
        None => {
            return None;
        },
    };
    let second = match digit2(ts[17], ts[18]) {
        Some(v) => v as i64,
        None => {
            return None;
        },
    };
    let days = days_from_civil(year, month, day);
    proof {
        assert(-800_000 <= days <= 3_000_000) by (nonlinear_arith)
            requires
                days == days_spec(year as int, month as int, day as int),
                0 <= year <= 9999,
                0 <= month <= 99,
                0 <= day <= 99,
        ;
    }
    let weekday = weekday_of(days);
    Some((hour as u8, weekday, days * 86_400 + hour * 3600 + minute * 60 + second))
}

/// The amount exceeds 0.6951915 times the customer's average, the average
/// taken as at least 1 (amounts in thousandths).
pub open spec fn ratio_fraud(amount_milli: int, avg_milli: int) -> bool {
    let safe_avg = if avg_milli < 1000 {
        1000
    } else {
        avg_milli
    };
    amount_milli * 10_000_000 > 6_951_915 * safe_avg
}

/// The values derived from the payload alone: MCC, known merchant and the
/// ratio verdict; nothing about timestamps.
pub open spec fn base_cache(p: PayloadView) -> TierCache {
    TierCache {
        mcc_u32: mcc4_spec(p.merchant_mcc),
        merchant_known: contains_quoted_spec(p.known_merchants, p.merchant_id),
        ratio_count: if ratio_fraud(p.amount_milli as int, p.customer_avg_amount_milli as int) {
            5
        } else {
            0
        },
        ..TierCache::default_spec()
    }
}

/// Computes the values that need no timestamp.
pub fn fill_base(p: &RawPayload) -> (c: TierCache)
    ensures
        c == base_cache(p@),
{
    let safe_avg: u64 = if p.customer_avg_amount_milli < 1000 {
        1000
    } else {
        p.customer_avg_amount_milli as u64
    };
    let ratio_count: u8 = if (p.amount_milli as u64) * 10_000_000 > 6_951_915 * safe_avg {
        5
    } else {
        0
    };
    TierCache {
        mcc_u32: mcc4_u32(p.merchant_mcc),
        merchant_known: merchant_known(p),
        ratio_count,
        ..TierCache::new_default()
    }
}

/// The cache after reading the request and previous-transaction times.
pub open spec fn datetime_cache(p: PayloadView, c: TierCache) -> TierCache {
    let c1 = match parse_iso_spec(p.requested_at) {
        Some((h, w, e)) => TierCache { requested_valid: true, req_hour: h, req_weekday: w, req_epoch: e, ..c },
        None => c,
    };
    let c2 = match p.last_timestamp {
        Some(ts) => match parse_iso_spec(ts) {
            Some((_, _, e)) => TierCache { last_present: true, last_epoch_ok: true, last_epoch: e, ..c1 },
            None => TierCache { last_present: true, ..c1 },
        },
        None => c1,
    };
    TierCache {
        gray_ratio_only: !c2.requested_valid || (c2.last_present && !c2.last_epoch_ok),
        ..c2
    }
}

/// Reads the request time and the previous transaction's time into the cache.
pub fn fill_datetime(p: &RawPayload, c: &mut TierCache)
    ensures
        *final(c) == datetime_cache(p@, *old(c)),
{
    match parse_iso(p.requested_at) {
        Some((h, w, e)) => {
            c.requested_valid = true;
            c.req_hour = h;
            c.req_weekday = w;
            c.req_epoch = e;
        },
        None => {},
    }
    match p.last_timestamp {
        Some(ts) => {
            c.last_present = true;
            match parse_iso(ts) {
                Some((_, _, epoch)) => {
                    c.last_epoch_ok = true;
                    c.last_epoch = epoch;
                },
                None => {},
            }
        },
        None => {},
    }
    c.gray_ratio_only = !c.requested_valid || (c.last_present && !c.last_epoch_ok);
}

/// All derived values.
pub fn fill(p: &RawPayload) -> (c: TierCache)
    ensures
        c == datetime_cache(p@, base_cache(p@)),
{
    let mut c = fill_base(p);
    fill_datetime(p, &mut c);
    c
}

} // verus!
