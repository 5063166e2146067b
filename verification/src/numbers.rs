//! Decimal digit strings.

use vstd::arithmetic::div_mod::{lemma_add_mod_noop, lemma_mul_mod_noop_left};
use vstd::prelude::*;

verus! {

/// An ASCII decimal digit.
pub open spec fn is_digit(c: u8) -> bool {
    48 <= c && c <= 57
}

/// Every byte is a decimal digit.
pub open spec fn all_digits(s: Seq<u8>) -> bool {
    forall|k: int| 0 <= k < s.len() ==> is_digit(#[trigger] s[k])
}

/// The number written by a digit string, most significant digit first.
pub open spec fn digits_val(s: Seq<u8>) -> int
    decreases s.len(),
{
    if s.len() == 0 {
        0
    } else {
        digits_val(s.drop_last()) * 10 + (s.last() - 48)
    }
}

/// A longer digit string is worth at least as much as its prefix.
pub proof fn lemma_digits_val_prefix(s: Seq<u8>, i: int, j: int)
    requires
        0 <= i <= j <= s.len(),
        all_digits(s),
    ensures
        0 <= digits_val(s.take(i)) <= digits_val(s.take(j)),
    decreases j,
{
    if j > 0 {
        if i < j {
            lemma_digits_val_prefix(s, i, j - 1);
            assert(s.take(j).drop_last() =~= s.take(j - 1));
            assert(is_digit(s[j - 1]));
        } else {
            assert(s.take(j).drop_last() =~= s.take(j - 1));
            lemma_digits_val_prefix(s, j - 1, j - 1);
            assert(is_digit(s[j - 1]));
        }
    }
}

proof fn lemma_digits_step(s: Seq<u8>, i: int)
    requires
        0 <= i < s.len(),
    ensures
        digits_val(s.take(i + 1)) == digits_val(s.take(i)) * 10 + (s[i] - 48),
{
    assert(s.take(i + 1).drop_last() =~= s.take(i));
}

/// Reads an unsigned decimal number; each digit is folded in as
/// `n * 10 + d` modulo 2^32. `None` for an empty slice or a non-digit.
pub fn parse_u32_bytes(s: &[u8]) -> (r: Option<u32>)
    ensures
        r.is_some() <==> s@.len() > 0 && all_digits(s@),
        r matches Some(v) ==> v == digits_val(s@) % 0x1_0000_0000,
{
    if s.len() == 0 {
        return None;
    }
    let mut n: u32 = 0;
    let mut i: usize = 0;
    while i < s.len()
        invariant
            i <= s@.len(),
            all_digits(s@.take(i as int)),
            n == digits_val(s@.take(i as int)) % 0x1_0000_0000,
        decreases s@.len() - i,
    {
        let b = s[i];
        if !(48 <= b && b <= 57) {
            assert(!is_digit(s@[i as int]));
            return None;
        }
        proof {
            lemma_digits_step(s@, i as int);
            let v = digits_val(s@.take(i as int));
            lemma_mul_mod_noop_left(v, 10, 0x1_0000_0000);
            lemma_add_mod_noop(v * 10, (b - 48) as int, 0x1_0000_0000);
            lemma_add_mod_noop((v % 0x1_0000_0000) * 10, (b - 48) as int, 0x1_0000_0000);
            assert(((v % 0x1_0000_0000) * 10) % 0x1_0000_0000 == (v * 10) % 0x1_0000_0000);
            assert forall|k: int| 0 <= k < i + 1 implies is_digit(#[trigger] s@.take(i + 1)[k]) by {
                if k < i {
                    assert(s@.take(i as int)[k] == s@.take(i + 1)[k]);
                }
            }
        }
        n = n.wrapping_mul(10).wrapping_add((b - 48) as u32);
        i = i + 1;
    }
    assert(s@.take(s@.len() as int) =~= s@);
    Some(n)
}

/// Reads the digits `s[a..b]` as a number, `None` when one is not a digit or
/// the number exceeds `u64::MAX`.
pub fn parse_u64_digits(s: &[u8], a: usize, b: usize) -> (r: Option<u64>)
    requires
        a <= b <= s@.len(),
    ensures
        r.is_some() <==> all_digits(s@.subrange(a as int, b as int)) && digits_val(
            s@.subrange(a as int, b as int),
        ) <= u64::MAX,
        r matches Some(v) ==> v == digits_val(s@.subrange(a as int, b as int)),
{
    let ghost t = s@.subrange(a as int, b as int);
    let mut n: u64 = 0;
    let mut overflow = false;
    let mut i: usize = a;
    while i < b
        invariant
            a <= i <= b <= s@.len(),
            t == s@.subrange(a as int, b as int),
            all_digits(t.take(i - a)),
            !overflow ==> n == digits_val(t.take(i - a)),
            overflow ==> digits_val(t.take(i - a)) > u64::MAX,
        decreases b - i,
    {
        let c = s[i];
        assert(t[i - a] == c);
        if !(48 <= c && c <= 57) {
            proof {
                assert(!is_digit(t[i - a]));
            }
            return None;
        }
        proof {
            lemma_digits_step(t, i - a);
            assert forall|k: int| 0 <= k < i - a + 1 implies is_digit(#[trigger] t.take(i - a + 1)[k]) by {
                if k < i - a {
                    assert(t.take(i - a)[k] == t.take(i - a + 1)[k]);
                }
            }
        }
        if !overflow {
            match n.checked_mul(10) {
                Some(m) => match m.checked_add((c - 48) as u64) {
                    Some(v) => {
                        n = v;
                    },
                    None => {
                        overflow = true;
                    },
                },
                None => {
                    overflow = true;
                },
            }
        }
        i = i + 1;
    }
    assert(t.take(b - a) =~= t);
    if overflow {
        None
    } else {
        Some(n)
    }
}

/// Reads an unsigned decimal number with no sign; `None` on a non-digit or
/// when the number exceeds `u32::MAX`. An empty slice reads as 0.
pub fn parse_ascii_u32(s: &[u8]) -> (r: Option<u32>)
    ensures
        r.is_some() <==> all_digits(s@) && digits_val(s@) <= u32::MAX,
        r matches Some(v) ==> v == digits_val(s@),
{
    let mut acc: u32 = 0;
    let mut i: usize = 0;
    while i < s.len()
        invariant
            i <= s@.len(),
            all_digits(s@.take(i as int)),
            acc == digits_val(s@.take(i as int)),
        decreases s@.len() - i,
    {
        let c = s[i];
        if !(48 <= c && c <= 57) {
            assert(!is_digit(s@[i as int]));
            return None;
        }
        proof {
            lemma_digits_step(s@, i as int);
            assert forall|k: int| 0 <= k < i + 1 implies is_digit(#[trigger] s@.take(i + 1)[k]) by {
                if k < i {
                    assert(s@.take(i as int)[k] == s@.take(i + 1)[k]);
                }
            }
        }
        match acc.checked_mul(10) {
            Some(m) => match m.checked_add((c - 48) as u32) {
                Some(v) => {
                    acc = v;
                },
                None => {
                    proof {
                        lemma_digits_overflow_rest(s@, i as int + 1);
                    }
                    return None;
                },
            },
            None => {
                proof {
                    lemma_digits_overflow_rest(s@, i as int + 1);
                }
                return None;
            },
        }
        i = i + 1;
    }
    assert(s@.take(s@.len() as int) =~= s@);
    Some(acc)
}

/// Once a prefix of a digit string exceeds `u32::MAX`, so does the whole
/// string, if it is all digits.
proof fn lemma_digits_overflow_rest(s: Seq<u8>, i: int)
    requires
        0 <= i <= s.len(),
        digits_val(s.take(i)) > u32::MAX,
    ensures
        all_digits(s) ==> digits_val(s) > u32::MAX,
{
    if all_digits(s) {
        lemma_digits_val_prefix(s, i, s.len() as int);
        assert(s.take(s.len() as int) =~= s);
    }
}

/// The first three fraction digits, zero-padded, read as a number of
/// thousandths.
pub open spec fn frac_thousandths(f: Seq<u8>) -> int {
    let d0 = if f.len() > 0 { f[0] - 48 } else { 0 };
    let d1 = if f.len() > 1 { f[1] - 48 } else { 0 };
    let d2 = if f.len() > 2 { f[2] - 48 } else { 0 };
    d0 * 100 + d1 * 10 + d2
}

/// Thousandths of the decimal `int.frac`, rounded half up.
pub open spec fn milli_of(int_digits: Seq<u8>, frac_digits: Seq<u8>) -> int {
    digits_val(int_digits) * 1000 + frac_thousandths(frac_digits) + (if frac_digits.len() > 3
        && frac_digits[3] >= 53 {
        1int
    } else {
        0int
    })
}

/// A plain decimal: an optional `-`, digits, and optionally `.` and more
/// digits, filling the whole slice. Gives the sign and the bounds of the
/// integer and fraction digits.
pub open spec fn decimal_split(s: Seq<u8>) -> Option<(bool, int, int, int, int)> {
    let neg = s.len() > 0 && s[0] == 45;
    let p0: int = if neg {
        1
    } else {
        0
    };
    let ie = crate::text::digit_run_end(s, p0);
    if s.len() == 0 {
        None
    } else if ie == s.len() {
        Some((neg, p0, ie, ie, ie))
    } else if s[ie] == 46 {
        let fe = crate::text::digit_run_end(s, ie + 1);
        if fe == s.len() {
            Some((neg, p0, ie, ie + 1, fe))
        } else {
            None
        }
    } else {
        None
    }
}

/// The value of a plain decimal in thousandths, rounded half up; negative
/// values give 0 and values beyond `u32::MAX` thousandths give `u32::MAX`.
pub open spec fn parse_milli_spec(s: Seq<u8>) -> Option<u32> {
    match decimal_split(s) {
        None => None,
        Some((neg, a, b, c, d)) => if neg {
            Some(0u32)
        } else {
            let m = milli_of(s.subrange(a, b), s.subrange(c, d));
            if m >= u32::MAX {
                Some(u32::MAX)
            } else {
                Some(m as u32)
            }
        },
    }
}

/// Reads a plain decimal such as `41.12` as thousandths (`41120`), rounding
/// half up; a negative number reads as 0 and a huge one as `u32::MAX`.
pub fn parse_milli_bytes(s: &[u8]) -> (r: Option<u32>)
    ensures
        r == parse_milli_spec(s@),
{
    let n = s.len();
    if n == 0 {
        return None;
    }
    let neg = s[0] == 45;
    let p0: usize = if neg {
        1
    } else {
        0
    };
    let ie = crate::text::digits_end(s, p0);
    proof {
        crate::text::lemma_digit_run(s@, p0 as int);
    }
    let (fs, fe) = if ie == n {
        (ie, ie)
    } else if s[ie] == 46 {
        let fe = crate::text::digits_end(s, ie + 1);
        proof {
            crate::text::lemma_digit_run(s@, ie + 1);
        }
        if fe != n {
            return None;
        }
        (ie + 1, fe)
    } else {
        return None;
    };
    if neg {
        return Some(0);
    }
    let ghost int_digits = s@.subrange(p0 as int, ie as int);
    let ghost frac_digits = s@.subrange(fs as int, fe as int);
    // Integer part, saturated once it alone reaches u32::MAX thousandths.
    let mut ip: u64 = 0;
    let mut big = false;
    let mut i: usize = p0;
    while i < ie
        invariant
            p0 <= i <= ie <= n == s@.len(),
            int_digits == s@.subrange(p0 as int, ie as int),
            all_digits(int_digits),
            !big ==> ip == digits_val(int_digits.take(i - p0)) && ip <= 4_294_967,
            big ==> digits_val(int_digits.take(i - p0)) > 4_294_967,
        decreases ie - i,
    {
        proof {
            lemma_digits_step(int_digits, i - p0);
            assert(int_digits[i - p0] == s@[i as int]);
            assert(is_digit(int_digits[i - p0]));
            if big {
                lemma_digits_val_prefix(int_digits, i - p0, i - p0 + 1);
            }
        }
        if !big {
            let next = ip * 10 + (s[i] - 48) as u64;
            if next > 4_294_967 {
                big = true;
            } else {
                ip = next;
            }
        }
        i = i + 1;
    }
    assert(int_digits.take(ie - p0) =~= int_digits);
    let flen = fe - fs;
    let d0: u64 = if flen > 0 { (s[fs] - 48) as u64 } else { 0 };
    let d1: u64 = if flen > 1 { (s[fs + 1] - 48) as u64 } else { 0 };
    let d2: u64 = if flen > 2 { (s[fs + 2] - 48) as u64 } else { 0 };
    let up: u64 = if flen > 3 && s[fs + 3] >= 53 { 1 } else { 0 };
    proof {
        assert(flen > 0 ==> frac_digits[0] == s@[fs as int]);
        assert(flen > 1 ==> frac_digits[1] == s@[fs + 1]);
        assert(flen > 2 ==> frac_digits[2] == s@[fs + 2]);
        assert(flen > 3 ==> frac_digits[3] == s@[fs + 3]);
        assert(flen > 0 ==> is_digit(frac_digits[0]));
        assert(flen > 1 ==> is_digit(frac_digits[1]));
        assert(flen > 2 ==> is_digit(frac_digits[2]));
    }
    if big {
        return Some(u32::MAX);
    }
    let m = ip * 1000 + d0 * 100 + d1 * 10 + d2 + up;
    if m >= 0xffff_ffff {
        Some(u32::MAX)
    } else {
        Some(m as u32)
    }
}

/// Like `parse_milli_spec`, but refusing a decimal whose integer digits
/// exceed `u64::MAX` or that has more than 19 fraction digits.
pub open spec fn parse_milli_strict_spec(s: Seq<u8>) -> Option<u32> {
    match decimal_split(s) {
        None => None,
        Some((neg, a, b, c, d)) => if digits_val(s.subrange(a, b)) > u64::MAX || d - c > 19 {
            None
        } else {
            parse_milli_spec(s)
        },
    }
}

/// Reads a plain decimal as thousandths, refusing integer parts beyond
/// `u64::MAX` and fractions of more than 19 digits.
pub fn parse_milli_strict(s: &[u8]) -> (r: Option<u32>)
    ensures
        r == parse_milli_strict_spec(s@),
{
    let n = s.len();
    if n == 0 {
        return None;
    }
    let p0: usize = if s[0] == 45 {
        1
    } else {
        0
    };
    let ie = crate::text::digits_end(s, p0);
    proof {
        crate::text::lemma_digit_run(s@, p0 as int);
    }
    let (fs, fe) = if ie == n {
        (ie, ie)
    } else if s[ie] == 46 {
        let fe = crate::text::digits_end(s, ie + 1);
        proof {
            crate::text::lemma_digit_run(s@, ie + 1);
        }
        if fe != n {
            return None;
        }
        (ie + 1, fe)
    } else {
        return None;
    };
    if parse_u64_digits(s, p0, ie).is_none() || fe - fs > 19 {
        return None;
    }
    parse_milli_bytes(s)
}

} // verus!
