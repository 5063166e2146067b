//! Byte patterns: matching at a position, runs of digits.

use crate::numbers::{all_digits, digits_val, is_digit};
use vstd::arithmetic::div_mod::{lemma_add_mod_noop, lemma_mul_mod_noop_left};
use vstd::prelude::*;

verus! {

/// `pat` occurs in `s` at index `i`.
pub open spec fn at(s: Seq<u8>, i: int, pat: Seq<u8>) -> bool {
    0 <= i && i + pat.len() <= s.len() && s.subrange(i, i + pat.len()) == pat
}

/// Whether `pat` occurs in `s` at index `i`.
pub fn bytes_at(s: &[u8], i: usize, pat: &[u8]) -> (r: bool)
    ensures
        r == at(s@, i as int, pat@),
{
    if i > s.len() || pat.len() > s.len() - i {
        return false;
    }
    let mut k: usize = 0;
    while k < pat.len()
        invariant
            i + pat@.len() <= s@.len(),
            s@.len() <= usize::MAX,
            k <= pat@.len(),
            forall|j: int| 0 <= j < k ==> s@[i + j] == pat@[j],
        decreases pat@.len() - k,
    {
        if s[i + k] != pat[k] {
            assert(s@.subrange(i as int, i + pat@.len())[k as int] != pat@[k as int]);
            return false;
        }
        k = k + 1;
    }
    assert(s@.subrange(i as int, i + pat@.len()) =~= pat@);
    true
}

/// Index of the first non-digit byte at or after `k`.
pub open spec fn digit_run_end(s: Seq<u8>, k: int) -> int
    decreases s.len() - k,
{
    if k >= s.len() {
        s.len() as int
    } else if is_digit(s[k]) {
        digit_run_end(s, k + 1)
    } else {
        k
    }
}

pub proof fn lemma_digit_run(s: Seq<u8>, k: int)
    requires
        0 <= k <= s.len(),
    ensures
        k <= digit_run_end(s, k) <= s.len(),
        all_digits(s.subrange(k, digit_run_end(s, k))),
    decreases s.len() - k,
{
    if k < s.len() && is_digit(s[k]) {
        lemma_digit_run(s, k + 1);
        let e = digit_run_end(s, k);
        assert forall|j: int| 0 <= j < e - k implies is_digit(#[trigger] s.subrange(k, e)[j]) by {
            if j > 0 {
                assert(s.subrange(k + 1, e)[j - 1] == s.subrange(k, e)[j]);
            }
        }
    }
}

/// Index of the first non-digit byte at or after `k`.
pub fn digits_end(s: &[u8], k: usize) -> (e: usize)
    requires
        k <= s@.len(),
    ensures
        e == digit_run_end(s@, k as int),
        k <= e <= s@.len(),
{
    let mut e = k;
    while e < s.len() && 48 <= s[e] && s[e] <= 57
        invariant
            k <= e <= s@.len(),
            digit_run_end(s@, k as int) == digit_run_end(s@, e as int),
        decreases s@.len() - e,
    {
        e = e + 1;
    }
    e
}

proof fn lemma_wrap_digit(v: int, d: int, m: int)
    requires
        m > 10,
        0 <= d < 10,
    ensures
        (((v % m) * 10) % m + d) % m == (v * 10 + d) % m,
{
    lemma_mul_mod_noop_left(v, 10, m);
    lemma_add_mod_noop(v * 10, d, m);
    lemma_add_mod_noop((v % m) * 10, d, m);
    vstd::arithmetic::div_mod::lemma_mod_twice((v % m) * 10, m);
    vstd::arithmetic::div_mod::lemma_small_mod(d as nat, m as nat);
}

/// The number written by the digits `s[a..b]`, each folded in as
/// `n * 10 + d` modulo the range of `usize`.
pub fn digits_wrapping_usize(s: &[u8], a: usize, b: usize) -> (n: usize)
    requires
        a <= b <= s@.len(),
        all_digits(s@.subrange(a as int, b as int)),
    ensures
        n == digits_val(s@.subrange(a as int, b as int)) % (usize::MAX as int + 1),
{
    let ghost t = s@.subrange(a as int, b as int);
    let ghost m = usize::MAX as int + 1;
    let mut n: usize = 0;
    let mut i: usize = a;
    while i < b
        invariant
            a <= i <= b <= s@.len(),
            t == s@.subrange(a as int, b as int),
            all_digits(t),
            m == usize::MAX as int + 1,
            n == digits_val(t.take(i - a)) % m,
        decreases b - i,
    {
        let c = s[i];
        assert(t[i - a] == c);
        assert(is_digit(t[i - a]));
        proof {
            assert(t.take(i - a + 1).drop_last() =~= t.take(i - a));
            lemma_wrap_digit(digits_val(t.take(i - a)), (c - 48) as int, m);
        }
        let n10 = n.wrapping_mul(10);
        assert(n10 == (n * 10) % m);
        n = n10.wrapping_add((c - 48) as usize);
        i = i + 1;
    }
    assert(t.take(b - a) =~= t);
    n
}

/// `memchr::memmem::find`: the index of the first occurrence of `needle` in
/// `haystack`, as its documentation states; an empty needle occurs at 0.
#[verifier::external_body]
pub(crate) fn memmem_find(haystack: &[u8], needle: &[u8]) -> (r: Option<usize>)
    ensures
        r matches Some(i) ==> at(haystack@, i as int, needle@) && forall|j: int|
            0 <= j < i ==> !at(haystack@, j, needle@),
        r is None ==> forall|j: int| 0 <= j ==> !at(haystack@, j, needle@),
{
    memchr::memmem::find(haystack, needle)
}

/// `memchr::memchr`: the index of the first byte of `haystack` equal to
/// `needle`, as its documentation states.
#[verifier::external_body]
pub(crate) fn memchr_byte(needle: u8, haystack: &[u8]) -> (r: Option<usize>)
    ensures
        r matches Some(i) ==> i < haystack@.len() && haystack@[i as int] == needle && forall|j: int|
            0 <= j < i ==> haystack@[j] != needle,
        r is None ==> forall|j: int| 0 <= j < haystack@.len() ==> haystack@[j] != needle,
{
    memchr::memchr(needle, haystack)
}

} // verus!
