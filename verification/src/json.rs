//! Allocation-free extraction of the fields the scorer reads from a
//! transaction JSON body. Tolerates whitespace and any key order inside
//! objects, and skips unknown keys; assumes well-formed JSON otherwise.
//! Amounts and distances are kept as thousandths (`41.12` is `41120`).

use crate::cache::{fill_base, base_cache, TierCache};
use crate::numbers::{parse_milli_bytes, parse_milli_spec, parse_u32_bytes, all_digits, digits_val};
use crate::text::{at, bytes_at, digit_run_end, digits_end, lemma_digit_run};
use crate::http::{bytes_eq, slice_range};
use vstd::prelude::*;

verus! {

/// The fields of one transaction request.
#[derive(Clone, Copy, Debug)]
pub struct RawPayload<'a> {
    pub amount_milli: u32,
    pub installments: u32,
    pub requested_at: &'a [u8],
    pub customer_avg_amount_milli: u32,
    pub tx_count_24h: u32,
    /// The inside of the `known_merchants` array, brackets excluded.
    pub known_merchants: &'a [u8],
    pub merchant_id: &'a [u8],
    pub merchant_mcc: &'a [u8],
    pub merchant_avg_amount_milli: u32,
    pub is_online: bool,
    pub card_present: bool,
    pub km_from_home_milli: u32,
    /// Timestamp of the previous transaction; `None` when it is `null`.
    pub last_timestamp: Option<&'a [u8]>,
    pub last_km_milli: Option<u32>,
    /// Values derived from the fields above.
    pub cache: TierCache,
}

impl<'a> RawPayload<'a> {
    /// A payload with every number zero, every string empty and nothing
    /// about a previous transaction.
    pub fn empty() -> (p: RawPayload<'a>)
        ensures
            p.amount_milli == 0 && p.installments == 0 && p.customer_avg_amount_milli == 0,
            p.tx_count_24h == 0 && p.merchant_avg_amount_milli == 0 && p.km_from_home_milli == 0,
            p.requested_at@.len() == 0 && p.known_merchants@.len() == 0,
            p.merchant_id@.len() == 0 && p.merchant_mcc@.len() == 0,
            !p.is_online && !p.card_present,
            p.last_timestamp is None && p.last_km_milli is None,
            p.cache == TierCache::default_spec(),
    {
        RawPayload {
            amount_milli: 0,
            installments: 0,
            requested_at: empty_slice(),
            customer_avg_amount_milli: 0,
            tx_count_24h: 0,
            known_merchants: empty_slice(),
            merchant_id: empty_slice(),
            merchant_mcc: empty_slice(),
            merchant_avg_amount_milli: 0,
            is_online: false,
            card_present: false,
            km_from_home_milli: 0,
            last_timestamp: None,
            last_km_milli: None,
            cache: TierCache::new_default(),
        }
    }
}

fn empty_slice<'a>() -> (r: &'a [u8])
    ensures
        r@.len() == 0,
{
    &[]
}

/// JSON whitespace.
pub open spec fn json_ws(c: u8) -> bool {
    c == 32 || c == 9 || c == 10 || c == 13
}

/// First non-whitespace index at or after `i`.
pub open spec fn skip_ws_spec(s: Seq<u8>, i: int) -> int
    decreases s.len() - i,
{
    if i >= s.len() {
        i
    } else if json_ws(s[i]) {
        skip_ws_spec(s, i + 1)
    } else {
        i
    }
}

/// Index of the quote that closes a string whose contents start at `j`; a
/// backslash escapes the byte after it. -1 when the string never closes.
pub open spec fn str_close(s: Seq<u8>, j: int) -> int
    decreases s.len() - j,
{
    if j < 0 || j >= s.len() {
        -1
    } else if s[j] == 34 {
        j
    } else if s[j] == 92 {
        if j + 2 > s.len() {
            -1
        } else {
            str_close(s, j + 2)
        }
    } else {
        str_close(s, j + 1)
    }
}

/// Index of the bracket that closes an array whose contents start at `j`,
/// at nesting `depth`, counting brackets outside strings only; -1 when it
/// never closes.
pub open spec fn array_close(s: Seq<u8>, j: int, depth: int, in_str: bool) -> int
    decreases s.len() - j,
{
    if j < 0 || j >= s.len() {
        -1
    } else if in_str {
        if s[j] == 92 {
            if j + 2 > s.len() {
                -1
            } else {
                array_close(s, j + 2, depth, true)
            }
        } else if s[j] == 34 {
            array_close(s, j + 1, depth, false)
        } else {
            array_close(s, j + 1, depth, true)
        }
    } else if s[j] == 34 {
        array_close(s, j + 1, depth, true)
    } else if s[j] == 91 {
        array_close(s, j + 1, depth + 1, false)
    } else if s[j] == 93 {
        if depth - 1 == 0 {
            j
        } else {
            array_close(s, j + 1, depth - 1, false)
        }
    } else {
        array_close(s, j + 1, depth, false)
    }
}

/// Index of the brace that closes an object whose contents start at `j`, at
/// nesting `depth`, counting braces outside strings only; -1 when it never
/// closes.
pub open spec fn object_close(s: Seq<u8>, j: int, depth: int, in_str: bool) -> int
    decreases s.len() - j,
{
    if j < 0 || j >= s.len() {
        -1
    } else if in_str {
        if s[j] == 92 {
            if j + 2 > s.len() {
                -1
            } else {
                object_close(s, j + 2, depth, true)
            }
        } else if s[j] == 34 {
            object_close(s, j + 1, depth, false)
        } else {
            object_close(s, j + 1, depth, true)
        }
    } else if s[j] == 34 {
        object_close(s, j + 1, depth, true)
    } else if s[j] == 123 {
        object_close(s, j + 1, depth + 1, false)
    } else if s[j] == 125 {
        if depth - 1 == 0 {
            j
        } else {
            object_close(s, j + 1, depth - 1, false)
        }
    } else {
        object_close(s, j + 1, depth, false)
    }
}

proof fn lemma_skip_ws_ge(s: Seq<u8>, i: int)
    ensures
        skip_ws_spec(s, i) >= i,
    decreases s.len() - i,
{
    if i < s.len() && json_ws(s[i]) {
        lemma_skip_ws_ge(s, i + 1);
    }
}

proof fn lemma_str_close_ge(s: Seq<u8>, j: int)
    ensures
        str_close(s, j) == -1 || str_close(s, j) >= j,
    decreases s.len() - j,
{
    if 0 <= j < s.len() && s[j] != 34 {
        if s[j] == 92 {
            if j + 2 <= s.len() {
                lemma_str_close_ge(s, j + 2);
            }
        } else {
            lemma_str_close_ge(s, j + 1);
        }
    }
}

proof fn lemma_array_close_ge(s: Seq<u8>, j: int, depth: int, in_str: bool)
    ensures
        array_close(s, j, depth, in_str) == -1 || array_close(s, j, depth, in_str) >= j,
    decreases s.len() - j,
{
    if 0 <= j < s.len() {
        if in_str {
            if s[j] == 92 {
                if j + 2 <= s.len() {
                    lemma_array_close_ge(s, j + 2, depth, true);
                }
            } else if s[j] == 34 {
                lemma_array_close_ge(s, j + 1, depth, false);
            } else {
                lemma_array_close_ge(s, j + 1, depth, true);
            }
        } else if s[j] == 34 {
            lemma_array_close_ge(s, j + 1, depth, true);
        } else if s[j] == 91 {
            lemma_array_close_ge(s, j + 1, depth + 1, false);
        } else if s[j] == 93 {
            if depth - 1 != 0 {
                lemma_array_close_ge(s, j + 1, depth - 1, false);
            }
        } else {
            lemma_array_close_ge(s, j + 1, depth, false);
        }
    }
}

proof fn lemma_object_close_ge(s: Seq<u8>, j: int, depth: int, in_str: bool)
    ensures
        object_close(s, j, depth, in_str) == -1 || object_close(s, j, depth, in_str) >= j,
    decreases s.len() - j,
{
    if 0 <= j < s.len() {
        if in_str {
            if s[j] == 92 {
                if j + 2 <= s.len() {
                    lemma_object_close_ge(s, j + 2, depth, true);
                }
            } else if s[j] == 34 {
                lemma_object_close_ge(s, j + 1, depth, false);
            } else {
                lemma_object_close_ge(s, j + 1, depth, true);
            }
        } else if s[j] == 34 {
            lemma_object_close_ge(s, j + 1, depth, true);
        } else if s[j] == 123 {
            lemma_object_close_ge(s, j + 1, depth + 1, false);
        } else if s[j] == 125 {
            if depth - 1 != 0 {
                lemma_object_close_ge(s, j + 1, depth - 1, false);
            }
        } else {
            lemma_object_close_ge(s, j + 1, depth, false);
        }
    }
}

proof fn lemma_num_run_ge(s: Seq<u8>, j: int)
    ensures
        num_run_end(s, j) >= j,
    decreases s.len() - j,
{
    if j < s.len() && num_byte(s[j]) {
        lemma_num_run_ge(s, j + 1);
    }
}

/// Every value that parses ends after where it starts.
proof fn lemma_value_end_ge(s: Seq<u8>, i: int)
    requires
        0 <= i,
    ensures
        value_end(s, i) matches Some(e) ==> e > i,
{
    let k = skip_ws_spec(s, i);
    lemma_skip_ws_ge(s, i);
    lemma_str_close_ge(s, k + 1);
    lemma_array_close_ge(s, k + 1, 1, false);
    lemma_object_close_ge(s, k + 1, 1, false);
    lemma_num_run_ge(s, k);
    if k < s.len() && !(s[k] == 34 || s[k] == 123 || s[k] == 91 || s[k] == 116 || s[k] == 102
        || s[k] == 110) {
        let e = num_run_end(s, k);
        if e == k {
            assert(s.subrange(k, e).len() == 0);
        }
    }
}

/// A byte that can appear in a JSON number.
pub open spec fn num_byte(c: u8) -> bool {
    c == 45 || c == 43 || c == 46 || (48 <= c && c <= 57) || c == 101 || c == 69
}

/// End of the run of number bytes starting at `j`.
pub open spec fn num_run_end(s: Seq<u8>, j: int) -> int
    decreases s.len() - j,
{
    if j >= s.len() {
        j
    } else if num_byte(s[j]) {
        num_run_end(s, j + 1)
    } else {
        j
    }
}

pub open spec fn true_word() -> Seq<u8> {
    seq![116u8, 114u8, 117u8, 101u8]
}

pub open spec fn false_word() -> Seq<u8> {
    seq![102u8, 97u8, 108u8, 115u8, 101u8]
}

pub open spec fn null_word() -> Seq<u8> {
    seq![110u8, 117u8, 108u8, 108u8]
}

/// Where a value starting at `i` (after optional whitespace) ends, if it is
/// a string, object, array, boolean, `null` or plain decimal.
pub open spec fn value_end(s: Seq<u8>, i: int) -> Option<int> {
    let k = skip_ws_spec(s, i);
    if k >= s.len() {
        None
    } else if s[k] == 34 {
        let c = str_close(s, k + 1);
        if c >= 0 {
            Some(c + 1)
        } else {
            None
        }
    } else if s[k] == 123 {
        let c = object_close(s, k + 1, 1, false);
        if c >= 0 {
            Some(c + 1)
        } else {
            None
        }
    } else if s[k] == 91 {
        let c = array_close(s, k + 1, 1, false);
        if c >= 0 {
            Some(c + 1)
        } else {
            None
        }
    } else if s[k] == 116 || s[k] == 102 {
        if at(s, k, true_word()) {
            Some(k + 4)
        } else if at(s, k, false_word()) {
            Some(k + 5)
        } else {
            None
        }
    } else if s[k] == 110 {
        if at(s, k, null_word()) {
            Some(k + 4)
        } else {
            None
        }
    } else {
        let e = num_run_end(s, k);
        if parse_milli_spec(s.subrange(k, e)) is Some {
            Some(e)
        } else {
            None
        }
    }
}

/// A cursor over a JSON body.
pub struct Scanner<'a> {
    pub buf: &'a [u8],
    pub i: usize,
}

impl<'a> Scanner<'a> {
    pub open spec fn wf(&self) -> bool {
        self.i <= self.buf@.len()
    }

    pub fn new(buf: &'a [u8]) -> (s: Scanner<'a>)
        ensures
            s.buf == buf,
            s.i == 0,
            s.wf(),
    {
        Scanner { buf, i: 0 }
    }

    pub fn at_end(&self) -> (r: bool)
        ensures
            r == (self.i >= self.buf@.len()),
    {
        self.i >= self.buf.len()
    }

    pub fn peek(&self) -> (r: Option<u8>)
        ensures
            self.i < self.buf@.len() ==> r == Some(self.buf@[self.i as int]),
            self.i >= self.buf@.len() ==> r is None,
    {
        if self.i < self.buf.len() {
            Some(self.buf[self.i])
        } else {
            None
        }
    }

    pub fn bump(&mut self)
        requires
            old(self).i < old(self).buf@.len(),
        ensures
            final(self).buf == old(self).buf,
            final(self).i == old(self).i + 1,
    {
        let _n = self.buf.len();
        self.i = self.i + 1;
    }

    pub fn advance(&mut self, n: usize)
        requires
            old(self).i + n <= old(self).buf@.len(),
        ensures
            final(self).buf == old(self).buf,
            final(self).i == old(self).i + n,
    {
        let _n = self.buf.len();
        self.i = self.i + n;
    }

    /// Consumes `c` if it is the next byte.
    pub fn expect(&mut self, c: u8) -> (r: Option<()>)
        requires
            old(self).wf(),
        ensures
            final(self).wf(),
            final(self).buf == old(self).buf,
            r is Some <==> old(self).i < old(self).buf@.len() && old(self).buf@[old(
                self,
            ).i as int] == c,
            r is Some ==> final(self).i == old(self).i + 1,
            r is None ==> final(self).i == old(self).i,
    {
        match self.peek() {
            Some(b) => if b == c {
                self.bump();
                Some(())
            } else {
                None
            },
            None => None,
        }
    }

    /// Skips spaces, tabs and line breaks.
    pub fn skip_ws(&mut self)
        requires
            old(self).wf(),
        ensures
            final(self).wf(),
            final(self).buf == old(self).buf,
            final(self).i == skip_ws_spec(old(self).buf@, old(self).i as int),
    {
        while self.i < self.buf.len() && (self.buf[self.i] == 32 || self.buf[self.i] == 9
            || self.buf[self.i] == 10 || self.buf[self.i] == 13)
            invariant
                self.wf(),
                self.buf == old(self).buf,
                skip_ws_spec(self.buf@, old(self).i as int) == skip_ws_spec(
                    self.buf@,
                    self.i as int,
                ),
            decreases self.buf@.len() - self.i,
        {
            self.i = self.i + 1;
        }
    }

    /// Whether `w` comes next.
    pub fn peek_word(&self, w: &[u8]) -> (r: bool)
        ensures
            r == at(self.buf@, self.i as int, w@),
    {
        bytes_at(self.buf, self.i, w)
    }

    /// Reads a string and returns its raw contents, escapes left as they are.
    pub fn read_string(&mut self) -> (r: Option<&'a [u8]>)
        requires
            old(self).wf(),
        ensures
            final(self).wf(),
            final(self).buf == old(self).buf,
            final(self).i >= old(self).i,
            ({
                let s = old(self).buf@;
                let i = old(self).i as int;
                let close = str_close(s, i + 1);
                &&& r is Some <==> (i < s.len() && s[i] == 34 && close >= 0)
                &&& r matches Some(v) ==> v@ == s.subrange(i + 1, close) && final(self).i == close
                    + 1
            }),
    {
        let ghost s = self.buf@;
        let ghost i0 = self.i as int;
        match self.expect(34) {
            Some(_) => {},
            None => {
                return None;
            },
        }
        let start = self.i;
        let n = self.buf.len();
        let mut j = start;
        while j < n
            invariant
                self.buf@ == s,
                s == old(self).buf@,
                start == old(self).i + 1,
                s[start - 1] == 34,
                self.buf == old(self).buf,
                self.i == start,
                start == i0 + 1,
                start <= j <= n == s.len(),
                str_close(s, start as int) == str_close(s, j as int),
            decreases n - j,
        {
            let c = self.buf[j];
            if c == 34 {
                assert(str_close(s, j as int) == j as int);
                let v = slice_range(self.buf, start, j);
                self.i = j + 1;
                return Some(v);
            }
            if c == 92 {
                if n - j < 2 {
                    return None;
                }
                j = j + 2;
            } else {
                j = j + 1;
            }
        }
        None
    }

    /// Reads a number as thousandths; `None` unless the run of number bytes
    /// is a plain decimal.
    pub fn read_milli(&mut self) -> (r: Option<u32>)
        requires
            old(self).wf(),
        ensures
            final(self).wf(),
            final(self).buf == old(self).buf,
            final(self).i >= old(self).i,
            final(self).i == num_run_end(old(self).buf@, old(self).i as int),
            r == parse_milli_spec(old(self).buf@.subrange(old(self).i as int, final(self).i as int)),
    {
        let start = self.i;
        let n = self.buf.len();
        let mut j = start;
        while j < n && (self.buf[j] == 45 || self.buf[j] == 43 || self.buf[j] == 46 || (48
            <= self.buf[j] && self.buf[j] <= 57) || self.buf[j] == 101 || self.buf[j] == 69)
            invariant
                start == old(self).i,
                self.buf == old(self).buf,
                self.i == start,
                start <= j <= n == self.buf@.len(),
                num_run_end(self.buf@, start as int) == num_run_end(self.buf@, j as int),
            decreases n - j,
        {
            j = j + 1;
        }
        self.i = j;
        proof {
            lemma_num_run_ge(self.buf@, start as int);
        }
        parse_milli_bytes(slice_range(self.buf, start, j))
    }

    /// Reads a run of digits as a number; `None` when there is none.
    pub fn read_u32(&mut self) -> (r: Option<u32>)
        requires
            old(self).wf(),
        ensures
            final(self).wf(),
            final(self).buf == old(self).buf,
            final(self).i >= old(self).i,
            final(self).i == digit_run_end(old(self).buf@, old(self).i as int),
            ({
                let d = old(self).buf@.subrange(old(self).i as int, final(self).i as int);
                &&& r is Some <==> d.len() > 0
                &&& r matches Some(v) ==> v == digits_val(d) % 0x1_0000_0000
            }),
    {
        let start = self.i;
        let end = digits_end(self.buf, start);
        proof {
            lemma_digit_run(self.buf@, start as int);
        }
        self.i = end;
        parse_u32_bytes(slice_range(self.buf, start, end))
    }

    /// Reads `true` or `false`.
    pub fn read_bool(&mut self) -> (r: Option<bool>)
        requires
            old(self).wf(),
        ensures
            final(self).wf(),
            final(self).buf == old(self).buf,
            final(self).i >= old(self).i,
            ({
                let s = old(self).buf@;
                let i = old(self).i as int;
                let j = final(self).i as int;
                &&& at(s, i, true_word()) ==> r == Some(true) && j == i + 4
                &&& !at(s, i, true_word()) && at(s, i, false_word()) ==> r == Some(false) && j
                    == i + 5
                &&& !at(s, i, true_word()) && !at(s, i, false_word()) ==> r is None && j == i
            }),
    {
        let t: [u8; 4] = [116, 114, 117, 101];
        let f: [u8; 5] = [102, 97, 108, 115, 101];
        assert(t@ =~= true_word());
        assert(f@ =~= false_word());
        if self.peek_word(&t) {
            self.advance(4);
            Some(true)
        } else if self.peek_word(&f) {
            self.advance(5);
            Some(false)
        } else {
            None
        }
    }

    /// Reads an array and returns its raw contents, brackets excluded.
    pub fn read_array_raw(&mut self) -> (r: Option<&'a [u8]>)
        requires
            old(self).wf(),
        ensures
            final(self).wf(),
            final(self).buf == old(self).buf,
            final(self).i >= old(self).i,
            ({
                let s = old(self).buf@;
                let i = old(self).i as int;
                let close = array_close(s, i + 1, 1, false);
                &&& r is Some <==> (i < s.len() && s[i] == 91 && close >= 0)
                &&& r matches Some(v) ==> v@ == s.subrange(i + 1, close) && final(self).i == close
                    + 1
            }),
    {
        let ghost s = self.buf@;
        match self.expect(91) {
            Some(_) => {},
            None => {
                return None;
            },
        }
        let start = self.i;
        let n = self.buf.len();
        let mut j = start;
        let mut depth: usize = 1;
        let mut in_str = false;
        while j < n
            invariant
                self.buf@ == s,
                s == old(self).buf@,
                start == old(self).i + 1,
                s[start - 1] == 91,
                self.buf == old(self).buf,
                self.i == start,
                start <= j <= n == s.len(),
                1 <= depth <= j - start + 1,
                array_close(s, start as int, 1, false) == array_close(
                    s,
                    j as int,
                    depth as int,
                    in_str,
                ),
            decreases n - j,
        {
            let c = self.buf[j];
            if in_str {
                if c == 92 {
                    if n - j < 2 {
                        return None;
                    }
                    j = j + 2;
                } else {
                    if c == 34 {
                        in_str = false;
                    }
                    j = j + 1;
                }
            } else if c == 34 {
                in_str = true;
                j = j + 1;
            } else if c == 91 {
                depth = depth + 1;
                j = j + 1;
            } else if c == 93 {
                depth = depth - 1;
                if depth == 0 {
                    assert(array_close(s, j as int, 1, false) == j as int);
                    let v = slice_range(self.buf, start, j);
                    self.i = j + 1;
                    return Some(v);
                }
                j = j + 1;
            } else {
                j = j + 1;
            }
        }
        None
    }

    /// Skips one value of any kind, after optional whitespace.
    pub fn skip_value(&mut self) -> (r: Option<()>)
        requires
            old(self).wf(),
        ensures
            final(self).wf(),
            final(self).buf == old(self).buf,
            final(self).i >= old(self).i,
            r is Some <==> value_end(old(self).buf@, old(self).i as int) is Some,
            r is Some ==> value_end(old(self).buf@, old(self).i as int) == Some(
                final(self).i as int,
            ),
    {
        let ghost i0 = self.i;
        self.skip_ws();
        proof {
            lemma_skip_ws_ge(self.buf@, i0 as int);
            lemma_value_end_ge(self.buf@, i0 as int);
        }
        let c = match self.peek() {
            Some(c) => c,
            None => {
                return None;
            },
        };
        if c == 34 {
            match self.read_string() {
                Some(_) => Some(()),
                None => None,
            }
        } else if c == 123 {
            self.skip_object()
        } else if c == 91 {
            match self.read_array_raw() {
                Some(_) => Some(()),
                None => None,
            }
        } else if c == 116 || c == 102 {
            match self.read_bool() {
                Some(_) => Some(()),
                None => None,
            }
        } else if c == 110 {
            let w: [u8; 4] = [110, 117, 108, 108];
            assert(w@ =~= null_word());
            if self.peek_word(&w) {
                self.advance(4);
                Some(())
            } else {
                None
            }
        } else {
            match self.read_milli() {
                Some(_) => Some(()),
                None => None,
            }
        }
    }

    /// Skips an object, braces included.
    pub fn skip_object(&mut self) -> (r: Option<()>)
        requires
            old(self).wf(),
        ensures
            final(self).wf(),
            final(self).buf == old(self).buf,
            final(self).i >= old(self).i,
            ({
                let s = old(self).buf@;
                let i = old(self).i as int;
                let close = object_close(s, i + 1, 1, false);
                &&& r is Some <==> (i < s.len() && s[i] == 123 && close >= 0)
                &&& r is Some ==> final(self).i == close + 1
            }),
    {
        let ghost s = self.buf@;
        match self.expect(123) {
            Some(_) => {},
            None => {
                return None;
            },
        }
        let start = self.i;
        let n = self.buf.len();
        let mut j = start;
        let mut depth: usize = 1;
        let mut in_str = false;
        while j < n
            invariant
                self.buf@ == s,
                s == old(self).buf@,
                start == old(self).i + 1,
                s[start - 1] == 123,
                self.buf == old(self).buf,
                self.i == start,
                start <= j <= n == s.len(),
                1 <= depth <= j - start + 1,
                object_close(s, start as int, 1, false) == object_close(
                    s,
                    j as int,
                    depth as int,
                    in_str,
                ),
            decreases n - j,
        {
            let c = self.buf[j];
            if in_str {
                if c == 92 {
                    if n - j < 2 {
                        return None;
                    }
                    j = j + 2;
                } else {
                    if c == 34 {
                        in_str = false;
                    }
                    j = j + 1;
                }
            } else if c == 34 {
                in_str = true;
                j = j + 1;
            } else if c == 123 {
                depth = depth + 1;
                j = j + 1;
            } else if c == 125 {
                depth = depth - 1;
                if depth == 0 {
                    assert(object_close(s, j as int, 1, false) == j as int);
                    self.i = j + 1;
                    return Some(());
                }
                j = j + 1;
            } else {
                j = j + 1;
            }
        }
        None
    }
}

/// The key `transaction`.
pub open spec fn key_transaction() -> Seq<u8> {
    seq![116u8, 114u8, 97u8, 110u8, 115u8, 97u8, 99u8, 116u8, 105u8, 111u8, 110u8]
}

fn key_transaction_bytes() -> (k: [u8; 11])
    ensures
        k@ == key_transaction(),
{
    let k: [u8; 11] = [116, 114, 97, 110, 115, 97, 99, 116, 105, 111, 110];
    assert(k@ =~= key_transaction());
    k
}

/// The key `customer`.
pub open spec fn key_customer() -> Seq<u8> {
    seq![99u8, 117u8, 115u8, 116u8, 111u8, 109u8, 101u8, 114u8]
}

fn key_customer_bytes() -> (k: [u8; 8])
    ensures
        k@ == key_customer(),
{
    let k: [u8; 8] = [99, 117, 115, 116, 111, 109, 101, 114];
    assert(k@ =~= key_customer());
    k
}

/// The key `merchant`.
pub open spec fn key_merchant() -> Seq<u8> {
    seq![109u8, 101u8, 114u8, 99u8, 104u8, 97u8, 110u8, 116u8]
}

fn key_merchant_bytes() -> (k: [u8; 8])
    ensures
        k@ == key_merchant(),
{
    let k: [u8; 8] = [109, 101, 114, 99, 104, 97, 110, 116];
    assert(k@ =~= key_merchant());
    k
}

/// The key `terminal`.
pub open spec fn key_terminal() -> Seq<u8> {
    seq![116u8, 101u8, 114u8, 109u8, 105u8, 110u8, 97u8, 108u8]
}

fn key_terminal_bytes() -> (k: [u8; 8])
    ensures
        k@ == key_terminal(),
{
    let k: [u8; 8] = [116, 101, 114, 109, 105, 110, 97, 108];
    assert(k@ =~= key_terminal());
    k
}

/// The key `last_transaction`.
pub open spec fn key_last_transaction() -> Seq<u8> {
    seq![108u8, 97u8, 115u8, 116u8, 95u8, 116u8, 114u8, 97u8, 110u8, 115u8, 97u8, 99u8, 116u8, 105u8, 111u8, 110u8]
}

fn key_last_transaction_bytes() -> (k: [u8; 16])
    ensures
        k@ == key_last_transaction(),
{
    let k: [u8; 16] = [108, 97, 115, 116, 95, 116, 114, 97, 110, 115, 97, 99, 116, 105, 111, 110];
    assert(k@ =~= key_last_transaction());
    k
}

/// The key `amount`.
pub open spec fn key_amount() -> Seq<u8> {
    seq![97u8, 109u8, 111u8, 117u8, 110u8, 116u8]
}

fn key_amount_bytes() -> (k: [u8; 6])
    ensures
        k@ == key_amount(),
{
    let k: [u8; 6] = [97, 109, 111, 117, 110, 116];
    assert(k@ =~= key_amount());
    k
}

/// The key `installments`.
pub open spec fn key_installments() -> Seq<u8> {
    seq![105u8, 110u8, 115u8, 116u8, 97u8, 108u8, 108u8, 109u8, 101u8, 110u8, 116u8, 115u8]
}

fn key_installments_bytes() -> (k: [u8; 12])
    ensures
        k@ == key_installments(),
{
    let k: [u8; 12] = [105, 110, 115, 116, 97, 108, 108, 109, 101, 110, 116, 115];
    assert(k@ =~= key_installments());
    k
}

/// The key `requested_at`.
pub open spec fn key_requested_at() -> Seq<u8> {
    seq![114u8, 101u8, 113u8, 117u8, 101u8, 115u8, 116u8, 101u8, 100u8, 95u8, 97u8, 116u8]
}

fn key_requested_at_bytes() -> (k: [u8; 12])
    ensures
        k@ == key_requested_at(),
{
    let k: [u8; 12] = [114, 101, 113, 117, 101, 115, 116, 101, 100, 95, 97, 116];
    assert(k@ =~= key_requested_at());
    k
}

/// The key `avg_amount`.
pub open spec fn key_avg_amount() -> Seq<u8> {
    seq![97u8, 118u8, 103u8, 95u8, 97u8, 109u8, 111u8, 117u8, 110u8, 116u8]
}

fn key_avg_amount_bytes() -> (k: [u8; 10])
    ensures
        k@ == key_avg_amount(),
{
    let k: [u8; 10] = [97, 118, 103, 95, 97, 109, 111, 117, 110, 116];
    assert(k@ =~= key_avg_amount());
    k
}

/// The key `tx_count_24h`.
pub open spec fn key_tx_count_24h() -> Seq<u8> {
    seq![116u8, 120u8, 95u8, 99u8, 111u8, 117u8, 110u8, 116u8, 95u8, 50u8, 52u8, 104u8]
}

fn key_tx_count_24h_bytes() -> (k: [u8; 12])
    ensures
        k@ == key_tx_count_24h(),
{
    let k: [u8; 12] = [116, 120, 95, 99, 111, 117, 110, 116, 95, 50, 52, 104];
    assert(k@ =~= key_tx_count_24h());
    k
}

/// The key `known_merchants`.
pub open spec fn key_known_merchants() -> Seq<u8> {
    seq![107u8, 110u8, 111u8, 119u8, 110u8, 95u8, 109u8, 101u8, 114u8, 99u8, 104u8, 97u8, 110u8, 116u8, 115u8]
}

fn key_known_merchants_bytes() -> (k: [u8; 15])
    ensures
        k@ == key_known_merchants(),
{
    let k: [u8; 15] = [107, 110, 111, 119, 110, 95, 109, 101, 114, 99, 104, 97, 110, 116, 115];
    assert(k@ =~= key_known_merchants());
    k
}

/// The key `id`.
pub open spec fn key_id() -> Seq<u8> {
    seq![105u8, 100u8]
}

fn key_id_bytes() -> (k: [u8; 2])
    ensures
        k@ == key_id(),
{
    let k: [u8; 2] = [105, 100];
    assert(k@ =~= key_id());
    k
}

/// The key `mcc`.
pub open spec fn key_mcc() -> Seq<u8> {
    seq![109u8, 99u8, 99u8]
}

fn key_mcc_bytes() -> (k: [u8; 3])
    ensures
        k@ == key_mcc(),
{
    let k: [u8; 3] = [109, 99, 99];
    assert(k@ =~= key_mcc());
    k
}

/// The key `is_online`.
pub open spec fn key_is_online() -> Seq<u8> {
    seq![105u8, 115u8, 95u8, 111u8, 110u8, 108u8, 105u8, 110u8, 101u8]
}

fn key_is_online_bytes() -> (k: [u8; 9])
    ensures
        k@ == key_is_online(),
{
    let k: [u8; 9] = [105, 115, 95, 111, 110, 108, 105, 110, 101];
    assert(k@ =~= key_is_online());
    k
}

/// The key `card_present`.
pub open spec fn key_card_present() -> Seq<u8> {
    seq![99u8, 97u8, 114u8, 100u8, 95u8, 112u8, 114u8, 101u8, 115u8, 101u8, 110u8, 116u8]
}

fn key_card_present_bytes() -> (k: [u8; 12])
    ensures
        k@ == key_card_present(),
{
    let k: [u8; 12] = [99, 97, 114, 100, 95, 112, 114, 101, 115, 101, 110, 116];
    assert(k@ =~= key_card_present());
    k
}

/// The key `km_from_home`.
pub open spec fn key_km_from_home() -> Seq<u8> {
    seq![107u8, 109u8, 95u8, 102u8, 114u8, 111u8, 109u8, 95u8, 104u8, 111u8, 109u8, 101u8]
}

fn key_km_from_home_bytes() -> (k: [u8; 12])
    ensures
        k@ == key_km_from_home(),
{
    let k: [u8; 12] = [107, 109, 95, 102, 114, 111, 109, 95, 104, 111, 109, 101];
    assert(k@ =~= key_km_from_home());
    k
}

/// The key `timestamp`.
pub open spec fn key_timestamp() -> Seq<u8> {
    seq![116u8, 105u8, 109u8, 101u8, 115u8, 116u8, 97u8, 109u8, 112u8]
}

fn key_timestamp_bytes() -> (k: [u8; 9])
    ensures
        k@ == key_timestamp(),
{
    let k: [u8; 9] = [116, 105, 109, 101, 115, 116, 97, 109, 112];
    assert(k@ =~= key_timestamp());
    k
}

/// The key `km_from_current`.
pub open spec fn key_km_from_current() -> Seq<u8> {
    seq![107u8, 109u8, 95u8, 102u8, 114u8, 111u8, 109u8, 95u8, 99u8, 117u8, 114u8, 114u8, 101u8, 110u8, 116u8]
}

fn key_km_from_current_bytes() -> (k: [u8; 15])
    ensures
        k@ == key_km_from_current(),
{
    let k: [u8; 15] = [107, 109, 95, 102, 114, 111, 109, 95, 99, 117, 114, 114, 101, 110, 116];
    assert(k@ =~= key_km_from_current());
    k
}

/// The fields of a payload as plain values.
pub struct PayloadView {
    pub amount_milli: u32,
    pub installments: u32,
    pub requested_at: Seq<u8>,
    pub customer_avg_amount_milli: u32,
    pub tx_count_24h: u32,
    pub known_merchants: Seq<u8>,
    pub merchant_id: Seq<u8>,
    pub merchant_mcc: Seq<u8>,
    pub merchant_avg_amount_milli: u32,
    pub is_online: bool,
    pub card_present: bool,
    pub km_from_home_milli: u32,
    pub last_timestamp: Option<Seq<u8>>,
    pub last_km_milli: Option<u32>,
}

impl<'a> View for RawPayload<'a> {
    type V = PayloadView;

    open spec fn view(&self) -> PayloadView {
        PayloadView {
            amount_milli: self.amount_milli,
            installments: self.installments,
            requested_at: self.requested_at@,
            customer_avg_amount_milli: self.customer_avg_amount_milli,
            tx_count_24h: self.tx_count_24h,
            known_merchants: self.known_merchants@,
            merchant_id: self.merchant_id@,
            merchant_mcc: self.merchant_mcc@,
            merchant_avg_amount_milli: self.merchant_avg_amount_milli,
            is_online: self.is_online,
            card_present: self.card_present,
            km_from_home_milli: self.km_from_home_milli,
            last_timestamp: match self.last_timestamp {
                Some(t) => Some(t@),
                None => None,
            },
            last_km_milli: self.last_km_milli,
        }
    }
}

/// Every number zero, every string empty, no previous transaction.
pub open spec fn empty_view() -> PayloadView {
    PayloadView {
        amount_milli: 0,
        installments: 0,
        requested_at: Seq::empty(),
        customer_avg_amount_milli: 0,
        tx_count_24h: 0,
        known_merchants: Seq::empty(),
        merchant_id: Seq::empty(),
        merchant_mcc: Seq::empty(),
        merchant_avg_amount_milli: 0,
        is_online: false,
        card_present: false,
        km_from_home_milli: 0,
        last_timestamp: None,
        last_km_milli: None,
    }
}

/// A number at `k`, in thousandths, and where it ends.
pub open spec fn milli_at(s: Seq<u8>, k: int) -> Option<(int, u32)> {
    let e = num_run_end(s, k);
    match parse_milli_spec(s.subrange(k, e)) {
        Some(x) => Some((e, x)),
        None => None,
    }
}

/// A run of digits at `k`, read modulo 2^32, and where it ends.
pub open spec fn u32_at(s: Seq<u8>, k: int) -> Option<(int, u32)> {
    let e = digit_run_end(s, k);
    if e > k {
        Some((e, (digits_val(s.subrange(k, e)) % 0x1_0000_0000) as u32))
    } else {
        None
    }
}

/// A string at `k`: its raw contents and where it ends.
pub open spec fn string_at(s: Seq<u8>, k: int) -> Option<(int, Seq<u8>)> {
    if 0 <= k < s.len() && s[k] == 34 && str_close(s, k + 1) >= 0 {
        Some((str_close(s, k + 1) + 1, s.subrange(k + 1, str_close(s, k + 1))))
    } else {
        None
    }
}

pub proof fn lemma_string_at_le(s: Seq<u8>, k: int)
    ensures
        string_at(s, k) matches Some((e, _)) ==> e <= s.len(),
{
    lemma_str_close_le(s, k + 1);
}

proof fn lemma_str_close_le(s: Seq<u8>, j: int)
    ensures
        str_close(s, j) < s.len(),
    decreases s.len() - j,
{
    if 0 <= j < s.len() && s[j] != 34 {
        if s[j] == 92 {
            if j + 2 <= s.len() {
                lemma_str_close_le(s, j + 2);
            }
        } else {
            lemma_str_close_le(s, j + 1);
        }
    }
}

/// An array at `k`: its raw contents and where it ends.
pub open spec fn array_at(s: Seq<u8>, k: int) -> Option<(int, Seq<u8>)> {
    if 0 <= k < s.len() && s[k] == 91 && array_close(s, k + 1, 1, false) >= 0 {
        Some(
            (
                array_close(s, k + 1, 1, false) + 1,
                s.subrange(k + 1, array_close(s, k + 1, 1, false)),
            ),
        )
    } else {
        None
    }
}

/// `true` or `false` at `k`, and where it ends.
pub open spec fn bool_at(s: Seq<u8>, k: int) -> Option<(int, bool)> {
    if at(s, k, true_word()) {
        Some((k + 4, true))
    } else if at(s, k, false_word()) {
        Some((k + 5, false))
    } else {
        None
    }
}

/// A member's key at `j`, and where its value starts after the colon.
pub open spec fn member_key(s: Seq<u8>, j: int) -> Option<(Seq<u8>, int)> {
    match string_at(s, j) {
        None => None,
        Some((c, key)) => {
            let j2 = skip_ws_spec(s, c);
            if j2 < s.len() && s[j2] == 58 {
                Some((key, skip_ws_spec(s, j2 + 1)))
            } else {
                None
            }
        },
    }
}

/// Past the whitespace after a member and a comma that may follow.
pub open spec fn finish_spec(s: Seq<u8>, e: int) -> int {
    let j = skip_ws_spec(s, e);
    if j < s.len() && s[j] == 44 {
        j + 1
    } else {
        j
    }
}

/// The kinds of nested objects the scorer reads.
pub open spec fn kind_transaction() -> int {
    0
}

pub open spec fn kind_customer() -> int {
    1
}

pub open spec fn kind_merchant() -> int {
    2
}

pub open spec fn kind_terminal() -> int {
    3
}

pub open spec fn kind_last() -> int {
    4
}

/// Reads the value of member `key` of an object of the given kind starting
/// at `k` into `v`; values of other keys are skipped.
pub open spec fn member_value(kind: int, s: Seq<u8>, k: int, key: Seq<u8>, v: PayloadView) -> Option<
    (int, PayloadView),
> {
    if kind == 0 && key == key_amount() {
        match milli_at(s, k) {
            Some((e, x)) => Some((e, PayloadView { amount_milli: x, ..v })),
            None => None,
        }
    } else if kind == 0 && key == key_installments() {
        match u32_at(s, k) {
            Some((e, x)) => Some((e, PayloadView { installments: x, ..v })),
            None => None,
        }
    } else if kind == 0 && key == key_requested_at() {
        match string_at(s, k) {
            Some((e, x)) => Some((e, PayloadView { requested_at: x, ..v })),
            None => None,
        }
    } else if kind == 1 && key == key_avg_amount() {
        match milli_at(s, k) {
            Some((e, x)) => Some((e, PayloadView { customer_avg_amount_milli: x, ..v })),
            None => None,
        }
    } else if kind == 1 && key == key_tx_count_24h() {
        match u32_at(s, k) {
            Some((e, x)) => Some((e, PayloadView { tx_count_24h: x, ..v })),
            None => None,
        }
    } else if kind == 1 && key == key_known_merchants() {
        match array_at(s, k) {
            Some((e, x)) => Some((e, PayloadView { known_merchants: x, ..v })),
            None => None,
        }
    } else if kind == 2 && key == key_id() {
        match string_at(s, k) {
            Some((e, x)) => Some((e, PayloadView { merchant_id: x, ..v })),
            None => None,
        }
    } else if kind == 2 && key == key_mcc() {
        match string_at(s, k) {
            Some((e, x)) => Some((e, PayloadView { merchant_mcc: x, ..v })),
            None => None,
        }
    } else if kind == 2 && key == key_avg_amount() {
        match milli_at(s, k) {
            Some((e, x)) => Some((e, PayloadView { merchant_avg_amount_milli: x, ..v })),
            None => None,
        }
    } else if kind == 3 && key == key_is_online() {
        match bool_at(s, k) {
            Some((e, x)) => Some((e, PayloadView { is_online: x, ..v })),
            None => None,
        }
    } else if kind == 3 && key == key_card_present() {
        match bool_at(s, k) {
            Some((e, x)) => Some((e, PayloadView { card_present: x, ..v })),
            None => None,
        }
    } else if kind == 3 && key == key_km_from_home() {
        match milli_at(s, k) {
            Some((e, x)) => Some((e, PayloadView { km_from_home_milli: x, ..v })),
            None => None,
        }
    } else if kind == 4 && key == key_timestamp() {
        match string_at(s, k) {
            Some((e, x)) => Some((e, PayloadView { last_timestamp: Some(x), ..v })),
            None => None,
        }
    } else if kind == 4 && key == key_km_from_current() {
        match milli_at(s, k) {
            Some((e, x)) => Some((e, PayloadView { last_km_milli: Some(x), ..v })),
            None => None,
        }
    } else {
        match value_end(s, k) {
            Some(e) => Some((e, v)),
            None => None,
        }
    }
}

/// `v2` agrees with `v` on every field but the one numbered `f` (in the
/// order of `PayloadView`'s fields, from 0).
pub open spec fn agree_except(v: PayloadView, v2: PayloadView, f: int) -> bool {
    &&& (f != 0 ==> v2.amount_milli == v.amount_milli)
    &&& (f != 1 ==> v2.installments == v.installments)
    &&& (f != 2 ==> v2.requested_at == v.requested_at)
    &&& (f != 3 ==> v2.customer_avg_amount_milli == v.customer_avg_amount_milli)
    &&& (f != 4 ==> v2.tx_count_24h == v.tx_count_24h)
    &&& (f != 5 ==> v2.known_merchants == v.known_merchants)
    &&& (f != 6 ==> v2.merchant_id == v.merchant_id)
    &&& (f != 7 ==> v2.merchant_mcc == v.merchant_mcc)
    &&& (f != 8 ==> v2.merchant_avg_amount_milli == v.merchant_avg_amount_milli)
    &&& (f != 9 ==> v2.is_online == v.is_online)
    &&& (f != 10 ==> v2.card_present == v.card_present)
    &&& (f != 11 ==> v2.km_from_home_milli == v.km_from_home_milli)
    &&& (f != 12 ==> v2.last_timestamp == v.last_timestamp)
    &&& (f != 13 ==> v2.last_km_milli == v.last_km_milli)
}

/// Reading one member sets exactly the field its object and key name to the
/// value written after the colon (a number in thousandths, a digit run, a
/// string's contents, an array's contents or a boolean), and leaves every
/// other field as it was; a member the scorer does not read changes nothing.
pub proof fn lemma_member_sets_its_field(kind: int, s: Seq<u8>, k: int, key: Seq<u8>, v: PayloadView)
    ensures
        member_value(kind, s, k, key, v) matches Some((e, v2)) ==> {
            let num = parse_milli_spec(s.subrange(k, num_run_end(s, k)));
            let st = string_at(s, k);
            &&& (kind == 0 && key == key_amount() ==> num == Some(v2.amount_milli) && agree_except(v, v2, 0))
            &&& (kind == 0 && key == key_installments() ==> u32_at(s, k) == Some((e, v2.installments))
                && agree_except(v, v2, 1))
            &&& (kind == 0 && key == key_requested_at() ==> st == Some((e, v2.requested_at))
                && agree_except(v, v2, 2))
            &&& (kind == 1 && key == key_avg_amount() ==> num == Some(v2.customer_avg_amount_milli)
                && agree_except(v, v2, 3))
            &&& (kind == 1 && key == key_tx_count_24h() ==> u32_at(s, k) == Some((e, v2.tx_count_24h))
                && agree_except(v, v2, 4))
            &&& (kind == 1 && key == key_known_merchants() ==> array_at(s, k) == Some((e, v2.known_merchants))
                && agree_except(v, v2, 5))
            &&& (kind == 2 && key == key_id() ==> st == Some((e, v2.merchant_id)) && agree_except(v, v2, 6))
            &&& (kind == 2 && key == key_mcc() ==> st == Some((e, v2.merchant_mcc)) && agree_except(v, v2, 7))
            &&& (kind == 2 && key == key_avg_amount() ==> num == Some(v2.merchant_avg_amount_milli)
                && agree_except(v, v2, 8))
            &&& (kind == 3 && key == key_is_online() ==> bool_at(s, k) == Some((e, v2.is_online))
                && agree_except(v, v2, 9))
            &&& (kind == 3 && key == key_card_present() ==> bool_at(s, k) == Some((e, v2.card_present))
                && agree_except(v, v2, 10))
            &&& (kind == 3 && key == key_km_from_home() ==> num == Some(v2.km_from_home_milli)
                && agree_except(v, v2, 11))
            &&& (kind == 4 && key == key_timestamp() ==> (match st {
                Some((e2, t)) => e2 == e && v2.last_timestamp == Some(t),
                None => false,
            }) && agree_except(v, v2, 12))
            &&& (kind == 4 && key == key_km_from_current() ==> (match num {
                Some(x) => v2.last_km_milli == Some(x),
                None => false,
            }) && agree_except(v, v2, 13))
            &&& (!(0 <= kind <= 4) ==> v2 == v)
        },
        // A number the scorer reads is taken whenever it parses.
        (kind == 2 && key == key_avg_amount()) ==> (member_value(kind, s, k, key, v) is Some <==> parse_milli_spec(
            s.subrange(k, num_run_end(s, k)),
        ) is Some),
{
}

/// Reads the members of an object of the given kind from `i` up to and
/// including its closing brace.
pub open spec fn members(kind: int, s: Seq<u8>, i: int, v: PayloadView) -> Option<(int, PayloadView)>
    decreases s.len() - i,
{
    let j = skip_ws_spec(s, i);
    if j < s.len() && s[j] == 125 {
        Some((j + 1, v))
    } else {
        match member_key(s, j) {
            None => None,
            Some((key, k)) => match member_value(kind, s, k, key, v) {
                None => None,
                Some((e, v2)) => {
                    let n = finish_spec(s, e);
                    if i < n <= s.len() {
                        members(kind, s, n, v2)
                    } else {
                        None
                    }
                },
            },
        }
    }
}

/// Reads an object of the given kind that starts at `i`.
pub open spec fn object_spec(kind: int, s: Seq<u8>, i: int, v: PayloadView) -> Option<
    (int, PayloadView),
> {
    if 0 <= i < s.len() && s[i] == 123 {
        members(kind, s, i + 1, v)
    } else {
        None
    }
}

/// Reads `last_transaction`: `null`, or an object.
pub open spec fn last_spec(s: Seq<u8>, i: int, v: PayloadView) -> Option<(int, PayloadView)> {
    let j = skip_ws_spec(s, i);
    if at(s, j, null_word()) {
        Some((j + 4, v))
    } else {
        object_spec(4, s, j, v)
    }
}

/// Reads the value of a top-level member.
pub open spec fn top_value(s: Seq<u8>, k: int, key: Seq<u8>, v: PayloadView) -> Option<
    (int, PayloadView),
> {
    if key == key_transaction() {
        object_spec(0, s, k, v)
    } else if key == key_customer() {
        object_spec(1, s, k, v)
    } else if key == key_merchant() {
        object_spec(2, s, k, v)
    } else if key == key_terminal() {
        object_spec(3, s, k, v)
    } else if key == key_last_transaction() {
        last_spec(s, k, v)
    } else {
        match value_end(s, k) {
            Some(e) => Some((e, v)),
            None => None,
        }
    }
}

/// Reads the top-level members from `i` until a closing brace or the end of
/// the body.
pub open spec fn top_members(s: Seq<u8>, i: int, v: PayloadView) -> Option<PayloadView>
    decreases s.len() - i,
{
    if i >= s.len() {
        Some(v)
    } else {
        let j = skip_ws_spec(s, i);
        if j < s.len() && s[j] == 125 {
            Some(v)
        } else {
            match member_key(s, j) {
                None => None,
                Some((key, k)) => match top_value(s, k, key, v) {
                    None => None,
                    Some((e, v2)) => {
                        let n = finish_spec(s, e);
                        if i < n <= s.len() {
                            top_members(s, n, v2)
                        } else {
                            None
                        }
                    },
                },
            }
        }
    }
}

/// The fields a body holds: it starts with `{`, and every member is read in
/// turn, a later occurrence of a key overriding an earlier one.
pub open spec fn extract_spec(s: Seq<u8>) -> Option<PayloadView> {
    if s.len() > 0 && s[0] == 123 {
        top_members(s, 1, empty_view())
    } else {
        None
    }
}

/// Reads `"key"`, the colon and the whitespace around it; the key's raw
/// bytes come back.
fn read_member_key<'a>(sc: &mut Scanner<'a>) -> (r: Option<&'a [u8]>)
    requires
        old(sc).wf(),
    ensures
        final(sc).wf(),
        final(sc).buf == old(sc).buf,
        r is Some <==> member_key(old(sc).buf@, old(sc).i as int) is Some,
        r matches Some(k) ==> member_key(old(sc).buf@, old(sc).i as int) == Some(
            (k@, final(sc).i as int),
        ),
        r is Some ==> final(sc).i > old(sc).i,
{
    let ghost i0 = sc.i;
    let k = match sc.read_string() {
        Some(k) => k,
        None => {
            return None;
        },
    };
    proof {
        lemma_str_close_ge(sc.buf@, i0 + 1);
    }
    let ghost i1 = sc.i;
    sc.skip_ws();
    proof {
        lemma_skip_ws_ge(sc.buf@, i1 as int);
    }
    match sc.expect(58) {
        Some(_) => {},
        None => {
            return None;
        },
    }
    let ghost i2 = sc.i;
    sc.skip_ws();
    proof {
        lemma_skip_ws_ge(sc.buf@, i2 as int);
    }
    Some(k)
}

/// Skips the whitespace after a member and the comma that may follow.
fn finish_member(sc: &mut Scanner)
    requires
        old(sc).wf(),
    ensures
        final(sc).wf(),
        final(sc).buf == old(sc).buf,
        final(sc).i == finish_spec(old(sc).buf@, old(sc).i as int),
        final(sc).i >= old(sc).i,
{
    let ghost i0 = sc.i;
    sc.skip_ws();
    proof {
        lemma_skip_ws_ge(sc.buf@, i0 as int);
    }
    if sc.peek() == Some(44u8) {
        sc.bump();
    }
}

/// At `}` after optional whitespace: consumes both and reports true.
fn close_object(sc: &mut Scanner) -> (r: bool)
    requires
        old(sc).wf(),
    ensures
        final(sc).wf(),
        final(sc).buf == old(sc).buf,
        ({
            let s = old(sc).buf@;
            let j = skip_ws_spec(s, old(sc).i as int);
            &&& r == (j < s.len() && s[j] == 125)
            &&& r ==> final(sc).i == j + 1
            &&& !r ==> final(sc).i == j
        }),
        final(sc).i >= old(sc).i,
{
    let ghost i0 = sc.i;
    sc.skip_ws();
    proof {
        lemma_skip_ws_ge(sc.buf@, i0 as int);
    }
    if sc.peek() == Some(125u8) {
        sc.bump();
        true
    } else {
        false
    }
}

/// Skips a value of a key the scorer does not read.
fn skip_member_value(sc: &mut Scanner) -> (r: Option<()>)
    requires
        old(sc).wf(),
    ensures
        final(sc).wf(),
        final(sc).buf == old(sc).buf,
        r is Some <==> value_end(old(sc).buf@, old(sc).i as int) is Some,
        r is Some ==> value_end(old(sc).buf@, old(sc).i as int) == Some(final(sc).i as int),
        r is Some ==> final(sc).i > old(sc).i,
{
    let ghost i0 = sc.i;
    let r = sc.skip_value();
    proof {
        lemma_value_end_ge(sc.buf@, i0 as int);
    }
    r
}

/// Reads the value of one member into the payload.
fn read_member_value<'a>(sc: &mut Scanner<'a>, p: &mut RawPayload<'a>, kind: u8, key: &[u8]) -> (r:
    Option<()>)
    requires
        old(sc).wf(),
    ensures
        final(sc).wf(),
        final(sc).buf == old(sc).buf,
        final(p).cache == old(p).cache,
        r is Some <==> member_value(kind as int, old(sc).buf@, old(sc).i as int, key@, old(p)@) is Some,
        r is Some ==> member_value(kind as int, old(sc).buf@, old(sc).i as int, key@, old(p)@)
            == Some((final(sc).i as int, final(p)@)),
        r is Some ==> final(sc).i > old(sc).i,
{
    let ghost i0 = sc.i;
    if kind == 0 && bytes_eq(key, &key_amount_bytes()) {
        match sc.read_milli() {
            Some(v) => {
                p.amount_milli = v;
            },
            None => {
                return None;
            },
        }
            proof {
                lemma_num_run_ge(sc.buf@, i0 as int);
                if sc.i == i0 {
                    assert(sc.buf@.subrange(i0 as int, i0 as int).len() == 0);
                }
            }
        Some(())
    } else if kind == 0 && bytes_eq(key, &key_installments_bytes()) {
        match sc.read_u32() {
            Some(v) => {
                p.installments = v;
            },
            None => {
                return None;
            },
        }
        Some(())
    } else if kind == 0 && bytes_eq(key, &key_requested_at_bytes()) {
        match sc.read_string() {
            Some(v) => {
                p.requested_at = v;
            },
            None => {
                return None;
            },
        }
            proof {
                lemma_str_close_ge(sc.buf@, i0 + 1);
            }
        Some(())
    } else if kind == 1 && bytes_eq(key, &key_avg_amount_bytes()) {
        match sc.read_milli() {
            Some(v) => {
                p.customer_avg_amount_milli = v;
            },
            None => {
                return None;
            },
        }
            proof {
                lemma_num_run_ge(sc.buf@, i0 as int);
                if sc.i == i0 {
                    assert(sc.buf@.subrange(i0 as int, i0 as int).len() == 0);
                }
            }
        Some(())
    } else if kind == 1 && bytes_eq(key, &key_tx_count_24h_bytes()) {
        match sc.read_u32() {
            Some(v) => {
                p.tx_count_24h = v;
            },
            None => {
                return None;
            },
        }
        Some(())
    } else if kind == 1 && bytes_eq(key, &key_known_merchants_bytes()) {
        match sc.read_array_raw() {
            Some(v) => {
                p.known_merchants = v;
            },
            None => {
                return None;
            },
        }
            proof {
                lemma_array_close_ge(sc.buf@, i0 + 1, 1, false);
            }
        Some(())
    } else if kind == 2 && bytes_eq(key, &key_id_bytes()) {
        match sc.read_string() {
            Some(v) => {
                p.merchant_id = v;
            },
            None => {
                return None;
            },
        }
            proof {
                lemma_str_close_ge(sc.buf@, i0 + 1);
            }
        Some(())
    } else if kind == 2 && bytes_eq(key, &key_mcc_bytes()) {
        match sc.read_string() {
            Some(v) => {
                p.merchant_mcc = v;
            },
            None => {
                return None;
            },
        }
            proof {
                lemma_str_close_ge(sc.buf@, i0 + 1);
            }
        Some(())
    } else if kind == 2 && bytes_eq(key, &key_avg_amount_bytes()) {
        match sc.read_milli() {
            Some(v) => {
                p.merchant_avg_amount_milli = v;
            },
            None => {
                return None;
            },
        }
            proof {
                lemma_num_run_ge(sc.buf@, i0 as int);
                if sc.i == i0 {
                    assert(sc.buf@.subrange(i0 as int, i0 as int).len() == 0);
                }
            }
        Some(())
    } else if kind == 3 && bytes_eq(key, &key_is_online_bytes()) {
        match sc.read_bool() {
            Some(v) => {
                p.is_online = v;
            },
            None => {
                return None;
            },
        }
        Some(())
    } else if kind == 3 && bytes_eq(key, &key_card_present_bytes()) {
        match sc.read_bool() {
            Some(v) => {
                p.card_present = v;
            },
            None => {
                return None;
            },
        }
        Some(())
    } else if kind == 3 && bytes_eq(key, &key_km_from_home_bytes()) {
        match sc.read_milli() {
            Some(v) => {
                p.km_from_home_milli = v;
            },
            None => {
                return None;
            },
        }
            proof {
                lemma_num_run_ge(sc.buf@, i0 as int);
                if sc.i == i0 {
                    assert(sc.buf@.subrange(i0 as int, i0 as int).len() == 0);
                }
            }
        Some(())
    } else if kind == 4 && bytes_eq(key, &key_timestamp_bytes()) {
        match sc.read_string() {
            Some(v) => {
                p.last_timestamp = Some(v);
            },
            None => {
                return None;
            },
        }
            proof {
                lemma_str_close_ge(sc.buf@, i0 + 1);
            }
        Some(())
    } else if kind == 4 && bytes_eq(key, &key_km_from_current_bytes()) {
        match sc.read_milli() {
            Some(v) => {
                p.last_km_milli = Some(v);
            },
            None => {
                return None;
            },
        }
            proof {
                lemma_num_run_ge(sc.buf@, i0 as int);
                if sc.i == i0 {
                    assert(sc.buf@.subrange(i0 as int, i0 as int).len() == 0);
                }
            }
        Some(())
    } else {
        skip_member_value(sc)
    }
}

/// Reads an object of the given kind into the payload.
fn parse_object<'a>(sc: &mut Scanner<'a>, p: &mut RawPayload<'a>, kind: u8) -> (r: Option<()>)
    requires
        old(sc).wf(),
    ensures
        final(sc).wf(),
        final(sc).buf == old(sc).buf,
        final(p).cache == old(p).cache,
        r is Some <==> object_spec(kind as int, old(sc).buf@, old(sc).i as int, old(p)@) is Some,
        r is Some ==> object_spec(kind as int, old(sc).buf@, old(sc).i as int, old(p)@) == Some(
            (final(sc).i as int, final(p)@),
        ),
        r is Some ==> final(sc).i > old(sc).i,
{
    let ghost s = sc.buf@;
    let ghost v0 = p@;
    match sc.expect(123) {
        Some(_) => {},
        None => {
            return None;
        },
    }
    let ghost start = sc.i;
    loop
        invariant
            sc.wf(),
            sc.buf == old(sc).buf,
            s == sc.buf@,
            start == old(sc).i + 1,
            sc.i >= start,
            0 <= old(sc).i < s.len() && s[old(sc).i as int] == 123,
            v0 == old(p)@,
            p.cache == old(p).cache,
            members(kind as int, s, start as int, v0) == members(kind as int, s, sc.i as int, p@),
        decreases s.len() - sc.i,
    {
        let ghost it = sc.i;
        if close_object(sc) {
            return Some(());
        }
        let k = match read_member_key(sc) {
            Some(k) => k,
            None => {
                return None;
            },
        };
        match read_member_value(sc, p, kind, k) {
            Some(_) => {},
            None => {
                return None;
            },
        }
        finish_member(sc);
    }
}

/// Reads `last_transaction`: `null` leaves the payload as it is.
fn parse_last_transaction<'a>(sc: &mut Scanner<'a>, p: &mut RawPayload<'a>) -> (r: Option<()>)
    requires
        old(sc).wf(),
    ensures
        final(sc).wf(),
        final(sc).buf == old(sc).buf,
        final(p).cache == old(p).cache,
        r is Some <==> last_spec(old(sc).buf@, old(sc).i as int, old(p)@) is Some,
        r is Some ==> last_spec(old(sc).buf@, old(sc).i as int, old(p)@) == Some(
            (final(sc).i as int, final(p)@),
        ),
        r is Some ==> final(sc).i > old(sc).i,
{
    let ghost i00 = sc.i;
    sc.skip_ws();
    proof {
        lemma_skip_ws_ge(sc.buf@, i00 as int);
    }
    let null: [u8; 4] = [110, 117, 108, 108];
    assert(null@ =~= null_word());
    if sc.peek_word(&null) {
        sc.advance(4);
        return Some(());
    }
    parse_object(sc, p, 4)
}

/// Reads the value of a top-level member.
fn parse_top_value<'a>(sc: &mut Scanner<'a>, p: &mut RawPayload<'a>, key: &[u8]) -> (r: Option<()>)
    requires
        old(sc).wf(),
    ensures
        final(sc).wf(),
        final(sc).buf == old(sc).buf,
        final(p).cache == old(p).cache,
        r is Some <==> top_value(old(sc).buf@, old(sc).i as int, key@, old(p)@) is Some,
        r is Some ==> top_value(old(sc).buf@, old(sc).i as int, key@, old(p)@) == Some(
            (final(sc).i as int, final(p)@),
        ),
        r is Some ==> final(sc).i > old(sc).i,
{
    if bytes_eq(key, &key_transaction_bytes()) {
        parse_object(sc, p, 0)
    } else if bytes_eq(key, &key_customer_bytes()) {
        parse_object(sc, p, 1)
    } else if bytes_eq(key, &key_merchant_bytes()) {
        parse_object(sc, p, 2)
    } else if bytes_eq(key, &key_terminal_bytes()) {
        parse_object(sc, p, 3)
    } else if bytes_eq(key, &key_last_transaction_bytes()) {
        parse_last_transaction(sc, p)
    } else {
        skip_member_value(sc)
    }
}

/// Extracts the scorer's fields from a JSON body and derives the cached
/// values that need no timestamp. `None` when the body does not start with
/// `{` or a member it reads is malformed.
pub fn extract<'a>(body: &'a [u8]) -> (r: Option<RawPayload<'a>>)
    ensures
        r is Some <==> extract_spec(body@) is Some,
        r matches Some(p) ==> extract_spec(body@) == Some(p@) && p.cache == base_cache(p@),
{
    let mut p = RawPayload::empty();
    let mut sc = Scanner::new(body);
    match sc.expect(123) {
        Some(_) => {},
        None => {
            return None;
        },
    }
    proof {
        assert(p.requested_at@ =~= Seq::<u8>::empty());
        assert(p.known_merchants@ =~= Seq::<u8>::empty());
        assert(p.merchant_id@ =~= Seq::<u8>::empty());
        assert(p.merchant_mcc@ =~= Seq::<u8>::empty());
        assert(p@ == empty_view());
    }
    while !sc.at_end()
        invariant
            sc.wf(),
            sc.buf == body,
            sc.i >= 1,
            body@.len() > 0 && body@[0] == 123,
            top_members(body@, 1, empty_view()) == top_members(body@, sc.i as int, p@),
        decreases sc.buf@.len() - sc.i,
    {
        let ghost it = sc.i;
        let ghost i0 = sc.i;
        sc.skip_ws();
        proof {
            lemma_skip_ws_ge(sc.buf@, i0 as int);
        }
        if sc.peek() == Some(125u8) {
            sc.bump();
            p.cache = fill_base(&p);
            return Some(p);
        }
        let k = match read_member_key(&mut sc) {
            Some(k) => k,
            None => {
                return None;
            },
        };
        match parse_top_value(&mut sc, &mut p, k) {
            Some(_) => {},
            None => {
                return None;
            },
        }
        finish_member(&mut sc);
    }
    p.cache = fill_base(&p);
    Some(p)
}

} // verus!
