//! Helpers of the offline checking tools: the approval rule of a count, and
//! cutting the raw request object out of a test-data entry.

use crate::http::{first_at, first_byte, find_byte, lemma_first_at, lemma_first_byte, slice_range};
use crate::text::at;
use vstd::prelude::*;

verus! {

/// A count approves the transaction when at most 2 of the 5 nearest
/// references are frauds.
pub fn approved_from_count(count: u8) -> (r: bool)
    ensures
        r == (count <= 2),
{
    count <= 2
}

/// `"request"`.
pub open spec fn request_key() -> Seq<u8> {
    seq![34u8, 114u8, 101u8, 113u8, 117u8, 101u8, 115u8, 116u8, 34u8]
}

/// Index of the brace that brings the nesting back to 0, scanning from `j`
/// at nesting `depth`; -1 when it never does.
pub open spec fn brace_close(s: Seq<u8>, j: int, depth: int) -> int
    decreases s.len() - j,
{
    if j < 0 || j >= s.len() {
        -1
    } else if s[j] == 123 {
        brace_close(s, j + 1, depth + 1)
    } else if s[j] == 125 {
        if depth - 1 == 0 {
            j
        } else {
            brace_close(s, j + 1, depth - 1)
        }
    } else {
        brace_close(s, j + 1, depth)
    }
}

/// The object after the first `"request"` key: from the next `{` to the
/// brace that closes it.
pub open spec fn request_raw_spec(s: Seq<u8>) -> Option<(int, int)> {
    let k = first_at(s, request_key(), 0);
    if k >= s.len() {
        None
    } else {
        let obj = first_byte(s, 123, k);
        if obj >= s.len() {
            None
        } else {
            let c = brace_close(s, obj, 0);
            if c >= 0 {
                Some((obj, c + 1))
            } else {
                None
            }
        }
    }
}

/// Cuts the raw `request` object out of a test-data entry; braces inside
/// strings are not told apart.
pub fn extract_request_raw(entry: &[u8]) -> (r: Option<&[u8]>)
    ensures
        r is Some <==> request_raw_spec(entry@) is Some,
        r matches Some(v) ==> request_raw_spec(entry@) matches Some((a, b)) && v@ == entry@.subrange(
            a,
            b,
        ),
{
    let key: [u8; 9] = [34, 114, 101, 113, 117, 101, 115, 116, 34];
    assert(key@ =~= request_key());
    let n = entry.len();
    let k = match crate::http::find_at(entry, &key, 0) {
        Some(k) => k,
        None => {
            return None;
        },
    };
    proof {
        lemma_first_byte(entry@, 123, k as int);
    }
    let obj = match find_byte(entry, 123, k) {
        Some(o) => o,
        None => {
            return None;
        },
    };
    let mut depth: i128 = 0;
    let mut j = obj;
    while j < n
        invariant
            obj <= j <= n == entry@.len(),
            obj < n,
            k < n,
            k == first_at(entry@, request_key(), 0),
            obj == first_byte(entry@, 123, k as int),
            -((j - obj) as int) <= depth <= j - obj,
            brace_close(entry@, obj as int, 0) == brace_close(entry@, j as int, depth as int),
        decreases n - j,
    {
        let c = entry[j];
        if c == 123 {
            depth = depth + 1;
        } else if c == 125 {
            depth = depth - 1;
            if depth == 0 {
                return Some(slice_range(entry, obj, j + 1));
            }
        }
        j = j + 1;
    }
    None
}

} // verus!
