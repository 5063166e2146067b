//! The load balancer's choice of upstream: round robin, then the others in
//! turn when a hand-off fails.

use vstd::prelude::*;

verus! {

/// The upstream tried first for the connection numbered `rr_next`, and the
/// counter for the next connection (wrapping).
pub fn pick_upstream(rr_next: u32, upstream_count: usize) -> (r: (usize, u32))
    requires
        0 < upstream_count <= u32::MAX,
    ensures
        r.0 == (rr_next as int) % (upstream_count as int),
        r.0 < upstream_count,
        r.1 == vstd::wrapping::u32_specs::wrapping_add(rr_next, 1),
{
    let first = (rr_next % (upstream_count as u32)) as usize;
    (first, rr_next.wrapping_add(1))
}

/// The order in which upstreams are tried for one connection: the first
/// pick, then each following one, wrapping around.
pub fn failover_order(first: usize, upstream_count: usize) -> (order: Vec<usize>)
    requires
        first < upstream_count,
    ensures
        order@.len() == upstream_count,
        forall|k: int| 0 <= k < upstream_count ==> #[trigger] order@[k] == (first + k) % (
        upstream_count as int),
{
    let mut order: Vec<usize> = Vec::new();
    let mut offset: usize = 0;
    while offset < upstream_count
        invariant
            first < upstream_count,
            offset <= upstream_count,
            order@.len() == offset,
            forall|k: int| 0 <= k < offset ==> #[trigger] order@[k] == (first + k) % (
            upstream_count as int),
        decreases upstream_count - offset,
    {
        let next = if first < upstream_count - offset {
            first + offset
        } else {
            first - (upstream_count - offset)
        };
        proof {
            let m = upstream_count as int;
            let x = first + offset;
            if x < m {
                vstd::arithmetic::div_mod::lemma_small_mod(x as nat, m as nat);
            } else {
                vstd::arithmetic::div_mod::lemma_small_mod((x - m) as nat, m as nat);
                vstd::arithmetic::div_mod::lemma_mod_sub_multiples_vanish(x, m);
            }
        }
        order.push(next);
        offset = offset + 1;
    }
    order
}

/// The upstream tried at step `k` when the first pick is `first`.
pub open spec fn try_at(first: int, k: int, count: int) -> int {
    (first + k) % count
}

/// Every upstream appears exactly once in the failover order.
pub proof fn lemma_failover_covers_all(first: int, count: int, u: int)
    requires
        0 <= first < count,
        0 <= u < count,
    ensures
        exists|k: int| 0 <= k < count && #[trigger] try_at(first, k, count) == u,
        forall|k1: int, k2: int|
            0 <= k1 < count && 0 <= k2 < count && #[trigger] try_at(first, k1, count) == u
                && #[trigger] try_at(first, k2, count) == u ==> k1 == k2,
{
    let k = if u >= first {
        u - first
    } else {
        u - first + count
    };
    if u >= first {
        vstd::arithmetic::div_mod::lemma_small_mod(u as nat, count as nat);
    } else {
        vstd::arithmetic::div_mod::lemma_small_mod(u as nat, count as nat);
        vstd::arithmetic::div_mod::lemma_mod_add_multiples_vanish(u, count);
    }
    assert(try_at(first, k, count) == u);
    assert forall|k1: int, k2: int|
        0 <= k1 < count && 0 <= k2 < count && #[trigger] try_at(first, k1, count) == u
            && #[trigger] try_at(first, k2, count) == u implies k1 == k2 by {
        lemma_mod_offset(first + k1, count);
        lemma_mod_offset(first + k2, count);
    }
}

proof fn lemma_mod_offset(x: int, m: int)
    requires
        0 <= x < 2 * m,
        m > 0,
    ensures
        x < m ==> x % m == x,
        x >= m ==> x % m == x - m,
{
    if x < m {
        vstd::arithmetic::div_mod::lemma_small_mod(x as nat, m as nat);
    } else {
        vstd::arithmetic::div_mod::lemma_small_mod((x - m) as nat, m as nat);
        vstd::arithmetic::div_mod::lemma_mod_sub_multiples_vanish(x, m);
    }
}

/// Busy-poll microseconds and budget of a named epoll profile (`A` to `D`,
/// either case); any other name gets profile `B`.
pub fn epoll_profile_defaults(profile: &[u8]) -> (r: (u32, u16))
    ensures
        profile@.len() == 1 && (profile@[0] == 65 || profile@[0] == 97) ==> r == (10u32, 4u16),
        profile@.len() == 1 && (profile@[0] == 67 || profile@[0] == 99) ==> r == (50u32, 16u16),
        profile@.len() == 1 && (profile@[0] == 68 || profile@[0] == 100) ==> r == (100u32, 32u16),
        !(profile@.len() == 1 && (profile@[0] == 65 || profile@[0] == 97 || profile@[0] == 67
            || profile@[0] == 99 || profile@[0] == 68 || profile@[0] == 100)) ==> r == (25u32, 8u16),
{
    if profile.len() != 1 {
        return (25, 8);
    }
    let c = profile[0];
    if c == 65 || c == 97 {
        (10, 4)
    } else if c == 67 || c == 99 {
        (50, 16)
    } else if c == 68 || c == 100 {
        (100, 32)
    } else {
        (25, 8)
    }
}

} // verus!
