//! Exact 5-NN search over a partitioned KD-tree.
//!
//! Distance is squared L2 in i16-quantized space, accumulated as i64.
//! Every node carries an axis-aligned box; the lower bound of the query's
//! distance to anything in a subtree is `lower_bound_vec(query, min, max)`.
//! A subtree whose bound reaches the current 5th-best distance is skipped.

use vstd::prelude::*;
use vstd::multiset::Multiset;
use crate::bytes::{le_i16, le_i32, read_i16_le, read_i32_le};
use crate::index::{Index, IndexView, range_ms, box_within, read_vec16, header_len_fact};
use crate::quantize::{
    in_box, lb_sum, sq_dist, lower_bound_vec_cutoff, partition_key, lemma_lower_bound_sound,
    QueryVector, BLOCK_BYTES, HEADER_SIZE, NODE_SIZE, PACKED_DIMS, PART_SIZE, TOP_K, VECTOR_DIM,
};

verus! {

// ---------------------------------------------------------------------------
// The top-5 table
// ---------------------------------------------------------------------------

/// Position at which a distance `d` enters the sorted table `ds`.
pub open spec fn ins_pos(ds: Seq<i64>, d: int) -> int {
    if d < ds[0] {
        0
    } else if d < ds[1] {
        1
    } else if d < ds[2] {
        2
    } else if d < ds[3] {
        3
    } else {
        4
    }
}

/// `s` with `x` inserted at `pos`, keeping the length 5 (the last drops out).
pub open spec fn ins5<T>(s: Seq<T>, pos: int, x: T) -> Seq<T> {
    s.take(pos).push(x) + s.subrange(pos, 4)
}

/// Insert `(dist, label)` into the sorted top-5 table if it beats the 5th.
fn insert_best(dist: i64, label: u8, dists: &mut [i64; TOP_K], labels: &mut [u8; TOP_K])
    ensures
        dist >= old(dists)@[4] ==> final(dists)@ == old(dists)@ && final(labels)@ == old(
            labels,
        )@,
        dist < old(dists)@[4] ==> final(dists)@ == ins5(
            old(dists)@,
            ins_pos(old(dists)@, dist as int),
            dist,
        ) && final(labels)@ == ins5(old(labels)@, ins_pos(old(dists)@, dist as int), label),
{
    if dist >= dists[4] {
        return;
    }
    let ghost d0 = dists@;
    let ghost l0 = labels@;
    if dist < dists[0] {
        dists[4] = dists[3];
        labels[4] = labels[3];
        dists[3] = dists[2];
        labels[3] = labels[2];
        dists[2] = dists[1];
        labels[2] = labels[1];
        dists[1] = dists[0];
        labels[1] = labels[0];
        dists[0] = dist;
        labels[0] = label;
    } else if dist < dists[1] {
        dists[4] = dists[3];
        labels[4] = labels[3];
        dists[3] = dists[2];
        labels[3] = labels[2];
        dists[2] = dists[1];
        labels[2] = labels[1];
        dists[1] = dist;
        labels[1] = label;
    } else if dist < dists[2] {
        dists[4] = dists[3];
        labels[4] = labels[3];
        dists[3] = dists[2];
        labels[3] = labels[2];
        dists[2] = dist;
        labels[2] = label;
    } else if dist < dists[3] {
        dists[4] = dists[3];
        labels[4] = labels[3];
        dists[3] = dist;
        labels[3] = label;
    } else {
        dists[4] = dist;
        labels[4] = label;
    }
    assert(dists@ =~= ins5(d0, ins_pos(d0, dist as int), dist));
    assert(labels@ =~= ins5(l0, ins_pos(d0, dist as int), label));
}

/// Sum of the five labels of the table.
fn sum_labels(labels: &[u8; TOP_K]) -> (r: u8)
    requires
        forall|i: int| 0 <= i < TOP_K ==> labels@[i] <= 1,
    ensures
        r == labels@[0] + labels@[1] + labels@[2] + labels@[3] + labels@[4],
{
    labels[0] + labels[1] + labels[2] + labels[3] + labels[4]
}

// ---------------------------------------------------------------------------
// Specification of an exact answer
// ---------------------------------------------------------------------------

/// Sum of the labels of the slots `ks`.
pub open spec fn label_sum(v: IndexView, ks: Seq<int>) -> int
    decreases ks.len(),
{
    if ks.len() == 0 {
        0
    } else {
        label_sum(v, ks.drop_last()) + v.slot_label(ks.last()) as int
    }
}

/// `ks` is a set of nearest neighbors of `q` among the index entries: at most
/// five entries of the index, all of them when there are fewer than five, and
/// none of the entries left out is closer than one that was kept.
pub open spec fn is_knn(v: IndexView, q: Seq<i16>, ks: Seq<int>) -> bool {
    &&& ks.len() <= TOP_K
    &&& ks.to_multiset().subset_of(v.entries())
    &&& ks.len() < TOP_K ==> ks.to_multiset() =~= v.entries()
    &&& forall|i: int, y: int|
        0 <= i < ks.len() && v.entries().count(y) > ks.to_multiset().count(y) ==> v.slot_dist(
            q,
            #[trigger] ks[i],
        ) <= #[trigger] v.slot_dist(q, y)
}

/// Number of fraud labels among the exact 5 nearest entries of the index.
pub open spec fn is_knn_count(v: IndexView, q: Seq<i16>, r: int) -> bool {
    exists|ks: Seq<int>| is_knn(v, q, ks) && r == label_sum(v, ks)
}

// ---------------------------------------------------------------------------
// Search state invariant
// ---------------------------------------------------------------------------

pub open spec fn hit(ds: Seq<i64>, ids: Seq<int>, i: int, x: int) -> int {
    if ds[i] < i64::MAX && ids[i] == x {
        1
    } else {
        0
    }
}

/// How many times slot `x` is held by the real (non-sentinel) table entries.
pub open spec fn tcount(ds: Seq<i64>, ids: Seq<int>, x: int) -> int {
    hit(ds, ids, 0, x) + hit(ds, ids, 1, x) + hit(ds, ids, 2, x) + hit(ds, ids, 3, x) + hit(
        ds,
        ids,
        4,
        x,
    )
}

/// The table holds the best entries among the covered multiset `c`: sorted,
/// real entries match their slots, sentinels carry label 0, and every covered
/// entry not held is at least as far as the 5th best.
pub open spec fn good(
    v: IndexView,
    q: Seq<i16>,
    ds: Seq<i64>,
    ls: Seq<u8>,
    ids: Seq<int>,
    c: Multiset<int>,
) -> bool {
    &&& ds.len() == 5
    &&& ls.len() == 5
    &&& ids.len() == 5
    &&& forall|i: int, j: int| 0 <= i <= j < 5 ==> ds[i] <= ds[j]
    &&& forall|i: int|
        0 <= i < 5 && ds[i] < i64::MAX ==> ds[i] == v.slot_dist(q, ids[i]) && ls[i] == v.slot_label(
            ids[i],
        ) && ls[i] <= 1
    &&& forall|i: int| 0 <= i < 5 && ds[i] == i64::MAX ==> ls[i] == 0
    &&& forall|x: int| tcount(ds, ids, x) <= c.count(x)
    &&& forall|x: int| c.count(x) > tcount(ds, ids, x) ==> v.slot_dist(q, x) >= ds[4]
}

proof fn lemma_tcount_ins(ds: Seq<i64>, ids: Seq<int>, d: i64, s: int, x: int)
    requires
        ds.len() == 5,
        ids.len() == 5,
        forall|i: int, j: int| 0 <= i <= j < 5 ==> ds[i] <= ds[j],
        d < ds[4],
    ensures
        tcount(ins5(ds, ins_pos(ds, d as int), d), ins5(ids, ins_pos(ds, d as int), s), x) + hit(
            ds,
            ids,
            4,
            x,
        ) == tcount(ds, ids, x) + (if x == s {
            1int
        } else {
            0int
        }),
{
    let pos = ins_pos(ds, d as int);
    let ds2 = ins5(ds, pos, d);
    let ids2 = ins5(ids, pos, s);
    if pos == 0 {
        assert(ds2 =~= seq![d, ds[0], ds[1], ds[2], ds[3]]);
        assert(ids2 =~= seq![s, ids[0], ids[1], ids[2], ids[3]]);
    } else if pos == 1 {
        assert(ds2 =~= seq![ds[0], d, ds[1], ds[2], ds[3]]);
        assert(ids2 =~= seq![ids[0], s, ids[1], ids[2], ids[3]]);
    } else if pos == 2 {
        assert(ds2 =~= seq![ds[0], ds[1], d, ds[2], ds[3]]);
        assert(ids2 =~= seq![ids[0], ids[1], s, ids[2], ids[3]]);
    } else if pos == 3 {
        assert(ds2 =~= seq![ds[0], ds[1], ds[2], d, ds[3]]);
        assert(ids2 =~= seq![ids[0], ids[1], ids[2], s, ids[3]]);
    } else {
        assert(ds2 =~= seq![ds[0], ds[1], ds[2], ds[3], d]);
        assert(ids2 =~= seq![ids[0], ids[1], ids[2], ids[3], s]);
    }
}

#[verifier::spinoff_prover]
proof fn lemma_insert_good(
    v: IndexView,
    q: Seq<i16>,
    ds: Seq<i64>,
    ls: Seq<u8>,
    ids: Seq<int>,
    c: Multiset<int>,
    d: i64,
    l: u8,
    s: int,
)
    requires
        good(v, q, ds, ls, ids, c),
        d == v.slot_dist(q, s),
        l == v.slot_label(s),
        l <= 1,
        d < ds[4],
    ensures
        good(
            v,
            q,
            ins5(ds, ins_pos(ds, d as int), d),
            ins5(ls, ins_pos(ds, d as int), l),
            ins5(ids, ins_pos(ds, d as int), s),
            c.insert(s),
        ),
{
    broadcast use vstd::multiset::group_multiset_axioms;

    let pos = ins_pos(ds, d as int);
    let ds2 = ins5(ds, pos, d);
    let ls2 = ins5(ls, pos, l);
    let ids2 = ins5(ids, pos, s);
    let c2 = c.insert(s);
    if pos == 0 {
        assert(ds2 =~= seq![d, ds[0], ds[1], ds[2], ds[3]]);
        assert(ls2 =~= seq![l, ls[0], ls[1], ls[2], ls[3]]);
        assert(ids2 =~= seq![s, ids[0], ids[1], ids[2], ids[3]]);
    } else if pos == 1 {
        assert(ds2 =~= seq![ds[0], d, ds[1], ds[2], ds[3]]);
        assert(ls2 =~= seq![ls[0], l, ls[1], ls[2], ls[3]]);
        assert(ids2 =~= seq![ids[0], s, ids[1], ids[2], ids[3]]);
    } else if pos == 2 {
        assert(ds2 =~= seq![ds[0], ds[1], d, ds[2], ds[3]]);
        assert(ls2 =~= seq![ls[0], ls[1], l, ls[2], ls[3]]);
        assert(ids2 =~= seq![ids[0], ids[1], s, ids[2], ids[3]]);
    } else if pos == 3 {
        assert(ds2 =~= seq![ds[0], ds[1], ds[2], d, ds[3]]);
        assert(ls2 =~= seq![ls[0], ls[1], ls[2], l, ls[3]]);
        assert(ids2 =~= seq![ids[0], ids[1], ids[2], s, ids[3]]);
    } else {
        assert(ds2 =~= seq![ds[0], ds[1], ds[2], ds[3], d]);
        assert(ls2 =~= seq![ls[0], ls[1], ls[2], ls[3], l]);
        assert(ids2 =~= seq![ids[0], ids[1], ids[2], ids[3], s]);
    }
    assert forall|x: int| tcount(ds2, ids2, x) <= c2.count(x) by {
        lemma_tcount_ins(ds, ids, d, s, x);
    }
    assert forall|x: int| c2.count(x) > tcount(ds2, ids2, x) implies v.slot_dist(q, x) >= ds2[4] by {
        lemma_tcount_ins(ds, ids, d, s, x);
        if c.count(x) > tcount(ds, ids, x) {
        } else {
            assert(hit(ds, ids, 4, x) == 1);
        }
    }
}

} // verus!

verus! {

proof fn lemma_box_within_at(
    inner_min: Seq<i16>,
    inner_max: Seq<i16>,
    outer_min: Seq<i16>,
    outer_max: Seq<i16>,
    d: int,
)
    requires
        box_within(inner_min, inner_max, outer_min, outer_max),
        0 <= d < VECTOR_DIM,
    ensures
        outer_min[d] <= inner_min[d] && inner_max[d] <= outer_max[d],
{
}

pub proof fn lemma_range_ms_count(a: int, len: int, x: int)
    requires
        len >= 0,
    ensures
        range_ms(a, len).count(x) == (if a <= x < a + len {
            1int
        } else {
            0int
        }),
    decreases len,
{
    broadcast use vstd::multiset::group_multiset_axioms;

    if len > 0 {
        lemma_range_ms_count(a, len - 1, x);
    }
}

/// Every slot of a subtree lies in the subtree's box and carries a 0/1 label.
pub proof fn lemma_tree_in_box(v: IndexView, n: int)
    requires
        v.tree_ok(),
        0 <= n < v.node_count(),
    ensures
        forall|x: int|
            #[trigger] v.tree_ms(n).count(x) > 0 ==> in_box(
                v.slot_vec(x),
                v.node_min(n),
                v.node_max(n),
            ) && v.slot_label(x) <= 1,
    decreases v.node_count() - n,
{
    broadcast use vstd::multiset::group_multiset_axioms;

    reveal(IndexView::tree_ok);
    assert(v.node_ok(n));
    if v.is_leaf(n) {
        assert forall|x: int| #[trigger] v.tree_ms(n).count(x) > 0 implies in_box(
            v.slot_vec(x),
            v.node_min(n),
            v.node_max(n),
        ) && v.slot_label(x) <= 1 by {
            lemma_range_ms_count(v.node_start(n) * 8, v.node_len(n), x);
            let j = x - v.node_start(n) * 8;
            assert(in_box(
                v.slot_vec(v.node_start(n) * 8 + j),
                v.node_min(n),
                v.node_max(n),
            ) && v.slot_label(v.node_start(n) * 8 + j) <= 1);
        }
    } else {
        let l = v.node_left(n);
        let r = v.node_right(n);
        lemma_tree_in_box(v, l);
        lemma_tree_in_box(v, r);
        assert(v.inner_ok(n));
        assert(box_within(v.node_min(l), v.node_max(l), v.node_min(n), v.node_max(n)));
        assert(box_within(v.node_min(r), v.node_max(r), v.node_min(n), v.node_max(n)));
        assert forall|x: int| #[trigger] v.tree_ms(n).count(x) > 0 implies in_box(
            v.slot_vec(x),
            v.node_min(n),
            v.node_max(n),
        ) && v.slot_label(x) <= 1 by {
            assert(v.tree_ms(n) == v.tree_ms(l).add(v.tree_ms(r)));
            if v.tree_ms(l).count(x) > 0 {
                assert(in_box(v.slot_vec(x), v.node_min(l), v.node_max(l)));
                assert forall|d: int| 0 <= d < VECTOR_DIM implies v.node_min(n)[d] <= #[trigger] v.slot_vec(
                    x,
                )[d] <= v.node_max(n)[d] by {
                    lemma_box_within_at(v.node_min(l), v.node_max(l), v.node_min(n), v.node_max(n), d);
                }
            } else {
                assert(in_box(v.slot_vec(x), v.node_min(r), v.node_max(r)));
                assert forall|d: int| 0 <= d < VECTOR_DIM implies v.node_min(n)[d] <= #[trigger] v.slot_vec(
                    x,
                )[d] <= v.node_max(n)[d] by {
                    lemma_box_within_at(v.node_min(r), v.node_max(r), v.node_min(n), v.node_max(n), d);
                }
            }
        }
    }
}

/// Adding entries that are all at least as far as the 5th best keeps the
/// table exact: skipping them loses nothing.
pub proof fn lemma_prune_good(
    v: IndexView,
    q: Seq<i16>,
    ds: Seq<i64>,
    ls: Seq<u8>,
    ids: Seq<int>,
    c: Multiset<int>,
    m: Multiset<int>,
    b: int,
)
    requires
        good(v, q, ds, ls, ids, c),
        b >= ds[4],
        forall|x: int| #[trigger] m.count(x) > 0 ==> v.slot_dist(q, x) >= b,
    ensures
        good(v, q, ds, ls, ids, c.add(m)),
{
    broadcast use vstd::multiset::group_multiset_axioms;

    assert forall|x: int| c.add(m).count(x) > tcount(ds, ids, x) implies v.slot_dist(q, x)
        >= ds[4] by {
        if m.count(x) > 0 {
        }
    }
}

/// Squared distances of i16 vectors over the real dims fit comfortably in i64.
pub proof fn lemma_sq_dist_bound(a: Seq<i16>, b: Seq<i16>, n: int)
    requires
        0 <= n,
    ensures
        0 <= sq_dist(a, b, n) <= n * (65535 * 65535),
    decreases n,
{
    if n > 0 {
        lemma_sq_dist_bound(a, b, n - 1);
        let x = a[n - 1] as int;
        let y = b[n - 1] as int;
        assert(0 <= (x - y) * (x - y) <= 65535 * 65535) by (nonlinear_arith)
            requires
                -32768 <= x <= 32767,
                -32768 <= y <= 32767,
        ;
        assert((n - 1) * (65535 * 65535) + 65535 * 65535 == n * (65535 * 65535)) by (nonlinear_arith);
    }
}

/// Lower bound computed against a box of node `n` bounds every slot of its tree.
proof fn lemma_box_bounds_tree(v: IndexView, q: Seq<i16>, n: int, lo: Seq<i16>, hi: Seq<i16>, b: int)
    requires
        v.tree_ok(),
        0 <= n < v.node_count(),
        box_within(v.node_min(n), v.node_max(n), lo, hi),
        b <= lb_sum(q, lo, hi, VECTOR_DIM as int),
    ensures
        forall|x: int| #[trigger] v.tree_ms(n).count(x) > 0 ==> v.slot_dist(q, x) >= b,
{
    broadcast use vstd::multiset::group_multiset_axioms;

    lemma_tree_in_box(v, n);
    assert forall|x: int| #[trigger] v.tree_ms(n).count(x) > 0 implies v.slot_dist(q, x) >= b by {
        assert(in_box(v.slot_vec(x), v.node_min(n), v.node_max(n)));
        assert forall|d: int| 0 <= d < VECTOR_DIM implies lo[d] <= #[trigger] v.slot_vec(x)[d]
            <= hi[d] by {
            lemma_box_within_at(v.node_min(n), v.node_max(n), lo, hi, d);
            assert(v.node_min(n)[d] <= v.slot_vec(x)[d] <= v.node_max(n)[d]);
        }
        lemma_lower_bound_sound(q, lo, hi, v.slot_vec(x), VECTOR_DIM as int);
        reveal(IndexView::slot_dist);
    }
}

} // verus!

verus! {

/// Number of `i < m` with `ids[i] == x`.
spec fn cnt(ids: Seq<int>, m: int, x: int) -> int
    decreases m,
{
    if m <= 0 {
        0
    } else {
        cnt(ids, m - 1, x) + (if ids[m - 1] == x {
            1int
        } else {
            0int
        })
    }
}

proof fn lemma_take_ms(ids: Seq<int>, m: int, x: int)
    requires
        0 <= m <= ids.len(),
    ensures
        ids.take(m).to_multiset().count(x) == cnt(ids, m, x),
    decreases m,
{
    broadcast use vstd::seq_lib::group_to_multiset_ensures;
    broadcast use vstd::multiset::group_multiset_axioms;

    if m > 0 {
        lemma_take_ms(ids, m - 1, x);
        assert(ids.take(m) =~= ids.take(m - 1).push(ids[m - 1]));
    } else {
        assert(ids.take(0) =~= Seq::<int>::empty());
        assert(Seq::<int>::empty().to_multiset() =~= Multiset::empty());
    }
}

/// Number of leading real entries of a sorted table.
spec fn real_prefix(ds: Seq<i64>) -> int {
    if ds[0] == i64::MAX {
        0
    } else if ds[1] == i64::MAX {
        1
    } else if ds[2] == i64::MAX {
        2
    } else if ds[3] == i64::MAX {
        3
    } else if ds[4] == i64::MAX {
        4
    } else {
        5
    }
}

proof fn lemma_real_prefix(ds: Seq<i64>, ids: Seq<int>, x: int)
    requires
        ds.len() == 5,
        ids.len() == 5,
        forall|i: int, j: int| 0 <= i <= j < 5 ==> ds[i] <= ds[j],
    ensures
        forall|i: int| 0 <= i < 5 ==> (ds[i] < i64::MAX) == (i < real_prefix(ds)),
        tcount(ds, ids, x) == cnt(ids, real_prefix(ds), x),
{
    reveal_with_fuel(cnt, 6);
}

/// Label sum of the first `m` table slots.
proof fn lemma_label_sum_prefix(v: IndexView, ids: Seq<int>, ls: Seq<u8>, m: int)
    requires
        0 <= m <= 5,
        ids.len() == 5,
        ls.len() == 5,
        forall|i: int| 0 <= i < m ==> ls[i] == v.slot_label(ids[i]),
        forall|i: int| m <= i < 5 ==> ls[i] == 0,
    ensures
        label_sum(v, ids.take(m)) == ls[0] + ls[1] + ls[2] + ls[3] + ls[4],
{
    reveal_with_fuel(label_sum, 6);
    if m == 0 {
        assert(ids.take(0) =~= Seq::<int>::empty());
    } else if m == 1 {
        assert(ids.take(1) =~= seq![ids[0]]);
        assert(ids.take(1).drop_last() =~= Seq::<int>::empty());
    } else if m == 2 {
        assert(ids.take(2).drop_last() =~= ids.take(1));
        assert(ids.take(1).drop_last() =~= Seq::<int>::empty());
    } else if m == 3 {
        assert(ids.take(3).drop_last() =~= ids.take(2));
        assert(ids.take(2).drop_last() =~= ids.take(1));
        assert(ids.take(1).drop_last() =~= Seq::<int>::empty());
    } else if m == 4 {
        assert(ids.take(4).drop_last() =~= ids.take(3));
        assert(ids.take(3).drop_last() =~= ids.take(2));
        assert(ids.take(2).drop_last() =~= ids.take(1));
        assert(ids.take(1).drop_last() =~= Seq::<int>::empty());
    } else {
        assert(ids.take(5).drop_last() =~= ids.take(4));
        assert(ids.take(4).drop_last() =~= ids.take(3));
        assert(ids.take(3).drop_last() =~= ids.take(2));
        assert(ids.take(2).drop_last() =~= ids.take(1));
        assert(ids.take(1).drop_last() =~= Seq::<int>::empty());
    }
}

/// A table that is exact for all the entries of the index answers the query:
/// its real entries form a 5-NN set and its label total is their label sum.
proof fn lemma_good_knn(v: IndexView, q: Seq<i16>, ds: Seq<i64>, ls: Seq<u8>, ids: Seq<int>)
    requires
        good(v, q, ds, ls, ids, v.entries()),
    ensures
        is_knn_count(v, q, ls[0] + ls[1] + ls[2] + ls[3] + ls[4]),
{
    broadcast use vstd::multiset::group_multiset_axioms;
    broadcast use vstd::seq_lib::group_to_multiset_ensures;

    let m = real_prefix(ds);
    let ks = ids.take(m);
    let e = v.entries();
    lemma_real_prefix(ds, ids, 0);
    assert forall|x: int| ks.to_multiset().count(x) == tcount(ds, ids, x) by {
        lemma_take_ms(ids, m, x);
        lemma_real_prefix(ds, ids, x);
    }
    assert(ks.to_multiset().subset_of(e));
    if m < 5 {
        assert forall|x: int| ks.to_multiset().count(x) == e.count(x) by {
            if e.count(x) > tcount(ds, ids, x) {
                lemma_sq_dist_bound(q, v.slot_vec(x), VECTOR_DIM as int);
                reveal(IndexView::slot_dist);
                assert(v.slot_dist(q, x) >= ds[4]);
            }
        }
        assert(ks.to_multiset() =~= e);
    }
    assert forall|i: int, y: int|
        0 <= i < ks.len() && e.count(y) > ks.to_multiset().count(y) implies v.slot_dist(
        q,
        #[trigger] ks[i],
    ) <= #[trigger] v.slot_dist(q, y) by {
        assert(ds[i] <= ds[4]);
    }
    assert(is_knn(v, q, ks));
    lemma_label_sum_prefix(v, ids, ls, m);
}

} // verus!

verus! {

/// Entries of the partitions marked in `cov` among partitions `0 .. k`.
pub open spec fn cov_ms(v: IndexView, cov: Seq<bool>, k: int) -> Multiset<int>
    decreases k,
{
    if k <= 0 {
        Multiset::empty()
    } else {
        cov_ms(v, cov, k - 1).add(
            if cov[k - 1] {
                v.tree_ms(v.part_root(k - 1))
            } else {
                Multiset::empty()
            },
        )
    }
}

proof fn lemma_cov_update(v: IndexView, cov: Seq<bool>, p: int, k: int)
    requires
        0 <= p < cov.len(),
        0 <= k <= cov.len(),
        !cov[p],
    ensures
        cov_ms(v, cov.update(p, true), k) =~= (if p < k {
            cov_ms(v, cov, k).add(v.tree_ms(v.part_root(p)))
        } else {
            cov_ms(v, cov, k)
        }),
    decreases k,
{
    broadcast use vstd::multiset::group_multiset_axioms;

    if k > 0 {
        lemma_cov_update(v, cov, p, k - 1);
    }
}

proof fn lemma_cov_all(v: IndexView, cov: Seq<bool>, k: int)
    requires
        0 <= k <= cov.len(),
        forall|i: int| 0 <= i < k ==> cov[i],
    ensures
        cov_ms(v, cov, k) =~= v.parts_ms(k),
    decreases k,
{
    broadcast use vstd::multiset::group_multiset_axioms;

    if k > 0 {
        lemma_cov_all(v, cov, k - 1);
    }
}

proof fn lemma_cov_none(v: IndexView, cov: Seq<bool>, k: int)
    requires
        0 <= k <= cov.len(),
        forall|i: int| 0 <= i < k ==> !cov[i],
    ensures
        cov_ms(v, cov, k) =~= Multiset::empty(),
    decreases k,
{
    broadcast use vstd::multiset::group_multiset_axioms;

    if k > 0 {
        lemma_cov_none(v, cov, k - 1);
    }
}

/// `b` bounds from below the distance of every slot of partition `p`'s tree.
pub open spec fn part_bound(v: IndexView, q: Seq<i16>, p: int, b: int) -> bool {
    forall|x: int| #[trigger] v.tree_ms(v.part_root(p)).count(x) > 0 ==> v.slot_dist(q, x) >= b
}

/// Cover every partition left uncovered: each has an unvisited probe whose
/// bound reaches the 5th best, so its whole tree can be skipped.
proof fn lemma_cover_rest(
    v: IndexView,
    q: Seq<i16>,
    ds: Seq<i64>,
    ls: Seq<u8>,
    ids: Seq<int>,
    cov: Seq<bool>,
    j: int,
    probes: Seq<(i32, i64)>,
    visited: Seq<bool>,
    b: i64,
) -> (cov2: Seq<bool>)
    requires
        cov.len() == v.part_count(),
        0 <= j <= v.part_count(),
        good(v, q, ds, ls, ids, cov_ms(v, cov, v.part_count())),
        b >= ds[4],
        visited.len() == probes.len(),
        forall|p: int|
            j <= p < v.part_count() && !cov[p] ==> exists|k: int|
                0 <= k < probes.len() && probes[k].0 == p && !visited[k],
        forall|k: int| 0 <= k < probes.len() && !visited[k] ==> probes[k].1 >= b,
        forall|k: int|
            0 <= k < probes.len() ==> #[trigger] part_bound(v, q, probes[k].0 as int, probes[k].1 as int),
        forall|p: int| 0 <= p < j ==> cov[p],
    ensures
        cov2.len() == v.part_count(),
        forall|p: int| 0 <= p < v.part_count() ==> cov2[p],
        good(v, q, ds, ls, ids, cov_ms(v, cov2, v.part_count())),
    decreases v.part_count() - j,
{
    if j == v.part_count() {
        cov
    } else if cov[j] {
        lemma_cover_rest(v, q, ds, ls, ids, cov, j + 1, probes, visited, b)
    } else {
        let k = choose|k: int| 0 <= k < probes.len() && probes[k].0 == j && !visited[k];
        assert(part_bound(v, q, probes[k].0 as int, probes[k].1 as int));
        lemma_prune_good(
            v,
            q,
            ds,
            ls,
            ids,
            cov_ms(v, cov, v.part_count()),
            v.tree_ms(v.part_root(j)),
            probes[k].1 as int,
        );
        lemma_cov_update(v, cov, j, v.part_count());
        let c1 = cov.update(j, true);
        lemma_cover_rest(v, q, ds, ls, ids, c1, j + 1, probes, visited, b)
    }
}

/// The five best entries seen so far, with the slots they came from and the
/// multiset of entries already accounted for.
struct Search {
    best_dists: [i64; TOP_K],
    best_labels: [u8; TOP_K],
    ids: Ghost<Seq<int>>,
    covered: Ghost<Multiset<int>>,
}

impl Search {
    spec fn good(&self, v: IndexView, q: Seq<i16>) -> bool {
        good(v, q, self.best_dists@, self.best_labels@, self.ids@, self.covered@)
    }

    fn new(Ghost(v): Ghost<IndexView>, Ghost(q): Ghost<Seq<i16>>) -> (s: Search)
        ensures
            s.good(v, q),
            s.covered@ =~= Multiset::empty(),
    {
        let ghost ids0: Seq<int> = seq![0int, 0, 0, 0, 0];
        let ghost c0: Multiset<int> = Multiset::empty();
        let s = Search {
            best_dists: [i64::MAX;TOP_K],
            best_labels: [0u8;TOP_K],
            ids: Ghost(ids0),
            covered: Ghost(c0),
        };
        assert(s.good(v, q)) by {
            broadcast use vstd::multiset::group_multiset_axioms;

        }
        s
    }

    fn top_sum(&self) -> (r: u8)
        requires
            forall|i: int| 0 <= i < TOP_K ==> self.best_labels@[i] <= 1,
        ensures
            r == self.best_labels@[0] + self.best_labels@[1] + self.best_labels@[2]
                + self.best_labels@[3] + self.best_labels@[4],
    {
        sum_labels(&self.best_labels)
    }
}

} // verus!

verus! {

} // verus!

verus! {

/// Number of `false` among the first `k` flags.
spec fn unvisited(vs: Seq<bool>, k: int) -> int
    decreases k,
{
    if k <= 0 {
        0
    } else {
        unvisited(vs, k - 1) + (if vs[k - 1] {
            0int
        } else {
            1int
        })
    }
}

proof fn lemma_unvisited_mark(vs: Seq<bool>, j: int, k: int)
    requires
        0 <= j < vs.len(),
        0 <= k <= vs.len(),
        !vs[j],
    ensures
        unvisited(vs.update(j, true), k) == unvisited(vs, k) - (if j < k {
            1int
        } else {
            0int
        }),
        0 <= unvisited(vs, k) <= k,
    decreases k,
{
    if k > 0 {
        lemma_unvisited_mark(vs, j, k - 1);
    }
}

proof fn lemma_unvisited_bounds(vs: Seq<bool>, k: int)
    requires
        0 <= k <= vs.len(),
    ensures
        0 <= unvisited(vs, k) <= k,
    decreases k,
{
    if k > 0 {
        lemma_unvisited_bounds(vs, k - 1);
    }
}

proof fn lemma_last_with_key_range(v: IndexView, key: int, n: int)
    requires
        0 <= n,
    ensures
        -1 <= v.last_with_key(key, n) < n,
    decreases n,
{
    if n > 0 {
        lemma_last_with_key_range(v, key, n - 1);
    }
}

/// Scan the slots `start*8 .. start*8 + len` of a leaf into the table.
fn scan_leaf(
    idx: &Index,
    start: i32,
    len: i32,
    q: &QueryVector,
    s: &mut Search,
)
    requires
        old(s).good(idx@, q@),
        header_len_fact(idx@),
        idx@.bytes.len() <= usize::MAX,
        start >= 0,
        len >= 0,
        start * 8 + len <= idx@.block_count() * 8,
        forall|j: int| 0 <= j < len ==> #[trigger] idx@.slot_label(start * 8 + j) <= 1,
    ensures
        final(s).good(idx@, q@),
        final(s).covered@ =~= old(s).covered@.add(range_ms(start * 8, len as int)),
{
    broadcast use vstd::multiset::group_multiset_axioms;

    let ghost v = idx@;
    let ghost c0 = s.covered@;
    let base: usize = start as usize * 8;
    let mut j: usize = 0;
    while j < len as usize
        invariant
            v == idx@,
            s.good(v, q@),
            header_len_fact(v),
            v.bytes.len() <= usize::MAX,
            0 <= j <= len,
            base == start * 8,
            start * 8 + len <= v.block_count() * 8,
            forall|jj: int| 0 <= jj < len ==> #[trigger] v.slot_label(start * 8 + jj) <= 1,
            s.covered@ =~= c0.add(range_ms(start * 8, j as int)),
        decreases len - j,
    {
        let slot = base + j;
        let d = idx.slot_distance(slot, q);
        if d < s.best_dists[4] {
            let label = idx.slot_label(slot);
            proof {
                assert(v.slot_label(start * 8 + j) <= 1);
                lemma_insert_good(
                    v,
                    q@,
                    s.best_dists@,
                    s.best_labels@,
                    s.ids@,
                    s.covered@,
                    d,
                    label,
                    slot as int,
                );
                let pos = ins_pos(s.best_dists@, d as int);
                s.ids@ = ins5(s.ids@, pos, slot as int);
                s.covered@ = s.covered@.insert(slot as int);
            }
            insert_best(d, label, &mut s.best_dists, &mut s.best_labels);
        } else {
            proof {
                lemma_prune_good(
                    v,
                    q@,
                    s.best_dists@,
                    s.best_labels@,
                    s.ids@,
                    s.covered@,
                    Multiset::singleton(slot as int),
                    d as int,
                );
                assert(s.covered@.add(Multiset::singleton(slot as int)) =~= s.covered@.insert(
                    slot as int,
                ));
                s.covered@ = s.covered@.insert(slot as int);
            }
        }
        j = j + 1;
    }
}

/// Search the subtree of node `n`, known to be no closer than `bound`.
fn search_node(idx: &Index, n: i32, bound: i64, q: &QueryVector, s: &mut Search)
    requires
        idx@.tree_ok(),
        header_len_fact(idx@),
        idx@.bytes.len() <= usize::MAX,
        old(s).good(idx@, q@),
        forall|x: int| #[trigger] idx@.tree_ms(n as int).count(x) > 0 ==> idx@.slot_dist(q@, x) >= bound,
    ensures
        final(s).good(idx@, q@),
        final(s).covered@ =~= old(s).covered@.add(idx@.tree_ms(n as int)),
    decreases idx@.node_count() - n,
{
    broadcast use vstd::multiset::group_multiset_axioms;

    let ghost v = idx@;
    let nc = idx.node_count();
    if n < 0 || n as u32 >= nc {
        proof {
            assert(v.tree_ms(n as int) =~= Multiset::empty());
        }
        return;
    }
    if bound >= s.best_dists[4] {
        proof {
            lemma_prune_good(
                v,
                q@,
                s.best_dists@,
                s.best_labels@,
                s.ids@,
                s.covered@,
                v.tree_ms(n as int),
                bound as int,
            );
            s.covered@ = s.covered@.add(v.tree_ms(n as int));
        }
        return;
    }
    let (left, right, start, len) = idx.read_node(n as u32);
    proof {
        reveal(IndexView::tree_ok);
        assert(v.node_ok(n as int));
    }
    if left < 0 {
        scan_leaf(idx, start, len, q, s);
    } else {
        let cutoff = s.best_dists[4];
        let (lmin, lmax) = idx.read_node_bounds(left as u32);
        let (rmin, rmax) = idx.read_node_bounds(right as u32);
        let lb = lower_bound_vec_cutoff(q, &lmin, &lmax, cutoff);
        let rb = lower_bound_vec_cutoff(q, &rmin, &rmax, cutoff);
        proof {
            lemma_box_bounds_tree(v, q@, left as int, lmin@, lmax@, lb as int);
            lemma_box_bounds_tree(v, q@, right as int, rmin@, rmax@, rb as int);
        }
        if lb <= rb {
            search_node(idx, left, lb, q, s);
            search_node(idx, right, rb, q, s);
        } else {
            search_node(idx, right, rb, q, s);
            search_node(idx, left, lb, q, s);
        }
    }
}

} // verus!

verus! {

/// Squared distances are never negative.
proof fn lemma_sq_dist_nonneg_all(v: IndexView, q: Seq<i16>)
    ensures
        forall|x: int| v.slot_dist(q, x) >= 0,
{
    assert forall|x: int| v.slot_dist(q, x) >= 0 by {
        reveal(IndexView::slot_dist);
        lemma_sq_dist_bound(q, v.slot_vec(x), VECTOR_DIM as int);
    }
}

/// A lower bound against partition `p`'s box bounds its whole tree.
proof fn lemma_part_bound(v: IndexView, q: Seq<i16>, p: int, pmin: Seq<i16>, pmax: Seq<i16>, b: int)
    requires
        v.tree_ok(),
        0 <= p < v.part_count(),
        pmin == v.part_min(p),
        pmax == v.part_max(p),
        b <= lb_sum(q, pmin, pmax, VECTOR_DIM as int),
    ensures
        part_bound(v, q, p, b),
{
    broadcast use vstd::multiset::group_multiset_axioms;

    reveal(IndexView::tree_ok);
    assert(v.part_ok(p));
    let r = v.part_root(p);
    if 0 <= r < v.node_count() {
        lemma_box_bounds_tree(v, q, r, pmin, pmax, b);
    } else {
        assert(v.tree_ms(r) =~= Multiset::empty());
    }
}

/// Probe list invariant: partition ids strictly increasing, in range, not the
/// primary partition, and each bound valid for its partition's tree.
spec fn probes_ok(v: IndexView, q: Seq<i16>, probes: Seq<(i32, i64)>, primary: int, upto: int) -> bool {
    &&& forall|k: int| 0 <= k < probes.len() ==> 0 <= #[trigger] probes[k].0 < upto
    &&& forall|k: int| 0 <= k < probes.len() ==> #[trigger] probes[k].0 != primary
    &&& forall|a: int, b: int| 0 <= a < b < probes.len() ==> probes[a].0 < probes[b].0
    &&& forall|k: int|
        0 <= k < probes.len() ==> #[trigger] part_bound(v, q, probes[k].0 as int, probes[k].1 as int)
}

/// Number of fraud labels among the 5 exact nearest neighbors of `query` in
/// the index (0..=5). The primary partition (same key as the query) is
/// searched first; the others follow in increasing order of their box lower
/// bound, and the sweep stops at the first one that cannot beat the 5th best.
/// The index's tree must pass `Index::tree_valid`: on another tree the walk
/// would read outside the file.
pub fn fraud_count(index: &Index, query: &QueryVector) -> (r: u8)
    requires
        index@.tree_ok(),
    ensures
        r <= 5,
        is_knn_count(index@, query@, r as int),
{
    broadcast use vstd::multiset::group_multiset_axioms;

    index.valid();
    let ghost v = index@;
    let ghost q = query@;
    let mut s = Search::new(Ghost(v), Ghost(q));
    let pc = index.part_count();
    proof {
        reveal(IndexView::tree_ok);
    }
    let ghost mut cov: Seq<bool> = Seq::new(pc as nat, |i: int| false);
    proof {
        lemma_cov_none(v, cov, pc as int);
    }
    let key = partition_key(query);
    let primary = index.part_by_key(key);
    proof {
        lemma_last_with_key_range(v, (key % 256) as int, pc as int);
    }
    if primary >= 0 {
        let root = index.read_partition_root(primary as u32);
        proof {
            lemma_sq_dist_nonneg_all(v, q);
        }
        search_node(index, root, 0, query, &mut s);
        proof {
            lemma_cov_update(v, cov, primary as int, pc as int);
            cov = cov.update(primary as int, true);
        }
    }
    let cutoff0 = s.best_dists[4];
    let mut probes: Vec<(i32, i64)> = Vec::new();
    let mut i: u32 = 0;
    while i < pc
        invariant
            v == index@,
            q == query@,
            v.tree_ok(),
            pc == v.part_count(),
            pc <= 256,
            -1 <= primary < pc,
            cov.len() == pc,
            s.good(v, q),
            s.covered@ == cov_ms(v, cov, pc as int),
            cutoff0 == s.best_dists@[4],
            0 <= i <= pc,
            probes@.len() <= i,
            probes_ok(v, q, probes@, primary as int, i as int),
            forall|k: int| 0 <= k < probes@.len() ==> !cov[#[trigger] probes@[k].0 as int],
            forall|p: int|
                0 <= p < i && !cov[p] ==> exists|k: int|
                    0 <= k < probes@.len() && #[trigger] probes@[k].0 == p,
            forall|p: int| i <= p < pc ==> cov[p] == (p == primary),
        ensures
            i == pc,
        decreases pc - i,
    {
        if i as i32 == primary {
            i = i + 1;
            continue;
        }
        let (pmin, pmax) = index.read_partition_bbox(i);
        let lb = lower_bound_vec_cutoff(query, &pmin, &pmax, cutoff0);
        proof {
            lemma_part_bound(v, q, i as int, pmin@, pmax@, lb as int);
        }
        if lb >= cutoff0 {
            proof {
                lemma_prune_good(
                    v,
                    q,
                    s.best_dists@,
                    s.best_labels@,
                    s.ids@,
                    s.covered@,
                    v.tree_ms(v.part_root(i as int)),
                    lb as int,
                );
                lemma_cov_update(v, cov, i as int, pc as int);
                s.covered@ = s.covered@.add(v.tree_ms(v.part_root(i as int)));
                let cov0 = cov;
                cov = cov.update(i as int, true);
                assert forall|pp: int| 0 <= pp < i + 1 && !cov[pp] implies exists|k: int|
                    0 <= k < probes@.len() && #[trigger] probes@[k].0 == pp by {
                    assert(!cov0[pp]);
                }
            }
            i = i + 1;
            continue;
        }
        let ghost pr0 = probes@;
        probes.push((i as i32, lb));
        proof {
            assert(probes@[probes@.len() - 1].0 == i);
            assert forall|pp: int| 0 <= pp < i + 1 && !cov[pp] implies exists|k: int|
                0 <= k < probes@.len() && #[trigger] probes@[k].0 == pp by {
                if pp == i {
                    assert(probes@[probes@.len() - 1].0 == pp);
                } else {
                    let k = choose|k: int| 0 <= k < pr0.len() && #[trigger] pr0[k].0 == pp;
                    assert(probes@[k] == pr0[k]);
                }
            }
        }
        if probes.len() == 256 {
            i = i + 1;
            break;
        }
        i = i + 1;
    }

    let n = probes.len();
    let mut visited: Vec<bool> = Vec::new();
    while visited.len() < n
        invariant
            visited@.len() <= n,
            n == probes@.len(),
            forall|k: int| 0 <= k < visited@.len() ==> !visited@[k],
        decreases n - visited@.len(),
    {
        visited.push(false);
    }
    proof {
        lemma_unvisited_bounds(visited@, n as int);
        assert forall|p: int| 0 <= p < pc && !cov[p] implies exists|k: int|
            0 <= k < n && #[trigger] probes@[k].0 == p && !visited@[k] by {
            let k = choose|k: int| 0 <= k < probes@.len() && #[trigger] probes@[k].0 == p;
            assert(!visited@[k]);
        }
    }
    loop
        invariant_except_break
            forall|k: int| 0 <= k < n ==> cov[#[trigger] probes@[k].0 as int] == visited@[k],
            forall|p: int|
                0 <= p < pc && !cov[p] ==> exists|k: int|
                    0 <= k < n && #[trigger] probes@[k].0 == p && !visited@[k],
            0 <= unvisited(visited@, n as int) <= n,
        invariant
            v == index@,
            q == query@,
            v.tree_ok(),
            header_len_fact(v),
            v.bytes.len() <= usize::MAX,
            pc == v.part_count(),
            pc <= 256,
            cov.len() == pc,
            s.good(v, q),
            s.covered@ == cov_ms(v, cov, pc as int),
            n == probes@.len(),
            visited@.len() == n,
            probes_ok(v, q, probes@, primary as int, pc as int),
        ensures
            forall|p: int| 0 <= p < pc ==> cov[p],
        decreases unvisited(visited@, n as int),
    {
        let mut best_k: usize = n;
        let mut best_lb: i64 = 0;
        let mut k: usize = 0;
        while k < n
            invariant
                n == probes@.len(),
                visited@.len() == n,
                0 <= k <= n,
                best_k == n ==> forall|kk: int| 0 <= kk < k ==> visited@[kk],
                best_k < n ==> best_k < k && !visited@[best_k as int] && best_lb == probes@[best_k as int].1,
                best_k < n ==> forall|kk: int|
                    0 <= kk < k && !visited@[kk] ==> probes@[kk].1 >= best_lb,
                best_k <= n,
            decreases n - k,
        {
            if !visited[k] && (best_k == n || probes[k].1 < best_lb) {
                best_k = k;
                best_lb = probes[k].1;
            }
            k = k + 1;
        }
        if best_k == n {
            proof {
                assert forall|p: int| 0 <= p < pc implies cov[p] by {
                    if !cov[p] {
                        let kk = choose|kk: int| 0 <= kk < n && #[trigger] probes@[kk].0 == p && !visited@[kk];
                        assert(visited@[kk]);
                    }
                }
            }
            break;
        }
        let cutoff = s.best_dists[4];
        if best_lb >= cutoff {
            proof {
                let cov2 = lemma_cover_rest(
                    v,
                    q,
                    s.best_dists@,
                    s.best_labels@,
                    s.ids@,
                    cov,
                    0,
                    probes@,
                    visited@,
                    best_lb,
                );
                s.covered@ = cov_ms(v, cov2, pc as int);
                cov = cov2;
            }
            break;
        }
        let p = probes[best_k].0;
        let root = index.read_partition_root(p as u32);
        proof {
            assert(part_bound(v, q, probes@[best_k as int].0 as int, probes@[best_k as int].1 as int));
        }
        search_node(index, root, best_lb, query, &mut s);
        proof {
            lemma_cov_update(v, cov, p as int, pc as int);
            lemma_unvisited_mark(visited@, best_k as int, n as int);
            cov = cov.update(p as int, true);
            lemma_unvisited_bounds(visited@.update(best_k as int, true), n as int);
        }
        let ghost vis0 = visited@;
        visited.set(best_k, true);
        proof {
            assert forall|kk: int| 0 <= kk < n implies cov[#[trigger] probes@[kk].0 as int] == visited@[kk] by {
                if kk != best_k {
                    assert(probes@[kk].0 != p);
                }
            }
            assert forall|pp: int| 0 <= pp < pc && !cov[pp] implies exists|kk: int|
                0 <= kk < n && #[trigger] probes@[kk].0 == pp && !visited@[kk] by {
                let kk = choose|kk: int| 0 <= kk < n && #[trigger] probes@[kk].0 == pp && !vis0[kk];
                assert(kk != best_k);
                assert(!visited@[kk]);
            }
        }
    }
    proof {
        lemma_cov_all(v, cov, pc as int);
        lemma_good_knn(v, q, s.best_dists@, s.best_labels@, s.ids@);
    }
    s.top_sum()
}

} // verus!
