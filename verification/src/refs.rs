//! The nearest-neighbor answer stated over the reference list itself.
//!
//! `knn::fraud_count` is exact over the entries of an index, and
//! `builder::build_index` makes an index whose entries are the references it
//! was built from. This module states what the two give together: the count
//! is that of the five nearest references.

use vstd::prelude::*;
use vstd::multiset::Multiset;
use crate::builder::{holds_inputs, holds_inputs_as, seq14, upto};
use crate::index::IndexView;
use crate::knn::{is_knn, is_knn_count, label_sum};
use crate::quantize::{sq_dist, QueryVector, TOP_K, VECTOR_DIM};

verus! {

/// Squared distance from `q` to reference `i` over the real dims.
pub open spec fn ref_dist(vectors: Seq<QueryVector>, q: Seq<i16>, i: int) -> int {
    sq_dist(q, vectors[i]@, VECTOR_DIM as int)
}

/// Sum of the labels of the references `ks`.
pub open spec fn ref_label_sum(labels: Seq<u8>, ks: Seq<int>) -> int
    decreases ks.len(),
{
    if ks.len() == 0 {
        0
    } else {
        ref_label_sum(labels, ks.drop_last()) + labels[ks.last()] as int
    }
}

/// `ks` lists nearest references of `q`: at most five distinct references,
/// all of them when there are fewer than five, and no reference left out is
/// closer than one that was kept.
pub open spec fn is_ref_knn(vectors: Seq<QueryVector>, q: Seq<i16>, ks: Seq<int>) -> bool {
    &&& ks.len() <= TOP_K
    &&& ks.no_duplicates()
    &&& forall|i: int| 0 <= i < ks.len() ==> 0 <= #[trigger] ks[i] < vectors.len()
    &&& ks.len() < TOP_K ==> ks.len() == vectors.len()
    &&& forall|i: int, y: int|
        0 <= i < ks.len() && 0 <= y < vectors.len() && !ks.contains(y) ==> ref_dist(
            vectors,
            q,
            #[trigger] ks[i],
        ) <= #[trigger] ref_dist(vectors, q, y)
}

/// `r` is the number of frauds among the five nearest references of `q`.
pub open spec fn is_ref_knn_count(vectors: Seq<QueryVector>, labels: Seq<u8>, q: Seq<i16>, r: int) -> bool {
    exists|ks: Seq<int>| is_ref_knn(vectors, q, ks) && r == ref_label_sum(labels, ks)
}

/// Each reference number below `n` occurs once in `upto(n)`, and no other.
proof fn lemma_upto(n: int)
    requires
        n <= usize::MAX + 1,
    ensures
        forall|x: usize| #[trigger] upto(n).count(x) == if 0 <= x < n { 1nat } else { 0nat },
        upto(n).len() == if n >= 0 { n } else { 0 },
    decreases n,
{
    broadcast use vstd::multiset::group_multiset_axioms;

    if n > 0 {
        lemma_upto(n - 1);
        assert forall|x: usize| #[trigger] upto(n).count(x) == if 0 <= x < n { 1nat } else { 0nat } by {
            assert(upto(n) == upto(n - 1).insert((n - 1) as usize));
            if x == (n - 1) as usize {
                assert(x == n - 1);
            }
        }
    }
}

/// The distance to a stored vector does not see the padding dims.
proof fn lemma_sq_dist_seq14(q: Seq<i16>, v: QueryVector, n: int)
    requires
        0 <= n <= VECTOR_DIM,
    ensures
        sq_dist(q, seq14(v), n) == sq_dist(q, v@, n),
    decreases n,
{
    if n > 0 {
        lemma_sq_dist_seq14(q, v, n - 1);
        assert(seq14(v)[n - 1] == v@[n - 1]);
    }
}

/// The labels of the slots `ks`, read through the entry listing, sum like
/// the labels of the references they came from.
proof fn lemma_label_sums(
    vectors: Seq<QueryVector>,
    labels: Seq<u8>,
    out: Seq<u8>,
    order: Seq<int>,
    perm: Seq<usize>,
    ks: Seq<int>,
    pos: Seq<int>,
)
    requires
        holds_inputs_as(vectors, labels, out, order, perm),
        pos.len() == ks.len(),
        forall|i: int| 0 <= i < ks.len() ==> 0 <= #[trigger] pos[i] < order.len() && order[pos[i]] == ks[i],
    ensures
        label_sum(IndexView { bytes: out }, ks) == ref_label_sum(
            labels,
            Seq::new(ks.len(), |i: int| perm[pos[i]] as int),
        ),
    decreases ks.len(),
{
    let v = IndexView { bytes: out };
    let refs = Seq::new(ks.len(), |i: int| perm[pos[i]] as int);
    if ks.len() > 0 {
        let m = ks.len() - 1;
        lemma_label_sums(vectors, labels, out, order, perm, ks.drop_last(), pos.drop_last());
        assert(Seq::new(ks.drop_last().len(), |i: int| perm[pos.drop_last()[i]] as int) =~= refs.drop_last());
        assert(pos[m] < order.len());
        assert(v.slot_vec(order[pos[m]]) == seq14(vectors[perm[pos[m]] as int]));
        assert(v.slot_label(order[pos[m]]) == labels[perm[pos[m]] as int]);
    }
}

/// The answer `fraud_count` gives on an index built from `vectors` and
/// `labels` is the number of frauds among the five nearest references.
pub proof fn lemma_knn_over_references(
    vectors: Seq<QueryVector>,
    labels: Seq<u8>,
    out: Seq<u8>,
    q: Seq<i16>,
    r: int,
)
    requires
        vectors.len() <= usize::MAX,
        holds_inputs(vectors, labels, out),
        is_knn_count(IndexView { bytes: out }, q, r),
    ensures
        is_ref_knn_count(vectors, labels, q, r),
{
    broadcast use vstd::seq_lib::group_to_multiset_ensures;
    broadcast use vstd::multiset::group_multiset_axioms;

    let v = IndexView { bytes: out };
    let (order, perm) = choose|order: Seq<int>, perm: Seq<usize>|
        holds_inputs_as(vectors, labels, out, order, perm);
    let ks = choose|ks: Seq<int>| is_knn(v, q, ks) && r == label_sum(v, ks);
    let n = vectors.len() as int;
    lemma_upto(n);
    order.lemma_multiset_has_no_duplicates();
    // Every reference occurs once in `perm`.
    assert forall|x: usize| perm.to_multiset().contains(x) implies perm.to_multiset().count(x) == 1 by {
        assert(upto(n).count(x) == if 0 <= x < n { 1nat } else { 0nat });
    }
    perm.lemma_multiset_has_no_duplicates_conv();
    assert forall|k: int| 0 <= k < perm.len() implies 0 <= #[trigger] perm[k] < n by {
        assert(perm.to_multiset().count(perm[k]) > 0);
        assert(upto(n).count(perm[k]) == if 0 <= perm[k] < n { 1nat } else { 0nat });
    }
    // The chosen slots are distinct entries; find each in the listing.
    assert forall|x: int| ks.to_multiset().contains(x) implies ks.to_multiset().count(x) == 1 by {
        assert(ks.to_multiset().count(x) <= v.entries().count(x));
        assert(order.to_multiset().contains(x));
    }
    ks.lemma_multiset_has_no_duplicates_conv();
    assert forall|i: int| 0 <= i < ks.len() implies #[trigger] order.contains(ks[i]) by {
        assert(ks.to_multiset().count(ks[i]) > 0);
        assert(order.to_multiset().count(ks[i]) > 0);
    }
    let pos = Seq::new(ks.len(), |i: int| choose|k: int| 0 <= k < order.len() && order[k] == ks[i]);
    assert forall|i: int| 0 <= i < ks.len() implies 0 <= #[trigger] pos[i] < order.len() && order[pos[i]]
        == ks[i] by {
        assert(order.contains(ks[i]));
    }
    let refs = Seq::new(ks.len(), |i: int| perm[pos[i]] as int);
    // The answer over slots is an answer over references.
    assert(refs.len() <= TOP_K);
    assert forall|i: int| 0 <= i < refs.len() implies 0 <= #[trigger] refs[i] < vectors.len() by {
        assert(0 <= perm[pos[i]] < n);
    }
    assert forall|a: int, b: int| 0 <= a < refs.len() && 0 <= b < refs.len() && a != b implies refs[a]
        != refs[b] by {
        assert(ks[a] != ks[b]);
        assert(pos[a] != pos[b]);
    }
    if ks.len() < TOP_K {
        assert(ks.to_multiset() =~= v.entries());
        assert(ks.len() == order.len()) by {
            assert(ks.to_multiset().len() == order.to_multiset().len());
        }
        assert(perm.len() == n) by {
            assert(perm.to_multiset().len() == upto(n).len());
        }
    }
    assert forall|i: int, y: int|
        0 <= i < refs.len() && 0 <= y < vectors.len() && !refs.contains(y) implies ref_dist(
        vectors,
        q,
        #[trigger] refs[i],
    ) <= #[trigger] ref_dist(vectors, q, y) by {
        assert(upto(n).count(y as usize) == 1);
        assert((y as usize) as int == y);
        assert(perm.to_multiset().count(y as usize) > 0);
        let k = choose|k: int| 0 <= k < perm.len() && perm[k] == y as usize;
        let s = order[k];
        assert(v.entries().count(s) == 1) by {
            assert(order.to_multiset().contains(s));
        }
        if ks.to_multiset().count(s) > 0 {
            let j = choose|j: int| 0 <= j < ks.len() && ks[j] == s;
            assert(order[pos[j]] == s);
            assert(pos[j] == k);
            assert(refs[j] == y);
            assert(false);
        }
        assert(v.slot_dist(q, ks[i]) <= v.slot_dist(q, s));
        assert(v.slot_vec(order[pos[i]]) == seq14(vectors[perm[pos[i]] as int]));
        assert(v.slot_vec(order[k]) == seq14(vectors[perm[k] as int]));
        reveal(IndexView::slot_dist);
        assert(v.slot_vec(ks[i]) == seq14(vectors[perm[pos[i]] as int]));
        assert(v.slot_vec(s) == seq14(vectors[perm[k] as int]));
        lemma_sq_dist_seq14(q, vectors[perm[pos[i]] as int], VECTOR_DIM as int);
        lemma_sq_dist_seq14(q, vectors[y], VECTOR_DIM as int);
    }
    lemma_label_sums(vectors, labels, out, order, perm, ks, pos);
    assert(is_ref_knn(vectors, q, refs));
}

} // verus!
