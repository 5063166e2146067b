//! Offline construction of the partitioned index file.
//!
//! References are bucketed by partition key; each bucket becomes a KD-tree
//! split at the median of its widest dimension until a node holds at most
//! the leaf size; leaves are padded to whole blocks of 8 lanes; then header,
//! partitions, nodes, vectors (per block, dimension-major), labels and the
//! MCC risk table are written out.

use crate::bytes::{
    extends, le_i16, le_i32, le_u32, lemma_extends_read, lemma_extends_trans, lemma_u32_roundtrip,
    push_i16_le, push_i32_le, push_u32_le, u32_bytes,
};
use crate::index::{box_within, header_error, open_error, range_ms, IndexView};
use crate::quantize::{
    in_box, key_of, partition_key, QueryVector, BLOCK_BYTES, HEADER_SIZE, LANES, MAGIC, MCC_TABLE_SIZE,
    NODE_SIZE, PACKED_DIMS, PART_SIZE, QUANT_SCALE, VECTOR_DIM,
};
use vstd::multiset::Multiset;
use vstd::prelude::*;

verus! {

pub const DEFAULT_LEAF_SIZE: usize = 128;

/// Largest number of references the format holds whatever their keys and
/// values: each reference adds at most two nodes (160 bytes) and, with the
/// padding of its leaf, at most eight slots (232 bytes); with the header, 256
/// partition records and the MCC table the file, and every offset the header
/// records, must stay within a `u32`:
/// `64 + 256 * 76 + 392 * n + 2048 <= u32::MAX`.
pub const MAX_REFERENCES: usize = 10_956_494;

/// What an index is built from: one label (0 legit, 1 fraud) per vector,
/// and the MCC risk table the server reads per query.
pub struct BuildInputs<'a> {
    pub vectors: &'a [QueryVector],
    pub labels: &'a [u8],
    pub mcc_table: &'a [i16; 1024],
}

#[derive(Clone, Copy)]
struct BuildNode {
    left: i32,
    right: i32,
    /// Slot index of a leaf's first vector.
    start: i32,
    len: i32,
    min: QueryVector,
    max: QueryVector,
}

#[derive(Clone, Copy)]
struct PartitionRoot {
    key: u32,
    root: i32,
}

/// Some vector at `idx` has `val` as its coordinate `d`.
pub open spec fn taken(vectors: Seq<QueryVector>, idx: Seq<usize>, d: int, val: int) -> bool {
    exists|k: int| 0 <= k < idx.len() && #[trigger] vectors[idx[k] as int]@[d] == val
}

/// `lo` and `hi` are the per-dimension minimum and maximum of the vectors
/// at `idx`: every one lies between them, and (when there is one) each
/// bound is taken by some vector.
pub open spec fn is_bounds(vectors: Seq<QueryVector>, idx: Seq<usize>, lo: Seq<i16>, hi: Seq<i16>) -> bool {
    &&& forall|k: int, d: int|
        0 <= k < idx.len() && 0 <= d < 16 ==> lo[d] <= #[trigger] vectors[idx[k] as int]@[d] <= hi[d]
    &&& idx.len() > 0 ==> forall|d: int| 0 <= d < 16 ==> #[trigger] taken(vectors, idx, d, lo[d] as int)
    &&& idx.len() > 0 ==> forall|d: int| 0 <= d < 16 ==> #[trigger] taken(vectors, idx, d, hi[d] as int)
}

/// Per-dimension lower and upper bounds of the indexed vectors; `[i16::MAX;
/// 16]` and `[i16::MIN; 16]` when there are none.
fn bounds(vectors: &[QueryVector], indices: &[usize]) -> (r: (QueryVector, QueryVector))
    requires
        forall|k: int| 0 <= k < indices@.len() ==> indices@[k] < vectors@.len(),
    ensures
        is_bounds(vectors@, indices@, r.0@, r.1@),
{
    let mut lo: QueryVector = [i16::MAX; 16];
    let mut hi: QueryVector = [i16::MIN; 16];
    let ghost mut wlo: Seq<int> = Seq::new(16, |d: int| 0int);
    let ghost mut whi: Seq<int> = Seq::new(16, |d: int| 0int);
    let mut k: usize = 0;
    while k < indices.len()
        invariant
            k <= indices@.len(),
            wlo.len() == 16,
            whi.len() == 16,
            forall|k2: int| 0 <= k2 < indices@.len() ==> indices@[k2] < vectors@.len(),
            forall|k2: int, d: int|
                0 <= k2 < k && 0 <= d < 16 ==> lo@[d] <= #[trigger] vectors@[indices@[k2] as int]@[d]
                    <= hi@[d],
            k == 0 ==> forall|d: int| 0 <= d < 16 ==> lo@[d] == i16::MAX && hi@[d] == i16::MIN,
            k > 0 ==> forall|d: int|
                0 <= d < 16 ==> 0 <= #[trigger] wlo[d] < k && vectors@[indices@[wlo[d]] as int]@[d]
                    == lo@[d],
            k > 0 ==> forall|d: int|
                0 <= d < 16 ==> 0 <= #[trigger] whi[d] < k && vectors@[indices@[whi[d]] as int]@[d]
                    == hi@[d],
        decreases indices@.len() - k,
    {
        let v = vectors[indices[k]];
        let mut d: usize = 0;
        while d < PACKED_DIMS
            invariant
                d <= 16,
                k < indices@.len(),
                wlo.len() == 16,
                whi.len() == 16,
                v == vectors@[indices@[k as int] as int],
                forall|d2: int| 0 <= d2 < d ==> lo@[d2] <= #[trigger] v@[d2] <= hi@[d2],
                forall|k2: int, d2: int|
                    0 <= k2 < k && 0 <= d2 < 16 ==> lo@[d2] <= #[trigger] vectors@[indices@[k2] as int]@[d2]
                        <= hi@[d2],
                forall|d2: int|
                    0 <= d2 < d ==> 0 <= #[trigger] wlo[d2] <= k && vectors@[indices@[wlo[d2]] as int]@[d2]
                        == lo@[d2],
                forall|d2: int|
                    0 <= d2 < d ==> 0 <= #[trigger] whi[d2] <= k && vectors@[indices@[whi[d2]] as int]@[d2]
                        == hi@[d2],
                k == 0 ==> forall|d2: int| d <= d2 < 16 ==> lo@[d2] == i16::MAX && hi@[d2] == i16::MIN,
                k > 0 ==> forall|d2: int|
                    d <= d2 < 16 ==> 0 <= #[trigger] wlo[d2] < k && vectors@[indices@[wlo[d2]] as int]@[d2]
                        == lo@[d2],
                k > 0 ==> forall|d2: int|
                    d <= d2 < 16 ==> 0 <= #[trigger] whi[d2] < k && vectors@[indices@[whi[d2]] as int]@[d2]
                        == hi@[d2],
            decreases 16 - d,
        {
            if v[d] < lo[d] {
                lo[d] = v[d];
                proof {
                    wlo = wlo.update(d as int, k as int);
                }
            }
            if v[d] > hi[d] {
                hi[d] = v[d];
                proof {
                    whi = whi.update(d as int, k as int);
                }
            }
            proof {
                // On the first vector an unchanged bound is already its value.
                if k == 0 {
                    wlo = wlo.update(d as int, 0);
                    whi = whi.update(d as int, 0);
                }
            }
            d = d + 1;
        }
        k = k + 1;
    }
    proof {
        if indices@.len() > 0 {
            assert forall|d: int| 0 <= d < 16 implies #[trigger] taken(vectors@, indices@, d, lo@[d] as int) by {
                assert(vectors@[indices@[wlo[d]] as int]@[d] == lo@[d]);
            }
            assert forall|d: int| 0 <= d < 16 implies #[trigger] taken(vectors@, indices@, d, hi@[d] as int) by {
                assert(vectors@[indices@[whi[d]] as int]@[d] == hi@[d]);
            }
        }
    }
    (lo, hi)
}

/// The first of the 14 real dimensions with the largest spread `hi - lo`.
fn widest_dim(lo: &QueryVector, hi: &QueryVector) -> (best: usize)
    ensures
        best < 14,
        forall|d: int| 0 <= d < 14 ==> hi@[d] - lo@[d] <= hi@[best as int] - lo@[best as int],
        forall|d: int| 0 <= d < best ==> hi@[d] - lo@[d] < hi@[best as int] - lo@[best as int],
{
    let mut best: usize = 0;
    let mut best_w: i32 = hi[0] as i32 - lo[0] as i32;
    let mut d: usize = 1;
    while d < VECTOR_DIM
        invariant
            1 <= d <= 14,
            best < d,
            best_w == hi@[best as int] - lo@[best as int],
            forall|d2: int| 0 <= d2 < d ==> hi@[d2] - lo@[d2] <= best_w,
            forall|d2: int| 0 <= d2 < best ==> hi@[d2] - lo@[d2] < best_w,
        decreases 14 - d,
    {
        let w = hi[d] as i32 - lo[d] as i32;
        if w > best_w {
            best_w = w;
            best = d;
        }
        d = d + 1;
    }
    best
}

/// A leaf of the in-memory tree: its slots are stored, its first slot opens
/// a block, and its vectors lie in its box.
spec fn mem_leaf_ok(nodes: Seq<BuildNode>, blocks: Seq<(QueryVector, u8)>, n: int) -> bool {
    let nd = nodes[n];
    &&& 0 <= nd.start
    &&& nd.start % 8 == 0
    &&& 0 <= nd.len
    &&& nd.start + nd.len <= blocks.len()
    &&& forall|j: int|
        0 <= j < nd.len ==> #[trigger] in_box(blocks[nd.start + j].0@, nd.min@, nd.max@)
}

/// An inner node of the in-memory tree: both children follow it and its box
/// covers theirs.
spec fn mem_inner_ok(nodes: Seq<BuildNode>, n: int) -> bool {
    let nd = nodes[n];
    &&& n < nd.left < nodes.len()
    &&& n < nd.right < nodes.len()
    &&& box_within(nodes[nd.left as int].min@, nodes[nd.left as int].max@, nd.min@, nd.max@)
    &&& box_within(nodes[nd.right as int].min@, nodes[nd.right as int].max@, nd.min@, nd.max@)
}

spec fn mem_node_ok(nodes: Seq<BuildNode>, blocks: Seq<(QueryVector, u8)>, n: int) -> bool {
    if nodes[n].left < 0 {
        mem_leaf_ok(nodes, blocks, n)
    } else {
        mem_inner_ok(nodes, n)
    }
}

/// A padding slot: the farthest vector (`i16::MAX` in every dim), label 0.
pub open spec fn is_pad(b: (QueryVector, u8)) -> bool {
    &&& b.1 == 0
    &&& forall|d: int| 0 <= d < PACKED_DIMS ==> #[trigger] b.0@[d] == i16::MAX
}

/// Every label is 0 (legit) or 1 (fraud).
pub open spec fn labels_bounded(labels: Seq<u8>) -> bool {
    forall|i: int| 0 <= i < labels.len() ==> #[trigger] labels[i] <= 1
}

/// The slots `from .. to` carry labels 0 or 1.
spec fn slots_labelled(blocks: Seq<(QueryVector, u8)>, from: int, to: int) -> bool {
    forall|s: int| from <= s < to ==> #[trigger] blocks[s].1 <= 1
}

/// Growing both tables behind a node keeps it sound.
proof fn lemma_mem_node_extend(
    nodes: Seq<BuildNode>,
    blocks: Seq<(QueryVector, u8)>,
    nodes2: Seq<BuildNode>,
    blocks2: Seq<(QueryVector, u8)>,
    n: int,
)
    requires
        0 <= n < nodes.len(),
        mem_node_ok(nodes, blocks, n),
        nodes.len() <= nodes2.len(),
        forall|k: int| 0 <= k < nodes.len() ==> nodes2[k] == nodes[k],
        blocks.len() <= blocks2.len(),
        forall|s: int| 0 <= s < blocks.len() ==> blocks2[s] == blocks[s],
    ensures
        mem_node_ok(nodes2, blocks2, n),
{
    let nd = nodes[n];
    assert(nodes2[n] == nd);
    if nd.left < 0 {
        assert forall|j: int| 0 <= j < nd.len implies #[trigger] in_box(blocks2[nd.start + j].0@, nd.min@, nd.max@) by {
            assert(blocks2[nd.start + j] == blocks[nd.start + j]);
            assert(in_box(blocks[nd.start + j].0@, nd.min@, nd.max@));
        }
    } else {
        assert(nodes2[nd.left as int] == nodes[nd.left as int]);
        assert(nodes2[nd.right as int] == nodes[nd.right as int]);
    }
}

/// Rewriting a node before `n` leaves `n` sound: its children follow it.
proof fn lemma_mem_node_update(
    nodes: Seq<BuildNode>,
    blocks: Seq<(QueryVector, u8)>,
    i: int,
    x: BuildNode,
    n: int,
)
    requires
        0 <= i < n < nodes.len(),
        mem_node_ok(nodes, blocks, n),
    ensures
        mem_node_ok(nodes.update(i, x), blocks, n),
{
    let nodes2 = nodes.update(i, x);
    assert(nodes2[n] == nodes[n]);
    if nodes[n].left >= 0 {
        assert(nodes2[nodes[n].left as int] == nodes[nodes[n].left as int]);
        assert(nodes2[nodes[n].right as int] == nodes[nodes[n].right as int]);
    }
}

/// The box of a subset of the vectors lies within the box of the whole set.
proof fn lemma_sub_bounds_within(
    vectors: Seq<QueryVector>,
    indices: Seq<usize>,
    sub: Seq<usize>,
    lo: Seq<i16>,
    hi: Seq<i16>,
    slo: Seq<i16>,
    shi: Seq<i16>,
)
    requires
        is_bounds(vectors, indices, lo, hi),
        is_bounds(vectors, sub, slo, shi),
        sub.len() > 0,
        forall|k: int| 0 <= k < sub.len() ==> indices.contains(#[trigger] sub[k]),
    ensures
        box_within(slo, shi, lo, hi),
{
    assert forall|d: int| 0 <= d < VECTOR_DIM implies #[trigger] lo[d] <= slo[d] && shi[d] <= hi[d] by {
        assert(taken(vectors, sub, d, slo[d] as int));
        assert(taken(vectors, sub, d, shi[d] as int));
        let k = choose|k: int| 0 <= k < sub.len() && #[trigger] vectors[sub[k] as int]@[d] == slo[d] as int;
        let k2 = choose|k2: int| 0 <= k2 < sub.len() && #[trigger] vectors[sub[k2] as int]@[d] == shi[d] as int;
        assert(indices.contains(sub[k]));
        assert(indices.contains(sub[k2]));
        let i = choose|i: int| 0 <= i < indices.len() && indices[i] == sub[k];
        let i2 = choose|i2: int| 0 <= i2 < indices.len() && indices[i2] == sub[k2];
        assert(lo[d] <= vectors[indices[i] as int]@[d] <= hi[d]);
        assert(lo[d] <= vectors[indices[i2] as int]@[d] <= hi[d]);
    }
}

/// Sorts indices by one coordinate of the vectors they point to
/// (`slice::sort_unstable_by_key`): its documentation promises the same
/// elements in nondecreasing key order; the order of equal keys is not
/// specified.
#[verifier::external_body]
fn sort_by_dim(idx: &mut Vec<usize>, vectors: &[QueryVector], dim: usize)
    requires
        forall|k: int| 0 <= k < old(idx)@.len() ==> old(idx)@[k] < vectors@.len(),
        dim < 16,
    ensures
        final(idx)@.to_multiset() == old(idx)@.to_multiset(),
        forall|a: int, b: int|
            0 <= a <= b < final(idx)@.len() ==> vectors@[final(idx)@[a] as int]@[dim as int]
                <= vectors@[final(idx)@[b] as int]@[dim as int],
{
    idx.sort_unstable_by_key(|&i| vectors[i][dim]);
}

/// A node's children, when it has them, follow it inside the table.
spec fn children_ok(nodes: Seq<BuildNode>, m: int) -> bool {
    nodes[m].left < 0 || (m < nodes[m].left < nodes.len() && m < nodes[m].right < nodes.len())
}

/// The slots reachable from node `n`, leaf by leaf from the left.
spec fn mem_order(nodes: Seq<BuildNode>, n: int) -> Seq<int>
    decreases nodes.len() - n,
{
    if !(0 <= n < nodes.len()) {
        Seq::empty()
    } else if nodes[n].left < 0 {
        Seq::new(
            if nodes[n].len >= 0 {
                nodes[n].len as nat
            } else {
                0
            },
            |j: int| nodes[n].start + j,
        )
    } else if n < nodes[n].left < nodes.len() && n < nodes[n].right < nodes.len() {
        mem_order(nodes, nodes[n].left as int) + mem_order(nodes, nodes[n].right as int)
    } else {
        Seq::empty()
    }
}

/// The slots `start .. start + len` listed in order have the multiset
/// `range_ms(start, len)`.
proof fn lemma_range_ms(start: int, len: int)
    requires
        len >= 0,
    ensures
        range_ms(start, len) == Seq::new(len as nat, |j: int| start + j).to_multiset(),
    decreases len,
{
    broadcast use vstd::seq_lib::group_to_multiset_ensures;

    let s = Seq::new(len as nat, |j: int| start + j);
    if len > 0 {
        lemma_range_ms(start, len - 1);
        let a = Seq::new((len - 1) as nat, |j: int| start + j);
        assert(s =~= a.push(start + len - 1));
        vstd::seq_lib::to_multiset_build(a, start + len - 1);
        assert(s.to_multiset() =~= a.to_multiset().insert(start + len - 1));
    } else {
        assert(s =~= Seq::<int>::empty());
        assert(s.to_multiset() =~= Multiset::<int>::empty());
    }
}

/// Appending nodes behind a subtree leaves its slots unchanged.
proof fn lemma_order_extend(nodes: Seq<BuildNode>, nodes2: Seq<BuildNode>, n: int)
    requires
        0 <= n < nodes.len() <= nodes2.len(),
        forall|k: int| 0 <= k < nodes.len() ==> nodes2[k] == nodes[k],
        forall|m: int| n <= m < nodes.len() ==> #[trigger] children_ok(nodes, m),
    ensures
        mem_order(nodes2, n) == mem_order(nodes, n),
    decreases nodes.len() - n,
{
    assert(nodes2[n] == nodes[n]);
    assert(children_ok(nodes, n));
    if nodes[n].left >= 0 {
        lemma_order_extend(nodes, nodes2, nodes[n].left as int);
        lemma_order_extend(nodes, nodes2, nodes[n].right as int);
    }
}

/// Rewriting a node in front of a subtree leaves its slots unchanged.
proof fn lemma_order_update(nodes: Seq<BuildNode>, i: int, x: BuildNode, n: int)
    requires
        0 <= i < n < nodes.len(),
        forall|m: int| n <= m < nodes.len() ==> #[trigger] children_ok(nodes, m),
    ensures
        mem_order(nodes.update(i, x), n) == mem_order(nodes, n),
    decreases nodes.len() - n,
{
    let nodes2 = nodes.update(i, x);
    assert(nodes2[n] == nodes[n]);
    assert(children_ok(nodes, n));
    if nodes[n].left >= 0 {
        lemma_order_update(nodes, i, x, nodes[n].left as int);
        lemma_order_update(nodes, i, x, nodes[n].right as int);
    }
}

/// `x` rounded up to whole blocks of 8 slots.
pub open spec fn round8(x: int) -> int {
    if x <= 0 {
        0
    } else {
        ((x + 7) / 8) * 8
    }
}

/// Slots the leaves among nodes `a .. b` take, padding included.
spec fn mem_slots(nodes: Seq<BuildNode>, a: int, b: int) -> int
    decreases b - a,
{
    if b <= a {
        0
    } else {
        mem_slots(nodes, a, b - 1) + if nodes[b - 1].left < 0 {
            round8(nodes[b - 1].len as int)
        } else {
            0
        }
    }
}

proof fn lemma_mem_slots_split(nodes: Seq<BuildNode>, a: int, b: int, c: int)
    requires
        a <= b <= c,
    ensures
        mem_slots(nodes, a, c) == mem_slots(nodes, a, b) + mem_slots(nodes, b, c),
    decreases c - b,
{
    if c > b {
        lemma_mem_slots_split(nodes, a, b, c - 1);
    }
}

proof fn lemma_mem_slots_same(nodes: Seq<BuildNode>, nodes2: Seq<BuildNode>, a: int, b: int)
    requires
        forall|k: int| a <= k < b ==> nodes2[k] == nodes[k],
    ensures
        mem_slots(nodes2, a, b) == mem_slots(nodes, a, b),
    decreases b - a,
{
    if b > a {
        lemma_mem_slots_same(nodes, nodes2, a, b - 1);
        assert(nodes2[b - 1] == nodes[b - 1]);
    }
}

/// A leaf over freshly stored copies of the vectors at `indices`, boxed by
/// their bounds, is sound.
proof fn lemma_leaf_ok(
    vectors: Seq<QueryVector>,
    labels: Seq<u8>,
    indices: Seq<usize>,
    blocks: Seq<(QueryVector, u8)>,
    nodes: Seq<BuildNode>,
    n: int,
)
    requires
        0 <= n < nodes.len(),
        nodes[n].left < 0,
        nodes[n].len == indices.len(),
        0 <= nodes[n].start,
        nodes[n].start % 8 == 0,
        nodes[n].start + indices.len() <= blocks.len(),
        is_bounds(vectors, indices, nodes[n].min@, nodes[n].max@),
        forall|j: int|
            0 <= j < indices.len() ==> #[trigger] blocks[nodes[n].start + j] == (
            vectors[indices[j] as int],
            labels[indices[j] as int],
        ),
    ensures
        mem_node_ok(nodes, blocks, n),
{
    let leaf = nodes[n];
    assert forall|j: int| 0 <= j < leaf.len implies #[trigger] in_box(
        blocks[leaf.start + j].0@,
        leaf.min@,
        leaf.max@,
    ) by {
        assert(blocks[leaf.start + j] == (vectors[indices[j] as int], labels[indices[j] as int]));
        assert forall|d: int| 0 <= d < VECTOR_DIM implies leaf.min@[d] <= #[trigger] blocks[leaf.start
            + j].0@[d] <= leaf.max@[d] by {
            assert(leaf.min@[d] <= vectors[indices[j] as int]@[d] <= leaf.max@[d]);
        }
    }
}

/// After both subtrees are built and the inner node is written in front of
/// them, every node from the inner one on is sound.
proof fn lemma_inner_ok(
    vectors: Seq<QueryVector>,
    labels: Seq<u8>,
    indices: Seq<usize>,
    left_idx: Seq<usize>,
    right_idx: Seq<usize>,
    nodes0: Seq<BuildNode>,
    nodes1: Seq<BuildNode>,
    nodes2: Seq<BuildNode>,
    nodes3: Seq<BuildNode>,
    nodes4: Seq<BuildNode>,
    blocks1: Seq<(QueryVector, u8)>,
    blocks2: Seq<(QueryVector, u8)>,
    blocks3: Seq<(QueryVector, u8)>,
    node_idx: int,
)
    requires
        node_idx == nodes0.len(),
        nodes1.len() == node_idx + 1,
        left_idx.len() > 0,
        right_idx.len() > 0,
        forall|k: int| 0 <= k < left_idx.len() ==> indices.contains(#[trigger] left_idx[k]),
        forall|k: int| 0 <= k < right_idx.len() ==> indices.contains(#[trigger] right_idx[k]),
        is_bounds(vectors, indices, nodes1[node_idx].min@, nodes1[node_idx].max@),
        // first subtree
        nodes1.len() < nodes2.len(),
        forall|k: int| 0 <= k < nodes1.len() ==> nodes2[k] == nodes1[k],
        blocks1.len() <= blocks2.len(),
        forall|s: int| 0 <= s < blocks1.len() ==> blocks2[s] == blocks1[s],
        is_bounds(vectors, left_idx, nodes2[nodes1.len() as int].min@, nodes2[nodes1.len() as int].max@),
        forall|n: int| nodes1.len() <= n < nodes2.len() ==> #[trigger] mem_node_ok(nodes2, blocks2, n),
        labels_bounded(labels) ==> slots_labelled(blocks2, blocks1.len() as int, blocks2.len() as int),
        // second subtree
        nodes2.len() < nodes3.len(),
        forall|k: int| 0 <= k < nodes2.len() ==> nodes3[k] == nodes2[k],
        blocks2.len() <= blocks3.len(),
        forall|s: int| 0 <= s < blocks2.len() ==> blocks3[s] == blocks2[s],
        is_bounds(vectors, right_idx, nodes3[nodes2.len() as int].min@, nodes3[nodes2.len() as int].max@),
        forall|n: int| nodes2.len() <= n < nodes3.len() ==> #[trigger] mem_node_ok(nodes3, blocks3, n),
        labels_bounded(labels) ==> slots_labelled(blocks3, blocks2.len() as int, blocks3.len() as int),
        // the inner node
        nodes4 == nodes3.update(
            node_idx,
            BuildNode {
                left: nodes1.len() as i32,
                right: nodes2.len() as i32,
                start: nodes4[node_idx].start,
                len: nodes4[node_idx].len,
                min: nodes1[node_idx].min,
                max: nodes1[node_idx].max,
            },
        ),
        nodes3.len() < 0x4000_0000,
    ensures
        forall|n: int| node_idx <= n < nodes4.len() ==> #[trigger] mem_node_ok(nodes4, blocks3, n),
        labels_bounded(labels) ==> slots_labelled(blocks3, blocks1.len() as int, blocks3.len() as int),
{
    let lo = nodes1[node_idx].min@;
    let hi = nodes1[node_idx].max@;
    let l = nodes1.len() as int;
    let r = nodes2.len() as int;
    assert(nodes3[l] == nodes2[l]);
    assert(nodes4[l] == nodes3[l]);
    assert(nodes4[r] == nodes3[r]);
    lemma_sub_bounds_within(vectors, indices, left_idx, lo, hi, nodes2[l].min@, nodes2[l].max@);
    lemma_sub_bounds_within(vectors, indices, right_idx, lo, hi, nodes3[r].min@, nodes3[r].max@);
    assert(mem_inner_ok(nodes4, node_idx));
    assert forall|n: int| node_idx <= n < nodes4.len() implies #[trigger] mem_node_ok(nodes4, blocks3, n) by {
        if n > node_idx {
            if n < nodes2.len() {
                assert(mem_node_ok(nodes2, blocks2, n));
                lemma_mem_node_extend(nodes2, blocks2, nodes3, blocks3, n);
            } else {
                assert(mem_node_ok(nodes3, blocks3, n));
            }
            lemma_mem_node_update(nodes3, blocks3, node_idx, nodes4[node_idx], n);
        }
    }
    if labels_bounded(labels) {
        assert forall|s: int| blocks1.len() <= s < blocks3.len() implies #[trigger] blocks3[s].1 <= 1 by {
            if s < blocks2.len() {
                assert(blocks2[s].1 <= 1);
                assert(blocks3[s] == blocks2[s]);
            } else {
                assert(blocks3[s].1 <= 1);
            }
        }
    }
}

/// The slots under a new inner node are those of its left subtree followed
/// by those of its right one, and they hold the vectors of both halves.
proof fn lemma_inner_order(
    vectors: Seq<QueryVector>,
    labels: Seq<u8>,
    indices: Seq<usize>,
    left_idx: Seq<usize>,
    right_idx: Seq<usize>,
    perm_l: Seq<usize>,
    perm_r: Seq<usize>,
    nodes1: Seq<BuildNode>,
    nodes2: Seq<BuildNode>,
    nodes3: Seq<BuildNode>,
    nodes4: Seq<BuildNode>,
    blocks1: Seq<(QueryVector, u8)>,
    blocks2: Seq<(QueryVector, u8)>,
    blocks3: Seq<(QueryVector, u8)>,
    node_idx: int,
)
    requires
        nodes1.len() == node_idx + 1,
        0 <= node_idx,
        (left_idx + right_idx).to_multiset() == indices.to_multiset(),
        nodes1.len() < nodes2.len() < nodes3.len(),
        nodes4.len() == nodes3.len(),
        forall|k: int| 0 <= k < nodes2.len() ==> nodes3[k] == nodes2[k],
        forall|k: int| 0 <= k < nodes3.len() && k != node_idx ==> nodes4[k] == nodes3[k],
        nodes4[node_idx].left == nodes1.len(),
        nodes4[node_idx].right == nodes2.len(),
        blocks1.len() <= blocks2.len() <= blocks3.len(),
        forall|s: int| 0 <= s < blocks2.len() ==> blocks3[s] == blocks2[s],
        forall|n: int| nodes1.len() <= n < nodes2.len() ==> #[trigger] mem_node_ok(nodes2, blocks2, n),
        forall|n: int| nodes2.len() <= n < nodes3.len() ==> #[trigger] mem_node_ok(nodes3, blocks3, n),
        perm_l.to_multiset() == left_idx.to_multiset(),
        perm_r.to_multiset() == right_idx.to_multiset(),
        mem_order(nodes2, nodes1.len() as int).len() == perm_l.len(),
        mem_order(nodes3, nodes2.len() as int).len() == perm_r.len(),
        mem_order(nodes2, nodes1.len() as int).no_duplicates(),
        mem_order(nodes3, nodes2.len() as int).no_duplicates(),
        forall|t: int|
            blocks1.len() <= t < blocks2.len() ==> mem_order(nodes2, nodes1.len() as int).contains(t)
                || #[trigger] is_pad(blocks2[t]),
        forall|t: int|
            blocks2.len() <= t < blocks3.len() ==> mem_order(nodes3, nodes2.len() as int).contains(t)
                || #[trigger] is_pad(blocks3[t]),
        forall|k: int|
            0 <= k < perm_l.len() ==> blocks1.len() <= #[trigger] mem_order(nodes2, nodes1.len() as int)[k]
                < blocks2.len() && blocks2[mem_order(nodes2, nodes1.len() as int)[k]] == (
                vectors[perm_l[k] as int],
                labels[perm_l[k] as int],
            ),
        forall|k: int|
            0 <= k < perm_r.len() ==> blocks2.len() <= #[trigger] mem_order(nodes3, nodes2.len() as int)[k]
                < blocks3.len() && blocks3[mem_order(nodes3, nodes2.len() as int)[k]] == (
                vectors[perm_r[k] as int],
                labels[perm_r[k] as int],
            ),
    ensures
        (perm_l + perm_r).to_multiset() == indices.to_multiset(),
        mem_order(nodes4, node_idx).len() == (perm_l + perm_r).len(),
        mem_order(nodes4, node_idx).no_duplicates(),
        forall|t: int|
            blocks1.len() <= t < blocks3.len() ==> mem_order(nodes4, node_idx).contains(t)
                || #[trigger] is_pad(blocks3[t]),
        forall|k: int|
            0 <= k < (perm_l + perm_r).len() ==> blocks1.len() <= #[trigger] mem_order(nodes4, node_idx)[k]
                < blocks3.len() && blocks3[mem_order(nodes4, node_idx)[k]] == (
                vectors[(perm_l + perm_r)[k] as int],
                labels[(perm_l + perm_r)[k] as int],
            ),
{
    broadcast use vstd::seq_lib::lemma_multiset_commutative;

    let l = nodes1.len() as int;
    let r = nodes2.len() as int;
    assert forall|m: int| l <= m < nodes2.len() implies #[trigger] children_ok(nodes2, m) by {
        assert(mem_node_ok(nodes2, blocks2, m));
    }
    assert forall|m: int| l <= m < nodes3.len() implies #[trigger] children_ok(nodes3, m) by {
        if m < nodes2.len() {
            assert(mem_node_ok(nodes2, blocks2, m));
            assert(nodes3[m] == nodes2[m]);
        } else {
            assert(mem_node_ok(nodes3, blocks3, m));
        }
    }
    assert(nodes4 =~= nodes3.update(node_idx, nodes4[node_idx]));
    lemma_order_extend(nodes2, nodes3, l);
    lemma_order_update(nodes3, node_idx, nodes4[node_idx], l);
    lemma_order_update(nodes3, node_idx, nodes4[node_idx], r);
    let ol = mem_order(nodes2, l);
    let or = mem_order(nodes3, r);
    assert(mem_order(nodes4, node_idx) == mem_order(nodes4, l) + mem_order(nodes4, r));
    assert(mem_order(nodes4, node_idx) == ol + or);
    assert((perm_l + perm_r).to_multiset() =~= perm_l.to_multiset().add(perm_r.to_multiset()));
    assert((left_idx + right_idx).to_multiset() =~= left_idx.to_multiset().add(right_idx.to_multiset()));
    assert forall|k: int| 0 <= k < (perm_l + perm_r).len() implies blocks1.len() <= #[trigger] mem_order(
        nodes4,
        node_idx,
    )[k] < blocks3.len() && blocks3[mem_order(nodes4, node_idx)[k]] == (
        vectors[(perm_l + perm_r)[k] as int],
        labels[(perm_l + perm_r)[k] as int],
    ) by {
        if k < perm_l.len() {
            assert((ol + or)[k] == ol[k]);
            assert(blocks1.len() <= ol[k] < blocks2.len());
            assert(blocks3[ol[k]] == blocks2[ol[k]]);
        } else {
            assert((ol + or)[k] == or[k - perm_l.len()]);
            assert(blocks2.len() <= or[k - perm_l.len()] < blocks3.len());
        }
    }
    assert forall|t: int| blocks1.len() <= t < blocks3.len() implies mem_order(nodes4, node_idx).contains(t)
        || #[trigger] is_pad(blocks3[t]) by {
        if t < blocks2.len() {
            assert(blocks3[t] == blocks2[t]);
            if ol.contains(t) {
                let k = choose|k: int| 0 <= k < ol.len() && ol[k] == t;
                assert((ol + or)[k] == t);
            } else {
                assert(is_pad(blocks2[t]));
            }
        } else {
            if or.contains(t) {
                let k = choose|k: int| 0 <= k < or.len() && or[k] == t;
                assert((ol + or)[ol.len() + k] == t);
            }
        }
    }
    assert forall|a: int, b: int| 0 <= a < b < (ol + or).len() implies (ol + or)[a] != (ol + or)[b] by {
        if b < ol.len() {
        } else if a >= ol.len() {
            assert(or[a - ol.len()] != or[b - ol.len()]);
        } else {
            assert(ol[a] < blocks2.len());
            assert(or[b - ol.len()] >= blocks2.len());
        }
    }
}

/// Builds the tree over `indices` and returns its root node: leaves hold at
/// most `leaf_size` vectors, appended to `blocks` and padded to a multiple
/// of 8 slots with far-away dummy vectors labelled 0.
fn build_tree(
    vectors: &[QueryVector],
    labels: &[u8],
    indices: &[usize],
    leaf_size: usize,
    blocks: &mut Vec<(QueryVector, u8)>,
    nodes: &mut Vec<BuildNode>,
) -> (res: (usize, Ghost<Seq<usize>>))
    requires
        vectors@.len() == labels@.len(),
        forall|k: int| 0 <= k < indices@.len() ==> indices@[k] < vectors@.len(),
        indices@.len() >= 1,
        32 <= leaf_size <= 2048,
        old(blocks)@.len() % 8 == 0,
        old(nodes)@.len() + 2 * indices@.len() <= 0x4000_0000,
        old(blocks)@.len() + 8 * indices@.len() <= 0x4000_0000,
    ensures
        res.0 == old(nodes)@.len(),
        old(nodes)@.len() < final(nodes)@.len(),
        final(nodes)@.len() + 1 <= old(nodes)@.len() + 2 * indices@.len(),
        forall|k: int| 0 <= k < old(nodes)@.len() ==> final(nodes)@[k] == old(nodes)@[k],
        final(blocks)@.len() % 8 == 0,
        old(blocks)@.len() <= final(blocks)@.len() <= old(blocks)@.len() + 8 * indices@.len(),
        forall|s: int| 0 <= s < old(blocks)@.len() ==> final(blocks)@[s] == old(blocks)@[s],
        final(nodes)@[res.0 as int].len == indices@.len(),
        is_bounds(vectors@, indices@, final(nodes)@[res.0 as int].min@, final(nodes)@[res.0 as int].max@),
        forall|n: int|
            old(nodes)@.len() <= n < final(nodes)@.len() ==> #[trigger] mem_node_ok(
                final(nodes)@,
                final(blocks)@,
                n,
            ),
        labels_bounded(labels@) ==> slots_labelled(
            final(blocks)@,
            old(blocks)@.len() as int,
            final(blocks)@.len() as int,
        ),
        res.1@.to_multiset() == indices@.to_multiset(),
        mem_order(final(nodes)@, res.0 as int).len() == res.1@.len(),
        mem_order(final(nodes)@, res.0 as int).no_duplicates(),
        final(blocks)@.len() == old(blocks)@.len() + mem_slots(
            final(nodes)@,
            old(nodes)@.len() as int,
            final(nodes)@.len() as int,
        ),
        indices@.len() <= leaf_size ==> final(nodes)@.len() == old(nodes)@.len() + 1,
        forall|m: int|
            old(nodes)@.len() <= m < final(nodes)@.len() && #[trigger] final(nodes)@[m].left < 0
                ==> final(nodes)@[m].len <= leaf_size,
        forall|t: int|
            old(blocks)@.len() <= t < final(blocks)@.len() ==> mem_order(final(nodes)@, res.0 as int).contains(t)
                || #[trigger] is_pad(final(blocks)@[t]),
        forall|k: int|
            0 <= k < res.1@.len() ==> old(blocks)@.len() <= #[trigger] mem_order(
                final(nodes)@,
                res.0 as int,
            )[k] < final(blocks)@.len() && final(blocks)@[mem_order(final(nodes)@, res.0 as int)[k]]
                == (vectors@[res.1@[k] as int], labels@[res.1@[k] as int]),
    decreases indices@.len(),
{
    broadcast use vstd::seq_lib::group_to_multiset_ensures;

    let (lo, hi) = bounds(vectors, indices);
    let node_idx = nodes.len();
    nodes.push(
        BuildNode { left: -1, right: -1, start: 0, len: indices.len() as i32, min: lo, max: hi },
    );
    if indices.len() <= leaf_size {
        let start_slot = blocks.len() as i32;
        let mut k: usize = 0;
        while k < indices.len()
            invariant
                k <= indices@.len(),
                vectors@.len() == labels@.len(),
                forall|k2: int| 0 <= k2 < indices@.len() ==> indices@[k2] < vectors@.len(),
                blocks@.len() == old(blocks)@.len() + k,
                start_slot == old(blocks)@.len(),
                forall|s: int| 0 <= s < old(blocks)@.len() ==> blocks@[s] == old(blocks)@[s],
                forall|j: int|
                    0 <= j < k ==> #[trigger] blocks@[start_slot + j] == (
                    vectors@[indices@[j] as int],
                    labels@[indices@[j] as int],
                ),
                labels_bounded(labels@) ==> slots_labelled(
                    blocks@,
                    old(blocks)@.len() as int,
                    blocks@.len() as int,
                ),
            decreases indices@.len() - k,
        {
            let i = indices[k];
            proof {
                if labels_bounded(labels@) {
                    assert(labels@[i as int] <= 1);
                }
            }
            blocks.push((vectors[i], labels[i]));
            k = k + 1;
        }
        let rem = blocks.len() % 8;
        let pad: usize = if rem == 0 {
            0
        } else {
            8 - rem
        };
        assert((blocks@.len() + pad) % 8 == 0);
        let mut q: usize = 0;
        while q < pad
            invariant
                q <= pad < 8,
                blocks@.len() == old(blocks)@.len() + indices@.len() + q,
                old(blocks)@.len() + 8 * indices@.len() <= 0x4000_0000,
                indices@.len() >= 1,
                start_slot == old(blocks)@.len(),
                forall|s: int| 0 <= s < old(blocks)@.len() ==> blocks@[s] == old(blocks)@[s],
                forall|j: int|
                    0 <= j < indices@.len() ==> #[trigger] blocks@[start_slot + j] == (
                    vectors@[indices@[j] as int],
                    labels@[indices@[j] as int],
                ),
                labels_bounded(labels@) ==> slots_labelled(
                    blocks@,
                    old(blocks)@.len() as int,
                    blocks@.len() as int,
                ),
                forall|t: int|
                    start_slot + indices@.len() <= t < blocks@.len() ==> #[trigger] is_pad(blocks@[t]),
            decreases pad - q,
        {
            let far: QueryVector = [i16::MAX; 16];
            assert(is_pad((far, 0u8)));
            blocks.push((far, 0u8));
            q = q + 1;
        }
        let leaf = BuildNode {
            left: -1,
            right: -1,
            start: start_slot,
            len: indices.len() as i32,
            min: lo,
            max: hi,
        };
        nodes.set(node_idx, leaf);
        proof {
            lemma_leaf_ok(vectors@, labels@, indices@, blocks@, nodes@, node_idx as int);
            let k = indices@.len() as int;
            assert(k + pad == round8(k)) by {
                assert((old(blocks)@.len() + k) % 8 == k % 8);
            }
            assert(mem_slots(nodes@, node_idx as int, node_idx + 1) == round8(k)) by {
                assert(mem_slots(nodes@, node_idx as int, node_idx as int) == 0);
            }
            let o = mem_order(nodes@, node_idx as int);
            assert(o =~= Seq::new(indices@.len(), |j: int| start_slot + j));
            assert forall|a: int, b: int| 0 <= a < b < o.len() implies o[a] != o[b] by {
                assert(o[a] == start_slot + a);
                assert(o[b] == start_slot + b);
            }
            assert forall|t: int| old(blocks)@.len() <= t < blocks@.len() implies o.contains(t)
                || #[trigger] is_pad(blocks@[t]) by {
                if t < start_slot + indices@.len() {
                    assert(o[t - start_slot] == t);
                }
            }
            assert forall|k: int| 0 <= k < indices@.len() implies old(blocks)@.len() <= #[trigger] o[k]
                < blocks@.len() && blocks@[o[k]] == (
                vectors@[indices@[k] as int],
                labels@[indices@[k] as int],
            ) by {
                assert(o[k] == start_slot + k);
                assert(blocks@[start_slot + k] == (
                    vectors@[indices@[k] as int],
                    labels@[indices@[k] as int],
                ));
            }
        }
        return (node_idx, Ghost(indices@));
    }
    let split_dim = widest_dim(&lo, &hi);
    let mut sorted: Vec<usize> = Vec::new();
    let mut k: usize = 0;
    while k < indices.len()
        invariant
            k <= indices@.len(),
            sorted@ == indices@.subrange(0, k as int),
        decreases indices@.len() - k,
    {
        sorted.push(indices[k]);
        k = k + 1;
        assert(sorted@ =~= indices@.subrange(0, k as int));
    }
    assert(sorted@ =~= indices@);
    sort_by_dim(&mut sorted, vectors, split_dim);
    proof {
        assert forall|k2: int| 0 <= k2 < sorted@.len() implies sorted@[k2] < vectors@.len()
            && indices@.contains(#[trigger] sorted@[k2]) by {
            assert(sorted@.to_multiset().count(sorted@[k2]) > 0);
            assert(indices@.contains(sorted@[k2]));
        }
    }
    assert(sorted@.len() == indices@.len()) by {
        assert(sorted@.to_multiset().len() == indices@.to_multiset().len());
    }
    let mid = sorted.len() / 2;
    let left_idx = crate::http::slice_range_usize(sorted.as_slice(), 0, mid);
    let right_idx = crate::http::slice_range_usize(sorted.as_slice(), mid, sorted.len());
    let ghost nodes1 = nodes@;
    let (left, perm_l) = build_tree(vectors, labels, left_idx, leaf_size, blocks, nodes);
    let ghost nodes2 = nodes@;
    let ghost blocks2 = blocks@;
    let (right, perm_r) = build_tree(vectors, labels, right_idx, leaf_size, blocks, nodes);
    let ghost nodes3 = nodes@;
    let ghost blocks3 = blocks@;
    let left_start = nodes[left].start;
    let total_len = nodes[left].len + nodes[right].len;
    let inner = BuildNode {
        left: left as i32,
        right: right as i32,
        start: left_start,
        len: total_len,
        min: lo,
        max: hi,
    };
    nodes.set(node_idx, inner);
    proof {
        assert forall|k2: int| 0 <= k2 < left_idx@.len() implies indices@.contains(
            #[trigger] left_idx@[k2],
        ) by {
            assert(left_idx@[k2] == sorted@[k2]);
        }
        assert forall|k2: int| 0 <= k2 < right_idx@.len() implies indices@.contains(
            #[trigger] right_idx@[k2],
        ) by {
            assert(right_idx@[k2] == sorted@[mid + k2]);
        }
        lemma_inner_ok(
            vectors@,
            labels@,
            indices@,
            left_idx@,
            right_idx@,
            old(nodes)@,
            nodes1,
            nodes2,
            nodes3,
            nodes@,
            old(blocks)@,
            blocks2,
            blocks@,
            node_idx as int,
        );
        assert(left_idx@ + right_idx@ =~= sorted@);
        lemma_inner_order(
            vectors@,
            labels@,
            indices@,
            left_idx@,
            right_idx@,
            perm_l@,
            perm_r@,
            nodes1,
            nodes2,
            nodes3,
            nodes@,
            old(blocks)@,
            blocks2,
            blocks@,
            node_idx as int,
        );
        let l = nodes1.len() as int;
        let r2 = nodes2.len() as int;
        let n3 = nodes3.len() as int;
        lemma_mem_slots_split(nodes@, node_idx as int, l, n3);
        lemma_mem_slots_split(nodes@, l, r2, n3);
        assert(mem_slots(nodes@, node_idx as int, l) == 0) by {
            assert(mem_slots(nodes@, node_idx as int, node_idx as int) == 0);
        }
        assert forall|k: int| l <= k < r2 implies nodes2[k] == nodes@[k] by {
            assert(nodes3[k] == nodes2[k]);
        }
        lemma_mem_slots_same(nodes@, nodes2, l, r2);
        lemma_mem_slots_same(nodes@, nodes3, r2, n3);
    }
    (node_idx, Ghost(perm_l@ + perm_r@))
}

/// How many of the first `m` keys equal `k`.
pub open spec fn count_eq(keys: Seq<u32>, k: int, m: int) -> int
    decreases m,
{
    if m <= 0 {
        0
    } else {
        count_eq(keys, k, m - 1) + if keys[m - 1] == k {
            1int
        } else {
            0int
        }
    }
}

/// How many of the first `m` keys are below `k`.
pub open spec fn count_lt(keys: Seq<u32>, k: int, m: int) -> int
    decreases m,
{
    if m <= 0 {
        0
    } else {
        count_lt(keys, k, m - 1) + if keys[m - 1] < k {
            1int
        } else {
            0int
        }
    }
}

proof fn lemma_count_lt_zero(keys: Seq<u32>, m: int)
    ensures
        count_lt(keys, 0, m) == 0,
    decreases m,
{
    if m > 0 {
        lemma_count_lt_zero(keys, m - 1);
    }
}

proof fn lemma_count_step(keys: Seq<u32>, k: int, m: int)
    requires
        0 <= m <= keys.len(),
    ensures
        count_lt(keys, k + 1, m) == count_lt(keys, k, m) + count_eq(keys, k, m),
        0 <= count_lt(keys, k, m) <= m,
        0 <= count_eq(keys, k, m),
    decreases m,
{
    if m > 0 {
        lemma_count_step(keys, k, m - 1);
    }
}

/// Some reference has partition key `k`.
pub open spec fn key_present(vectors: Seq<QueryVector>, k: int) -> bool {
    exists|i: int| 0 <= i < vectors.len() && #[trigger] key_of(vectors[i]@) == k
}

/// How many of the keys `0 .. k` some reference has.
pub open spec fn keys_present(vectors: Seq<QueryVector>, k: int) -> int
    decreases k,
{
    if k <= 0 {
        0
    } else {
        keys_present(vectors, k - 1) + if key_present(vectors, k - 1) {
            1int
        } else {
            0int
        }
    }
}

/// A key occurs among the first `m` exactly when `count_eq` counts it.
proof fn lemma_count_eq_pos(keys: Seq<u32>, k: int, m: int)
    requires
        0 <= m <= keys.len(),
    ensures
        count_eq(keys, k, m) > 0 <==> exists|i: int| 0 <= i < m && keys[i] == k,
        count_eq(keys, k, m) >= 0,
    decreases m,
{
    if m > 0 {
        lemma_count_eq_pos(keys, k, m - 1);
        if keys[m - 1] == k {
            assert(exists|i: int| 0 <= i < m && keys[i] == k);
        } else if count_eq(keys, k, m) > 0 {
            let i = choose|i: int| 0 <= i < m - 1 && keys[i] == k;
            assert(0 <= i < m && keys[i] == k);
        } else {
            assert forall|i: int| 0 <= i < m implies keys[i] != k by {
                if i < m - 1 {
                } 
            }
        }
    }
}

proof fn lemma_keys_present_nonneg(vectors: Seq<QueryVector>, k: int)
    ensures
        keys_present(vectors, k) >= 0,
    decreases k,
{
    if k > 0 {
        lemma_keys_present_nonneg(vectors, k - 1);
    }
}

/// A present key counts toward every later prefix of the keys.
proof fn lemma_keys_present_after(vectors: Seq<QueryVector>, k: int, k2: int)
    requires
        0 <= k < k2,
        key_present(vectors, k),
    ensures
        keys_present(vectors, k2) >= keys_present(vectors, k) + 1,
    decreases k2,
{
    if k2 > k + 1 {
        lemma_keys_present_after(vectors, k, k2 - 1);
    }
}

/// Partition `p` of the file at `out` has a key some reference has, and
/// exactly `p` such keys are smaller: partitions come in increasing key order,
/// one per key present.
pub open spec fn partitions_by_key(vectors: Seq<QueryVector>, out: Seq<u8>) -> bool {
    let v = IndexView { bytes: out };
    forall|p: int|
        0 <= p < v.part_count() ==> #[trigger] v.part_key(p) < 256 && key_present(vectors, v.part_key(p))
            && keys_present(vectors, v.part_key(p)) == p
}

/// With partitions in key order, the lookup `Index::open` builds finds a key's
/// partition by that key: the number of smaller keys present, or -1.
pub proof fn lemma_partition_lookup(vectors: Seq<QueryVector>, out: Seq<u8>, k: int, n: int)
    requires
        partitions_by_key(vectors, out),
        0 <= k < 256,
        0 <= n <= (IndexView { bytes: out }).part_count(),
    ensures
        (IndexView { bytes: out }).last_with_key(k, n) == if key_present(vectors, k)
            && keys_present(vectors, k) < n {
            keys_present(vectors, k)
        } else {
            -1
        },
    decreases n,
{
    let v = IndexView { bytes: out };
    lemma_keys_present_nonneg(vectors, k);
    if n > 0 {
        lemma_partition_lookup(vectors, out, k, n - 1);
        let k2 = v.part_key(n - 1);
        assert(k2 < 256 && key_present(vectors, k2) && keys_present(vectors, k2) == n - 1);
        if key_present(vectors, k) && keys_present(vectors, k) == n - 1 && k2 != k {
            if k < k2 {
                lemma_keys_present_after(vectors, k, k2);
            } else {
                lemma_keys_present_after(vectors, k2, k);
            }
        }
    }
}

/// How many of the first `m` references have key `k`.
pub open spec fn key_count(vectors: Seq<QueryVector>, k: int, m: int) -> int
    decreases m,
{
    if m <= 0 {
        0
    } else {
        key_count(vectors, k, m - 1) + if key_of(vectors[m - 1]@) == k {
            1int
        } else {
            0int
        }
    }
}

proof fn lemma_key_count(keys: Seq<u32>, vectors: Seq<QueryVector>, k: int, m: int)
    requires
        0 <= m <= keys.len(),
        m <= vectors.len(),
        forall|q: int| 0 <= q < m ==> #[trigger] keys[q] == key_of(vectors[q]@),
    ensures
        count_eq(keys, k, m) == key_count(vectors, k, m),
    decreases m,
{
    if m > 0 {
        lemma_key_count(keys, vectors, k, m - 1);
        assert(keys[m - 1] == key_of(vectors[m - 1]@));
    }
}

/// Slots the leaves among the first `m` nodes of the file take, padding
/// included.
pub open spec fn leaf_slots(v: IndexView, m: int) -> int
    decreases m,
{
    if m <= 0 {
        0
    } else {
        leaf_slots(v, m - 1) + if v.is_leaf(m - 1) {
            round8(v.node_len(m - 1))
        } else {
            0
        }
    }
}

/// The references among the first `m` whose key is `k`.
spec fn eq_ms(keys: Seq<u32>, k: int, m: int) -> Multiset<usize>
    decreases m,
{
    if m <= 0 {
        Multiset::empty()
    } else if keys[m - 1] == k {
        eq_ms(keys, k, m - 1).insert((m - 1) as usize)
    } else {
        eq_ms(keys, k, m - 1)
    }
}

/// The references among the first `m` whose key is below `k`.
spec fn below_ms(keys: Seq<u32>, k: int, m: int) -> Multiset<usize>
    decreases m,
{
    if m <= 0 {
        Multiset::empty()
    } else if keys[m - 1] < k {
        below_ms(keys, k, m - 1).insert((m - 1) as usize)
    } else {
        below_ms(keys, k, m - 1)
    }
}

/// The reference numbers `0 .. n`, each once.
pub open spec fn upto(n: int) -> Multiset<usize>
    decreases n,
{
    if n <= 0 {
        Multiset::empty()
    } else {
        upto(n - 1).insert((n - 1) as usize)
    }
}

proof fn lemma_below_zero(keys: Seq<u32>, m: int)
    ensures
        below_ms(keys, 0, m) == Multiset::<usize>::empty(),
    decreases m,
{
    if m > 0 {
        lemma_below_zero(keys, m - 1);
    }
}

proof fn lemma_below_step(keys: Seq<u32>, k: int, m: int)
    ensures
        below_ms(keys, k + 1, m) == below_ms(keys, k, m).add(eq_ms(keys, k, m)),
    decreases m,
{
    broadcast use vstd::multiset::group_multiset_axioms;

    if m > 0 {
        lemma_below_step(keys, k, m - 1);
        assert(below_ms(keys, k + 1, m) =~= below_ms(keys, k, m).add(eq_ms(keys, k, m)));
    } else {
        assert(below_ms(keys, k + 1, m) =~= below_ms(keys, k, m).add(eq_ms(keys, k, m)));
    }
}

proof fn lemma_below_all(keys: Seq<u32>, m: int)
    requires
        m <= keys.len(),
        forall|i: int| 0 <= i < keys.len() ==> #[trigger] keys[i] < 256,
    ensures
        below_ms(keys, 256, m) == upto(m),
    decreases m,
{
    if m > 0 {
        assert(keys[m - 1] < 256);
        lemma_below_all(keys, m - 1);
    }
}

/// The sequences of `ss`, one after another.
spec fn concat_all<A>(ss: Seq<Seq<A>>) -> Seq<A>
    decreases ss.len(),
{
    if ss.len() == 0 {
        Seq::empty()
    } else {
        concat_all(ss.drop_last()) + ss.last()
    }
}

proof fn lemma_concat_push<A>(ss: Seq<Seq<A>>, x: Seq<A>)
    ensures
        concat_all(ss.push(x)) == concat_all(ss) + x,
{
    assert(ss.push(x).drop_last() =~= ss);
}

/// The 16 coordinates as `IndexView::vec_at` reads them back: the 14 real
/// dims, then zeros.
pub open spec fn seq14(v: QueryVector) -> Seq<i16> {
    Seq::new(PACKED_DIMS as nat, |d: int| if d < VECTOR_DIM { v@[d] } else { 0i16 })
}

proof fn lemma_vec_at_extend(a: Seq<u8>, b: Seq<u8>, off: int)
    requires
        extends(a, b),
        0 <= off,
        off + 28 <= a.len(),
    ensures
        (IndexView { bytes: b }).vec_at(off) == (IndexView { bytes: a }).vec_at(off),
{
    assert forall|d: int| 0 <= d < PACKED_DIMS implies (IndexView { bytes: b }).vec_at(off)[d] == (
    IndexView { bytes: a }).vec_at(off)[d] by {
        if d < VECTOR_DIM {
            lemma_extends_read(a, b, off + 2 * d);
        }
    }
    assert((IndexView { bytes: b }).vec_at(off) =~= (IndexView { bytes: a }).vec_at(off));
}

/// Appends the 16 coordinates of a vector, little-endian.
fn push_vec16(out: &mut Vec<u8>, v: &QueryVector)
    ensures
        final(out)@.len() == old(out)@.len() + 32,
        final(out)@.subrange(0, old(out)@.len() as int) == old(out)@,
        extends(old(out)@, final(out)@),
        (IndexView { bytes: final(out)@ }).vec_at(old(out)@.len() as int) == seq14(*v),
{
    let ghost start = old(out)@.len() as int;
    let mut d: usize = 0;
    while d < PACKED_DIMS
        invariant
            d <= 16,
            start == old(out)@.len(),
            out@.len() == start + 2 * d,
            extends(old(out)@, out@),
            forall|e: int| 0 <= e < d ==> #[trigger] le_i16(out@, start + 2 * e) == v@[e],
        decreases 16 - d,
    {
        let ghost before = out@;
        push_i16_le(out, v[d]);
        proof {
            lemma_extends_trans(old(out)@, before, out@);
            assert forall|e: int| 0 <= e < d + 1 implies #[trigger] le_i16(out@, start + 2 * e) == v@[e] by {
                if e < d {
                    assert(le_i16(before, start + 2 * e) == v@[e]);
                    lemma_extends_read(before, out@, start + 2 * e);
                }
            }
        }
        d = d + 1;
    }
    proof {
        let w = (IndexView { bytes: out@ }).vec_at(start);
        assert forall|e: int| 0 <= e < PACKED_DIMS implies w[e] == seq14(*v)[e] by {
            if e < VECTOR_DIM {
                assert(le_i16(out@, start + 2 * e) == v@[e]);
            }
        }
        assert(w =~= seq14(*v));
        assert(out@.subrange(0, start) =~= old(out)@);
    }
}

/// The block a leaf's slots start in; an inner node records its first slot.
spec fn start_block(nd: BuildNode) -> int {
    if nd.left < 0 {
        nd.start / 8
    } else {
        nd.start as int
    }
}

/// The partition record at `base` names `root` and carries the box of `nd`.
spec fn part_record_at(out: Seq<u8>, base: int, root: int, nd: BuildNode) -> bool {
    &&& le_i32(out, base + 4) == root
    &&& (IndexView { bytes: out }).vec_at(base + 12) == seq14(nd.min)
    &&& (IndexView { bytes: out }).vec_at(base + 44) == seq14(nd.max)
}

/// The node record at `base` holds the fields of `nd`.
spec fn node_record_at(out: Seq<u8>, base: int, nd: BuildNode) -> bool {
    &&& le_i32(out, base) == nd.left
    &&& le_i32(out, base + 4) == nd.right
    &&& le_i32(out, base + 8) == start_block(nd)
    &&& le_i32(out, base + 12) == nd.len
    &&& (IndexView { bytes: out }).vec_at(base + 16) == seq14(nd.min)
    &&& (IndexView { bytes: out }).vec_at(base + 48) == seq14(nd.max)
}

proof fn lemma_part_record_extend(a: Seq<u8>, b: Seq<u8>, base: int, root: int, nd: BuildNode)
    requires
        extends(a, b),
        0 <= base,
        base + 76 <= a.len(),
        part_record_at(a, base, root, nd),
    ensures
        part_record_at(b, base, root, nd),
{
    lemma_extends_read(a, b, base + 4);
    lemma_vec_at_extend(a, b, base + 12);
    lemma_vec_at_extend(a, b, base + 44);
}

proof fn lemma_node_record_extend(a: Seq<u8>, b: Seq<u8>, base: int, nd: BuildNode)
    requires
        extends(a, b),
        0 <= base,
        base + 80 <= a.len(),
        node_record_at(a, base, nd),
    ensures
        node_record_at(b, base, nd),
{
    lemma_extends_read(a, b, base);
    lemma_extends_read(a, b, base + 4);
    lemma_extends_read(a, b, base + 8);
    lemma_extends_read(a, b, base + 12);
    lemma_vec_at_extend(a, b, base + 16);
    lemma_vec_at_extend(a, b, base + 48);
}

/// Appends a partition record: key, root, length, min, max.
fn push_part_record(out: &mut Vec<u8>, key: u32, root: i32, nd: &BuildNode)
    ensures
        final(out)@.len() == old(out)@.len() + 76,
        extends(old(out)@, final(out)@),
        part_record_at(final(out)@, old(out)@.len() as int, root as int, *nd),
        le_u32(final(out)@, old(out)@.len() as int) == key,
{
    let ghost base = old(out)@.len() as int;
    push_u32_le(out, key);
    let ghost o1 = out@;
    push_i32_le(out, root);
    let ghost o2 = out@;
    push_i32_le(out, nd.len);
    let ghost o3 = out@;
    push_vec16(out, &nd.min);
    let ghost o4 = out@;
    push_vec16(out, &nd.max);
    proof {
        lemma_extends_trans(old(out)@, o1, o2);
        lemma_extends_trans(old(out)@, o2, o3);
        lemma_extends_trans(old(out)@, o3, o4);
        lemma_extends_trans(old(out)@, o4, out@);
        lemma_extends_trans(o2, o3, o4);
        lemma_extends_trans(o2, o4, out@);
        lemma_extends_read(o2, out@, base + 4);
        lemma_vec_at_extend(o4, out@, base + 12);
        lemma_extends_trans(o1, o2, out@);
        lemma_extends_read(o1, out@, base);
    }
}

/// Appends a node record: left, right, start block (leaf) or first slot,
/// length, min, max.
#[verifier::rlimit(30)]
fn push_node_record(out: &mut Vec<u8>, nd: &BuildNode)
    requires
        nd.left < 0 ==> nd.start >= 0,
    ensures
        final(out)@.len() == old(out)@.len() + 80,
        extends(old(out)@, final(out)@),
        node_record_at(final(out)@, old(out)@.len() as int, *nd),
{
    let ghost base = old(out)@.len() as int;
    let first: i32 = if nd.left < 0 {
        nd.start / 8
    } else {
        nd.start
    };
    push_i32_le(out, nd.left);
    let ghost o1 = out@;
    push_i32_le(out, nd.right);
    let ghost o2 = out@;
    push_i32_le(out, first);
    let ghost o3 = out@;
    push_i32_le(out, nd.len);
    let ghost o4 = out@;
    push_vec16(out, &nd.min);
    let ghost o5 = out@;
    push_vec16(out, &nd.max);
    proof {
        assert(first == start_block(*nd));
        assert(extends(o4, out@)) by {
            lemma_extends_trans(o4, o5, out@);
        }
        assert(extends(o3, out@)) by {
            lemma_extends_trans(o3, o4, out@);
        }
        assert(extends(o2, out@)) by {
            lemma_extends_trans(o2, o3, out@);
        }
        assert(extends(o1, out@)) by {
            lemma_extends_trans(o1, o2, out@);
        }
        assert(extends(old(out)@, out@)) by {
            lemma_extends_trans(old(out)@, o1, out@);
        }
        assert(le_i32(out@, base) == nd.left) by {
            lemma_extends_read(o1, out@, base);
        }
        assert(le_i32(out@, base + 4) == nd.right) by {
            lemma_extends_read(o2, out@, base + 4);
        }
        assert(le_i32(out@, base + 8) == start_block(*nd)) by {
            lemma_extends_read(o3, out@, base + 8);
        }
        assert(le_i32(out@, base + 12) == nd.len) by {
            lemma_extends_read(o4, out@, base + 12);
        }
        assert((IndexView { bytes: out@ }).vec_at(base + 16) == seq14(nd.min)) by {
            lemma_vec_at_extend(o5, out@, base + 16);
        }
    }
}

/// Partition `q`'s record sits in its place in the file.
spec fn part_written(out: Seq<u8>, roots: Seq<PartitionRoot>, nodes: Seq<BuildNode>, q: int) -> bool {
    part_record_at(out, HEADER_SIZE + q * PART_SIZE, roots[q].root as int, nodes[roots[q].root as int])
}

/// Partition `q`'s key sits in its place in the file.
spec fn key_written(out: Seq<u8>, roots: Seq<PartitionRoot>, q: int) -> bool {
    le_u32(out, HEADER_SIZE + q * PART_SIZE) == roots[q].key
}

/// Node `q`'s record sits in its place in the file.
spec fn node_written(out: Seq<u8>, noff: int, nodes: Seq<BuildNode>, q: int) -> bool {
    node_record_at(out, noff + q * NODE_SIZE, nodes[q])
}

/// Coordinate `d` of the vector in lane `l` of block `b` sits in its place.
spec fn vec_written(out: Seq<u8>, voff: int, blocks: Seq<(QueryVector, u8)>, b: int, d: int, l: int) -> bool {
    le_i16(out, voff + b * BLOCK_BYTES + d * 16 + l * 2) == blocks[b * 8 + l].0@[d]
}

/// The label of slot `s` sits in its place.
spec fn label_written(out: Seq<u8>, loff: int, blocks: Seq<(QueryVector, u8)>, s: int) -> bool {
    out[loff + s] == blocks[s].1
}

/// Everything a built file holds beyond its header, read back from the bytes.
spec fn records_written(
    out: Seq<u8>,
    nodes: Seq<BuildNode>,
    blocks: Seq<(QueryVector, u8)>,
    roots: Seq<PartitionRoot>,
) -> bool {
    let v = IndexView { bytes: out };
    &&& v.part_count() == roots.len()
    &&& v.node_count() == nodes.len()
    &&& v.block_count() * 8 == blocks.len()
    &&& forall|q: int| 0 <= q < roots.len() ==> 0 <= #[trigger] roots[q].root < nodes.len()
    &&& forall|q: int| 0 <= q < roots.len() ==> #[trigger] part_written(out, roots, nodes, q)
    &&& forall|q: int| 0 <= q < roots.len() ==> #[trigger] key_written(out, roots, q)
    &&& forall|q: int| 0 <= q < nodes.len() ==> #[trigger] node_written(out, v.nodes_off(), nodes, q)
    &&& forall|b: int, d: int, l: int|
        0 <= b < v.block_count() && 0 <= d < VECTOR_DIM && 0 <= l < LANES ==> #[trigger] vec_written(
            out,
            v.vectors_off(),
            blocks,
            b,
            d,
            l,
        )
    &&& forall|s: int| 0 <= s < blocks.len() ==> #[trigger] label_written(out, v.labels_off(), blocks, s)
}

proof fn lemma_box_within_at(
    inner_min: Seq<i16>,
    inner_max: Seq<i16>,
    outer_min: Seq<i16>,
    outer_max: Seq<i16>,
    d: int,
)
    requires
        box_within(inner_min, inner_max, outer_min, outer_max),
        0 <= d < VECTOR_DIM,
    ensures
        outer_min[d] <= inner_min[d],
        inner_max[d] <= outer_max[d],
{
    assert(outer_min[d] <= inner_min[d] && inner_max[d] <= outer_max[d]);
}

/// A sound in-memory leaf or inner node reads back as a sound node.
proof fn lemma_built_node_ok(
    out: Seq<u8>,
    nodes: Seq<BuildNode>,
    blocks: Seq<(QueryVector, u8)>,
    roots: Seq<PartitionRoot>,
    n: int,
)
    requires
        records_written(out, nodes, blocks, roots),
        0 <= n < nodes.len(),
        forall|m: int| 0 <= m < nodes.len() ==> #[trigger] mem_node_ok(nodes, blocks, m),
        slots_labelled(blocks, 0, blocks.len() as int),
    ensures
        (IndexView { bytes: out }).node_ok(n),
{
    let v = IndexView { bytes: out };
    let nd = nodes[n];
    assert(node_written(out, v.nodes_off(), nodes, n));
    assert(mem_node_ok(nodes, blocks, n));
    if nd.left < 0 {
        assert(v.is_leaf(n));
        assert(v.node_start(n) == nd.start / 8);
        assert(v.node_start(n) * 8 == nd.start);
        assert forall|j: int|
            #![trigger v.slot_vec(v.node_start(n) * 8 + j)]
            #![trigger v.slot_label(v.node_start(n) * 8 + j)]
            0 <= j < v.node_len(n) implies in_box(
            v.slot_vec(v.node_start(n) * 8 + j),
            v.node_min(n),
            v.node_max(n),
        ) && v.slot_label(v.node_start(n) * 8 + j) <= 1 by {
            let s = nd.start + j;
            assert(in_box(blocks[nd.start + j].0@, nd.min@, nd.max@));
            assert(s == (s / 8) * 8 + s % 8);
            assert(0 <= s / 8 < v.block_count());
            assert forall|d: int| 0 <= d < VECTOR_DIM implies v.node_min(n)[d] <= #[trigger] v.slot_vec(
                s,
            )[d] <= v.node_max(n)[d] by {
                assert(vec_written(out, v.vectors_off(), blocks, s / 8, d, s % 8));
                assert(v.node_min(n)[d] == seq14(nd.min)[d]);
                assert(v.node_max(n)[d] == seq14(nd.max)[d]);
                assert(blocks[nd.start + j].0@[d] == blocks[s].0@[d]);
            }
            assert(in_box(v.slot_vec(s), v.node_min(n), v.node_max(n)));
            assert(label_written(out, v.labels_off(), blocks, s));
            assert(blocks[s].1 <= 1);
            assert(v.slot_label(s) <= 1);
        }
        assert(v.node_len(n) == nd.len);
        assert(v.node_start(n) * 8 + v.node_len(n) <= v.block_count() * 8);
        assert(v.leaf_ok(n));
    } else {
        let l = nd.left as int;
        let r = nd.right as int;
        assert(node_written(out, v.nodes_off(), nodes, l));
        assert(node_written(out, v.nodes_off(), nodes, r));
        assert(v.node_left(n) == l);
        assert(v.node_right(n) == r);
        assert(mem_inner_ok(nodes, n));
        assert(box_within(nodes[l].min@, nodes[l].max@, nd.min@, nd.max@));
        assert(box_within(nodes[r].min@, nodes[r].max@, nd.min@, nd.max@));
        assert forall|d: int| 0 <= d < VECTOR_DIM implies #[trigger] v.node_min(n)[d] <= v.node_min(l)[d]
            && v.node_max(l)[d] <= v.node_max(n)[d] by {
            lemma_box_within_at(nodes[l].min@, nodes[l].max@, nd.min@, nd.max@, d);
            assert(v.node_min(n)[d] == seq14(nd.min)[d]);
            assert(v.node_max(n)[d] == seq14(nd.max)[d]);
            assert(v.node_min(l)[d] == seq14(nodes[l].min)[d]);
            assert(v.node_max(l)[d] == seq14(nodes[l].max)[d]);
        }
        assert forall|d: int| 0 <= d < VECTOR_DIM implies #[trigger] v.node_min(n)[d] <= v.node_min(r)[d]
            && v.node_max(r)[d] <= v.node_max(n)[d] by {
            lemma_box_within_at(nodes[r].min@, nodes[r].max@, nd.min@, nd.max@, d);
            assert(v.node_min(n)[d] == seq14(nd.min)[d]);
            assert(v.node_max(n)[d] == seq14(nd.max)[d]);
            assert(v.node_min(r)[d] == seq14(nodes[r].min)[d]);
            assert(v.node_max(r)[d] == seq14(nodes[r].max)[d]);
        }
        assert(box_within(v.node_min(l), v.node_max(l), v.node_min(n), v.node_max(n)));
        assert(box_within(v.node_min(r), v.node_max(r), v.node_min(n), v.node_max(n)));
        assert(v.inner_ok(n));
    }
}

/// The records of a built file satisfy `IndexView::tree_ok`.
proof fn lemma_built_tree_ok(
    out: Seq<u8>,
    nodes: Seq<BuildNode>,
    blocks: Seq<(QueryVector, u8)>,
    roots: Seq<PartitionRoot>,
)
    requires
        records_written(out, nodes, blocks, roots),
        roots.len() <= 256,
        forall|m: int| 0 <= m < nodes.len() ==> #[trigger] mem_node_ok(nodes, blocks, m),
        slots_labelled(blocks, 0, blocks.len() as int),
    ensures
        (IndexView { bytes: out }).tree_ok(),
{
    let v = IndexView { bytes: out };
    reveal(IndexView::tree_ok);
    assert forall|n: int| 0 <= n < v.node_count() implies #[trigger] v.node_ok(n) by {
        lemma_built_node_ok(out, nodes, blocks, roots, n);
    }
    assert forall|p: int| 0 <= p < v.part_count() implies #[trigger] v.part_ok(p) by {
        assert(part_written(out, roots, nodes, p));
        let r = roots[p].root as int;
        assert(0 <= r < nodes.len());
        assert(node_written(out, v.nodes_off(), nodes, r));
        assert(v.part_root(p) == r);
        assert(v.part_min(p) == v.node_min(r));
        assert(v.part_max(p) == v.node_max(r));
    }
}

/// The 64-byte header.
fn header_bytes(ref_count: u32, part_count: u32, node_count: u32, block_count: u32, mcc_off: u32) -> (h: Vec<u8>)
    ensures
        h@.len() == 64,
        h@.subrange(0, 8) == MAGIC@,
        le_u32(h@, 8) == 10000,
        le_u32(h@, 12) == 14,
        le_u32(h@, 16) == 16,
        le_u32(h@, 20) == 8,
        le_u32(h@, 24) == ref_count,
        le_u32(h@, 28) == part_count,
        le_u32(h@, 32) == node_count,
        le_u32(h@, 36) == block_count,
        le_u32(h@, 40) == mcc_off,
        forall|q: int| 44 <= q < 64 ==> #[trigger] h@[q] == 0,
{
    let mut h: Vec<u8> = Vec::new();
    let mut i: usize = 0;
    while i < 8
        invariant
            i <= 8,
            h@ == MAGIC@.subrange(0, i as int),
        decreases 8 - i,
    {
        h.push(MAGIC[i]);
        i = i + 1;
        assert(h@ =~= MAGIC@.subrange(0, i as int));
    }
    let fields: [u32; 9] = [10000, 14, 16, 8, ref_count, part_count, node_count, block_count, mcc_off];
    let mut f: usize = 0;
    while f < 9
        invariant
            f <= 9,
            h@.len() == 8 + 4 * f,
            h@.subrange(0, 8) == MAGIC@,
            forall|g: int| 0 <= g < f ==> #[trigger] le_u32(h@, 8 + 4 * g) == fields@[g],
        decreases 9 - f,
    {
        let ghost before = h@;
        push_u32_le(&mut h, fields[f]);
        proof {
            lemma_u32_roundtrip(fields@[f as int] as int);
            assert(h@.subrange(0, 8) =~= before.subrange(0, 8));
            assert forall|g: int| 0 <= g < f + 1 implies #[trigger] le_u32(h@, 8 + 4 * g) == fields@[g] by {
                if g < f {
                    assert(le_u32(before, 8 + 4 * g) == fields@[g]);
                    assert(h@[8 + 4 * g] == before[8 + 4 * g]);
                    assert(h@[8 + 4 * g + 1] == before[8 + 4 * g + 1]);
                    assert(h@[8 + 4 * g + 2] == before[8 + 4 * g + 2]);
                    assert(h@[8 + 4 * g + 3] == before[8 + 4 * g + 3]);
                } else {
                    let b = u32_bytes(fields@[f as int] as int);
                    assert(le_u32(b, 0) == fields@[f as int]);
                    assert(h@[8 + 4 * g] == b[0]);
                    assert(h@[8 + 4 * g + 1] == b[1]);
                    assert(h@[8 + 4 * g + 2] == b[2]);
                    assert(h@[8 + 4 * g + 3] == b[3]);
                }
            }
        }
        f = f + 1;
    }
    let mut z: usize = 0;
    while z < 20
        invariant
            z <= 20,
            h@.len() == 44 + z,
            h@.subrange(0, 8) == MAGIC@,
            forall|g: int| 0 <= g < 9 ==> #[trigger] le_u32(h@, 8 + 4 * g) == fields@[g],
            forall|q: int| 44 <= q < 44 + z ==> #[trigger] h@[q] == 0,
        decreases 20 - z,
    {
        let ghost before = h@;
        h.push(0);
        proof {
            assert forall|q: int| 44 <= q < 44 + z + 1 implies #[trigger] h@[q] == 0 by {
                if q < 44 + z {
                    assert(before[q] == 0);
                }
            }
            assert(h@.subrange(0, 8) =~= before.subrange(0, 8));
            assert forall|g: int| 0 <= g < 9 implies #[trigger] le_u32(h@, 8 + 4 * g) == fields@[g] by {
                assert(le_u32(before, 8 + 4 * g) == fields@[g]);
                assert(h@[8 + 4 * g] == before[8 + 4 * g]);
                assert(h@[8 + 4 * g + 1] == before[8 + 4 * g + 1]);
                assert(h@[8 + 4 * g + 2] == before[8 + 4 * g + 2]);
                assert(h@[8 + 4 * g + 3] == before[8 + 4 * g + 3]);
            }
        }
        z = z + 1;
    }
    assert(le_u32(h@, 8 + 4 * 0int) == fields@[0int]);
    assert(le_u32(h@, 8 + 4 * 1int) == fields@[1int]);
    assert(le_u32(h@, 8 + 4 * 2int) == fields@[2int]);
    assert(le_u32(h@, 8 + 4 * 3int) == fields@[3int]);
    assert(le_u32(h@, 8 + 4 * 4int) == fields@[4int]);
    assert(le_u32(h@, 8 + 4 * 5int) == fields@[5int]);
    assert(le_u32(h@, 8 + 4 * 6int) == fields@[6int]);
    assert(le_u32(h@, 8 + 4 * 7int) == fields@[7int]);
    assert(le_u32(h@, 8 + 4 * 8int) == fields@[8int]);
    h
}

/// The slots the file reaches from node `n` are those of the in-memory tree.
proof fn lemma_tree_ms(
    out: Seq<u8>,
    nodes: Seq<BuildNode>,
    blocks: Seq<(QueryVector, u8)>,
    roots: Seq<PartitionRoot>,
    n: int,
)
    requires
        records_written(out, nodes, blocks, roots),
        0 <= n < nodes.len(),
        forall|m: int| 0 <= m < nodes.len() ==> #[trigger] mem_node_ok(nodes, blocks, m),
    ensures
        (IndexView { bytes: out }).tree_ms(n) == mem_order(nodes, n).to_multiset(),
    decreases nodes.len() - n,
{
    let v = IndexView { bytes: out };
    let nd = nodes[n];
    assert(node_written(out, v.nodes_off(), nodes, n));
    assert(mem_node_ok(nodes, blocks, n));
    if nd.left < 0 {
        assert(v.is_leaf(n));
        assert(v.node_start(n) * 8 == nd.start);
        assert(v.node_len(n) == nd.len);
        lemma_range_ms(nd.start as int, nd.len as int);
        assert(mem_order(nodes, n) =~= Seq::new(nd.len as nat, |j: int| nd.start + j));
    } else {
        let l = nd.left as int;
        let r = nd.right as int;
        assert(v.node_left(n) == l);
        assert(v.node_right(n) == r);
        lemma_tree_ms(out, nodes, blocks, roots, l);
        lemma_tree_ms(out, nodes, blocks, roots, r);
        vstd::seq_lib::lemma_multiset_commutative(mem_order(nodes, l), mem_order(nodes, r));
    }
}

/// The entries of the first `k` partitions are the slots of their trees.
proof fn lemma_parts_ms(
    out: Seq<u8>,
    nodes: Seq<BuildNode>,
    blocks: Seq<(QueryVector, u8)>,
    roots: Seq<PartitionRoot>,
    orders: Seq<Seq<int>>,
    k: int,
)
    requires
        records_written(out, nodes, blocks, roots),
        forall|m: int| 0 <= m < nodes.len() ==> #[trigger] mem_node_ok(nodes, blocks, m),
        orders.len() == roots.len(),
        forall|p: int| 0 <= p < roots.len() ==> #[trigger] orders[p] == mem_order(nodes, roots[p].root as int),
        0 <= k <= roots.len(),
    ensures
        (IndexView { bytes: out }).parts_ms(k) == concat_all(orders.take(k)).to_multiset(),
    decreases k,
{
    broadcast use vstd::seq_lib::group_to_multiset_ensures;

    let v = IndexView { bytes: out };
    if k > 0 {
        lemma_parts_ms(out, nodes, blocks, roots, orders, k - 1);
        assert(orders.take(k).drop_last() =~= orders.take(k - 1));
        assert(orders.take(k).last() == orders[k - 1]);
        assert(part_written(out, roots, nodes, k - 1));
        let r = roots[k - 1].root as int;
        assert(0 <= r < nodes.len());
        assert(v.part_root(k - 1) == r);
        lemma_tree_ms(out, nodes, blocks, roots, r);
        vstd::seq_lib::lemma_multiset_commutative(concat_all(orders.take(k - 1)), orders[k - 1]);
    } else {
        assert(orders.take(0) =~= Seq::<Seq<int>>::empty());
        assert(concat_all(orders.take(0)) =~= Seq::<int>::empty());
        assert(Seq::<int>::empty().to_multiset() =~= Multiset::<int>::empty());
    }
}

/// A stored slot reads back as its vector (14 real dims) and label.
proof fn lemma_slot_read(
    out: Seq<u8>,
    nodes: Seq<BuildNode>,
    blocks: Seq<(QueryVector, u8)>,
    roots: Seq<PartitionRoot>,
    s: int,
)
    requires
        records_written(out, nodes, blocks, roots),
        0 <= s < blocks.len(),
    ensures
        (IndexView { bytes: out }).slot_vec(s) == seq14(blocks[s].0),
        (IndexView { bytes: out }).slot_label(s) == blocks[s].1,
{
    let v = IndexView { bytes: out };
    assert(s == (s / 8) * 8 + s % 8);
    assert forall|d: int| 0 <= d < PACKED_DIMS implies v.slot_vec(s)[d] == seq14(blocks[s].0)[d] by {
        if d < VECTOR_DIM {
            assert(vec_written(out, v.vectors_off(), blocks, s / 8, d, s % 8));
        }
    }
    assert(v.slot_vec(s) =~= seq14(blocks[s].0));
    assert(label_written(out, v.labels_off(), blocks, s));
}

/// The entries of the file at `out`, listed once each as `order`, hold the
/// vectors (14 real dims) and labels of the references listed as `perm`, a
/// permutation of `0 .. vectors.len()`; every other slot is padding, the
/// farthest vector with label 0.
pub open spec fn holds_inputs_as(
    vectors: Seq<QueryVector>,
    labels: Seq<u8>,
    out: Seq<u8>,
    order: Seq<int>,
    perm: Seq<usize>,
) -> bool {
    let v = IndexView { bytes: out };
    &&& order.len() == perm.len()
    &&& order.no_duplicates()
    &&& order.to_multiset() == v.entries()
    &&& perm.to_multiset() == upto(vectors.len() as int)
    &&& forall|k: int|
        0 <= k < order.len() ==> #[trigger] v.slot_vec(order[k]) == seq14(vectors[perm[k] as int])
            && v.slot_label(order[k]) == labels[perm[k] as int]
    &&& forall|t: int|
        0 <= t < v.block_count() * 8 && !order.contains(t) ==> #[trigger] v.slot_label(t) == 0 && forall|
            d: int,
        | 0 <= d < VECTOR_DIM ==> #[trigger] v.slot_vec(t)[d] == i16::MAX
}

/// The index entries are exactly the references it was built from: listed
/// in some order, they carry the vectors and labels of the references listed
/// in some order.
pub open spec fn holds_inputs(vectors: Seq<QueryVector>, labels: Seq<u8>, out: Seq<u8>) -> bool {
    exists|order: Seq<int>, perm: Seq<usize>| holds_inputs_as(vectors, labels, out, order, perm)
}

/// The file's leaves take the slots the in-memory leaves take.
proof fn lemma_leaf_slots(
    out: Seq<u8>,
    nodes: Seq<BuildNode>,
    blocks: Seq<(QueryVector, u8)>,
    roots: Seq<PartitionRoot>,
    m: int,
)
    requires
        records_written(out, nodes, blocks, roots),
        0 <= m <= nodes.len(),
    ensures
        leaf_slots(IndexView { bytes: out }, m) == mem_slots(nodes, 0, m),
    decreases m,
{
    let v = IndexView { bytes: out };
    if m > 0 {
        lemma_leaf_slots(out, nodes, blocks, roots, m - 1);
        assert(node_written(out, v.nodes_off(), nodes, m - 1));
        assert(v.node_left(m - 1) == nodes[m - 1].left);
        assert(v.node_len(m - 1) == nodes[m - 1].len);
    }
}

/// The header written first survives every later section, and with the
/// final length it passes the checks of `Index::open`.
proof fn lemma_built_header(
    hs: Seq<u8>,
    ps: Seq<u8>,
    ns: Seq<u8>,
    vs: Seq<u8>,
    ls: Seq<u8>,
    out: Seq<u8>,
    n: int,
    pc: int,
    nc: int,
    bc: int,
)
    requires
        hs.len() == 64,
        hs.subrange(0, 8) == MAGIC@,
        le_u32(hs, 8) == 10000,
        le_u32(hs, 12) == 14,
        le_u32(hs, 16) == 16,
        le_u32(hs, 20) == 8,
        le_u32(hs, 24) == n,
        le_u32(hs, 28) == pc,
        le_u32(hs, 32) == nc,
        le_u32(hs, 36) == bc,
        le_u32(hs, 40) == 64 + pc * 76 + nc * 80 + bc * 224 + bc * 8,
        forall|q: int| 44 <= q < 64 ==> #[trigger] hs[q] == 0,
        extends(hs, ps),
        extends(ps, ns),
        extends(ns, vs),
        extends(vs, ls),
        extends(ls, out),
        out.len() == 64 + pc * 76 + nc * 80 + bc * 224 + bc * 8 + 2048,
    ensures
        header_error(out) is None,
        le_u32(out, 24) == n,
        (IndexView { bytes: out }).part_count() == pc,
        (IndexView { bytes: out }).node_count() == nc,
        (IndexView { bytes: out }).block_count() == bc,
        forall|q: int| 44 <= q < 64 ==> #[trigger] out[q] == 0,
        extends(ps, out),
        extends(ns, out),
        extends(vs, out),
{
    lemma_extends_trans(vs, ls, out);
    lemma_extends_trans(ns, vs, out);
    lemma_extends_trans(ps, ns, out);
    lemma_extends_trans(hs, ps, out);
    lemma_extends_read(hs, out, 8);
    lemma_extends_read(hs, out, 12);
    lemma_extends_read(hs, out, 16);
    lemma_extends_read(hs, out, 20);
    lemma_extends_read(hs, out, 24);
    lemma_extends_read(hs, out, 28);
    lemma_extends_read(hs, out, 32);
    lemma_extends_read(hs, out, 36);
    lemma_extends_read(hs, out, 40);
    assert(out.subrange(0, 8) =~= MAGIC@) by {
        assert forall|q: int| 0 <= q < 8 implies out.subrange(0, 8)[q] == MAGIC@[q] by {
            assert(out[q] == hs[q]);
            assert(hs.subrange(0, 8)[q] == MAGIC@[q]);
        }
    }
    assert forall|q: int| 44 <= q < 64 implies #[trigger] out[q] == 0 by {
        assert(out[q] == hs[q]);
    }
    reveal(header_error);
}

/// The sections written one after another read back from the whole file.
proof fn lemma_built_records(
    out: Seq<u8>,
    ps: Seq<u8>,
    ns: Seq<u8>,
    vs: Seq<u8>,
    ls: Seq<u8>,
    nodes: Seq<BuildNode>,
    blocks: Seq<(QueryVector, u8)>,
    roots: Seq<PartitionRoot>,
)
    requires
        (IndexView { bytes: out }).part_count() == roots.len(),
        (IndexView { bytes: out }).node_count() == nodes.len(),
        (IndexView { bytes: out }).block_count() * 8 == blocks.len(),
        ps.len() == 64 + roots.len() * 76,
        ns.len() == ps.len() + nodes.len() * 80,
        vs.len() == ns.len() + (IndexView { bytes: out }).block_count() * 224,
        ls.len() == vs.len() + blocks.len(),
        extends(ps, out),
        extends(ns, out),
        extends(vs, out),
        extends(ls, out),
        forall|q: int| 0 <= q < roots.len() ==> 0 <= #[trigger] roots[q].root < nodes.len(),
        forall|q: int| 0 <= q < roots.len() ==> #[trigger] part_written(ps, roots, nodes, q),
        forall|q: int| 0 <= q < roots.len() ==> #[trigger] key_written(ps, roots, q),
        forall|q: int| 0 <= q < nodes.len() ==> #[trigger] node_written(ns, ps.len() as int, nodes, q),
        forall|b2: int, d2: int, l2: int|
            0 <= b2 && 0 <= d2 < 14 && 0 <= l2 < 8 && b2 * 112 + d2 * 8 + l2 < (IndexView {
                bytes: out,
            }).block_count() * 112 ==> #[trigger] vec_written(vs, ns.len() as int, blocks, b2, d2, l2),
        forall|s2: int| 0 <= s2 < blocks.len() ==> #[trigger] label_written(ls, vs.len() as int, blocks, s2),
    ensures
        records_written(out, nodes, blocks, roots),
{
    let v = IndexView { bytes: out };
    assert(v.nodes_off() == ps.len());
    assert(v.vectors_off() == ns.len());
    assert(v.labels_off() == vs.len());
    assert forall|q: int| 0 <= q < roots.len() implies #[trigger] part_written(out, roots, nodes, q) by {
        assert(part_written(ps, roots, nodes, q));
        lemma_part_record_extend(
            ps,
            out,
            HEADER_SIZE + q * PART_SIZE,
            roots[q].root as int,
            nodes[roots[q].root as int],
        );
    }
    assert forall|q: int| 0 <= q < roots.len() implies #[trigger] key_written(out, roots, q) by {
        assert(key_written(ps, roots, q));
        lemma_extends_read(ps, out, HEADER_SIZE + q * PART_SIZE);
    }
    assert forall|q: int| 0 <= q < nodes.len() implies #[trigger] node_written(out, v.nodes_off(), nodes, q) by {
        assert(node_written(ns, ps.len() as int, nodes, q));
        lemma_node_record_extend(ns, out, ps.len() + q * NODE_SIZE, nodes[q]);
    }
    assert forall|b: int, d: int, l: int|
        0 <= b < v.block_count() && 0 <= d < VECTOR_DIM && 0 <= l < LANES implies #[trigger] vec_written(
        out,
        v.vectors_off(),
        blocks,
        b,
        d,
        l,
    ) by {
        assert(vec_written(vs, ns.len() as int, blocks, b, d, l));
        lemma_extends_read(vs, out, ns.len() + b * BLOCK_BYTES + d * 16 + l * 2);
    }
    assert forall|s2: int| 0 <= s2 < blocks.len() implies #[trigger] label_written(
        out,
        v.labels_off(),
        blocks,
        s2,
    ) by {
        assert(label_written(ls, vs.len() as int, blocks, s2));
        lemma_extends_read(ls, out, vs.len() + s2);
    }
}

/// Every leaf of the file at `out` holds at most `l` references.
pub open spec fn leaves_at_most(out: Seq<u8>, l: int) -> bool {
    let v = IndexView { bytes: out };
    forall|n: int| 0 <= n < v.node_count() && #[trigger] v.is_leaf(n) ==> v.node_len(n) <= l
}

/// The leaf size a build uses: the requested one, clamped to `32 ..= 2048`.
pub open spec fn clamped_leaf(leaf_size: int) -> int {
    if leaf_size < 32 {
        32
    } else if leaf_size > 2048 {
        2048
    } else {
        leaf_size
    }
}

/// A built file: it passes the header checks of `Index::open`, records
/// `n` references, has at most 256 partitions, and ends with the given MCC
/// risk table.
pub open spec fn built_ok(n: int, table: Seq<i16>, out: Seq<u8>) -> bool {
    let v = IndexView { bytes: out };
    &&& header_error(out) is None
    &&& le_u32(out, 24) == n
    &&& v.part_count() <= 256
    &&& forall|i: int| 0 <= i < 1024 ==> #[trigger] le_i16(out, v.mcc_off() + 2 * i) == table[i]
}

/// Adding a partition's tree keeps the earlier trees and appends the new
/// tree's slots, which hold the new partition's references.
proof fn lemma_key_step(
    vectors: Seq<QueryVector>,
    labels: Seq<u8>,
    nodes0: Seq<BuildNode>,
    blocks0: Seq<(QueryVector, u8)>,
    nodes: Seq<BuildNode>,
    blocks: Seq<(QueryVector, u8)>,
    order_all: Seq<int>,
    perm_all: Seq<usize>,
    root: int,
    perm: Seq<usize>,
)
    requires
        forall|m: int| 0 <= m < nodes0.len() ==> #[trigger] mem_node_ok(nodes0, blocks0, m),
        nodes0.len() <= nodes.len(),
        forall|k: int| 0 <= k < nodes0.len() ==> nodes[k] == nodes0[k],
        blocks0.len() <= blocks.len(),
        forall|s: int| 0 <= s < blocks0.len() ==> blocks[s] == blocks0[s],
        order_all.len() == perm_all.len(),
        forall|k: int|
            0 <= k < order_all.len() ==> 0 <= #[trigger] order_all[k] < blocks0.len() && blocks0[order_all[k]]
                == (vectors[perm_all[k] as int], labels[perm_all[k] as int]),
        mem_order(nodes, root).len() == perm.len(),
        order_all.no_duplicates(),
        mem_order(nodes, root).no_duplicates(),
        forall|t: int| 0 <= t < blocks0.len() ==> order_all.contains(t) || #[trigger] is_pad(blocks0[t]),
        forall|t: int|
            blocks0.len() <= t < blocks.len() ==> mem_order(nodes, root).contains(t)
                || #[trigger] is_pad(blocks[t]),
        forall|k: int|
            0 <= k < perm.len() ==> blocks0.len() <= #[trigger] mem_order(nodes, root)[k] < blocks.len()
                && blocks[mem_order(nodes, root)[k]] == (vectors[perm[k] as int], labels[perm[k] as int]),
    ensures
        forall|r: int| 0 <= r < nodes0.len() ==> #[trigger] mem_order(nodes, r) == mem_order(nodes0, r),
        (order_all + mem_order(nodes, root)).len() == (perm_all + perm).len(),
        (order_all + mem_order(nodes, root)).no_duplicates(),
        forall|t: int|
            0 <= t < blocks.len() ==> (order_all + mem_order(nodes, root)).contains(t)
                || #[trigger] is_pad(blocks[t]),
        forall|k: int|
            0 <= k < (order_all + mem_order(nodes, root)).len() ==> 0 <= #[trigger] (order_all + mem_order(
                nodes,
                root,
            ))[k] < blocks.len() && blocks[(order_all + mem_order(nodes, root))[k]] == (
                vectors[(perm_all + perm)[k] as int],
                labels[(perm_all + perm)[k] as int],
            ),
{
    assert forall|m: int| 0 <= m < nodes0.len() implies #[trigger] children_ok(nodes0, m) by {
        assert(mem_node_ok(nodes0, blocks0, m));
    }
    assert forall|r: int| 0 <= r < nodes0.len() implies #[trigger] mem_order(nodes, r) == mem_order(nodes0, r) by {
        lemma_order_extend(nodes0, nodes, r);
    }
    let o = mem_order(nodes, root);
    assert forall|k: int| 0 <= k < (order_all + o).len() implies 0 <= #[trigger] (order_all + o)[k]
        < blocks.len() && blocks[(order_all + o)[k]] == (
        vectors[(perm_all + perm)[k] as int],
        labels[(perm_all + perm)[k] as int],
    ) by {
        if k < order_all.len() {
            assert((order_all + o)[k] == order_all[k]);
            assert((perm_all + perm)[k] == perm_all[k]);
            assert(blocks[order_all[k]] == blocks0[order_all[k]]);
        } else {
            assert((order_all + o)[k] == o[k - order_all.len()]);
            assert((perm_all + perm)[k] == perm[k - order_all.len()]);
        }
    }
    assert forall|t: int| 0 <= t < blocks.len() implies (order_all + o).contains(t)
        || #[trigger] is_pad(blocks[t]) by {
        if t < blocks0.len() {
            assert(blocks[t] == blocks0[t]);
            if order_all.contains(t) {
                let k = choose|k: int| 0 <= k < order_all.len() && order_all[k] == t;
                assert((order_all + o)[k] == t);
            } else {
                assert(is_pad(blocks0[t]));
            }
        } else if o.contains(t) {
            let k = choose|k: int| 0 <= k < o.len() && o[k] == t;
            assert((order_all + o)[order_all.len() + k] == t);
        }
    }
    assert forall|a: int, b: int| 0 <= a < b < (order_all + o).len() implies (order_all + o)[a] != (
    order_all + o)[b] by {
        if b < order_all.len() {
        } else if a >= order_all.len() {
            assert(o[a - order_all.len()] != o[b - order_all.len()]);
        } else {
            assert(order_all[a] < blocks0.len());
            assert(o[b - order_all.len()] >= blocks0.len());
        }
    }
}

/// Builds an index file with leaves of at most 128 vectors.
pub fn build_index(input: &BuildInputs) -> (out: Vec<u8>)
    requires
        input.vectors@.len() == input.labels@.len(),
        input.vectors@.len() <= MAX_REFERENCES,
    ensures
        built_ok(input.vectors@.len() as int, input.mcc_table@, out@),
        open_error(out@) is None,
        labels_bounded(input.labels@) ==> (IndexView { bytes: out@ }).tree_ok(),
        holds_inputs(input.vectors@, input.labels@, out@),
        (IndexView { bytes: out@ }).part_count() == keys_present(input.vectors@, 256),
        forall|q: int| 44 <= q < 64 ==> #[trigger] out@[q] == 0,
        leaves_at_most(out@, DEFAULT_LEAF_SIZE as int),
        (IndexView { bytes: out@ }).block_count() * 8 == leaf_slots(
            IndexView { bytes: out@ },
            (IndexView { bytes: out@ }).node_count(),
        ),
        (forall|k: int| 0 <= k < 256 ==> #[trigger] key_count(input.vectors@, k, input.vectors@.len() as int)
            <= DEFAULT_LEAF_SIZE as int) ==> (IndexView { bytes: out@ }).node_count() == (IndexView {
            bytes: out@,
        }).part_count(),
        partitions_by_key(input.vectors@, out@),
{
    build_index_with_leaf(input, DEFAULT_LEAF_SIZE)
}

/// Builds an index file; the leaf size is clamped to 32..=2048.
#[verifier::rlimit(40)]
pub fn build_index_with_leaf(input: &BuildInputs, leaf_size: usize) -> (out: Vec<u8>)
    requires
        input.vectors@.len() == input.labels@.len(),
        input.vectors@.len() <= MAX_REFERENCES,
    ensures
        built_ok(input.vectors@.len() as int, input.mcc_table@, out@),
        open_error(out@) is None,
        labels_bounded(input.labels@) ==> (IndexView { bytes: out@ }).tree_ok(),
        holds_inputs(input.vectors@, input.labels@, out@),
        (IndexView { bytes: out@ }).part_count() == keys_present(input.vectors@, 256),
        forall|q: int| 44 <= q < 64 ==> #[trigger] out@[q] == 0,
        leaves_at_most(out@, clamped_leaf(leaf_size as int)),
        (IndexView { bytes: out@ }).block_count() * 8 == leaf_slots(
            IndexView { bytes: out@ },
            (IndexView { bytes: out@ }).node_count(),
        ),
        (forall|k: int| 0 <= k < 256 ==> #[trigger] key_count(input.vectors@, k, input.vectors@.len() as int)
            <= clamped_leaf(leaf_size as int)) ==> (IndexView { bytes: out@ }).node_count() == (IndexView {
            bytes: out@,
        }).part_count(),
        partitions_by_key(input.vectors@, out@),
{
    let n = input.vectors.len();
    let leaf = if leaf_size < 32 {
        32
    } else if leaf_size > 2048 {
        2048
    } else {
        leaf_size
    };
    let mut keys: Vec<u32> = Vec::new();
    let mut i: usize = 0;
    while i < n
        invariant
            i <= n == input.vectors@.len(),
            keys@.len() == i,
            forall|q: int| 0 <= q < i ==> #[trigger] keys@[q] < 256,
            forall|q: int| 0 <= q < i ==> #[trigger] keys@[q] == key_of(input.vectors@[q]@),
        decreases n - i,
    {
        keys.push(partition_key(&input.vectors[i]));
        i = i + 1;
    }
    let mut nodes: Vec<BuildNode> = Vec::new();
    let mut blocks: Vec<(QueryVector, u8)> = Vec::new();
    let mut roots: Vec<PartitionRoot> = Vec::new();
    let mut key: u32 = 0;
    let ghost mut orders: Seq<Seq<int>> = Seq::empty();
    let ghost mut order_all: Seq<int> = Seq::empty();
    let ghost mut perm_all: Seq<usize> = Seq::empty();
    proof {
        lemma_count_lt_zero(keys@, n as int);
        lemma_below_zero(keys@, n as int);
        assert(perm_all.to_multiset() =~= Multiset::<usize>::empty()) by {
            broadcast use vstd::seq_lib::group_to_multiset_ensures;
        }
        assert(concat_all(orders) =~= order_all);
    }
    while key < 256
        invariant
            key <= 256,
            n == input.vectors@.len() == input.labels@.len(),
            n <= MAX_REFERENCES,
            keys@.len() == n,
            32 <= leaf <= 2048,
            roots@.len() <= key,
            0 <= count_lt(keys@, key as int, n as int) <= n,
            nodes@.len() <= 2 * count_lt(keys@, key as int, n as int),
            blocks@.len() <= 8 * count_lt(keys@, key as int, n as int),
            blocks@.len() % 8 == 0,
            forall|r: int| 0 <= r < roots@.len() ==> 0 <= #[trigger] roots@[r].root < nodes@.len(),
            forall|m: int| 0 <= m < nodes@.len() ==> #[trigger] mem_node_ok(nodes@, blocks@, m),
            forall|m: int| 0 <= m < nodes@.len() && #[trigger] nodes@[m].left < 0 ==> nodes@[m].len <= leaf,
            leaf == clamped_leaf(leaf_size as int),
            labels_bounded(input.labels@) ==> slots_labelled(blocks@, 0, blocks@.len() as int),
            forall|q: int| 0 <= q < n ==> #[trigger] keys@[q] < 256,
            forall|q: int| 0 <= q < n ==> #[trigger] keys@[q] == key_of(input.vectors@[q]@),
            roots@.len() == keys_present(input.vectors@, key as int),
            blocks@.len() == mem_slots(nodes@, 0, nodes@.len() as int),
            (forall|k: int| 0 <= k < key ==> #[trigger] count_eq(keys@, k, n as int) <= leaf) ==> nodes@.len()
                == roots@.len(),
            forall|p: int|
                0 <= p < roots@.len() ==> #[trigger] roots@[p].key < key && key_present(
                    input.vectors@,
                    roots@[p].key as int,
                ) && keys_present(input.vectors@, roots@[p].key as int) == p,
            orders.len() == roots@.len(),
            forall|p: int|
                0 <= p < roots@.len() ==> #[trigger] orders[p] == mem_order(nodes@, roots@[p].root as int),
            order_all == concat_all(orders),
            order_all.len() == perm_all.len(),
            order_all.no_duplicates(),
            forall|t: int| 0 <= t < blocks@.len() ==> order_all.contains(t) || #[trigger] is_pad(blocks@[t]),
            perm_all.to_multiset() == below_ms(keys@, key as int, n as int),
            forall|k: int|
                0 <= k < order_all.len() ==> 0 <= #[trigger] order_all[k] < blocks@.len()
                    && blocks@[order_all[k]] == (
                    input.vectors@[perm_all[k] as int],
                    input.labels@[perm_all[k] as int],
                ),
        decreases 256 - key,
    {
        let mut bucket: Vec<usize> = Vec::new();
        proof {
            assert(bucket@.to_multiset() =~= Multiset::<usize>::empty()) by {
                broadcast use vstd::seq_lib::group_to_multiset_ensures;
            }
        }
        let mut j: usize = 0;
        while j < n
            invariant
                j <= n == keys@.len(),
                bucket@.len() == count_eq(keys@, key as int, j as int),
                forall|k: int| 0 <= k < bucket@.len() ==> bucket@[k] < n,
                bucket@.to_multiset() == eq_ms(keys@, key as int, j as int),
            decreases n - j,
        {
            if keys[j] == key {
                proof {
                    vstd::seq_lib::to_multiset_build(bucket@, j);
                }
                bucket.push(j);
            }
            j = j + 1;
        }
        proof {
            lemma_count_step(keys@, key as int, n as int);
            lemma_count_step(keys@, key as int + 1, n as int);
            lemma_below_step(keys@, key as int, n as int);
            lemma_count_eq_pos(keys@, key as int, n as int);
            if key_present(input.vectors@, key as int) {
                let i = choose|i: int| 0 <= i < input.vectors@.len() && #[trigger] key_of(input.vectors@[i]@) == key;
                assert(keys@[i] == key_of(input.vectors@[i]@));
            }
            if bucket@.len() > 0 {
                let i = choose|i: int| 0 <= i < n && keys@[i] == key;
                assert(keys@[i] == key_of(input.vectors@[i]@));
                assert(key_present(input.vectors@, key as int));
            }
        }
        if bucket.len() > 0 {
            let ghost nodes0 = nodes@;
            let ghost blocks0 = blocks@;
            let ghost old_roots = roots@;
            let ghost old_orders = orders;
            let ghost old_perm_all = perm_all;
            let (root, perm) = build_tree(input.vectors, input.labels, bucket.as_slice(), leaf, &mut blocks, &mut nodes);
            roots.push(PartitionRoot { key, root: root as i32 });
            proof {
                lemma_mem_slots_split(nodes@, 0, nodes0.len() as int, nodes@.len() as int);
                lemma_mem_slots_same(nodes0, nodes@, 0, nodes0.len() as int);
                lemma_key_step(
                    input.vectors@,
                    input.labels@,
                    nodes0,
                    blocks0,
                    nodes@,
                    blocks@,
                    order_all,
                    perm_all,
                    root as int,
                    perm@,
                );
                assert forall|p: int| 0 <= p < roots@.len() - 1 implies #[trigger] roots@[p] == old_roots[p] by {}
                orders = orders.push(mem_order(nodes@, root as int));
                lemma_concat_push(orders.drop_last(), mem_order(nodes@, root as int));
                assert(orders.drop_last() =~= old_orders);
                order_all = order_all + mem_order(nodes@, root as int);
                perm_all = perm_all + perm@;
                vstd::seq_lib::lemma_multiset_commutative(old_perm_all, perm@);
            }
            proof {
                assert forall|m: int| 0 <= m < nodes@.len() implies #[trigger] mem_node_ok(
                    nodes@,
                    blocks@,
                    m,
                ) by {
                    if m < nodes0.len() {
                        lemma_mem_node_extend(nodes0, blocks0, nodes@, blocks@, m);
                    }
                }
                assert forall|m: int| 0 <= m < nodes@.len() && #[trigger] nodes@[m].left < 0 implies nodes@[m].len
                    <= leaf by {
                    if m < nodes0.len() {
                        assert(nodes@[m] == nodes0[m]);
                    }
                }
                if labels_bounded(input.labels@) {
                    assert forall|s2: int| 0 <= s2 < blocks@.len() implies #[trigger] blocks@[s2].1
                        <= 1 by {
                        if s2 < blocks0.len() {
                            assert(blocks@[s2] == blocks0[s2]);
                            assert(blocks0[s2].1 <= 1);
                        }
                    }
                }
            }
        }
        proof {
            if bucket@.len() == 0 {
                assert(bucket@ =~= Seq::<usize>::empty());
                assert(eq_ms(keys@, key as int, n as int) =~= Multiset::<usize>::empty()) by {
                    broadcast use vstd::seq_lib::group_to_multiset_ensures;
                }
            }
            assert(perm_all.to_multiset() =~= below_ms(keys@, key as int + 1, n as int));
        }
        key = key + 1;
    }
    proof {
        lemma_below_all(keys@, n as int);
    }
    let pc = roots.len();
    let nc = nodes.len();
    let bc = blocks.len() / 8;
    assert(bc * 8 == blocks@.len());
    assert(bc <= MAX_REFERENCES);
    let nodes_off = 64 + pc * 76;
    let vectors_off = nodes_off + nc * 80;
    let labels_off = vectors_off + bc * 224;
    let mcc_off = labels_off + bc * 8;
    let h = header_bytes(n as u32, pc as u32, nc as u32, bc as u32, mcc_off as u32);
    let ghost hs = h@;
    let mut out = h;
    // Partitions: key, root, length, min, max.
    let mut r: usize = 0;
    while r < pc
        invariant
            pc == roots@.len(),
            pc <= 256,
            r <= pc,
            out@.len() == 64 + r * 76,
            hs.len() == 64,
            extends(hs, out@),
            forall|q: int| 0 <= q < roots@.len() ==> 0 <= #[trigger] roots@[q].root < nodes@.len(),
            forall|q: int| 0 <= q < r ==> #[trigger] part_written(out@, roots@, nodes@, q),
            forall|q: int| 0 <= q < r ==> #[trigger] key_written(out@, roots@, q),
        decreases pc - r,
    {
        let pr = roots[r];
        let nd = nodes[pr.root as usize];
        let ghost before = out@;
        push_part_record(&mut out, pr.key, pr.root, &nd);
        proof {
            lemma_extends_trans(hs, before, out@);
            assert forall|q: int| 0 <= q < r + 1 implies #[trigger] part_written(out@, roots@, nodes@, q) by {
                if q < r {
                    assert(part_written(before, roots@, nodes@, q));
                    lemma_part_record_extend(
                        before,
                        out@,
                        HEADER_SIZE + q * PART_SIZE,
                        roots@[q].root as int,
                        nodes@[roots@[q].root as int],
                    );
                }
            }
            assert forall|q: int| 0 <= q < r + 1 implies #[trigger] key_written(out@, roots@, q) by {
                if q < r {
                    assert(key_written(before, roots@, q));
                    lemma_extends_read(before, out@, HEADER_SIZE + q * PART_SIZE);
                }
            }
        }
        r = r + 1;
    }
    let ghost ps = out@;
    // Nodes: left, right, first block of a leaf, length, min, max.
    proof {
        assert forall|m: int| 0 <= m < nodes@.len() && #[trigger] nodes@[m].left < 0 implies nodes@[m].start
            >= 0 by {
            assert(mem_node_ok(nodes@, blocks@, m));
        }
    }
    let mut k: usize = 0;
    while k < nc
        invariant
            nc == nodes@.len(),
            k <= nc,
            out@.len() == nodes_off + k * 80,
            nodes_off == 64 + pc * 76,
            pc <= 256,
            ps.len() == nodes_off,
            extends(ps, out@),
            forall|m: int| 0 <= m < nodes@.len() && #[trigger] nodes@[m].left < 0 ==> nodes@[m].start >= 0,
            forall|q: int| 0 <= q < k ==> #[trigger] node_written(out@, nodes_off as int, nodes@, q),
        decreases nc - k,
    {
        let nd = nodes[k];
        let ghost before = out@;
        assert(nd.left < 0 ==> nd.start >= 0);
        push_node_record(&mut out, &nd);
        proof {
            lemma_extends_trans(ps, before, out@);
            assert forall|q: int| 0 <= q < k + 1 implies #[trigger] node_written(out@, nodes_off as int, nodes@, q) by {
                if q < k {
                    assert(node_written(before, nodes_off as int, nodes@, q));
                    lemma_node_record_extend(before, out@, nodes_off + q * NODE_SIZE, nodes@[q]);
                }
            }
        }
        k = k + 1;
    }
    let ghost ns = out@;
    // Vectors: per block, dimension 0 of the 8 lanes, then dimension 1, ...
    let mut b: usize = 0;
    while b < bc
        invariant
            bc * 8 == blocks@.len(),
            b <= bc,
            out@.len() == vectors_off + b * 224,
            vectors_off == nodes_off + nc * 80,
            vectors_off >= 64,
            bc <= MAX_REFERENCES,
            ns.len() == vectors_off,
            extends(ns, out@),
            forall|b2: int, d2: int, l2: int|
                0 <= b2 && 0 <= d2 < 14 && 0 <= l2 < 8 && b2 * 112 + d2 * 8 + l2 < b * 112
                    ==> #[trigger] vec_written(out@, vectors_off as int, blocks@, b2, d2, l2),
        decreases bc - b,
    {
        let mut d: usize = 0;
        while d < VECTOR_DIM
            invariant
                bc * 8 == blocks@.len(),
                b < bc,
                d <= 14,
                out@.len() == vectors_off + b * 224 + d * 16,
                vectors_off >= 64,
                bc <= MAX_REFERENCES,
                ns.len() == vectors_off,
                extends(ns, out@),
                forall|b2: int, d2: int, l2: int|
                    0 <= b2 && 0 <= d2 < 14 && 0 <= l2 < 8 && b2 * 112 + d2 * 8 + l2 < b * 112 + d * 8
                        ==> #[trigger] vec_written(out@, vectors_off as int, blocks@, b2, d2, l2),
            decreases 14 - d,
        {
            let mut lane: usize = 0;
            while lane < LANES
                invariant
                    bc * 8 == blocks@.len(),
                    b < bc,
                    d < 14,
                    lane <= 8,
                    out@.len() == vectors_off + b * 224 + d * 16 + lane * 2,
                    vectors_off >= 64,
                    bc <= MAX_REFERENCES,
                    ns.len() == vectors_off,
                    extends(ns, out@),
                    forall|b2: int, d2: int, l2: int|
                        0 <= b2 && 0 <= d2 < 14 && 0 <= l2 < 8 && b2 * 112 + d2 * 8 + l2 < b * 112 + d
                            * 8 + lane ==> #[trigger] vec_written(
                            out@,
                            vectors_off as int,
                            blocks@,
                            b2,
                            d2,
                            l2,
                        ),
                decreases 8 - lane,
            {
                let slot = b * 8 + lane;
                let ghost before = out@;
                push_i16_le(&mut out, blocks[slot].0[d]);
                proof {
                    lemma_extends_trans(ns, before, out@);
                    assert forall|b2: int, d2: int, l2: int|
                        0 <= b2 && 0 <= d2 < 14 && 0 <= l2 < 8 && b2 * 112 + d2 * 8 + l2 < b * 112
                            + d * 8 + lane + 1 implies #[trigger] vec_written(
                        out@,
                        vectors_off as int,
                        blocks@,
                        b2,
                        d2,
                        l2,
                    ) by {
                        if b2 * 112 + d2 * 8 + l2 < b * 112 + d * 8 + lane {
                            assert(vec_written(before, vectors_off as int, blocks@, b2, d2, l2));
                            lemma_extends_read(
                                before,
                                out@,
                                vectors_off + b2 * BLOCK_BYTES + d2 * 16 + l2 * 2,
                            );
                        } else {
                            assert(b2 == b && d2 == d && l2 == lane);
                        }
                    }
                }
                lane = lane + 1;
            }
            d = d + 1;
        }
        b = b + 1;
    }
    let ghost vs = out@;
    // Labels: one byte per slot.
    let mut slot: usize = 0;
    while slot < bc * 8
        invariant
            bc * 8 == blocks@.len(),
            slot <= bc * 8,
            out@.len() == labels_off + slot,
            labels_off == vectors_off + bc * 224,
            vectors_off >= 64,
            bc <= MAX_REFERENCES,
            vs.len() == labels_off,
            extends(vs, out@),
            forall|s2: int| 0 <= s2 < slot ==> #[trigger] label_written(out@, labels_off as int, blocks@, s2),
        decreases bc * 8 - slot,
    {
        let ghost before = out@;
        out.push(blocks[slot].1);
        proof {
            assert(extends(before, out@));
            lemma_extends_trans(vs, before, out@);
            assert forall|s2: int| 0 <= s2 < slot + 1 implies #[trigger] label_written(
                out@,
                labels_off as int,
                blocks@,
                s2,
            ) by {
                if s2 < slot {
                    assert(label_written(before, labels_off as int, blocks@, s2));
                    assert(out@[labels_off + s2] == before[labels_off + s2]);
                }
            }
        }
        slot = slot + 1;
    }
    let ghost ls = out@;
    // MCC risk table.
    let mut m: usize = 0;
    while m < MCC_TABLE_SIZE
        invariant
            m <= 1024,
            out@.len() == mcc_off + 2 * m,
            mcc_off == labels_off + bc * 8,
            labels_off >= 64,
            ls.len() == mcc_off,
            extends(ls, out@),
            forall|q: int| 0 <= q < m ==> #[trigger] le_i16(out@, mcc_off + 2 * q) == input.mcc_table@[q],
        decreases 1024 - m,
    {
        let ghost before = out@;
        push_i16_le(&mut out, input.mcc_table[m]);
        proof {
            lemma_extends_trans(ls, before, out@);
            assert forall|q: int| 0 <= q < m + 1 implies #[trigger] le_i16(out@, mcc_off + 2 * q) == input.mcc_table@[q] by {
                if q < m {
                    assert(le_i16(before, mcc_off + 2 * q) == input.mcc_table@[q]);
                    lemma_extends_read(before, out@, mcc_off + 2 * q);
                }
            }
        }
        m = m + 1;
    }
    proof {
        lemma_built_header(hs, ps, ns, vs, ls, out@, n as int, pc as int, nc as int, bc as int);
        let v = IndexView { bytes: out@ };
        assert(v.part_count() == pc);
        assert(v.node_count() == nc);
        assert(v.block_count() == bc);
        assert(v.mcc_off() == mcc_off);
        assert(header_error(out@) is None);
        lemma_built_records(out@, ps, ns, vs, ls, nodes@, blocks@, roots@);
        if labels_bounded(input.labels@) {
            lemma_built_tree_ok(out@, nodes@, blocks@, roots@);
        }
        lemma_parts_ms(out@, nodes@, blocks@, roots@, orders, pc as int);
        assert(orders.take(pc as int) =~= orders);
        assert forall|q: int| 0 <= q < order_all.len() implies #[trigger] v.slot_vec(order_all[q]) == seq14(
            input.vectors@[perm_all[q] as int],
        ) && v.slot_label(order_all[q]) == input.labels@[perm_all[q] as int] by {
            lemma_slot_read(out@, nodes@, blocks@, roots@, order_all[q]);
        }
        assert forall|t: int|
            0 <= t < v.block_count() * 8 && !order_all.contains(t) implies #[trigger] v.slot_label(t) == 0
                && forall|d: int| 0 <= d < VECTOR_DIM ==> #[trigger] v.slot_vec(t)[d] == i16::MAX by {
            lemma_slot_read(out@, nodes@, blocks@, roots@, t);
            assert(is_pad(blocks@[t]));
            assert forall|d: int| 0 <= d < VECTOR_DIM implies #[trigger] v.slot_vec(t)[d] == i16::MAX by {
                assert(seq14(blocks@[t].0)[d] == blocks@[t].0@[d]);
            }
        }
        assert(holds_inputs_as(input.vectors@, input.labels@, out@, order_all, perm_all));
        lemma_leaf_slots(out@, nodes@, blocks@, roots@, nc as int);
        if forall|k: int| 0 <= k < 256 ==> #[trigger] key_count(input.vectors@, k, n as int) <= leaf {
            assert forall|k: int| 0 <= k < 256 implies #[trigger] count_eq(keys@, k, n as int) <= leaf by {
                lemma_key_count(keys@, input.vectors@, k, n as int);
                assert(key_count(input.vectors@, k, n as int) <= leaf);
            }
        }
        assert forall|q: int| 0 <= q < v.part_count() implies #[trigger] v.part_key(q) < 256 && key_present(
            input.vectors@,
            v.part_key(q),
        ) && keys_present(input.vectors@, v.part_key(q)) == q by {
            lemma_built_records(out@, ps, ns, vs, ls, nodes@, blocks@, roots@);
            assert(key_written(out@, roots@, q));
        }
        assert forall|m: int| 0 <= m < v.node_count() && #[trigger] v.is_leaf(m) implies v.node_len(m) <= leaf by {
            assert(node_written(out@, v.nodes_off(), nodes@, m));
        }
    }
    out
}

} // verus!
