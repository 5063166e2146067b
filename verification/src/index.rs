//! Validated, in-memory view of an index file.
//!
//! Layout (all integers little-endian):
//! - header (64 bytes): magic, scale, dims, packed_dims, lanes, ref_count,
//!   part_count, node_count, block_count, mcc_table_offset, padding;
//! - partitions (`PART_SIZE` each): key u32, root i32, length i32,
//!   min[16] i16, max[16] i16;
//! - nodes (`NODE_SIZE` each): left i32, right i32, start i32, len i32,
//!   min[16] i16, max[16] i16 (a leaf has `left < 0`; its `start` is a block);
//! - vectors: per block, dim 0 of the 8 lanes, dim 1 of the 8 lanes, ...;
//! - labels: one byte per slot;
//! - mcc risk table: `MCC_TABLE_SIZE` i16 values.

use vstd::prelude::*;
use vstd::multiset::Multiset;
use crate::bytes::{le_i16, le_i32, le_u32, read_i16_le, read_i32_le, read_u32_le};
use crate::quantize::{
    in_box, sq_dist, QueryVector, BLOCK_BYTES, HEADER_SIZE, LANES, MAGIC, MCC_TABLE_SIZE,
    NODE_SIZE, PACKED_DIMS, PART_SIZE, QUANT_SCALE, VECTOR_DIM,
};

verus! {

/// Why an index file was rejected.
#[derive(Debug, Clone, Copy, PartialEq, Eq)]
pub enum IndexError {
    TooSmall,
    BadMagic,
    ScaleMismatch { got: u32 },
    DimMismatch,
    SizeMismatch { computed: u64, file: u64 },
    MccOffsetMismatch { header: u32, computed: u64 },
}

/// The abstract content of an index: its file bytes.
pub struct IndexView {
    pub bytes: Seq<u8>,
}

/// Total size of a file with the given table sizes.
pub open spec fn layout_end(pc: int, nc: int, bc: int) -> int {
    HEADER_SIZE + pc * PART_SIZE + nc * NODE_SIZE + bc * BLOCK_BYTES + bc * LANES + MCC_TABLE_SIZE
        * 2
}

/// The multiset of slots `start .. start + len`.
pub open spec fn range_ms(start: int, len: int) -> Multiset<int>
    decreases len,
{
    if len <= 0 {
        Multiset::empty()
    } else {
        range_ms(start, len - 1).insert(start + len - 1)
    }
}

/// `inner` box lies within `outer` box on the real dims.
pub open spec fn box_within(
    inner_min: Seq<i16>,
    inner_max: Seq<i16>,
    outer_min: Seq<i16>,
    outer_max: Seq<i16>,
) -> bool {
    forall|d: int|
        0 <= d < VECTOR_DIM ==> #[trigger] outer_min[d] <= inner_min[d] && inner_max[d]
            <= outer_max[d]
}

impl IndexView {
    pub open spec fn part_count(self) -> int {
        le_u32(self.bytes, 28)
    }

    pub open spec fn node_count(self) -> int {
        le_u32(self.bytes, 32)
    }

    pub open spec fn block_count(self) -> int {
        le_u32(self.bytes, 36)
    }

    pub open spec fn nodes_off(self) -> int {
        HEADER_SIZE + self.part_count() * PART_SIZE
    }

    pub open spec fn vectors_off(self) -> int {
        self.nodes_off() + self.node_count() * NODE_SIZE
    }

    pub open spec fn labels_off(self) -> int {
        self.vectors_off() + self.block_count() * BLOCK_BYTES
    }

    pub open spec fn mcc_off(self) -> int {
        self.labels_off() + self.block_count() * LANES
    }

    pub open spec fn part_off(self, p: int) -> int {
        HEADER_SIZE + p * PART_SIZE
    }

    pub open spec fn part_key(self, p: int) -> int {
        le_u32(self.bytes, self.part_off(p))
    }

    pub open spec fn part_root(self, p: int) -> int {
        le_i32(self.bytes, self.part_off(p) + 4)
    }

    /// Sixteen-dim vector whose first 14 dims are read at `off`.
    pub open spec fn vec_at(self, off: int) -> Seq<i16> {
        Seq::new(
            PACKED_DIMS as nat,
            |d: int|
                if d < VECTOR_DIM {
                    le_i16(self.bytes, off + 2 * d) as i16
                } else {
                    0i16
                },
        )
    }

    pub open spec fn part_min(self, p: int) -> Seq<i16> {
        self.vec_at(self.part_off(p) + 12)
    }

    pub open spec fn part_max(self, p: int) -> Seq<i16> {
        self.vec_at(self.part_off(p) + 44)
    }

    pub open spec fn node_off(self, n: int) -> int {
        self.nodes_off() + n * NODE_SIZE
    }

    pub open spec fn node_left(self, n: int) -> int {
        le_i32(self.bytes, self.node_off(n))
    }

    pub open spec fn node_right(self, n: int) -> int {
        le_i32(self.bytes, self.node_off(n) + 4)
    }

    pub open spec fn node_start(self, n: int) -> int {
        le_i32(self.bytes, self.node_off(n) + 8)
    }

    pub open spec fn node_len(self, n: int) -> int {
        le_i32(self.bytes, self.node_off(n) + 12)
    }

    pub open spec fn node_min(self, n: int) -> Seq<i16> {
        self.vec_at(self.node_off(n) + 16)
    }

    pub open spec fn node_max(self, n: int) -> Seq<i16> {
        self.vec_at(self.node_off(n) + 48)
    }

    /// The vector stored in slot `s` (block `s / 8`, lane `s % 8`).
    pub open spec fn slot_vec(self, s: int) -> Seq<i16> {
        Seq::new(
            PACKED_DIMS as nat,
            |d: int|
                if d < VECTOR_DIM {
                    le_i16(
                        self.bytes,
                        self.vectors_off() + (s / 8) * BLOCK_BYTES + d * 16 + (s % 8) * 2,
                    ) as i16
                } else {
                    0i16
                },
        )
    }

    pub open spec fn slot_label(self, s: int) -> u8 {
        self.bytes[self.labels_off() + s]
    }

    /// Squared distance from `q` to the vector in slot `s`.
    #[verifier::opaque]
    pub open spec fn slot_dist(self, q: Seq<i16>, s: int) -> int {
        sq_dist(q, self.slot_vec(s), VECTOR_DIM as int)
    }

    pub open spec fn is_leaf(self, n: int) -> bool {
        self.node_left(n) < 0
    }

    pub open spec fn leaf_ok(self, n: int) -> bool {
        &&& self.node_start(n) >= 0
        &&& self.node_len(n) >= 0
        &&& self.node_start(n) * 8 + self.node_len(n) <= self.block_count() * 8
        &&& forall|j: int|
            #![trigger self.slot_vec(self.node_start(n) * 8 + j)]
            #![trigger self.slot_label(self.node_start(n) * 8 + j)]
            0 <= j < self.node_len(n) ==> in_box(
                self.slot_vec(self.node_start(n) * 8 + j),
                self.node_min(n),
                self.node_max(n),
            ) && self.slot_label(self.node_start(n) * 8 + j) <= 1
    }

    pub open spec fn inner_ok(self, n: int) -> bool {
        &&& n < self.node_left(n) < self.node_count()
        &&& n < self.node_right(n) < self.node_count()
        &&& box_within(
            self.node_min(self.node_left(n)),
            self.node_max(self.node_left(n)),
            self.node_min(n),
            self.node_max(n),
        )
        &&& box_within(
            self.node_min(self.node_right(n)),
            self.node_max(self.node_right(n)),
            self.node_min(n),
            self.node_max(n),
        )
    }

    pub open spec fn node_ok(self, n: int) -> bool {
        if self.is_leaf(n) {
            self.leaf_ok(n)
        } else {
            self.inner_ok(n)
        }
    }

    pub open spec fn part_ok(self, p: int) -> bool {
        let r = self.part_root(p);
        0 <= r < self.node_count() ==> box_within(
            self.node_min(r),
            self.node_max(r),
            self.part_min(p),
            self.part_max(p),
        )
    }

    /// Every node is a leaf over stored slots or an inner node whose children
    /// follow it and whose box covers theirs; every partition box covers its
    /// root's box; at most 256 partitions.
    #[verifier::opaque]
    pub open spec fn tree_ok(self) -> bool {
        &&& self.part_count() <= 256
        &&& forall|n: int| 0 <= n < self.node_count() ==> #[trigger] self.node_ok(n)
        &&& forall|p: int| 0 <= p < self.part_count() ==> #[trigger] self.part_ok(p)
    }

    /// The slots reachable from node `n`, counted with multiplicity.
    pub open spec fn tree_ms(self, n: int) -> Multiset<int>
        decreases self.node_count() - n,
    {
        if !(0 <= n < self.node_count()) {
            Multiset::empty()
        } else if self.is_leaf(n) {
            range_ms(self.node_start(n) * 8, self.node_len(n))
        } else if n < self.node_left(n) < self.node_count() && n < self.node_right(n)
            < self.node_count() {
            self.tree_ms(self.node_left(n)).add(self.tree_ms(self.node_right(n)))
        } else {
            Multiset::empty()
        }
    }

    /// The slots of the trees of partitions `0 .. k`.
    pub open spec fn parts_ms(self, k: int) -> Multiset<int>
        decreases k,
    {
        if k <= 0 {
            Multiset::empty()
        } else {
            self.parts_ms(k - 1).add(self.tree_ms(self.part_root(k - 1)))
        }
    }

    /// All reference entries of the index: the slots of every partition tree.
    pub open spec fn entries(self) -> Multiset<int> {
        self.parts_ms(self.part_count())
    }

    /// The last partition whose key is `key` among partitions `0 .. n`, or -1.
    pub open spec fn last_with_key(self, key: int, n: int) -> int
        decreases n,
    {
        if n <= 0 {
            -1
        } else if self.part_key(n - 1) == key {
            n - 1
        } else {
            self.last_with_key(key, n - 1)
        }
    }
}

/// Header checks in the order `open` makes them; `None` when they all pass.
#[verifier::opaque]
pub open spec fn header_error(s: Seq<u8>) -> Option<IndexError> {
    let v = IndexView { bytes: s };
    if s.len() < HEADER_SIZE {
        Some(IndexError::TooSmall)
    } else if s.subrange(0, 8) != MAGIC@ {
        Some(IndexError::BadMagic)
    } else if le_u32(s, 8) != QUANT_SCALE {
        Some(IndexError::ScaleMismatch { got: le_u32(s, 8) as u32 })
    } else if le_u32(s, 12) != VECTOR_DIM || le_u32(s, 16) != PACKED_DIMS || le_u32(s, 20) != LANES {
        Some(IndexError::DimMismatch)
    } else if layout_end(v.part_count(), v.node_count(), v.block_count()) != s.len() {
        Some(
            IndexError::SizeMismatch {
                computed: layout_end(v.part_count(), v.node_count(), v.block_count()) as u64,
                file: s.len() as u64,
            },
        )
    } else if le_u32(s, 40) != v.mcc_off() {
        Some(IndexError::MccOffsetMismatch { header: le_u32(s, 40) as u32, computed: v.mcc_off() as u64 })
    } else {
        None
    }
}

/// Outcome of opening an index file: `None` when its header passes every
/// check. The node tree is not checked here; see `Index::tree_valid`.
pub open spec fn open_error(s: Seq<u8>) -> Option<IndexError> {
    header_error(s)
}

/// Sizes implied by a valid header: the file ends right after the mcc table.
pub open spec fn header_len_fact(v: IndexView) -> bool {
    &&& v.bytes.len() == v.mcc_off() + 2 * MCC_TABLE_SIZE
    &&& v.part_count() >= 0
    &&& v.node_count() >= 0
    &&& v.block_count() >= 0
}

/// A validated index file held in memory.
pub struct Index {
    pub(crate) data: Vec<u8>,
    pub(crate) partitions_off: usize,
    pub(crate) nodes_off: usize,
    pub(crate) vectors_off: usize,
    pub(crate) labels_off: usize,
    pub(crate) mcc_table_off: usize,
    pub(crate) part_count: u32,
    pub(crate) node_count: u32,
    pub(crate) block_count: u32,
    pub(crate) part_by_key: [i32; 256],
}

impl View for Index {
    type V = IndexView;

    closed spec fn view(&self) -> IndexView {
        IndexView { bytes: self.data@ }
    }
}

impl Index {
    #[verifier::type_invariant]
    pub(crate) open spec fn inv(self) -> bool {
        let v = IndexView { bytes: self.data@ };
        &&& open_error(self.data@) is None
        &&& header_len_fact(v)
        &&& self.partitions_off == HEADER_SIZE
        &&& self.part_count == v.part_count()
        &&& self.node_count == v.node_count()
        &&& self.block_count == v.block_count()
        &&& self.nodes_off == v.nodes_off()
        &&& self.vectors_off == v.vectors_off()
        &&& self.labels_off == v.labels_off()
        &&& self.mcc_table_off == v.mcc_off()
        &&& forall|k: int|
            0 <= k < 256 ==> #[trigger] self.part_by_key@[k] == v.last_with_key(k, v.part_count()) as i32
    }
}

pub(crate) fn read_vec16(data: &[u8], off: usize) -> (r: QueryVector)
    requires
        off + 28 <= data@.len(),
    ensures
        r@ == (IndexView { bytes: data@ }).vec_at(off as int),
{
    let len = data.len();
    let mut r: QueryVector = [0;PACKED_DIMS];
    let mut d: usize = 0;
    while d < VECTOR_DIM
        invariant
            0 <= d <= VECTOR_DIM,
            len == data@.len(),
            off + 28 <= data@.len(),
            forall|e: int| 0 <= e < d ==> r@[e] == le_i16(data@, off + 2 * e),
            forall|e: int| d <= e < PACKED_DIMS ==> r@[e] == 0,
        decreases VECTOR_DIM - d,
    {
        r[d] = read_i16_le(data, off + 2 * d);
        d = d + 1;
    }
    assert(r@ =~= (IndexView { bytes: data@ }).vec_at(off as int));
    r
}

/// `p` lies in the box `[lo, hi]` on the real dims.
pub fn vec_in_box(p: &QueryVector, lo: &QueryVector, hi: &QueryVector) -> (r: bool)
    ensures
        r == in_box(p@, lo@, hi@),
{
    let mut d: usize = 0;
    while d < VECTOR_DIM
        invariant
            0 <= d <= VECTOR_DIM,
            forall|e: int| 0 <= e < d ==> lo@[e] <= #[trigger] p@[e] <= hi@[e],
        decreases VECTOR_DIM - d,
    {
        if !(lo[d] <= p[d] && p[d] <= hi[d]) {
            return false;
        }
        d = d + 1;
    }
    true
}

fn box_within_exec(
    inner_min: &QueryVector,
    inner_max: &QueryVector,
    outer_min: &QueryVector,
    outer_max: &QueryVector,
) -> (r: bool)
    ensures
        r == box_within(inner_min@, inner_max@, outer_min@, outer_max@),
{
    let mut d: usize = 0;
    while d < VECTOR_DIM
        invariant
            0 <= d <= VECTOR_DIM,
            forall|e: int|
                0 <= e < d ==> #[trigger] outer_min@[e] <= inner_min@[e] && inner_max@[e]
                    <= outer_max@[e],
        decreases VECTOR_DIM - d,
    {
        if !(outer_min[d] <= inner_min[d] && inner_max[d] <= outer_max[d]) {
            return false;
        }
        d = d + 1;
    }
    true
}

} // verus!

verus! {

/// Slot vector of slot `s` read from the vectors region at `vectors_off`.
fn read_slot_vec(data: &[u8], vectors_off: usize, s: usize) -> (r: QueryVector)
    requires
        vectors_off == (IndexView { bytes: data@ }).vectors_off(),
        vectors_off + (s / 8) * BLOCK_BYTES + BLOCK_BYTES <= data@.len(),
    ensures
        r@ == (IndexView { bytes: data@ }).slot_vec(s as int),
{
    let len = data.len();
    let base = vectors_off + (s / 8) * BLOCK_BYTES + (s % 8) * 2;
    let mut r: QueryVector = [0;PACKED_DIMS];
    let mut d: usize = 0;
    while d < VECTOR_DIM
        invariant
            0 <= d <= VECTOR_DIM,
            len == data@.len(),
            base == vectors_off + (s / 8) * BLOCK_BYTES + (s % 8) * 2,
            vectors_off + (s / 8) * BLOCK_BYTES + BLOCK_BYTES <= data@.len(),
            forall|e: int|
                0 <= e < d ==> r@[e] == le_i16(
                    data@,
                    vectors_off + (s / 8) * BLOCK_BYTES + e * 16 + (s % 8) * 2,
                ),
            forall|e: int| d <= e < PACKED_DIMS ==> r@[e] == 0,
        decreases VECTOR_DIM - d,
    {
        r[d] = read_i16_le(data, base + d * 16);
        d = d + 1;
    }
    assert(r@ =~= (IndexView { bytes: data@ }).slot_vec(s as int));
    r
}

/// Checks `tree_ok` on a file whose header is valid.
fn check_tree(
    data: &[u8],
    pc: u32,
    nc: u32,
    bc: u32,
    nodes_off: usize,
    vectors_off: usize,
    labels_off: usize,
) -> (ok: bool)
    requires
        header_error(data@) is None,
        pc == (IndexView { bytes: data@ }).part_count(),
        nc == (IndexView { bytes: data@ }).node_count(),
        bc == (IndexView { bytes: data@ }).block_count(),
        nodes_off == (IndexView { bytes: data@ }).nodes_off(),
        vectors_off == (IndexView { bytes: data@ }).vectors_off(),
        labels_off == (IndexView { bytes: data@ }).labels_off(),
    ensures
        ok == (IndexView { bytes: data@ }).tree_ok(),
{
    reveal(header_error);
    reveal(IndexView::tree_ok);
    let ghost v = IndexView { bytes: data@ };
    assert(header_len_fact(v));
    let dlen = data.len();
    if pc > 256 {
        return false;
    }
    let mut n: u32 = 0;
    while n < nc
        invariant
            header_len_fact(v),
            v == (IndexView { bytes: data@ }),
            pc == v.part_count(),
            nc == v.node_count(),
            bc == v.block_count(),
            nodes_off == v.nodes_off(),
            vectors_off == v.vectors_off(),
            labels_off == v.labels_off(),
            pc <= 256,
            dlen == data@.len(),
            0 <= n <= nc,
            forall|m: int| 0 <= m < n ==> #[trigger] v.node_ok(m),
        decreases nc - n,
    {
        let off = nodes_off + n as usize * NODE_SIZE;
        let left = read_i32_le(data, off);
        let lo = read_vec16(data, off + 16);
        let hi = read_vec16(data, off + 48);
        if left < 0 {
            let start = read_i32_le(data, off + 8);
            let ln = read_i32_le(data, off + 12);
            if start < 0 || ln < 0 || (start as u64) * 8 + (ln as u64) > (bc as u64) * 8 {
                assert(!v.node_ok(n as int));
                reveal(IndexView::tree_ok);
                return false;
            }
            let mut j: u32 = 0;
            while j < ln as u32
                invariant
                    data@.len() == v.mcc_off() + 2048,
                    dlen == data@.len(),
                    v.node_left(n as int) < 0,
                    v == (IndexView { bytes: data@ }),
                    bc == v.block_count(),
                    vectors_off == v.vectors_off(),
                    0 <= n < nc,
                    nc == v.node_count(),
                    off == v.node_off(n as int),
                    start == v.node_start(n as int),
                    ln == v.node_len(n as int),
                    start >= 0,
                    ln >= 0,
                    (start as int) * 8 + ln <= bc * 8,
                    lo@ == v.node_min(n as int),
                    hi@ == v.node_max(n as int),
                    0 <= j <= ln,
                    forall|jj: int|
                        0 <= jj < j ==> #[trigger] in_box(
                            v.slot_vec(v.node_start(n as int) * 8 + jj),
                            v.node_min(n as int),
                            v.node_max(n as int),
                        ) && v.slot_label(v.node_start(n as int) * 8 + jj) <= 1,
                    labels_off == v.labels_off(),
                decreases ln - j,
            {
                let s = start as usize * 8 + j as usize;
                let p = read_slot_vec(data, vectors_off, s);
                if !vec_in_box(&p, &lo, &hi) || data[labels_off + s] > 1 {
                    assert(!(in_box(
                        v.slot_vec(v.node_start(n as int) * 8 + j),
                        v.node_min(n as int),
                        v.node_max(n as int),
                    ) && v.slot_label(v.node_start(n as int) * 8 + j) <= 1));
                    assert(!v.node_ok(n as int));
                    reveal(IndexView::tree_ok);
                return false;
                }
                j = j + 1;
            }
            assert(v.node_ok(n as int));
        } else {
            let right = read_i32_le(data, off + 4);
            if !((n as i64) < (left as i64) && (left as i64) < (nc as i64) && (n as i64) < (
            right as i64) && (right as i64) < (nc as i64)) {
                assert(!v.node_ok(n as int));
                reveal(IndexView::tree_ok);
                return false;
            }
            let loff = nodes_off + left as usize * NODE_SIZE;
            let roff = nodes_off + right as usize * NODE_SIZE;
            let lmin = read_vec16(data, loff + 16);
            let lmax = read_vec16(data, loff + 48);
            let rmin = read_vec16(data, roff + 16);
            let rmax = read_vec16(data, roff + 48);
            if !box_within_exec(&lmin, &lmax, &lo, &hi) || !box_within_exec(&rmin, &rmax, &lo, &hi) {
                assert(!v.node_ok(n as int));
                reveal(IndexView::tree_ok);
                return false;
            }
            assert(v.node_ok(n as int));
        }
        n = n + 1;
    }
    let mut p: u32 = 0;
    while p < pc
        invariant
            header_len_fact(v),
            v == (IndexView { bytes: data@ }),
            pc == v.part_count(),
            nc == v.node_count(),
            nodes_off == v.nodes_off(),
            pc <= 256,
            dlen == data@.len(),
            0 <= p <= pc,
            forall|m: int| 0 <= m < nc ==> #[trigger] v.node_ok(m),
            forall|q: int| 0 <= q < p ==> #[trigger] v.part_ok(q),
        decreases pc - p,
    {
        let off = HEADER_SIZE + p as usize * PART_SIZE;
        let root = read_i32_le(data, off + 4);
        if 0 <= root && (root as u32) < nc {
            let pmin = read_vec16(data, off + 12);
            let pmax = read_vec16(data, off + 44);
            let roff = nodes_off + root as usize * NODE_SIZE;
            let rmin = read_vec16(data, roff + 16);
            let rmax = read_vec16(data, roff + 48);
            if !box_within_exec(&rmin, &rmax, &pmin, &pmax) {
                assert(!v.part_ok(p as int));
                reveal(IndexView::tree_ok);
                return false;
            }
        }
        assert(v.part_ok(p as int));
        p = p + 1;
    }
    true
}

} // verus!

verus! {

impl Index {
    /// Check an index file's header and build the per-key partition table.
    /// Fails exactly when `open_error` names a reason.
    pub fn open(data: Vec<u8>) -> (r: Result<Index, IndexError>)
        ensures
            match r {
                Ok(idx) => open_error(data@) is None && idx@.bytes == data@,
                Err(e) => open_error(data@) == Some(e),
            },
    {
        reveal(header_error);
        let len = data.len();
        if len < HEADER_SIZE {
            return Err(IndexError::TooSmall);
        }
        let mut i: usize = 0;
        while i < 8
            invariant
                0 <= i <= 8,
                len == data@.len(),
                len >= HEADER_SIZE,
                forall|k: int| 0 <= k < i ==> data@[k] == MAGIC@[k],
            decreases 8 - i,
        {
            if data[i] != MAGIC[i] {
                reveal(header_error);
                assert(data@.subrange(0, 8)[i as int] != MAGIC@[i as int]);
                return Err(IndexError::BadMagic);
            }
            i = i + 1;
        }
        assert(data@.subrange(0, 8) =~= MAGIC@);
        let bytes = data.as_slice();
        let scale = read_u32_le(bytes, 8);
        if scale != QUANT_SCALE as u32 {
            return Err(IndexError::ScaleMismatch { got: scale });
        }
        let dims = read_u32_le(bytes, 12);
        let packed = read_u32_le(bytes, 16);
        let lanes = read_u32_le(bytes, 20);
        if dims as usize != VECTOR_DIM || packed as usize != PACKED_DIMS || lanes as usize != LANES {
            return Err(IndexError::DimMismatch);
        }
        let part_count = read_u32_le(bytes, 28);
        let node_count = read_u32_le(bytes, 32);
        let block_count = read_u32_le(bytes, 36);
        let nodes_off64 = HEADER_SIZE as u64 + part_count as u64 * PART_SIZE as u64;
        let vectors_off64 = nodes_off64 + node_count as u64 * NODE_SIZE as u64;
        let labels_off64 = vectors_off64 + block_count as u64 * BLOCK_BYTES as u64;
        let mcc_off64 = labels_off64 + block_count as u64 * LANES as u64;
        let end = mcc_off64 + MCC_TABLE_SIZE as u64 * 2;
        if end != len as u64 {
            return Err(IndexError::SizeMismatch { computed: end, file: len as u64 });
        }
        let mcc_header = read_u32_le(bytes, 40);
        if mcc_header as u64 != mcc_off64 {
            return Err(IndexError::MccOffsetMismatch { header: mcc_header, computed: mcc_off64 });
        }
        let ghost v = IndexView { bytes: data@ };
        assert(header_error(data@) is None);
        assert(header_len_fact(v));
        let nodes_off = nodes_off64 as usize;
        let vectors_off = vectors_off64 as usize;
        let labels_off = labels_off64 as usize;
        let mcc_table_off = mcc_off64 as usize;
        let mut part_by_key = [-1i32;256];
        let mut p: u32 = 0;
        while p < part_count
            invariant
                v == (IndexView { bytes: data@ }),
                bytes@ == data@,
                len == data@.len(),
                header_len_fact(v),
                open_error(data@) is None,
                data@.len() == v.mcc_off() + 2048,
                part_count == v.part_count(),
                0 <= p <= part_count,
                forall|k: int|
                    0 <= k < 256 ==> #[trigger] part_by_key@[k] == v.last_with_key(k, p as int) as i32,
            decreases part_count - p,
        {
            let key = read_u32_le(bytes, HEADER_SIZE + p as usize * PART_SIZE);
            if key < 256 {
                part_by_key[key as usize] = p as i32;
            }
            p = p + 1;
        }
        Ok(
            Index {
                data,
                partitions_off: HEADER_SIZE,
                nodes_off,
                vectors_off,
                labels_off,
                mcc_table_off,
                part_count,
                node_count,
                block_count,
                part_by_key,
            },
        )
    }

    /// Checks the node tree: every node is a leaf over stored slots whose
    /// vectors lie in its box and whose labels are 0 or 1, or an inner node
    /// whose children follow it and whose box covers theirs; every partition
    /// box covers its root's; at most 256 partitions. The search is exact on
    /// an index that passes.
    pub fn tree_valid(&self) -> (r: bool)
        ensures
            r == self@.tree_ok(),
    {
        proof {
            use_type_invariant(self);
        }
        check_tree(
            self.data.as_slice(),
            self.part_count,
            self.node_count,
            self.block_count,
            self.nodes_off,
            self.vectors_off,
            self.labels_off,
        )
    }

    pub fn part_count(&self) -> (r: u32)
        ensures
            r == self@.part_count(),
    {
        proof {
            use_type_invariant(self);
        }
        self.part_count
    }

    pub fn node_count(&self) -> (r: u32)
        ensures
            r == self@.node_count(),
    {
        proof {
            use_type_invariant(self);
        }
        self.node_count
    }

    pub fn block_count(&self) -> (r: u32)
        ensures
            r == self@.block_count(),
    {
        proof {
            use_type_invariant(self);
        }
        self.block_count
    }

    /// Primary partition for a key (only its low 8 bits count): the last
    /// partition with that key, or -1, stored as an `i32`.
    pub fn part_by_key(&self, key: u32) -> (r: i32)
        ensures
            r == self@.last_with_key((key % 256) as int, self@.part_count()) as i32,
    {
        proof {
            use_type_invariant(self);
        }
        assert(key & 0xff == key % 256) by (bit_vector);
        self.part_by_key[(key & 0xff) as usize]
    }

    /// The i16-scaled risk stored for an MCC code, at slot `mcc % MCC_TABLE_SIZE`.
    pub fn mcc_risk(&self, mcc: u32) -> (r: i16)
        ensures
            r == le_i16(self@.bytes, self@.mcc_off() + (mcc % 1024) * 2),
    {
        proof {
            use_type_invariant(self);
        }
        let idx = (mcc as usize) % MCC_TABLE_SIZE;
        let _n = self.data.len();
        read_i16_le(self.data.as_slice(), self.mcc_table_off + idx * 2)
    }

    /// The file bytes.
    pub fn as_bytes(&self) -> (r: &[u8])
        ensures
            r@ == self@.bytes,
    {
        self.data.as_slice()
    }
}

} // verus!

verus! {

impl Index {
    /// Squared distance from `q` to the vector stored in `slot`.
    pub(crate) fn slot_distance(&self, slot: usize, q: &QueryVector) -> (r: i64)
        requires
            slot < self@.block_count() * 8,
        ensures
            r == self@.slot_dist(q@, slot as int),
    {
        proof {
            use_type_invariant(self);
            reveal(IndexView::slot_dist);
        }
        let ghost v = self@;
        let data = self.data.as_slice();
        let len = data.len();
        let _n = self.data.len();
        let base = self.vectors_off + (slot / 8) * BLOCK_BYTES + (slot % 8) * 2;
        let mut acc: i64 = 0;
        let mut d: usize = 0;
        while d < VECTOR_DIM
            invariant
                0 <= d <= VECTOR_DIM,
                data@ == v.bytes,
                len == data@.len(),
                header_len_fact(v),
                slot < v.block_count() * 8,
                base == v.vectors_off() + (slot / 8) * BLOCK_BYTES + (slot % 8) * 2,
                acc == sq_dist(q@, v.slot_vec(slot as int), d as int),
                0 <= acc <= d * (65535 * 65535),
            decreases VECTOR_DIM - d,
        {
            let x = read_i16_le(data, base + d * 16);
            let diff: i64 = q[d] as i64 - x as i64;
            assert(0 <= diff * diff <= 65535 * 65535) by (nonlinear_arith)
                requires
                    -65535 <= diff <= 65535,
            ;
            assert(v.slot_vec(slot as int)[d as int] == x);
            assert((d as int) * (65535 * 65535) <= 13 * (65535 * 65535)) by (nonlinear_arith)
                requires
                    d < 14,
            ;
            assert((d as int + 1) * (65535 * 65535) == (d as int) * (65535 * 65535) + 65535 * 65535)
                by (nonlinear_arith);
            acc = acc + diff * diff;
            d = d + 1;
        }
        acc
    }

    pub(crate) fn read_node(&self, n: u32) -> (r: (i32, i32, i32, i32))
        requires
            n < self@.node_count(),
        ensures
            r.0 == self@.node_left(n as int),
            r.1 == self@.node_right(n as int),
            r.2 == self@.node_start(n as int),
            r.3 == self@.node_len(n as int),
    {
        proof {
            use_type_invariant(self);
        }
        let ghost v = self@;
        let _n = self.data.len();
        let data = self.data.as_slice();
        let off = self.nodes_off + n as usize * NODE_SIZE;
        (
            read_i32_le(data, off),
            read_i32_le(data, off + 4),
            read_i32_le(data, off + 8),
            read_i32_le(data, off + 12),
        )
    }

    pub(crate) fn read_node_bounds(&self, n: u32) -> (r: (QueryVector, QueryVector))
        requires
            n < self@.node_count(),
        ensures
            r.0@ == self@.node_min(n as int),
            r.1@ == self@.node_max(n as int),
    {
        proof {
            use_type_invariant(self);
        }
        let ghost v = self@;
        let _n = self.data.len();
        let data = self.data.as_slice();
        let off = self.nodes_off + n as usize * NODE_SIZE;
        (read_vec16(data, off + 16), read_vec16(data, off + 48))
    }

    pub(crate) fn read_partition_root(&self, p: u32) -> (r: i32)
        requires
            p < self@.part_count(),
        ensures
            r == self@.part_root(p as int),
    {
        proof {
            use_type_invariant(self);
        }
        let ghost v = self@;
        let _n = self.data.len();
        read_i32_le(self.data.as_slice(), HEADER_SIZE + p as usize * PART_SIZE + 4)
    }

    pub(crate) fn read_partition_bbox(&self, p: u32) -> (r: (QueryVector, QueryVector))
        requires
            p < self@.part_count(),
        ensures
            r.0@ == self@.part_min(p as int),
            r.1@ == self@.part_max(p as int),
    {
        proof {
            use_type_invariant(self);
        }
        let ghost v = self@;
        let _n = self.data.len();
        let data = self.data.as_slice();
        let off = HEADER_SIZE + p as usize * PART_SIZE;
        (read_vec16(data, off + 12), read_vec16(data, off + 44))
    }

    pub(crate) fn slot_label(&self, slot: usize) -> (r: u8)
        requires
            slot < self@.block_count() * 8,
        ensures
            r == self@.slot_label(slot as int),
    {
        proof {
            use_type_invariant(self);
        }
        let ghost v = self@;
        let _n = self.data.len();
        self.data[self.labels_off + slot]
    }
}


impl Index {
    /// Facts every accepted index satisfies.
    pub(crate) fn valid(&self)
        ensures
            open_error(self@.bytes) is None,
            header_len_fact(self@),
            self@.bytes.len() <= usize::MAX,
    {
        proof {
            use_type_invariant(self);
        }
        let _n = self.data.len();
    }
}

} // verus!
