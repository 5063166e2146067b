//! Quantization and the on-disk index layout (partitions + KD-tree).

use vstd::prelude::*;

verus! {

pub const MAGIC: [u8; 8] = [70u8, 82u8, 65u8, 85u8, 68u8, 73u8, 68u8, 88u8];

pub const VERSION: u32 = 4;

pub const VECTOR_DIM: usize = 14;

/// Padding to 32-byte alignment for bbox arrays.
pub const PACKED_DIMS: usize = 16;

pub const QUANT_SCALE: i32 = 10000;

pub const TOP_K: usize = 5;

pub const LANES: usize = 8;

pub const HEADER_SIZE: usize = 64;

/// key u32, root i32, length i32, min[16] i16, max[16] i16.
pub const PART_SIZE: usize = 76;

/// left i32, right i32, start i32, len i32, min[16] i16, max[16] i16.
pub const NODE_SIZE: usize = 80;

/// 14 dims x 8 lanes x i16.
pub const BLOCK_BYTES: usize = 224;

/// MCC risk lookup table size (mcc % MCC_TABLE_SIZE selects an i16 risk).
pub const MCC_TABLE_SIZE: usize = 1024;

pub const EARLY_DISTANCE_MILLI: i32 = 140;

/// In i16-quantized space: ((SCALE * 140) / 1000)^2 = 1400^2.
pub const EARLY_DISTANCE_LIMIT: i64 = 1960000;

pub type QueryVector = [i16; PACKED_DIMS];

/// The 64-byte header at the start of an index file.
#[derive(Debug, Clone, Copy)]
pub struct IndexHeader {
    pub magic: [u8; 8],
    pub scale: u32,
    pub dims: u32,
    pub packed_dims: u32,
    pub lanes: u32,
    pub ref_count: u32,
    pub part_count: u32,
    pub node_count: u32,
    pub block_count: u32,
    /// Byte offset of the MCC risk table (MCC_TABLE_SIZE x i16).
    pub mcc_table_offset: u32,
    pub _padding: [u8; 20],
}

// ---------------------------------------------------------------------------
// Quantization helpers: thresholds must match between index build and search.
// ---------------------------------------------------------------------------

/// Rounded integer division `num / den`, halves rounded up.
pub open spec fn div_round(num: int, den: int) -> int {
    (num + den / 2) / den
}

/// Clamp a non-negative quantity to the quantization scale.
pub open spec fn clamp_quant(v: int) -> int {
    if v >= QUANT_SCALE {
        QUANT_SCALE as int
    } else {
        v
    }
}

/// `value / denominator` scaled to `[0, QUANT_SCALE]`.
pub open spec fn uint_div_q(value: int, denominator: int) -> int {
    clamp_quant(div_round(value * QUANT_SCALE, denominator))
}

/// `(value_milli / 1000) / denominator_units` scaled to `[0, QUANT_SCALE]`.
pub open spec fn milli_div_q(value_milli: int, denominator_units: int) -> int {
    clamp_quant(div_round(value_milli * QUANT_SCALE, denominator_units * 1000))
}

/// `amount / avg` scaled to `[0, QUANT_SCALE]`; a zero average gives the scale.
pub open spec fn amount_ratio_q(amount_milli: int, avg_milli: int) -> int {
    if avg_milli == 0 {
        QUANT_SCALE as int
    } else {
        clamp_quant((amount_milli * 1000) / avg_milli)
    }
}

fn clamp_quant_u64(v: u64) -> (r: i16)
    ensures
        r == clamp_quant(v as int),
{
    if v >= QUANT_SCALE as u64 {
        QUANT_SCALE as i16
    } else {
        v as i16
    }
}

fn div_round_u64(num: u64, denom: u64) -> (r: u64)
    requires
        denom > 0,
        num + denom / 2 <= u64::MAX,
    ensures
        r == div_round(num as int, denom as int),
{
    (num + denom / 2) / denom
}

/// Map a non-negative integer in `[0, denominator]` to i16 scaled by QUANT_SCALE.
pub fn quantize_uint_div(value: u32, denominator: u32) -> (r: i16)
    requires
        denominator > 0,
    ensures
        r == uint_div_q(value as int, denominator as int),
        0 <= r <= QUANT_SCALE,
{
    let num = value as u64 * QUANT_SCALE as u64;
    assert(num <= 0xffff_ffffu64 * 10000u64) by (nonlinear_arith)
        requires
            num == value as u64 * 10000u64,
    ;
    clamp_quant_u64(div_round_u64(num, denominator as u64))
}

/// Map a millis value (value * 1000) divided by `denominator_units` to i16.
pub fn quantize_milli_div(value_milli: u32, denominator_units: u32) -> (r: i16)
    requires
        denominator_units > 0,
    ensures
        r == milli_div_q(value_milli as int, denominator_units as int),
        0 <= r <= QUANT_SCALE,
{
    let num = value_milli as u64 * QUANT_SCALE as u64;
    assert(num <= 0xffff_ffffu64 * 10000u64) by (nonlinear_arith)
        requires
            num == value_milli as u64 * 10000u64,
    ;
    let den = denominator_units as u64 * 1000;
    clamp_quant_u64(div_round_u64(num, den))
}

/// `amount / avg`, clamped to `[0, SCALE]`: `(amount_milli * 1000) / avg_milli`.
pub fn quantize_amount_ratio(amount_milli: u32, avg_milli: u32) -> (r: i16)
    ensures
        r == amount_ratio_q(amount_milli as int, avg_milli as int),
        0 <= r <= QUANT_SCALE,
{
    if avg_milli == 0 {
        return QUANT_SCALE as i16;
    }
    let num = amount_milli as u64 * 1000;
    clamp_quant_u64(num / avg_milli as u64)
}

// ---------------------------------------------------------------------------
// Feature input / vectorization
// ---------------------------------------------------------------------------

pub const MAX_AMOUNT_UNITS: u32 = 10_000;

pub const MAX_INSTALLMENTS: u32 = 12;

pub const MAX_HOUR: u32 = 23;

pub const MAX_DOW: u32 = 6;

pub const MAX_MINUTES: u32 = 1440;

pub const MAX_KM_UNITS: u32 = 1000;

pub const MAX_TX_COUNT_24H: u32 = 20;

pub const MAX_MERCHANT_AVG_UNITS: u32 = 10_000;

/// Parsed payload features in raw quantization-ready units. `milli` fields are
/// value x 1000.
#[derive(Debug, Clone, Copy)]
pub struct RawFeatures {
    pub amount_milli: u32,
    pub installments: u32,
    pub hour_of_day: u8,
    pub day_of_week: u8,
    pub minutes_since_last_tx: Option<u32>,
    pub km_from_last_tx_milli: Option<u32>,
    pub km_from_home_milli: u32,
    pub customer_avg_amount_milli: u32,
    pub tx_count_24h: u32,
    pub is_online: bool,
    pub card_present: bool,
    pub unknown_merchant: bool,
    /// Pre-quantized mcc risk in `[0, QUANT_SCALE]`.
    pub mcc_risk_q: i16,
    pub merchant_avg_amount_milli: u32,
}

pub open spec fn flag_q(b: bool) -> int {
    if b {
        QUANT_SCALE as int
    } else {
        0
    }
}

/// Dimension `d` of the feature vector of `r` (dims 14 and 15 are zero padding).
pub open spec fn feature_dim(r: RawFeatures, d: int) -> int {
    if d == 0 {
        milli_div_q(r.amount_milli as int, MAX_AMOUNT_UNITS as int)
    } else if d == 1 {
        uint_div_q(r.installments as int, MAX_INSTALLMENTS as int)
    } else if d == 2 {
        amount_ratio_q(r.amount_milli as int, r.customer_avg_amount_milli as int)
    } else if d == 3 {
        uint_div_q(r.hour_of_day as int, MAX_HOUR as int)
    } else if d == 4 {
        uint_div_q(r.day_of_week as int, MAX_DOW as int)
    } else if d == 5 {
        match r.minutes_since_last_tx {
            Some(m) => uint_div_q(m as int, MAX_MINUTES as int),
            None => -QUANT_SCALE,
        }
    } else if d == 6 {
        match r.km_from_last_tx_milli {
            Some(km) => milli_div_q(km as int, MAX_KM_UNITS as int),
            None => -QUANT_SCALE,
        }
    } else if d == 7 {
        milli_div_q(r.km_from_home_milli as int, MAX_KM_UNITS as int)
    } else if d == 8 {
        uint_div_q(r.tx_count_24h as int, MAX_TX_COUNT_24H as int)
    } else if d == 9 {
        flag_q(r.is_online)
    } else if d == 10 {
        flag_q(r.card_present)
    } else if d == 11 {
        flag_q(r.unknown_merchant)
    } else if d == 12 {
        r.mcc_risk_q as int
    } else if d == 13 {
        milli_div_q(r.merchant_avg_amount_milli as int, MAX_MERCHANT_AVG_UNITS as int)
    } else {
        0
    }
}

/// The flag dimensions of a feature vector: online (9), card present (10)
/// and unknown merchant (11) are the full scale when set and 0 when not;
/// the previous-transaction dimensions (5, 6) are the full negative scale
/// exactly when there is no previous transaction; the ratio, amount, count
/// and distance dimensions stay within `0 ..= QUANT_SCALE`.
pub proof fn lemma_feature_flags(r: RawFeatures)
    ensures
        feature_dim(r, 9) == (if r.is_online { 10000int } else { 0int }),
        feature_dim(r, 10) == (if r.card_present { 10000int } else { 0int }),
        feature_dim(r, 11) == (if r.unknown_merchant { 10000int } else { 0int }),
        r.minutes_since_last_tx is None <==> feature_dim(r, 5) == -10000,
        r.km_from_last_tx_milli is None <==> feature_dim(r, 6) == -10000,
        forall|d: int| 0 <= d <= 4 || 7 <= d <= 8 || d == 13 ==> 0 <= #[trigger] feature_dim(r, d) <= 10000,
{
}

/// Produce a 16-dim i16 vector. Dims 0..14 are real features; 14..16 are 0.
pub fn vectorize(r: &RawFeatures) -> (v: QueryVector)
    ensures
        v@.len() == PACKED_DIMS,
        forall|d: int| 0 <= d < PACKED_DIMS ==> v@[d] == feature_dim(*r, d),
        v@[9] == (if r.is_online { 10000i16 } else { 0i16 }),
        v@[10] == (if r.card_present { 10000i16 } else { 0i16 }),
        v@[11] == (if r.unknown_merchant { 10000i16 } else { 0i16 }),
        v@[12] == r.mcc_risk_q,
        r.minutes_since_last_tx is None <==> v@[5] == -10000,
        r.km_from_last_tx_milli is None <==> v@[6] == -10000,
        v@[14] == 0 && v@[15] == 0,
        forall|d: int| 0 <= d <= 4 || 7 <= d <= 8 || d == 13 ==> 0 <= #[trigger] v@[d] <= 10000,
{
    let d0 = quantize_milli_div(r.amount_milli, MAX_AMOUNT_UNITS);
    let d1 = quantize_uint_div(r.installments, MAX_INSTALLMENTS);
    let d2 = quantize_amount_ratio(r.amount_milli, r.customer_avg_amount_milli);
    let d3 = quantize_uint_div(r.hour_of_day as u32, MAX_HOUR);
    let d4 = quantize_uint_div(r.day_of_week as u32, MAX_DOW);
    let d5 = match r.minutes_since_last_tx {
        Some(m) => quantize_uint_div(m, MAX_MINUTES),
        None => -(QUANT_SCALE as i16),
    };
    let d6 = match r.km_from_last_tx_milli {
        Some(km) => quantize_milli_div(km, MAX_KM_UNITS),
        None => -(QUANT_SCALE as i16),
    };
    let d7 = quantize_milli_div(r.km_from_home_milli, MAX_KM_UNITS);
    let d8 = quantize_uint_div(r.tx_count_24h, MAX_TX_COUNT_24H);
    let d9 = if r.is_online {
        QUANT_SCALE as i16
    } else {
        0
    };
    let d10 = if r.card_present {
        QUANT_SCALE as i16
    } else {
        0
    };
    let d11 = if r.unknown_merchant {
        QUANT_SCALE as i16
    } else {
        0
    };
    let d12 = r.mcc_risk_q;
    let d13 = quantize_milli_div(r.merchant_avg_amount_milli, MAX_MERCHANT_AVG_UNITS);
    let v: QueryVector = [d0, d1, d2, d3, d4, d5, d6, d7, d8, d9, d10, d11, d12, d13, 0, 0];
    assert forall|d: int| 0 <= d < PACKED_DIMS implies v@[d] == feature_dim(*r, d) by {
        if d == 0 {
        } else if d == 1 {
        } else if d == 2 {
        } else if d == 3 {
        } else if d == 4 {
        } else if d == 5 {
        } else if d == 6 {
        } else if d == 7 {
        } else if d == 8 {
        } else if d == 9 {
        } else if d == 10 {
        } else if d == 11 {
        } else if d == 12 {
        } else if d == 13 {
        } else {
        }
    }
    v
}

// ---------------------------------------------------------------------------
// Partitioning + lower-bound distance for KD-tree pruning
// ---------------------------------------------------------------------------

pub open spec fn bit_if(c: bool, w: int) -> int {
    if c {
        w
    } else {
        0
    }
}

/// Bucket of the quantized mcc risk: four ranges of width 2048.
pub open spec fn risk_bucket(mr: int) -> int {
    if mr <= 2047 {
        0
    } else if mr <= 4095 {
        1
    } else if mr <= 6143 {
        2
    } else {
        3
    }
}

/// Partition key of a query vector: bit 0 = last transaction present
/// (`v[5] >= 0`), bits 1..3 = online / card present / unknown merchant,
/// bits 4..5 = mcc risk bucket, bit 6 = amount ratio above 4096,
/// bit 7 = 24h count above 2048.
pub open spec fn key_of(v: Seq<i16>) -> int {
    bit_if(v[5] >= 0, 1) + bit_if(v[9] > 0, 2) + bit_if(v[10] > 0, 4) + bit_if(v[11] > 0, 8)
        + risk_bucket(v[12] as int) * 16 + bit_if(v[2] > 4096, 64) + bit_if(v[8] > 2048, 128)
}

/// Build a discrete partition key from query features.
pub fn partition_key(v: &QueryVector) -> (key: u32)
    ensures
        key == key_of(v@),
        key < 256,
{
    let mut key: u32 = 0;
    if v[5] >= 0 {
        key = key + 1;
    }
    if v[9] > 0 {
        key = key + 2;
    }
    if v[10] > 0 {
        key = key + 4;
    }
    if v[11] > 0 {
        key = key + 8;
    }
    let mr = v[12];
    if mr <= 2047 {
    } else if mr <= 4095 {
        key = key + 16;
    } else if mr <= 6143 {
        key = key + 32;
    } else {
        key = key + 48;
    }
    if v[2] > 4096 {
        key = key + 64;
    }
    if v[8] > 2048 {
        key = key + 128;
    }
    key
}

/// Squared distance from `q` to the interval `[lo, hi]`.
pub open spec fn lb_dim(q: int, lo: int, hi: int) -> int {
    if q < lo {
        (lo - q) * (lo - q)
    } else if q > hi {
        (q - hi) * (q - hi)
    } else {
        0
    }
}

/// Sum of the per-dimension lower bounds over dims `0..n`.
pub open spec fn lb_sum(q: Seq<i16>, lo: Seq<i16>, hi: Seq<i16>, n: int) -> int
    decreases n,
{
    if n <= 0 {
        0
    } else {
        lb_sum(q, lo, hi, n - 1) + lb_dim(q[n - 1] as int, lo[n - 1] as int, hi[n - 1] as int)
    }
}

/// Squared euclidean distance over dims `0..n`.
pub open spec fn sq_dist(a: Seq<i16>, b: Seq<i16>, n: int) -> int
    decreases n,
{
    if n <= 0 {
        0
    } else {
        sq_dist(a, b, n - 1) + (a[n - 1] - b[n - 1]) * (a[n - 1] - b[n - 1])
    }
}

/// `p` lies in the axis-aligned box `[lo, hi]` on the real dims.
pub open spec fn in_box(p: Seq<i16>, lo: Seq<i16>, hi: Seq<i16>) -> bool {
    forall|d: int| 0 <= d < VECTOR_DIM ==> lo[d] <= #[trigger] p[d] <= hi[d]
}

fn lower_bound_dim(q: i16, lo: i16, hi: i16) -> (r: i64)
    ensures
        r == lb_dim(q as int, lo as int, hi as int),
        0 <= r <= 65535 * 65535,
{
    let diff: i64 = if q < lo {
        lo as i64 - q as i64
    } else if q > hi {
        q as i64 - hi as i64
    } else {
        0
    };
    assert(0 <= diff * diff <= 65535 * 65535) by (nonlinear_arith)
        requires
            0 <= diff <= 65535,
    ;
    diff * diff
}

proof fn lemma_lb_sum_bounds(q: Seq<i16>, lo: Seq<i16>, hi: Seq<i16>, n: int)
    requires
        0 <= n,
    ensures
        0 <= lb_sum(q, lo, hi, n) <= n * (65535 * 65535),
    decreases n,
{
    if n > 0 {
        lemma_lb_sum_bounds(q, lo, hi, n - 1);
        assert((n - 1) * (65535 * 65535) + 65535 * 65535 == n * (65535 * 65535)) by (nonlinear_arith);
        let a = q[n - 1] as int;
        let l = lo[n - 1] as int;
        let h = hi[n - 1] as int;
        assert(0 <= lb_dim(a, l, h) <= 65535 * 65535) by (nonlinear_arith)
            requires
                -32768 <= a <= 32767,
                -32768 <= l <= 32767,
                -32768 <= h <= 32767,
        ;
    }
}

/// Partial sums of the lower bound never decrease.
pub proof fn lemma_lb_sum_monotone(q: Seq<i16>, lo: Seq<i16>, hi: Seq<i16>, i: int, j: int)
    requires
        0 <= i <= j,
    ensures
        lb_sum(q, lo, hi, i) <= lb_sum(q, lo, hi, j),
    decreases j - i,
{
    if i < j {
        lemma_lb_sum_monotone(q, lo, hi, i, j - 1);
        let a = q[j - 1] as int;
        let l = lo[j - 1] as int;
        let h = hi[j - 1] as int;
        assert(lb_dim(a, l, h) >= 0) by (nonlinear_arith);
    }
}

/// Like `lower_bound_vec`, but stops once the partial sum reaches `cutoff`:
/// the result is the first partial sum (over dims `0..k`) that reaches
/// `cutoff`, or the full sum when none does.
pub fn lower_bound_vec_cutoff(
    q: &QueryVector,
    min: &QueryVector,
    max: &QueryVector,
    cutoff: i64,
) -> (r: i64)
    ensures
        exists|k: int|
            1 <= k <= VECTOR_DIM && r == lb_sum(q@, min@, max@, k) && (k < VECTOR_DIM ==> r
                >= cutoff) && (forall|j: int|
                1 <= j < k ==> #[trigger] lb_sum(q@, min@, max@, j) < cutoff),
        r <= lb_sum(q@, min@, max@, VECTOR_DIM as int),
        (r < cutoff) == (lb_sum(q@, min@, max@, VECTOR_DIM as int) < cutoff),
        r < cutoff ==> r == lb_sum(q@, min@, max@, VECTOR_DIM as int),
{
    let mut acc: i64 = 0;
    let mut d: usize = 0;
    while d < VECTOR_DIM
        invariant
            0 <= d <= VECTOR_DIM,
            acc == lb_sum(q@, min@, max@, d as int),
            forall|j: int| 1 <= j <= d ==> #[trigger] lb_sum(q@, min@, max@, j) < cutoff,
        decreases VECTOR_DIM - d,
    {
        proof {
            lemma_lb_sum_bounds(q@, min@, max@, d as int);
            assert((d as int) * (65535 * 65535) <= 13 * (65535 * 65535)) by (nonlinear_arith)
                requires
                    d < 14,
            ;
        }
        acc = acc + lower_bound_dim(q[d], min[d], max[d]);
        d = d + 1;
        if acc >= cutoff {
            proof {
                lemma_lb_sum_monotone(q@, min@, max@, d as int, VECTOR_DIM as int);
            }
            return acc;
        }
    }
    acc
}

/// Sum of per-dim lower-bound contributions: a lower bound on squared L2 to
/// any vector inside the axis-aligned box `[min, max]`.
pub fn lower_bound_vec(q: &QueryVector, min: &QueryVector, max: &QueryVector) -> (r: i64)
    ensures
        r == lb_sum(q@, min@, max@, VECTOR_DIM as int),
        r >= 0,
{
    let mut acc: i64 = 0;
    let mut d: usize = 0;
    while d < VECTOR_DIM
        invariant
            0 <= d <= VECTOR_DIM,
            acc == lb_sum(q@, min@, max@, d as int),
        decreases VECTOR_DIM - d,
    {
        proof {
            lemma_lb_sum_bounds(q@, min@, max@, d as int);
            assert((d as int) * (65535 * 65535) <= 13 * (65535 * 65535)) by (nonlinear_arith)
                requires
                    d < 14,
            ;
        }
        acc = acc + lower_bound_dim(q[d], min[d], max[d]);
        d = d + 1;
    }
    proof {
        lemma_lb_sum_bounds(q@, min@, max@, VECTOR_DIM as int);
    }
    acc
}

/// The box lower bound never exceeds the true squared distance from `q` to a
/// point `p` of the box: pruning a subtree whose bound reaches the current
/// k-th best distance never drops a closer neighbor.
pub proof fn lemma_lower_bound_sound(q: Seq<i16>, lo: Seq<i16>, hi: Seq<i16>, p: Seq<i16>, n: int)
    requires
        0 <= n <= VECTOR_DIM,
        in_box(p, lo, hi),
    ensures
        lb_sum(q, lo, hi, n) <= sq_dist(q, p, n),
    decreases n,
{
    if n > 0 {
        lemma_lower_bound_sound(q, lo, hi, p, n - 1);
        let a = q[n - 1] as int;
        let l = lo[n - 1] as int;
        let h = hi[n - 1] as int;
        let x = p[n - 1] as int;
        assert(l <= x <= h);
        assert(lb_dim(a, l, h) <= (a - x) * (a - x)) by (nonlinear_arith)
            requires
                l <= x <= h,
        ;
    }
}

/// A query inside the box has lower bound zero.
pub proof fn lemma_lower_bound_inside(q: Seq<i16>, lo: Seq<i16>, hi: Seq<i16>, n: int)
    requires
        0 <= n <= VECTOR_DIM,
        in_box(q, lo, hi),
    ensures
        lb_sum(q, lo, hi, n) == 0,
    decreases n,
{
    if n > 0 {
        lemma_lower_bound_inside(q, lo, hi, n - 1);
        assert(lo[n - 1] <= q[n - 1] <= hi[n - 1]);
    }
}

} // verus!
