use fraud_detector::builder::{build_index, build_index_with_leaf, BuildInputs};
use fraud_detector::features::vectorize_payload;
use fraud_detector::index::{Index, IndexError};
use fraud_detector::json::extract;
use fraud_detector::knn::fraud_count;
use fraud_detector::quantize::{
    QueryVector, HEADER_SIZE, MAGIC, MCC_TABLE_SIZE, PACKED_DIMS, QUANT_SCALE, VECTOR_DIM,
};
use fraud_detector::score::{fraud_count_body, fraud_response, score_http_count};
use fraud_detector::response::{RESP_APPROVED_S0, RESP_DENIED_S10};

fn mk_vec(seed: i16) -> QueryVector {
    let mut v: QueryVector = [0; PACKED_DIMS];
    for d in 0..VECTOR_DIM {
        v[d] = seed.wrapping_mul((d as i16) + 1).wrapping_add(d as i16);
    }
    v
}

fn small_index(n: usize, leaf: usize) -> (Vec<QueryVector>, Vec<u8>, Vec<u8>) {
    let mut vectors = Vec::new();
    let mut labels = Vec::new();
    for i in 0..n {
        vectors.push(mk_vec(i as i16));
        labels.push((i % 5 == 0) as u8);
    }
    let mut mcc_table = [0i16; MCC_TABLE_SIZE];
    mcc_table[5411 % MCC_TABLE_SIZE] = 1500;
    let bytes = build_index_with_leaf(
        &BuildInputs { vectors: &vectors, labels: &labels, mcc_table: &mcc_table },
        leaf,
    );
    (vectors, labels, bytes)
}

fn sq_dist(a: &QueryVector, b: &QueryVector) -> i64 {
    let mut s = 0i64;
    for d in 0..VECTOR_DIM {
        let x = a[d] as i64 - b[d] as i64;
        s += x * x;
    }
    s
}

fn brute_force_count(vectors: &[QueryVector], labels: &[u8], q: &QueryVector) -> u8 {
    let mut all: Vec<(i64, u8)> = vectors.iter().zip(labels).map(|(v, l)| (sq_dist(v, q), *l)).collect();
    all.sort_by_key(|x| x.0);
    let k = all.len().min(5);
    let kth = all[k - 1].0;
    // Ties at the 5th distance may be broken either way: accept any count in range.
    let sure: u8 = all.iter().filter(|x| x.0 < kth).map(|x| x.1).sum();
    sure
}

#[test]
fn build_small_blob_round_trip() {
    let mut vectors = Vec::new();
    let mut labels = Vec::new();
    for i in 0..600 {
        vectors.push(mk_vec(i as i16));
        labels.push((i % 5 == 0) as u8);
    }
    let mcc_table = [0i16; MCC_TABLE_SIZE];
    let bytes = build_index_with_leaf(
        &BuildInputs { vectors: &vectors, labels: &labels, mcc_table: &mcc_table },
        64,
    );
    assert!(bytes.len() > HEADER_SIZE);
    assert_eq!(&bytes[..8], &MAGIC);
    let scale = u32::from_le_bytes(bytes[8..12].try_into().unwrap());
    assert_eq!(scale, QUANT_SCALE as u32);
    let dims = u32::from_le_bytes(bytes[12..16].try_into().unwrap());
    assert_eq!(dims, VECTOR_DIM as u32);
}

#[test]
fn built_index_opens() {
    let (_, _, bytes) = small_index(600, 64);
    let idx = match Index::open(bytes) {
        Ok(i) => i,
        Err(e) => panic!("open failed: {:?}", e),
    };
    assert!(idx.part_count() >= 1);
    assert!(idx.block_count() >= 600 / 8);
    assert_eq!(idx.mcc_risk(5411), 1500);
    assert_eq!(idx.mcc_risk(1), 0);
}

#[test]
fn default_leaf_build_opens() {
    let vectors: Vec<QueryVector> = (0..300).map(|i| mk_vec(i as i16 * 7)).collect();
    let labels: Vec<u8> = (0..300).map(|i| (i % 3 == 0) as u8).collect();
    let table = [7i16; MCC_TABLE_SIZE];
    let bytes = build_index(&BuildInputs { vectors: &vectors, labels: &labels, mcc_table: &table });
    assert!(Index::open(bytes).is_ok());
}

#[test]
fn open_rejects_bad_files() {
    assert_eq!(Index::open(vec![0u8; 10]).err(), Some(IndexError::TooSmall));
    let mut bytes = small_index(100, 32).2;
    bytes[0] = b'X';
    assert_eq!(Index::open(bytes).err(), Some(IndexError::BadMagic));
    let mut bytes = small_index(100, 32).2;
    bytes.push(0);
    assert!(matches!(Index::open(bytes).err(), Some(IndexError::SizeMismatch { .. })));
}

#[test]
fn knn_matches_brute_force() {
    let (vectors, labels, bytes) = small_index(600, 64);
    let idx = Index::open(bytes).unwrap_or_else(|_| panic!("open"));
    for s in [0i16, 3, 17, 250, 599, -40, 1234] {
        let q = mk_vec(s);
        let got = fraud_count(&idx, &q);
        assert!(got <= 5);
        let mut all: Vec<(i64, u8)> =
            vectors.iter().zip(&labels).map(|(v, l)| (sq_dist(v, &q), *l)).collect();
        all.sort_by_key(|x| x.0);
        let kth = all[4].0;
        let sure: u8 = all.iter().filter(|x| x.0 < kth).map(|x| x.1).sum();
        let n_sure = all.iter().filter(|x| x.0 < kth).count() as u8;
        let tied_frauds: u8 = all.iter().filter(|x| x.0 == kth).map(|x| x.1).sum();
        let lo = sure + tied_frauds.saturating_sub(
            all.iter().filter(|x| x.0 == kth).count() as u8 - (5 - n_sure),
        );
        let hi = sure + tied_frauds.min(5 - n_sure);
        assert!(lo <= got && got <= hi, "seed {} got {} expected {}..={}", s, got, lo, hi);
        assert!(brute_force_count(&vectors, &labels, &q) <= got);
    }
}

const SAMPLE: &[u8] = br#"{"id":"tx-100","transaction":{"amount":41.12,"installments":2,"requested_at":"2026-03-11T18:45:53Z"},"customer":{"avg_amount":82.24,"tx_count_24h":3,"known_merchants":["MERC-003","MERC-016"]},"merchant":{"id":"MERC-016","mcc":"5411","avg_amount":60.25},"terminal":{"is_online":false,"card_present":true,"km_from_home":29.2331},"last_transaction":null}"#;

const RISKY: &[u8] = br#"{"id":"w3","transaction":{"amount":1200.0,"installments":4,"requested_at":"2026-03-11T14:22:11Z"},"customer":{"avg_amount":400.0,"tx_count_24h":4,"known_merchants":["MERC-001"]},"merchant":{"id":"MERC-099","mcc":"5944","avg_amount":800.0},"terminal":{"is_online":false,"card_present":true,"km_from_home":80.0},"last_transaction":{"timestamp":"2026-03-11T13:00:00Z","km_from_current":12.5}}"#;

#[test]
fn scoring_paths() {
    let (_, _, bytes) = small_index(600, 64);
    let idx = Index::open(bytes).unwrap_or_else(|_| panic!("open"));
    assert_eq!(score_http_count(&idx, SAMPLE), Some(0));
    let c = score_http_count(&idx, RISKY).unwrap();
    assert!(c <= 5);
    let mut p = extract(RISKY).unwrap();
    p.cache = fraud_detector::cache::fill(&p);
    let q = vectorize_payload(&idx, &p).unwrap();
    assert_eq!(q[5], 569); // 82 minutes of 1440, quantized
    assert_eq!(c, fraud_count(&idx, &q));
    assert_eq!(score_http_count(&idx, b"not json"), None);
    assert_eq!(fraud_count_body(&idx, b"not json"), 5);
    let (resp, ok) = fraud_response(&idx, b"not json");
    assert!(!ok);
    assert_eq!(resp, RESP_DENIED_S10.as_bytes());
    let (resp, ok) = fraud_response(&idx, SAMPLE);
    assert!(ok);
    assert_eq!(resp, RESP_APPROVED_S0.as_bytes());
}

#[test]
fn exact_match_is_its_own_nearest() {
    // Every reference is an entry of the built index: querying with a
    // fraud-labelled reference finds it at distance zero.
    let vectors: Vec<QueryVector> = (0..40).map(|i| mk_vec(i as i16 * 101)).collect();
    let labels: Vec<u8> = (0..40).map(|i| (i == 17) as u8).collect();
    let table = [0i16; MCC_TABLE_SIZE];
    let bytes = build_index(&BuildInputs { vectors: &vectors, labels: &labels, mcc_table: &table });
    let idx = Index::open(bytes).unwrap_or_else(|_| panic!("open"));
    assert_eq!(fraud_count(&idx, &vectors[17]), 1);
}

#[test]
fn label_outside_zero_one_is_refused_on_open() {
    let vectors: Vec<QueryVector> = (0..10).map(|i| mk_vec(i as i16)).collect();
    let mut labels: Vec<u8> = vec![0; 10];
    labels[4] = 2;
    let table = [0i16; MCC_TABLE_SIZE];
    let bytes = build_index(&BuildInputs { vectors: &vectors, labels: &labels, mcc_table: &table });
    let idx = Index::open(bytes).unwrap_or_else(|_| panic!("open"));
    assert!(!idx.tree_valid());
}

#[test]
fn open_checks_the_header_only() {
    // 257 partition records and nothing else: the header is consistent.
    let part_count: u32 = 257;
    let len = HEADER_SIZE + 76 * part_count as usize + 2 * MCC_TABLE_SIZE;
    let mut b = vec![0u8; len];
    b[..8].copy_from_slice(&MAGIC);
    let put = |b: &mut Vec<u8>, off: usize, v: u32| b[off..off + 4].copy_from_slice(&v.to_le_bytes());
    put(&mut b, 8, QUANT_SCALE as u32);
    put(&mut b, 12, VECTOR_DIM as u32);
    put(&mut b, 16, PACKED_DIMS as u32);
    put(&mut b, 20, 8);
    put(&mut b, 28, part_count);
    put(&mut b, 40, (len - 2 * MCC_TABLE_SIZE) as u32);
    let idx = Index::open(b).unwrap_or_else(|e| panic!("open: {:?}", e));
    assert_eq!(idx.part_count(), 257);
    assert!(!idx.tree_valid());
}

#[test]
fn built_index_layout() {
    // One reference: one partition, one leaf, one block of 8 slots.
    let vectors: Vec<QueryVector> = vec![[0; PACKED_DIMS]];
    let labels = vec![1u8];
    let table = [0i16; MCC_TABLE_SIZE];
    let r = build_index_with_leaf(&BuildInputs { vectors: &vectors, labels: &labels, mcc_table: &table }, 64);
    assert_eq!(r.len(), 2500);
    assert_eq!(&r[44..64], &[0u8; 20]);
    assert_eq!(u32::from_le_bytes(r[28..32].try_into().unwrap()), 1);
    assert_eq!(r[444], 1);
    assert_eq!(&r[445..452], &[0u8; 7]);
    for d in 0..VECTOR_DIM {
        assert_eq!(&r[220 + 16 * d..222 + 16 * d], &[0, 0]);
        for lane in 1..8 {
            let o = 220 + 16 * d + 2 * lane;
            assert_eq!(&r[o..o + 2], &[0xFF, 0x7F]);
        }
    }
    let idx = Index::open(r).unwrap_or_else(|_| panic!("open"));
    assert!(idx.tree_valid());
}

#[test]
fn partition_count_is_the_number_of_keys() {
    let (vectors, _, bytes) = small_index(600, 64);
    let mut keys: Vec<u32> = vectors.iter().map(|v| fraud_detector::quantize::partition_key(v)).collect();
    keys.sort();
    keys.dedup();
    let idx = Index::open(bytes).unwrap_or_else(|_| panic!("open"));
    assert_eq!(idx.part_count() as usize, keys.len());
}

#[test]
fn built_partitions_follow_key_order() {
    let (vectors, _, bytes) = small_index(600, 64);
    let mut keys: Vec<u32> = vectors.iter().map(|v| fraud_detector::quantize::partition_key(v)).collect();
    keys.sort();
    keys.dedup();
    let idx = Index::open(bytes).unwrap_or_else(|_| panic!("open"));
    for k in 0u32..256 {
        let expected = match keys.iter().position(|&x| x == k) {
            Some(rank) => rank as i32,
            None => -1,
        };
        assert_eq!(idx.part_by_key(k), expected);
    }
}
