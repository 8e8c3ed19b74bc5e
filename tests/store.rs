use yavs::rank::distance_key;
use yavs::{YAVSError, YAVS};

fn bits(v: &[f32]) -> Vec<u32> {
    v.iter().map(|x| x.to_bits()).collect()
}

fn euclidean(a: &[u32], b: &[u32]) -> f32 {
    a.iter()
        .zip(b.iter())
        .map(|(x, y)| {
            let d = f32::from_bits(*x) - f32::from_bits(*y);
            d * d
        })
        .sum::<f32>()
        .sqrt()
}

fn distances(store: &YAVS, q: &[u32]) -> Vec<u32> {
    store.records().iter().map(|r| euclidean(&r.embedding, q).to_bits()).collect()
}

fn run_query(store: &YAVS, q: &[f32], k: usize) -> Result<Vec<([u8; 16], f32)>, YAVSError> {
    let qb = bits(q);
    let d = distances(store, &qb);
    store
        .query(&qb, &d, k)
        .map(|v| v.into_iter().map(|(id, b)| (id, f32::from_bits(b))).collect())
}

#[test]
fn new_store_is_empty() {
    let s = YAVS::new(7);
    assert_eq!(s.dimension(), 7);
    assert_eq!(s.len(), 0);
}

#[test]
fn insert_rejects_wrong_dimension() {
    let mut s = YAVS::new(3);
    s.insert(&bits(&[1.0, 2.0, 3.0]), b"a").unwrap();
    let r = s.insert(&bits(&[1.0, 2.0]), b"b");
    assert!(matches!(r, Err(YAVSError::DimMismatch)));
    let r = s.insert(&bits(&[1.0, 2.0, 3.0, 4.0]), b"c");
    assert!(matches!(r, Err(YAVSError::DimMismatch)));
    assert_eq!(s.len(), 1);
}

#[test]
fn insert_with_id_appends_exact_record() {
    let mut s = YAVS::new(2);
    let id = [9u8; 16];
    let r = s.insert_with_id(&bits(&[0.5, -1.5]), b"meta", id).unwrap();
    assert_eq!(r, id);
    let rec = &s.records()[0];
    assert_eq!(rec.id, id);
    assert_eq!(rec.embedding, bits(&[0.5, -1.5]));
    assert_eq!(rec.metadata, b"meta".to_vec());
    assert!(!rec.deleted);
}

#[test]
fn generated_ids_are_version_four() {
    let mut s = YAVS::new(1);
    let id = s.insert(&bits(&[1.0]), b"").unwrap();
    assert_eq!(id[6] >> 4, 4);
    assert_eq!(id[8] >> 6, 2);
    assert_ne!(id, [0u8; 16]);
}

#[test]
fn generated_ids_are_distinct() {
    let mut s = YAVS::new(1);
    let mut ids = Vec::new();
    for i in 0..2000 {
        ids.push(s.insert(&bits(&[i as f32]), b"").unwrap());
    }
    ids.sort();
    ids.dedup();
    assert_eq!(ids.len(), 2000);
}

#[test]
fn round_trip_through_memory() {
    let mut s = YAVS::new(3);
    s.insert(&bits(&[1.0, 2.0, 3.0]), b"first").unwrap();
    s.insert(&bits(&[-4.0, 0.25, 1e9]), b"").unwrap();
    s.insert(&bits(&[0.0, -0.0, f32::INFINITY]), &[0u8, 255, 7]).unwrap();
    let bytes = s.save_mem().unwrap();
    let t = YAVS::load_mem(&bytes).unwrap();
    assert_eq!(t.dimension(), 3);
    assert_eq!(t.len(), 3);
    for (a, b) in s.records().iter().zip(t.records().iter()) {
        assert_eq!(a.id, b.id);
        assert_eq!(a.embedding, b.embedding);
        assert_eq!(a.metadata, b.metadata);
        assert!(!b.deleted);
    }
    let mut t = t;
    assert_eq!(t.save_mem().unwrap(), bytes);
}

#[test]
fn encoding_is_exact() {
    let mut s = YAVS::new(1);
    let id = [1u8, 2, 3, 4, 5, 6, 7, 8, 9, 10, 11, 12, 13, 14, 15, 16];
    s.insert_with_id(&[0x3f80_0000], &[0xaa, 0xbb], id).unwrap();
    let bytes = s.save_mem().unwrap();
    let mut expected = Vec::new();
    expected.extend_from_slice(b"YAVS");
    expected.extend_from_slice(&[1, 0, 0, 0]);
    expected.extend_from_slice(&[1, 0, 0, 0, 0, 0, 0, 0]);
    expected.extend_from_slice(&[1, 0, 0, 0]);
    expected.extend_from_slice(&[0u8; 16]);
    expected.extend_from_slice(&id);
    expected.extend_from_slice(&[0x00, 0x00, 0x80, 0x3f]);
    expected.extend_from_slice(&[2, 0, 0, 0]);
    expected.extend_from_slice(&[0xaa, 0xbb]);
    assert_eq!(bytes, expected);
}

#[test]
fn empty_store_encodes_to_header() {
    let mut s = YAVS::new(5);
    let bytes = s.save_mem().unwrap();
    assert_eq!(bytes.len(), 36);
    assert_eq!(&bytes[16..20], &[5, 0, 0, 0]);
    let t = YAVS::load_mem(&bytes).unwrap();
    assert_eq!(t.dimension(), 5);
    assert_eq!(t.len(), 0);
}

#[test]
fn save_compacts_first() {
    let mut s = YAVS::new(2);
    let a = s.insert(&bits(&[0.0, 0.0]), b"a").unwrap();
    s.insert(&bits(&[1.0, 1.0]), b"b").unwrap();
    s.insert(&bits(&[2.0, 2.0]), b"c").unwrap();
    assert!(s.remove(&a));
    assert_eq!(s.len(), 3);
    let bytes = s.save_mem().unwrap();
    assert_eq!(s.len(), 2);
    assert_eq!(u64::from_le_bytes(bytes[8..16].try_into().unwrap()), 2);
    let t = YAVS::load_mem(&bytes).unwrap();
    assert_eq!(t.len(), 2);
    assert!(t.records().iter().all(|r| !r.deleted && r.id != a));
}

#[test]
fn compact_twice_equals_once() {
    let mut s = YAVS::new(1);
    let a = s.insert(&bits(&[1.0]), b"a").unwrap();
    let b = s.insert(&bits(&[2.0]), b"b").unwrap();
    let c = s.insert(&bits(&[3.0]), b"c").unwrap();
    s.remove(&b);
    s.compact();
    let once: Vec<[u8; 16]> = s.records().iter().map(|r| r.id).collect();
    s.compact();
    let twice: Vec<[u8; 16]> = s.records().iter().map(|r| r.id).collect();
    assert_eq!(once, vec![a, c]);
    assert_eq!(once, twice);
}

#[test]
fn compact_without_tombstones_keeps_everything() {
    let mut s = YAVS::new(1);
    s.insert(&bits(&[1.0]), b"a").unwrap();
    s.insert(&bits(&[2.0]), b"b").unwrap();
    s.compact();
    assert_eq!(s.len(), 2);
}

#[test]
fn remove_unknown_id_is_noop() {
    let mut s = YAVS::new(1);
    s.insert(&bits(&[1.0]), b"a").unwrap();
    assert!(!s.remove(&[0u8; 16]));
    assert_eq!(s.len(), 1);
    assert!(!s.records()[0].deleted);
}

#[test]
fn removed_record_never_returned() {
    let mut s = YAVS::new(2);
    let a = s.insert(&bits(&[0.0, 0.0]), b"").unwrap();
    let b = s.insert(&bits(&[1.0, 0.0]), b"").unwrap();
    assert!(s.remove(&a));
    assert_eq!(s.len(), 2);
    let r = run_query(&s, &[0.0, 0.0], 10).unwrap();
    assert_eq!(r.len(), 1);
    assert_eq!(r[0].0, b);
}

#[test]
fn query_nearest_two() {
    let mut s = YAVS::new(2);
    let a = s.insert(&bits(&[0.0, 0.0]), b"").unwrap();
    let _b = s.insert(&bits(&[3.0, 4.0]), b"").unwrap();
    let c = s.insert(&bits(&[1.0, 1.0]), b"").unwrap();
    let r = run_query(&s, &[0.0, 0.0], 2).unwrap();
    assert_eq!(r.len(), 2);
    assert_eq!(r[0].0, a);
    assert_eq!(r[0].1, 0.0);
    assert_eq!(r[1].0, c);
    assert_eq!(r[1].1, 2f32.sqrt());
}

#[test]
fn query_truncation() {
    let mut s = YAVS::new(2);
    let a = s.insert(&bits(&[0.0, 0.0]), b"").unwrap();
    let b = s.insert(&bits(&[3.0, 4.0]), b"").unwrap();
    let c = s.insert(&bits(&[1.0, 1.0]), b"").unwrap();
    let r = run_query(&s, &[0.0, 0.0], 10).unwrap();
    let ids: Vec<[u8; 16]> = r.iter().map(|e| e.0).collect();
    assert_eq!(ids, vec![a, c, b]);
    assert_eq!(r[2].1, 5.0);
    let r = run_query(&s, &[0.0, 0.0], 0).unwrap();
    assert!(r.is_empty());
}

#[test]
fn query_ties_keep_insertion_order() {
    let mut s = YAVS::new(1);
    let a = s.insert(&bits(&[1.0]), b"").unwrap();
    let b = s.insert(&bits(&[-1.0]), b"").unwrap();
    let c = s.insert(&bits(&[1.0]), b"").unwrap();
    let r = run_query(&s, &[0.0], 3).unwrap();
    let ids: Vec<[u8; 16]> = r.iter().map(|e| e.0).collect();
    assert_eq!(ids, vec![a, b, c]);
}

#[test]
fn query_rejects_wrong_dimension() {
    let mut s = YAVS::new(2);
    s.insert(&bits(&[0.0, 0.0]), b"").unwrap();
    let r = run_query(&s, &[0.0], 1);
    assert!(matches!(r, Err(YAVSError::DimMismatch)));
}

#[test]
fn zero_dimension_store() {
    let mut s = YAVS::new(0);
    s.insert(&[], b"x").unwrap();
    s.insert(&[], b"y").unwrap();
    let r = run_query(&s, &[], 5).unwrap();
    assert_eq!(r.len(), 2);
    assert!(r.iter().all(|e| e.1 == 0.0));
    let bytes = s.save_mem().unwrap();
    let t = YAVS::load_mem(&bytes).unwrap();
    assert_eq!(t.len(), 2);
    assert_eq!(t.records()[1].metadata, b"y".to_vec());
}

#[test]
fn distance_key_orders_like_floats() {
    let vals = [-1.0f32, -0.0, 0.0, 1e-30, 1.0, 2.0, 1e30, f32::INFINITY];
    for w in vals.windows(2) {
        assert!(distance_key(w[0].to_bits()) < distance_key(w[1].to_bits()));
    }
    assert!(distance_key(f32::INFINITY.to_bits()) < distance_key(f32::NAN.to_bits()));
}

#[test]
fn bad_magic_is_invalid_file() {
    let mut s = YAVS::new(1);
    let mut bytes = s.save_mem().unwrap();
    bytes[0..4].copy_from_slice(b"ABCD");
    assert!(matches!(YAVS::load_mem(&bytes), Err(YAVSError::InvalidFile)));
    assert!(matches!(YAVS::load_mem(b"YAVX"), Err(YAVSError::InvalidFile)));
}

#[test]
fn version_two_is_mismatch() {
    let mut s = YAVS::new(1);
    let mut bytes = s.save_mem().unwrap();
    bytes[4..8].copy_from_slice(&2u32.to_le_bytes());
    assert!(matches!(YAVS::load_mem(&bytes), Err(YAVSError::VersionMismatch)));
}

#[test]
fn short_streams_are_io_errors() {
    assert!(matches!(YAVS::load_mem(b"YA"), Err(YAVSError::IoError(_))));
    assert!(matches!(YAVS::load_mem(b"YAVS\x01\x00"), Err(YAVSError::IoError(_))));
    let mut s = YAVS::new(2);
    s.insert(&bits(&[1.0, 2.0]), b"abc").unwrap();
    let bytes = s.save_mem().unwrap();
    for cut in [20usize, 36, 40, bytes.len() - 1] {
        assert!(matches!(YAVS::load_mem(&bytes[..cut]), Err(YAVSError::IoError(_))));
    }
}

#[test]
fn trailing_bytes_are_ignored() {
    let mut s = YAVS::new(1);
    s.insert(&bits(&[1.0]), b"m").unwrap();
    let mut bytes = s.save_mem().unwrap();
    bytes.extend_from_slice(&[1, 2, 3]);
    let t = YAVS::load_mem(&bytes).unwrap();
    assert_eq!(t.len(), 1);
}

#[test]
fn reserved_block_is_skipped() {
    let mut s = YAVS::new(1);
    s.insert(&bits(&[1.0]), b"m").unwrap();
    let mut bytes = s.save_mem().unwrap();
    for b in &mut bytes[20..36] {
        *b = 0xee;
    }
    let t = YAVS::load_mem(&bytes).unwrap();
    assert_eq!(t.len(), 1);
}
