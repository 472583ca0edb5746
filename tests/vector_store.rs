use std::path::PathBuf;

use backend::error::StoreError;
use backend::score::order_key;
use backend::vector_store::{VectorStore, DEFAULT_DIM, DEFAULT_SCALE};

fn quantize(v: &[f32], scale: u8) -> Vec<i8> {
    let norm: f32 = v.iter().map(|x| x * x).sum::<f32>().sqrt();
    let norm = if norm == 0.0 { 1.0 } else { norm };
    v.iter()
        .map(|x| ((x / norm).clamp(-1.0, 1.0) * scale as f32).round() as i8)
        .collect()
}

fn scores(store: &VectorStore, log: &[u8], query: &[f32]) -> Vec<f32> {
    store
        .read_all(&log.to_vec())
        .iter()
        .map(|rec| {
            query
                .iter()
                .zip(rec.iter())
                .map(|(a, &c)| a * (c as f32 / store.scale() as f32))
                .sum()
        })
        .collect()
}

fn search(store: &VectorStore, log: &[u8], query: &[f32], k: usize) -> Result<Vec<(usize, f32)>, StoreError> {
    let s = scores(store, log, query);
    let keys: Vec<Option<u32>> = s.iter().map(|x| order_key(x.to_bits())).collect();
    let ranked = store.rank(query.len(), &keys, k)?;
    Ok(ranked.into_iter().map(|(i, _)| (i, s[i])).collect())
}

fn store_of(dim: usize) -> VectorStore {
    VectorStore::new(PathBuf::from("reviews.vectors"), dim, DEFAULT_SCALE)
}

#[test]
fn concrete_scenario_three_axes() {
    let store = store_of(4);
    let mut log: Vec<u8> = Vec::new();
    for v in [[1.0f32, 0.0, 0.0, 0.0], [0.0, 1.0, 0.0, 0.0], [0.0, 0.0, 1.0, 0.0]] {
        store.append_record(&mut log, &quantize(&v, store.scale())).unwrap();
    }
    assert_eq!(store.record_count(log.len()), 3);
    assert_eq!(log.len(), 12);
    let q = [1.0f32, 0.0, 0.0, 0.0];
    let two = search(&store, &log, &q, 2).unwrap();
    assert_eq!(two.len(), 2);
    assert_eq!(two[0].0, 0);
    assert!((two[0].1 - 1.0).abs() < 1e-6);
    assert_eq!(two[1].0, 1);
    assert!(two[1].1.abs() < 1e-6);
    let all = search(&store, &log, &q, 10).unwrap();
    let ids: Vec<usize> = all.iter().map(|p| p.0).collect();
    assert_eq!(ids, vec![0, 1, 2]);
}

#[test]
fn empty_store_search_is_empty() {
    let store = store_of(4);
    let log: Vec<u8> = Vec::new();
    let r = search(&store, &log, &[0.5, 0.5, 0.5, 0.5], 5).unwrap();
    assert!(r.is_empty());
}

#[test]
fn length_follows_appends() {
    let store = store_of(3);
    let mut log: Vec<u8> = Vec::new();
    for n in 1..=7usize {
        store.append_record(&mut log, &vec![n as i8, -(n as i8), 0]).unwrap();
        assert_eq!(store.record_count(log.len()), n);
        assert_eq!(log.len(), n * 3);
    }
}

#[test]
fn records_read_back_as_written() {
    let store = store_of(3);
    let mut log: Vec<u8> = Vec::new();
    store.append_record(&mut log, &vec![-127, 0, 127]).unwrap();
    store.append_record(&mut log, &vec![-1, 1, -128]).unwrap();
    assert_eq!(log, vec![129, 0, 127, 255, 1, 128]);
    assert_eq!(store.read_all(&log), vec![vec![-127, 0, 127], vec![-1, 1, -128]]);
}

#[test]
fn partial_tail_is_not_a_record() {
    let store = store_of(4);
    let log: Vec<u8> = vec![1, 2, 3, 4, 5, 6];
    assert_eq!(store.record_count(log.len()), 1);
    assert_eq!(store.read_all(&log), vec![vec![1, 2, 3, 4]]);
}

#[test]
fn append_with_wrong_dimension_fails_and_leaves_log() {
    let store = store_of(4);
    let mut log: Vec<u8> = Vec::new();
    store.append_record(&mut log, &vec![1, 2, 3, 4]).unwrap();
    let before = log.clone();
    let r = store.append_record(&mut log, &vec![1, 2, 3]);
    assert!(matches!(r, Err(StoreError::DimensionMismatch { expected: 4, found: 3 })));
    assert_eq!(log, before);
    assert_eq!(store.record_count(log.len()), 1);
}

#[test]
fn search_with_wrong_dimension_fails() {
    let store = store_of(4);
    let r = store.rank(5, &vec![Some(1)], 1);
    assert!(matches!(r, Err(StoreError::DimensionMismatch { expected: 4, found: 5 })));
}

#[test]
fn search_with_zero_k_is_empty() {
    let store = store_of(2);
    assert_eq!(store.rank(2, &vec![Some(1), Some(2)], 0).unwrap(), vec![]);
}

#[test]
fn quantized_unit_vector_keeps_direction() {
    let store = store_of(8);
    let v: Vec<f32> = vec![0.5, -0.5, 0.25, 0.1, -0.3, 0.2, 0.4, -0.35];
    let norm: f32 = v.iter().map(|x| x * x).sum::<f32>().sqrt();
    let unit: Vec<f32> = v.iter().map(|x| x / norm).collect();
    let mut log: Vec<u8> = Vec::new();
    store.append_record(&mut log, &quantize(&unit, store.scale())).unwrap();
    let s = scores(&store, &log, &unit);
    assert!(s[0] >= 1.0 - 8.0 * 0.5 / 127.0);
}

#[test]
fn test_index_lifecycle() {
    let store = VectorStore::new(PathBuf::from("test.index"), DEFAULT_DIM, DEFAULT_SCALE);
    assert_eq!(store.dim(), 768);
    let vector = vec![1.0f32; 768];
    let mut log: Vec<u8> = Vec::new();
    store.append_record(&mut log, &quantize(&vector, store.scale())).expect("Failed to append vector");
    let results = search(&store, &log, &vector, 1).expect("Search failed");
    assert_eq!(results.len(), 1);
    assert_eq!(results[0].0, 0);
}
