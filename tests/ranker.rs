use backend::ranker::top_k;

fn ids(r: &[(usize, u32)]) -> Vec<usize> {
    r.iter().map(|p| p.0).collect()
}

#[test]
fn top_k_orders_by_key_descending() {
    let keys = vec![Some(10), Some(30), Some(20), Some(5)];
    let r = top_k(&keys, 2);
    assert_eq!(r, vec![(1, 30), (2, 20)]);
}

#[test]
fn top_k_matches_full_sort_and_slice() {
    let keys: Vec<Option<u32>> = vec![Some(7), Some(3), Some(9), Some(3), Some(8), Some(1), Some(9)];
    let mut full: Vec<(usize, u32)> = keys
        .iter()
        .enumerate()
        .filter_map(|(i, k)| k.map(|k| (i, k)))
        .collect();
    full.sort_by(|a, b| b.1.cmp(&a.1).then(a.0.cmp(&b.0)));
    for k in 0..=keys.len() + 2 {
        let expected: Vec<(usize, u32)> = full.iter().take(k).cloned().collect();
        assert_eq!(top_k(&keys, k), expected, "k = {}", k);
    }
}

#[test]
fn top_k_ties_go_to_the_lower_id() {
    let keys = vec![Some(4), Some(6), Some(6), Some(6)];
    assert_eq!(ids(&top_k(&keys, 2)), vec![1, 2]);
    assert_eq!(ids(&top_k(&keys, 4)), vec![1, 2, 3, 0]);
}

#[test]
fn top_k_skips_records_without_a_key() {
    let keys = vec![None, Some(2), None, Some(1)];
    assert_eq!(top_k(&keys, 5), vec![(1, 2), (3, 1)]);
}

#[test]
fn top_k_zero_or_empty_gives_nothing() {
    assert!(top_k(&vec![Some(1), Some(2)], 0).is_empty());
    assert!(top_k(&Vec::new(), 3).is_empty());
    assert!(top_k(&vec![None, None], 3).is_empty());
}

#[test]
fn top_k_large_k_covers_every_record_once() {
    let keys: Vec<Option<u32>> = (0..50u32).map(|i| Some((i * 37) % 11)).collect();
    let r = top_k(&keys, 100);
    assert_eq!(r.len(), 50);
    let mut seen = ids(&r);
    seen.sort();
    assert_eq!(seen, (0..50).collect::<Vec<usize>>());
    for w in r.windows(2) {
        assert!(w[0].1 >= w[1].1);
    }
}

#[test]
fn top_k_agrees_with_sorting_on_many_keys() {
    let mut state: u64 = 0x2545_F491_4F6C_DD1D;
    let mut keys: Vec<Option<u32>> = Vec::new();
    for _ in 0..300 {
        state = state.wrapping_mul(6364136223846793005).wrapping_add(1442695040888963407);
        let v = (state >> 33) as u32;
        keys.push(if v % 13 == 0 { None } else { Some(v % 50) });
    }
    let mut full: Vec<(usize, u32)> = keys
        .iter()
        .enumerate()
        .filter_map(|(i, k)| k.map(|k| (i, k)))
        .collect();
    full.sort_by(|a, b| b.1.cmp(&a.1).then(a.0.cmp(&b.0)));
    for k in [0usize, 1, 2, 5, 17, 64, 200, 299, 300, 1000] {
        let expected: Vec<(usize, u32)> = full.iter().take(k).cloned().collect();
        assert_eq!(top_k(&keys, k), expected, "k = {}", k);
    }
}
