use fbhash::heap::{ranked_positions, score_bits, score_key, Heap};

fn key(f: f64) -> u64 {
    score_key(f.to_bits())
}

fn value(k: u64) -> f64 {
    f64::from_bits(score_bits(k))
}

#[test]
fn test_insert() {
    let mut h = Heap::new(10);
    for i in 0..6 {
        h.insert(key(i as f64), 0);
    }

    assert_eq!(h.len(), 6);
}

#[test]
fn test_get_elements() {
    let mut h = Heap::new(10);
    h.insert(key(7.8), 0);
    h.insert(key(98.78), 0);
    h.insert(key(0.0), 0);
    h.insert(key(1.0), 0);

    let elements: Vec<(f64, usize)> = h.get_elements().iter().map(|(k, i)| (value(*k), *i)).collect();
    assert_eq!(elements, vec![(0.0, 0), (1.0, 0), (7.8, 0), (98.78, 0)]);
}

#[test]
fn test_extract_max() {
    let mut h = Heap::new(10);

    h.insert(key(42.0), 0);
    assert_eq!(h.len(), 1);
    match h.extract_max() {
        Some(x) => assert_eq!(value(x), 42.0),
        None => panic!(),
    }
    assert_eq!(h.len(), 0);

    let v = vec![69.42, 34.26, 72.53, 14.69, 29.24, 89.00, 1.72, 94.44, 30.46];
    for i in v {
        h.insert(key(i), 0);
    }

    assert_eq!(h.len(), 9);
    match h.extract_max() {
        Some(x) => assert_eq!(value(x), 94.44),
        None => panic!(),
    }
    assert_eq!(h.len(), 8);
}

#[test]
fn test_get_max() {
    let mut h = Heap::new(10);
    let v: Vec<f64> = vec![
        69.42, 34.26, 72.53, 14.69, 29.24, 89.00, 1.72, 94.44, 30.46, 81.18,
    ];
    for i in v {
        h.insert(key(i), 0);
    }

    match h.get_max() {
        Some(x) => assert_eq!(value(x), 94.44),
        None => panic!(),
    }
}

#[test]
fn full_heap_keeps_the_smallest_scores() {
    let mut h = Heap::new(3);
    for (i, s) in [50u64, 10, 40, 30, 60, 20].iter().enumerate() {
        h.insert(*s, i);
    }
    assert_eq!(h.len(), 3);
    assert_eq!(h.get_elements(), vec![(10, 1), (20, 5), (30, 3)]);
    assert_eq!(h.get_max(), Some(30));
}

#[test]
fn equal_to_max_is_not_taken() {
    let mut h = Heap::new(1);
    h.insert(5, 0);
    h.insert(5, 1);
    assert_eq!(h.get_elements(), vec![(5, 0)]);
    h.insert(4, 2);
    assert_eq!(h.get_elements(), vec![(4, 2)]);
}

#[test]
fn zero_capacity_keeps_nothing() {
    let mut h = Heap::new(0);
    h.insert(1, 0);
    assert_eq!(h.len(), 0);
    assert_eq!(h.get_max(), None);
    assert_eq!(h.extract_max(), None);
}

#[test]
fn ranked_positions_returns_k_smallest() {
    let scores = vec![key(0.5), key(1.0), key(0.0), key(0.25), key(1.0)];
    let r = ranked_positions(&scores, 3);
    let positions: Vec<usize> = r.iter().map(|e| e.1).collect();
    assert_eq!(positions, vec![2, 3, 0]);
    let all = ranked_positions(&scores, 10);
    assert_eq!(all.len(), 5);
    assert!(ranked_positions(&scores, 0).is_empty());
    assert!(ranked_positions(&[], 5).is_empty());
}

#[test]
fn score_keys_follow_float_order() {
    let values = [-1e300, -2.5, -0.0, 0.0, 1.2e-16, 0.5, 1.0, 2.0, 1e300];
    for w in values.windows(2) {
        assert!(key(w[0]) <= key(w[1]));
    }
    assert!(key(-2.5) < key(-1.0));
    assert!(key(1.0) < key(1.0000000000000002));
    for v in values {
        assert_eq!(value(key(v)).to_bits(), v.to_bits());
    }
}
