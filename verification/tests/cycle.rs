use room_cell::cycle::{
    conservation_holds, gc_retain, prediction_window, surprise_rank, vibe_source_index,
    DEFAULT_GC_THRESHOLD, JEPA_WINDOW, VIBE_DIMS,
};

/// An entry with a surprise value, as a room's perception database holds them.
#[derive(Clone, Debug, PartialEq)]
struct Entry {
    value: f64,
    timestamp: u64,
    surprise: f64,
}

fn ranks_of(entries: &Vec<Entry>) -> Vec<u64> {
    entries.iter().map(|e| surprise_rank(e.surprise.to_bits())).collect()
}

fn gc(entries: &mut Vec<Entry>, threshold: usize) {
    let ranks = ranks_of(entries);
    gc_retain(entries, &ranks, threshold);
}

#[test]
fn test_gc_prunes_low_surprise() {
    let mut db = Vec::new();
    for i in 0..10u64 {
        db.push(Entry { value: i as f64, timestamp: i, surprise: if i < 7 { 0.01 } else { 0.99 } });
    }
    gc(&mut db, 3);
    assert!(db.len() <= 3);
    assert!(db.iter().all(|e| e.surprise > 0.5));
}

#[test]
fn test_gc_keeps_high_surprise() {
    let mut db = Vec::new();
    for i in 0..5u64 {
        db.push(Entry { value: i as f64, timestamp: i, surprise: i as f64 * 0.25 });
    }
    gc(&mut db, 2);
    assert_eq!(db.len(), 2);
    assert!(db[0].surprise >= db[1].surprise);
    assert_eq!(db[0].timestamp, 4);
    assert_eq!(db[1].timestamp, 3);
}

#[test]
fn gc_at_threshold_changes_nothing() {
    let mut db = Vec::new();
    for i in 0..4u64 {
        db.push(Entry { value: 0.0, timestamp: i, surprise: (i % 2) as f64 });
    }
    let before = db.clone();
    gc(&mut db, 4);
    assert_eq!(db, before);
    gc(&mut db, 10);
    assert_eq!(db, before);
}

#[test]
fn gc_is_stable_among_equal_surprises() {
    let surprises = [0.5, 0.9, 0.5, 0.1, 0.9, 0.5];
    let mut db: Vec<Entry> = surprises
        .iter()
        .enumerate()
        .map(|(i, s)| Entry { value: 0.0, timestamp: i as u64, surprise: *s })
        .collect();
    gc(&mut db, 4);
    let kept: Vec<u64> = db.iter().map(|e| e.timestamp).collect();
    assert_eq!(kept, vec![1, 4, 0, 2]);
    gc(&mut db, 4);
    let again: Vec<u64> = db.iter().map(|e| e.timestamp).collect();
    assert_eq!(again, vec![1, 4, 0, 2]);
}

#[test]
fn gc_orders_negative_and_zero_surprises() {
    let surprises = [-0.0, -1.5, 2.0, 0.0, -0.25, f64::INFINITY, f64::NEG_INFINITY];
    let mut db: Vec<Entry> = surprises
        .iter()
        .enumerate()
        .map(|(i, s)| Entry { value: 0.0, timestamp: i as u64, surprise: *s })
        .collect();
    gc(&mut db, 6);
    let kept: Vec<u64> = db.iter().map(|e| e.timestamp).collect();
    assert_eq!(kept, vec![5, 2, 0, 3, 4, 1]);
}

#[test]
fn gc_default_threshold() {
    let mut db: Vec<Entry> = (0..(DEFAULT_GC_THRESHOLD as u64 + 5))
        .map(|i| Entry { value: 0.0, timestamp: i, surprise: i as f64 })
        .collect();
    gc(&mut db, DEFAULT_GC_THRESHOLD);
    assert_eq!(db.len(), DEFAULT_GC_THRESHOLD);
    assert_eq!(db[0].timestamp, DEFAULT_GC_THRESHOLD as u64 + 4);
    assert_eq!(db[DEFAULT_GC_THRESHOLD - 1].timestamp, 5);
}

#[test]
fn surprise_rank_follows_float_order() {
    let values = [
        f64::NEG_INFINITY,
        -1e300,
        -2.0,
        -1.0,
        -1e-300,
        0.0,
        1e-300,
        0.01,
        0.99,
        1.0,
        2.0,
        1e300,
        f64::INFINITY,
    ];
    for i in 0..values.len() {
        for j in 0..values.len() {
            let (a, b) = (values[i], values[j]);
            let (ra, rb) = (surprise_rank(a.to_bits()), surprise_rank(b.to_bits()));
            assert_eq!(a < b, ra < rb);
            assert_eq!(a == b, ra == rb);
        }
    }
    assert_eq!(surprise_rank((-0.0f64).to_bits()), surprise_rank(0.0f64.to_bits()));
    assert_eq!(surprise_rank(0.0f64.to_bits()), 0x7FFF_FFFF_FFFF_FFFF);
}

#[test]
fn test_conservation_initial() {
    // An empty room: no perceptions, no predictions.
    assert!(conservation_holds(0, 0), "empty room should satisfy conservation");
}

#[test]
fn conservation_tolerates_one() {
    assert!(conservation_holds(1, 1));
    assert!(conservation_holds(2, 1));
    assert!(conservation_holds(1, 2));
    assert!(!conservation_holds(3, 1));
    assert!(!conservation_holds(1, 3));
    assert!(!conservation_holds(0, usize::MAX));
    assert!(conservation_holds(usize::MAX, usize::MAX - 1));
}

#[test]
fn prediction_window_takes_last_five() {
    assert_eq!(JEPA_WINDOW, 5);
    assert_eq!(prediction_window(0), (0, 0));
    assert_eq!(prediction_window(1), (0, 1));
    assert_eq!(prediction_window(5), (0, 5));
    assert_eq!(prediction_window(12), (7, 5));
    assert_eq!(prediction_window(usize::MAX), (usize::MAX - 5, 5));
}

#[test]
fn vibe_source_index_strides() {
    assert_eq!(VIBE_DIMS, 16);
    let d8: Vec<usize> = (0..16).map(|vi| vibe_source_index(vi, 8)).collect();
    assert_eq!(d8, vec![0, 0, 1, 1, 2, 2, 3, 3, 4, 4, 5, 5, 6, 6, 7, 7]);
    let d32: Vec<usize> = (0..16).map(|vi| vibe_source_index(vi, 32)).collect();
    assert_eq!(d32, (0..16).map(|vi| 2 * vi).collect::<Vec<usize>>());
    assert_eq!(vibe_source_index(15, 1), 0);
    assert_eq!(vibe_source_index(15, 384), 360);
}
