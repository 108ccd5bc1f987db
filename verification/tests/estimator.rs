use cvm::estimator::CVMHash;
use cvm::estimator::EstimatorError;
use cvm::random::RandomSource;
use cvm::random::ScriptedRandom;
use cvm::random::SeededRandom;
use cvm::random::ThreadRandom;

#[test]
fn invalid_construction_zero_capacity() {
    let r = CVMHash::new(0);
    assert_eq!(r.err(), Some(EstimatorError::InvalidConfiguration));
}

#[test]
fn valid_construction_starts_empty() {
    let e = CVMHash::new(1).unwrap();
    assert_eq!(e.capacity(), 1);
    assert_eq!(e.storage_objects(), 0);
    assert_eq!(e.level(), 0);
    assert_eq!(e.get_estimate(), 0);
}

#[test]
fn no_thinning_below_capacity() {
    // Distinct items under the capacity: the level stays zero, everything is
    // retained, and the estimate is exact.
    let mut e = CVMHash::new(20).unwrap();
    let mut rng = ThreadRandom::new();
    for item in 0u64..10 {
        e.new_input(item, &mut rng);
        assert_eq!(e.level(), 0);
    }
    assert_eq!(e.storage_objects(), 10);
    assert_eq!(e.get_estimate(), 10);
    for item in 0u64..10 {
        assert!(e.contains(item));
    }
    assert!(!e.contains(10));
}

#[test]
fn worked_transition_example() {
    // Capacity 4; ingest A, B, C, D at level 0: all inserted unconditionally.
    // The 4th insert fills the buffer and triggers adaptation: the level goes
    // to 1 and the scripted coins (1, 0, 1, 0; zero keeps) retain exactly B
    // and D. Ingesting the new item E then draws 1 in [0, 2), so E is
    // skipped; the estimate is |{B, D}| * 2^1 == 4.
    let (a, b, c, d, e_item) = (1u64, 2u64, 3u64, 4u64, 5u64);
    let mut rng = ScriptedRandom::new(vec![1, 0, 1, 0, 1]);
    let mut e = CVMHash::new(4).unwrap();

    e.new_input(a, &mut rng);
    e.new_input(b, &mut rng);
    e.new_input(c, &mut rng);
    assert_eq!(e.storage_objects(), 3);
    assert_eq!(e.level(), 0);

    e.new_input(d, &mut rng);
    assert_eq!(e.level(), 1);
    assert_eq!(e.storage_objects(), 2);
    assert!(e.contains(b));
    assert!(e.contains(d));
    assert!(!e.contains(a));
    assert!(!e.contains(c));

    e.new_input(e_item, &mut rng);
    assert_eq!(e.level(), 1);
    assert_eq!(e.storage_objects(), 2);
    assert!(!e.contains(e_item));
    assert_eq!(e.get_estimate(), 4);
}

#[test]
fn monotonic_level_and_post_ingest_bound() {
    // Over a long repeating stream the level never decreases, and right
    // after every ingest the stored size is below the capacity.
    let cap = 8usize;
    let mut e = CVMHash::new(cap).unwrap();
    let mut rng = SeededRandom::new(42);
    let mut prev_level = 0u32;
    for i in 0u64..400 {
        e.new_input(i % 32, &mut rng);
        let level = e.level();
        assert!(level >= prev_level);
        assert!(e.storage_objects() < cap);
        prev_level = level;
    }
    assert!(prev_level > 0);
}

#[test]
fn level_zero_retention() {
    // While the level is zero, re-ingesting items never drops anything.
    let mut e = CVMHash::new(100).unwrap();
    let mut rng = SeededRandom::new(9);
    for _round in 0..3 {
        for item in 0u64..50 {
            e.new_input(item, &mut rng);
        }
        assert_eq!(e.level(), 0);
        for item in 0u64..50 {
            assert!(e.contains(item));
        }
    }
    assert_eq!(e.get_estimate(), 50);
}

#[test]
fn estimate_scales_by_level() {
    // Force two adaptations with scripted coins and check the estimate
    // formula: size times two to the level.
    // Capacity 2: ingest 1 then 2; the second insert fills the buffer and
    // the coins (0, 0) keep both, so the buffer stays full at level 1.
    // Re-ingesting item 1 draws 0 (kept), finds the buffer still at
    // capacity, and adapts again: level 2, coins (0, 1) keep only item 1.
    let mut rng = ScriptedRandom::new(vec![0, 0, 0, 0, 1]);
    let mut e = CVMHash::new(2).unwrap();
    e.new_input(1, &mut rng);
    assert_eq!(e.level(), 0);
    e.new_input(2, &mut rng);
    assert_eq!(e.level(), 1);
    assert_eq!(e.storage_objects(), 2);
    assert_eq!(e.get_estimate(), 4);
    e.new_input(1, &mut rng);
    assert_eq!(e.level(), 2);
    assert_eq!(e.storage_objects(), 1);
    assert!(e.contains(1));
    assert!(!e.contains(2));
    assert_eq!(e.get_estimate(), 4);
}
