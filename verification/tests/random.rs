use cvm::estimator::CVMHash;
use cvm::random::RandomSource;
use cvm::random::ScriptedRandom;
use cvm::random::SeededRandom;
use cvm::random::ThreadRandom;

#[test]
fn scripted_draws_follow_script() {
    let mut rng = ScriptedRandom::new(vec![5, 3, 9]);
    assert_eq!(rng.draw(4), 1);
    assert_eq!(rng.draw(4), 3);
    assert_eq!(rng.draw(4), 1);
    // Exhausted scripts yield zero.
    assert_eq!(rng.draw(7), 0);
    assert_eq!(rng.draw(2), 0);
}

#[test]
fn seeded_draws_replay_and_depend_on_seed() {
    let mut a = SeededRandom::new(1234);
    let mut b = SeededRandom::new(1234);
    let mut c = SeededRandom::new(1235);
    let mut any_differs = false;
    for _ in 0..200 {
        let x = a.draw(1000);
        let y = b.draw(1000);
        let z = c.draw(1000);
        assert_eq!(x, y);
        assert!(x < 1000);
        if x != z {
            any_differs = true;
        }
    }
    assert!(any_differs);
}

#[test]
fn thread_draws_stay_below_bound() {
    let mut rng = ThreadRandom::new();
    for _ in 0..200 {
        assert!(rng.draw(6) < 6);
        assert_eq!(rng.draw(1), 0);
    }
    // A bound of 6 is actually reached across many draws: the generator is
    // not handing back a constant.
    let mut seen_nonzero = false;
    for _ in 0..200 {
        if rng.draw(6) != 0 {
            seen_nonzero = true;
        }
    }
    assert!(seen_nonzero);
}

#[test]
fn deterministic_replay_of_whole_runs() {
    // Two runs of the same (capacity, seed, item sequence) agree on size,
    // level and membership after every single step.
    let cap = 8usize;
    let mut e1 = CVMHash::new(cap).unwrap();
    let mut e2 = CVMHash::new(cap).unwrap();
    let mut r1 = SeededRandom::new(777);
    let mut r2 = SeededRandom::new(777);
    for i in 0u64..300 {
        let item = i % 40;
        e1.new_input(item, &mut r1);
        e2.new_input(item, &mut r2);
        assert_eq!(e1.storage_objects(), e2.storage_objects());
        assert_eq!(e1.level(), e2.level());
        for x in 0u64..40 {
            assert_eq!(e1.contains(x), e2.contains(x));
        }
    }
}

#[test]
fn statistical_accuracy_regression() {
    // A statistical regression, not a per-run guarantee: over a fixed
    // multiset of 2000 distinct items (each ingested twice) and 100
    // independently seeded trials with capacity 1200, at least 75% of the
    // trials must estimate within 5% relative error. The seeds are fixed, so
    // the outcome is reproducible, not flaky.
    let k = 2000u64;
    let cap = 1200usize;
    let trials = 100u64;
    let mut within = 0u64;
    for seed in 1..=trials {
        let mut e = CVMHash::new(cap).unwrap();
        let mut rng = SeededRandom::new(seed);
        for _round in 0..2 {
            for item in 0..k {
                e.new_input(item, &mut rng);
            }
        }
        let est = e.get_estimate() as i64;
        let err = (est - k as i64).abs() as u64;
        // err / k < 5%  <=>  20 * err < k.
        if 20 * err < k {
            within += 1;
        }
    }
    assert!(
        within >= 75,
        "only {} of {} trials were within 5% relative error",
        within,
        trials
    );
}
