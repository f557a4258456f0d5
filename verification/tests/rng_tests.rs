use bmsgen::RNG;
use std::collections::BTreeSet;
use std::time::{SystemTime, UNIX_EPOCH};

#[test]
fn test_rng() {
    let seed = SystemTime::now()
        .duration_since(UNIX_EPOCH)
        .unwrap()
        .as_millis() as u64;
    let mut rng = RNG::new_u64(seed);
    let mut set = BTreeSet::new();

    for _ in 0..1000000 {
        let n = rng.next();
        assert!(set.insert(n));
    }
}

#[test]
fn test_rng_f32() {
    let seed = SystemTime::now()
        .duration_since(UNIX_EPOCH)
        .unwrap()
        .as_millis() as u64;
    let mut rng = RNG::new_u64(seed);

    for _ in 0..10000 {
        let value = rng.next_fraction() as f32 / 16777216.0;
        assert!((0.0..=1.0).contains(&value), "value = {value}");
    }
}

#[test]
fn test_fraction_below_one() {
    let mut rng = RNG::new_u64(987654321);
    for _ in 0..100000 {
        assert!(rng.next_fraction() < 1 << 24);
    }
}

#[test]
fn test_rng_deterministic() {
    let mut a = RNG::new([42, 7]);
    let mut b = RNG::new([42, 7]);
    for _ in 0..1000 {
        assert_eq!(a.next(), b.next());
    }
}
