use derp::rng::Rng;

#[test]
fn same_seed_same_stream() {
    let mut a = Rng::seed_from_u64(42);
    let mut b = Rng::seed_from_u64(42);
    for _ in 0..100 {
        assert_eq!(a.next_u64(), b.next_u64());
    }
}

#[test]
fn different_seeds_differ() {
    let mut a = Rng::seed_from_u64(1);
    let mut b = Rng::seed_from_u64(2);
    assert_ne!(a.next_u64(), b.next_u64());
}

#[test]
fn range_inclusive_stays_in_range() {
    let mut r = Rng::seed_from_u64(7);
    for _ in 0..10_000 {
        let v = r.range_inclusive(100, 200);
        assert!((100..=200).contains(&v));
    }
    assert_eq!(r.range_inclusive(5, 5), 5);
}

/// First `SplitMix64` output for seed 0 is a well-known reference value
#[test]
fn known_seed_expansion() {
    let r = Rng::seed_from_u64(0);
    assert_eq!(r.s[0], 0xE220_A839_7B1D_CDAF);
}
