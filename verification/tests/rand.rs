use sorting::b_rand::RandGen;

#[test]
fn test_rands_printout() {
    let mut r = RandGen::new(12);
    for _ in 0..100 {
        let v = r.gen(100);
        assert!(v <= 100);
    }
}

#[test]
fn test_gen_exact_first_draw() {
    // (12 * 56394237 + 34642349) % 9384434935 == 711373193, and 711373193 % 100 == 93
    let mut r = RandGen::new(12);
    assert_eq!(r.gen(100), 93);
}

#[test]
fn test_gen_bound() {
    let mut r = RandGen::new(999);
    for max in 1..50 {
        let v = r.gen(max);
        assert!(v < max);
    }
}

#[test]
fn test_prng_determinism() {
    let mut a = RandGen::new(34052);
    let mut b = RandGen::new(34052);
    let bounds = [6, 100, 2, 19, 7, 1, 1000, 3, 3, 3];
    for &max in bounds.iter() {
        assert_eq!(a.gen(max), b.gen(max));
    }
}

#[test]
fn test_prng_seeds_differ() {
    // not a contract, just evidence that the state actually advances per seed
    let mut a = RandGen::new(1);
    let mut b = RandGen::new(2);
    let da: Vec<u64> = (0..8).map(|_| a.gen(1_000_000)).collect();
    let db: Vec<u64> = (0..8).map(|_| b.gen(1_000_000)).collect();
    assert_ne!(da, db);
}

#[test]
fn test_large_seed_first_draw_in_bounds() {
    // an arbitrary seed must not panic on the first step
    let mut r = RandGen::new(u64::MAX);
    let v = r.gen(10);
    assert!(v < 10);
}
