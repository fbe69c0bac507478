use phprs::math::{rt_abs, rt_max, rt_min, Rng};

#[test]
fn test_abs() {
    assert_eq!(rt_abs(-5), 5);
    assert_eq!(rt_abs(5), 5);
    assert_eq!(rt_abs(0), 0);
}

#[test]
fn test_min_max() {
    assert_eq!(rt_min(3, 5), 3);
    assert_eq!(rt_max(3, 5), 5);
    assert_eq!(rt_min(-1, 1), -1);
    assert_eq!(rt_max(-1, 1), 1);
}

#[test]
fn test_rand() {
    let mut rng = Rng::new();
    let r1 = rng.next();
    let r2 = rng.next();
    let r3 = rng.next();

    assert!(!(r1 == r2 && r2 == r3));

    assert!(r1 >= 0);
    assert!(r2 >= 0);
    assert!(r3 >= 0);
}

#[test]
fn test_rand_range() {
    let mut rng = Rng::new();
    for _ in 0..100 {
        let r = rng.range(1, 10);
        assert!(r >= 1 && r <= 10);
    }
}

#[test]
fn rand_step_is_xorshift() {
    let mut rng = Rng::new();
    let mut s: u64 = 0x853c49e6748fea9b;
    s ^= s >> 12;
    s ^= s << 25;
    s ^= s >> 27;
    let expected = (s.wrapping_mul(0x2545f4914f6cdd1d) >> 1) as i64;
    assert_eq!(rng.next(), expected);
    assert_eq!(rng.state, s);
}

#[test]
fn seed_zero_counts_as_one_and_empty_range() {
    let mut rng = Rng::new();
    rng.seed(0);
    assert_eq!(rng.state, 1);
    rng.seed(42);
    assert_eq!(rng.state, 42);
    assert_eq!(rng.range(7, 7), 7);
    assert_eq!(rng.range(9, 3), 9);
    assert_eq!(rng.state, 42);
}
