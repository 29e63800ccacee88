use collatz_cert::threshold::threshold;

#[test]
fn threshold_small_values() {
    assert_eq!(threshold(0), 1);
    assert_eq!(threshold(1), 2);
    assert_eq!(threshold(2), 4);
    assert_eq!(threshold(8), 13);
    assert_eq!(threshold(256), 406);
}

#[test]
fn threshold_near_integer_products() {
    // 306 * log2(3) = 484.9998..., 665 * log2(3) = 1054.00006...
    assert_eq!(threshold(306), 485);
    assert_eq!(threshold(665), 1055);
}

#[test]
fn threshold_is_monotone_and_matches_float_formula() {
    let mut prev = 0u64;
    for l in 0..3000u32 {
        let t = threshold(l);
        assert!(t >= prev);
        prev = t;
        let f = ((l as f64) * 3f64.log2()).floor() as u64 + 1;
        assert_eq!(t, f);
    }
}

#[test]
fn threshold_large_depth() {
    let l = 100_000u32;
    let f = ((l as f64) * 3f64.log2()).floor() as u64 + 1;
    assert_eq!(threshold(l), f);
}
