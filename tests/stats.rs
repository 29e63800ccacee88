use collatz_cert::stats::{histogram, table_max, table_stats, table_sum};

#[test]
fn stats_min_max_sum() {
    let t = vec![5u32, 9, 3, 7];
    let s = table_stats(&t);
    assert_eq!(s.count, 4);
    assert_eq!(s.min, 3);
    assert_eq!(s.max, 9);
    assert_eq!(s.sum, 24);
    assert_eq!(table_max(&vec![]), 0);
    assert_eq!(table_sum(&vec![u32::MAX, u32::MAX]), 2 * u32::MAX as u128);
}

#[test]
fn stats_histogram_bins() {
    // span [0, 10], 5 bins of width 2; 10 lands in the last bin.
    let t = vec![0u32, 1, 2, 3, 9, 10, 10];
    assert_eq!(histogram(&t, 5), vec![2, 2, 0, 0, 3]);
    // zero bins count as one.
    assert_eq!(histogram(&t, 0), vec![7]);
    assert_eq!(histogram(&vec![], 2), vec![0, 0]);
}

#[test]
fn stats_histogram_constant_table() {
    // max == min: the span is widened to one, everything in bin 0.
    let t = vec![4u32, 4, 4];
    assert_eq!(histogram(&t, 3), vec![3, 0, 0]);
}
