use jittersnoop::histogram::{approx_percentile, hist_bucket_index, severity_index, HIST_BOUNDS};

#[test]
fn bins_end_below_their_bound() {
    assert_eq!(hist_bucket_index(0), 0);
    assert_eq!(hist_bucket_index(999), 0);
    assert_eq!(hist_bucket_index(1_000), 1);
    assert_eq!(hist_bucket_index(4_999), 2);
    assert_eq!(hist_bucket_index(999_999_999), 18);
    assert_eq!(hist_bucket_index(1_000_000_000), 19);
    assert_eq!(hist_bucket_index(u64::MAX), 19);
}

#[test]
fn each_bound_opens_the_next_bin() {
    for (i, &bound) in HIST_BOUNDS.iter().enumerate() {
        assert_eq!(hist_bucket_index(bound - 1), i);
        assert_eq!(hist_bucket_index(bound), i + 1);
    }
}

#[test]
fn bounds_ascend() {
    for pair in HIST_BOUNDS.windows(2) {
        assert!(pair[0] < pair[1]);
    }
}

#[test]
fn severities() {
    assert_eq!(severity_index(0), 0);
    assert_eq!(severity_index(9_999), 0);
    assert_eq!(severity_index(10_000), 1);
    assert_eq!(severity_index(99_999), 1);
    assert_eq!(severity_index(100_000), 2);
    assert_eq!(severity_index(999_999), 2);
    assert_eq!(severity_index(1_000_000), 3);
    assert_eq!(severity_index(u64::MAX), 3);
}

#[test]
fn severity_follows_bin() {
    for ns in [5u64, 9_999, 10_000, 60_000, 100_000, 700_000, 1_000_000, 3_000_000_000] {
        let bin = hist_bucket_index(ns);
        let expected = if bin < 4 { 0 } else if bin < 7 { 1 } else if bin < 10 { 2 } else { 3 };
        assert_eq!(severity_index(ns), expected);
    }
}

#[test]
fn percentile_without_events_is_zero() {
    assert_eq!(approx_percentile(&[0; 20], 0, 0), 0);
    assert_eq!(approx_percentile(&[5; 20], 0, 50), 0);
}

#[test]
fn percentile_is_the_bound_of_its_bin() {
    let mut histogram = [0u32; 20];
    histogram[1] = 50;
    histogram[4] = 49;
    histogram[19] = 1;
    assert_eq!(approx_percentile(&histogram, 100, 50), 2_000);
    assert_eq!(approx_percentile(&histogram, 100, 51), 20_000);
    assert_eq!(approx_percentile(&histogram, 100, 99), 20_000);
    assert_eq!(approx_percentile(&histogram, 100, 100), 1_000_000_000);
}

#[test]
fn percentile_of_rank_zero_is_the_first_bound() {
    let mut histogram = [0u32; 20];
    histogram[7] = 1;
    assert_eq!(approx_percentile(&histogram, 1, 0), 1_000);
}

#[test]
fn percentile_out_of_reach_is_the_last_bound() {
    assert_eq!(approx_percentile(&[1, 1, 1], 3, 4), 1_000_000_000);
    assert_eq!(approx_percentile(&[], 1, 1), 1_000_000_000);
}

#[test]
fn percentiles_are_ordered() {
    let histogram: Vec<u32> = (0..20).map(|i| i * 3 % 7).collect();
    let total: u64 = histogram.iter().map(|&c| c as u64).sum();
    let mut previous = 0;
    for rank in 0..=total {
        let ns = approx_percentile(&histogram, total, rank);
        assert!(previous <= ns);
        previous = ns;
    }
}
