use metrics::error::SummaryError;
use metrics::summary::{Summary, SummaryStruct};

// A histogram over values up to 100 at three significant digits has
// buckets of width one, so a percentile answer is exact.
fn hundred_bucket_histogram() -> SummaryStruct {
    Summary::heatmap(100, 3, 4, 100).build()
}

#[test]
fn heatmap_median_of_repeated_value() {
    let mut s = hundred_bucket_histogram();
    let mut t: u64 = 0;
    while t < 100 {
        s.increment(t, 50, 1);
        t += 1;
    }
    assert_eq!(s.percentile(5_000), Ok(50));
}

#[test]
fn stream_reservoir_keeps_newest_ten() {
    let mut s = Summary::stream(10).build();
    let mut v: u64 = 1;
    while v <= 20 {
        s.increment(0, v, 1);
        v += 1;
    }
    // The reservoir retained ten of the inserted values; the answer must
    // be one of them.
    let got = s.percentile(5_000).unwrap();
    assert!((11..=20).contains(&got));
    // The eviction policy is pinned: the oldest samples leave first.
    assert_eq!(s.percentile(0), Ok(11));
    assert_eq!(s.percentile(10_000), Ok(20));
}

#[test]
fn empty_histogram_has_insufficient_data() {
    let s = hundred_bucket_histogram();
    assert_eq!(s.percentile(5_000), Err(SummaryError::InsufficientData));
}

#[test]
fn empty_stream_has_insufficient_data() {
    let s = Summary::stream(10).build();
    assert_eq!(s.percentile(5_000), Err(SummaryError::InsufficientData));
}

#[test]
fn negative_percentile_is_invalid_for_both_kinds() {
    let mut h = hundred_bucket_histogram();
    h.increment(0, 50, 1);
    assert_eq!(h.percentile(-1), Err(SummaryError::InvalidPercentile));
    let mut r = Summary::stream(4).build();
    r.increment(0, 50, 1);
    assert_eq!(r.percentile(-1), Err(SummaryError::InvalidPercentile));
}

#[test]
fn oversized_percentile_is_invalid_for_both_kinds() {
    let mut h = hundred_bucket_histogram();
    h.increment(0, 50, 1);
    assert_eq!(h.percentile(10_001), Err(SummaryError::InvalidPercentile));
    let mut r = Summary::stream(4).build();
    r.increment(0, 50, 1);
    assert_eq!(r.percentile(10_001), Err(SummaryError::InvalidPercentile));
}

#[test]
fn builds_are_independent() {
    let d = Summary::heatmap(100, 3, 4, 100);
    let mut s1 = d.build();
    let s2 = d.build();
    s1.increment(0, 50, 1);
    assert_eq!(s1.percentile(5_000), Ok(50));
    assert_eq!(s2.percentile(5_000), Err(SummaryError::InsufficientData));
}

#[test]
fn stream_builds_are_independent() {
    let d = Summary::stream(10);
    let mut s1 = d.build();
    let s2 = d.build();
    s1.increment(0, 7, 1);
    assert_eq!(s1.percentile(5_000), Ok(7));
    assert_eq!(s2.percentile(5_000), Err(SummaryError::InsufficientData));
}

#[test]
fn heatmap_weight_equals_repeated_increments() {
    let mut once = hundred_bucket_histogram();
    once.increment(0, 7, 5);
    let mut repeated = hundred_bucket_histogram();
    for _ in 0..5 {
        repeated.increment(0, 7, 1);
    }
    for p in [0, 2_500, 5_000, 7_500, 10_000] {
        assert_eq!(once.percentile(p), repeated.percentile(p));
    }
    assert_eq!(once.percentile(5_000), Ok(7));
}

#[test]
fn stream_ignores_weight() {
    // Weight 3 on a streaming reservoir records a single sample: with
    // samples {5, 6}, the seventy-fifth percentile is 6. Expanding the
    // weight into {5, 5, 5, 6} would give 5 instead.
    let mut s = Summary::stream(4).build();
    s.increment(0, 5, 3);
    s.increment(0, 6, 1);
    assert_eq!(s.percentile(7_500), Ok(6));
}

#[test]
fn heatmap_answers_stay_in_range() {
    let mut s = hundred_bucket_histogram();
    s.increment(0, 0, 1);
    s.increment(1, 100, 1);
    s.increment(2, 37, 2);
    // A value beyond the declared bound falls into the last bucket.
    s.increment(3, 1_000, 1);
    for p in [0, 1, 4_999, 9_999, 10_000] {
        let got = s.percentile(p).unwrap();
        assert!(got <= 100);
    }
    assert_eq!(s.percentile(10_000), Ok(100));
    assert_eq!(s.percentile(0), Ok(0));
}

#[test]
fn heatmap_windows_slide_and_expire() {
    let mut s = Summary::heatmap(100, 3, 2, 1).build();
    s.increment(0, 10, 1);
    s.increment(1, 20, 1);
    // Both windows are live: the oldest sample is still visible.
    assert_eq!(s.percentile(0), Ok(10));
    assert_eq!(s.percentile(10_000), Ok(20));
    s.increment(2, 30, 1);
    // The window holding 10 has expired.
    assert_eq!(s.percentile(0), Ok(20));
    assert_eq!(s.percentile(10_000), Ok(30));
    // Jumping far ahead expires everything at once.
    s.increment(50, 40, 1);
    assert_eq!(s.percentile(0), Ok(40));
    assert_eq!(s.percentile(10_000), Ok(40));
}

#[test]
fn heatmap_accepts_late_timestamps() {
    let mut s = Summary::heatmap(100, 3, 2, 1).build();
    s.increment(10, 20, 1);
    // A timestamp older than the current window still lands in it.
    s.increment(0, 30, 1);
    assert_eq!(s.percentile(0), Ok(20));
    assert_eq!(s.percentile(10_000), Ok(30));
}

#[test]
fn heatmap_coarse_buckets_report_upper_edges() {
    // Bound 1000 at one significant digit: buckets are 101 wide, and a
    // bucket reports its upper edge, clamped to the bound.
    let mut s = Summary::heatmap(1_000, 1, 1, 1).build();
    s.increment(0, 0, 1);
    assert_eq!(s.percentile(0), Ok(100));
    s.increment(0, 999, 1);
    assert_eq!(s.percentile(10_000), Ok(1_000));
}

#[test]
fn stream_percentiles_follow_rank_order() {
    let mut s = Summary::stream(5).build();
    for v in [50, 10, 30, 20, 40] {
        s.increment(0, v, 1);
    }
    assert_eq!(s.percentile(0), Ok(10));
    assert_eq!(s.percentile(2_000), Ok(10));
    assert_eq!(s.percentile(5_000), Ok(30));
    assert_eq!(s.percentile(10_000), Ok(50));
}

#[test]
fn stream_fractional_percentile() {
    let mut s = Summary::stream(1_000).build();
    let mut v: u64 = 1;
    while v <= 1_000 {
        s.increment(0, v, 1);
        v += 1;
    }
    // 99.9 percent of a thousand samples, rounded up, is rank 999.
    assert_eq!(s.percentile(9_990), Ok(999));
}

#[test]
fn stream_zero_capacity_retains_nothing() {
    let mut s = Summary::stream(0).build();
    s.increment(0, 5, 1);
    assert_eq!(s.percentile(5_000), Err(SummaryError::InsufficientData));
}

#[test]
fn descriptor_is_copyable_and_comparable() {
    let d = Summary::heatmap(100, 3, 4, 100);
    let copy = d;
    assert_eq!(d, copy);
    assert_ne!(d, Summary::stream(4));
    let mut s = copy.build();
    s.increment(0, 50, 1);
    assert_eq!(s.percentile(5_000), Ok(50));
}

#[test]
fn error_variants_are_distinct() {
    assert_ne!(SummaryError::InvalidPercentile, SummaryError::InsufficientData);
    assert_ne!(SummaryError::InsufficientData, SummaryError::BackendInternal);
    assert_ne!(SummaryError::InvalidPercentile, SummaryError::BackendInternal);
}

#[test]
fn direct_backend_constructors_work() {
    let mut h = SummaryStruct::heatmap(100, 3, 4, 100);
    h.increment(0, 25, 4);
    assert_eq!(h.percentile(10_000), Ok(25));
    let mut r = SummaryStruct::stream(3);
    r.increment(0, 8, 1);
    assert_eq!(r.percentile(0), Ok(8));
}
