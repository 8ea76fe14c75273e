use h2hist::{Config, Error};

#[test]
fn validation() {
    assert_eq!(Config::new(0, 0), Err(Error::MaxValuePower));
    assert_eq!(Config::new(0, 65), Err(Error::MaxValuePower));
    assert_eq!(Config::new(4, 4), Err(Error::GroupingPower));
    assert_eq!(Config::new(5, 4), Err(Error::GroupingPower));
    assert_eq!(Config::new(63, 64), Err(Error::GroupingPower));
    assert_eq!(Config::new(30, 64), Err(Error::TooManyBuckets));
    assert!(Config::new(0, 1).is_ok());
    assert!(Config::new(7, 40).is_ok());
    assert!(Config::new(62, 64).is_err()); // TooManyBuckets
}

#[test]
fn known_sizes() {
    // The ARCHITECTURE.md size-table rows.
    let cases = [
        (2u8, 32u8, 124usize),
        (4, 36, 528),
        (6, 40, 2240),
        (7, 40, 4352),
        (10, 40, 31744),
    ];
    for (grouping_power, max_value_power, buckets) in cases {
        let config = Config::new(grouping_power, max_value_power).unwrap();
        assert_eq!(
            config.total_buckets(),
            buckets,
            "g={grouping_power} n={max_value_power}"
        );
    }
}

#[test]
fn max_value() {
    assert_eq!(Config::new(2, 8).unwrap().max_value(), 255);
    assert_eq!(Config::new(2, 64).unwrap().max_value(), u64::MAX);
}

/// Walk every value of small configs: indices must start at 0,
/// end at `total_buckets - 1`, be monotone non-decreasing, and
/// agree with `value_range` — which must exactly partition
/// `0..=max_value`.
#[test]
fn exhaustive_small_configs() {
    for grouping_power in 0u8..=3 {
        for max_value_power in (grouping_power + 1)..=10 {
            let config = Config::new(grouping_power, max_value_power).unwrap();
            let total = config.total_buckets();
            let mut prev_idx = 0usize;
            let mut next_expected_low = 0u64;
            for value in 0..=config.max_value() {
                let idx = config.index_for(value);
                assert!(
                    idx < total,
                    "g={grouping_power} n={max_value_power} v={value}"
                );
                assert!(
                    idx >= prev_idx,
                    "monotone g={grouping_power} n={max_value_power} v={value}"
                );
                let (low, high) = config.value_range(idx);
                assert!(
                    low <= value && value <= high,
                    "g={grouping_power} n={max_value_power} v={value} idx={idx}"
                );
                if idx != prev_idx || value == 0 {
                    // First value of a bucket: partition check.
                    assert_eq!(
                        low, next_expected_low,
                        "g={grouping_power} n={max_value_power} v={value}"
                    );
                    assert_eq!(low, value, "bucket low is its first value");
                    next_expected_low = high + 1;
                }
                prev_idx = idx;
            }
            assert_eq!(
                prev_idx,
                total - 1,
                "top value hits top bucket g={grouping_power} n={max_value_power}"
            );
            assert_eq!(
                next_expected_low,
                config.max_value() + 1,
                "partition covers domain"
            );
        }
    }
}

#[test]
fn over_range_clamps_to_top_bucket() {
    let config = Config::new(3, 10).unwrap();
    let top = config.total_buckets() - 1;
    assert_eq!(config.index_for(config.max_value()), top);
    assert_eq!(config.index_for(config.max_value() + 1), top);
    assert_eq!(config.index_for(u64::MAX), top);
}

#[test]
fn n64_top_bucket() {
    let config = Config::new(2, 64).unwrap();
    assert_eq!(config.index_for(u64::MAX), config.total_buckets() - 1);
    let (low, high) = config.value_range(config.total_buckets() - 1);
    assert!(low <= high);
    assert_eq!(high, u64::MAX);
}

#[test]
fn exact_region_is_exact() {
    let config = Config::new(4, 20).unwrap();
    for value in 0..(1u64 << 5) {
        assert_eq!(config.value_range(config.index_for(value)), (value, value));
    }
}

/// Concrete log-region indices: 1000 with g=2 sits in the group
/// of 512..1023 (s = 7), quotient 1000 >> 7 = 7, index 7*4 + 7.
#[test]
fn log_region_index_and_range() {
    let config = Config::new(2, 10).unwrap();
    assert_eq!(config.index_for(1000), 35);
    assert_eq!(config.value_range(35), (896, 1023));
    assert_eq!(config.index_for(8), 8);
    assert_eq!(config.value_range(8), (8, 9));
    assert_eq!(config.grouping_power(), 2);
    assert_eq!(config.max_value_power(), 10);
}

/// Relative error: every log-region bucket's width times 2^g is
/// at most its low end.
#[test]
fn bucket_width_within_relative_error() {
    let config = Config::new(3, 16).unwrap();
    for index in 0..config.total_buckets() {
        let (low, high) = config.value_range(index);
        if index < 16 {
            assert_eq!(low, high);
        } else {
            assert!((high - low + 1) * 8 <= low, "index {index}");
        }
    }
}

/// n = g + 1: every trackable value is exact, over-max values
/// still clamp into the top bucket.
#[test]
fn all_exact_config_clamps() {
    let config = Config::new(3, 4).unwrap();
    assert_eq!(config.total_buckets(), 16);
    assert_eq!(config.max_value(), 15);
    assert_eq!(config.index_for(15), 15);
    assert_eq!(config.index_for(16), 15);
    assert_eq!(config.index_for(u64::MAX), 15);
    assert_eq!(config.value_range(15), (15, 15));
}

/// Past the last bucket the range is meaningless but computed
/// without a panic.
#[test]
fn value_range_past_end_does_not_panic() {
    let config = Config::new(2, 8).unwrap();
    assert_eq!(config.total_buckets(), 28);
    let _ = config.value_range(280);
    let _ = config.value_range(usize::MAX);
    assert_eq!(config.value_range(27), (224, 255));
}
