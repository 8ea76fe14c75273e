use h2hist::{Bucket, Config, Error, Histogram, HistogramArray};

fn cfg(grouping_power: u8, max_value_power: u8) -> Config {
    Config::new(grouping_power, max_value_power).unwrap()
}

#[test]
fn buckets_cumulative_and_partition() {
    let config = cfg(2, 8);
    let mut counts = vec![0u32; config.total_buckets()];
    let mut hist = Histogram::new(config, &mut counts).unwrap();
    for value in [0u64, 3, 3, 9, 100, 255] {
        hist.record(value);
    }
    let buckets: Vec<Bucket> = hist.buckets().collect();
    assert_eq!(buckets.len(), config.total_buckets());
    assert_eq!(buckets.last().unwrap().cumulative, hist.total());
    // Contiguous partition, cumulative monotone.
    for pair in buckets.windows(2) {
        assert_eq!(pair[0].high + 1, pair[1].low);
        assert!(pair[0].cumulative <= pair[1].cumulative);
    }
    // Counts land where index_for says.
    assert_eq!(buckets[config.index_for(3)].count, 2);
}

#[test]
fn merge_sums_and_mismatch() {
    let config = cfg(3, 12);
    let mut counts_a = vec![0u32; config.total_buckets()];
    let mut counts_b = vec![0u32; config.total_buckets()];
    let mut hist_a = Histogram::new(config, &mut counts_a).unwrap();
    let mut hist_b = Histogram::new(config, &mut counts_b).unwrap();
    for value in [1u64, 500, 4000] {
        hist_a.record(value);
        hist_b.record(value);
        hist_b.record(value);
    }
    hist_a.merge_from(&hist_b).unwrap();
    assert_eq!(hist_a.total(), 9);
    assert_eq!(hist_a.count_at(config.index_for(500)), Some(3));

    let other_config = cfg(2, 12);
    let mut other_counts = vec![0u32; other_config.total_buckets()];
    let other = Histogram::new(other_config, &mut other_counts).unwrap();
    assert!(matches!(
        hist_a.merge_from(&other),
        Err(Error::ConfigMismatch)
    ));
}

/// The bucket walk reports each bucket once, `len` counts down,
/// and the walk ends with None.
#[test]
fn bucket_walk_steps() {
    let config = cfg(1, 4);
    let mut counts = vec![0u8; config.total_buckets()];
    let mut hist = Histogram::new(config, &mut counts).unwrap();
    hist.record(2);
    hist.record(9);
    let mut walk = hist.buckets();
    assert_eq!(walk.len(), 8);
    let first = walk.next().unwrap();
    assert_eq!(first, Bucket { low: 0, high: 0, count: 0, cumulative: 0 });
    assert_eq!(walk.len(), 7);
    let rest = walk.collect();
    assert_eq!(rest.len(), 7);
    assert_eq!(rest[1], Bucket { low: 2, high: 2, count: 1, cumulative: 1 });
    assert_eq!(rest[5], Bucket { low: 8, high: 11, count: 1, cumulative: 2 });
    let mut done = hist.buckets();
    for _ in 0..8 {
        assert!(done.next().is_some());
    }
    assert_eq!(done.next(), None);
}

/// Rank lookups: 1..=100 recorded once each in an exact-region
/// config give exact order statistics; ranks clamp into
/// 1..=total; an empty histogram has none.
#[test]
fn value_at_rank_order_statistics() {
    let config = cfg(7, 20);
    let mut counts = vec![0u32; config.total_buckets()];
    let mut hist = Histogram::new(config, &mut counts).unwrap();
    assert_eq!(hist.value_at_rank(1), None);
    for value in 1..=100u64 {
        hist.record(value);
    }
    assert_eq!(hist.value_at_rank(0), Some(1));
    assert_eq!(hist.value_at_rank(1), Some(1));
    assert_eq!(hist.value_at_rank(50), Some(50));
    assert_eq!(hist.value_at_rank(90), Some(90));
    assert_eq!(hist.value_at_rank(100), Some(100));
    assert_eq!(hist.value_at_rank(1_000), Some(100));
}

/// In the log region a rank reads as its bucket's upper bound.
#[test]
fn value_at_rank_upper_bound_convention() {
    let config = cfg(2, 10);
    let mut counts = vec![0u32; config.total_buckets()];
    let mut hist = Histogram::new(config, &mut counts).unwrap();
    hist.record(1000);
    let (low, high) = config.value_range(config.index_for(1000));
    assert!(low <= 1000 && 1000 <= high);
    assert_eq!(hist.value_at_rank(1), Some(high));
    assert_eq!(high, 1023);
}

#[test]
fn array_merge_matches_total() {
    const BUCKETS: usize = 80; // (12 - 3 + 1) << 3
    let config = cfg(3, 12);
    let mut owned = HistogramArray::<BUCKETS>::new(config).unwrap();
    for value in [0u64, 7, 8, 100, 3000, 4095] {
        owned.record(value);
    }
    let mut owned2 = HistogramArray::<BUCKETS>::new(config).unwrap();
    owned2.merge_from(&owned).unwrap();
    assert_eq!(owned2.total(), owned.total());
    assert_eq!(owned2.value_at_rank(6), Some(4095));
}

/// Each rank reads back the bucket of the recorded value at that
/// rank: its upper bound, at or above the value and within its
/// bucket.
#[test]
fn rank_read_finds_recorded_value() {
    let config = cfg(2, 20);
    let mut counts = vec![0u32; config.total_buckets()];
    let mut hist = Histogram::new(config, &mut counts).unwrap();
    let values = [3u64, 5, 100, 1000, 1000, 70_000];
    for &value in values.iter().rev() {
        hist.record(value);
    }
    for (position, &value) in values.iter().enumerate() {
        let (low, high) = config.value_range(config.index_for(value));
        let read = hist.value_at_rank(position as u64 + 1).unwrap();
        assert_eq!(read, high);
        assert!(low <= value && value <= read);
    }
    // 70_000 sits in a bucket 2^14 wide starting at 65_536.
    assert_eq!(hist.value_at_rank(6), Some(81_919));
}

/// Higher ranks never read lower values.
#[test]
fn rank_reads_are_monotone() {
    let config = cfg(3, 16);
    let mut counts = vec![0u16; config.total_buckets()];
    let mut hist = Histogram::new(config, &mut counts).unwrap();
    for value in 0..500u64 {
        hist.record((value * value) % 40_000);
    }
    let mut previous = 0u64;
    for rank in 0..=501u64 {
        let read = hist.value_at_rank(rank).unwrap();
        assert!(read >= previous);
        previous = read;
    }
}

/// Recording adds the count to the total until the counter
/// saturates; merging adds the totals.
#[test]
fn record_and_merge_totals() {
    let config = cfg(2, 10);
    let mut counts = vec![0u8; config.total_buckets()];
    let mut hist = Histogram::new(config, &mut counts).unwrap();
    hist.record_n(7, 200);
    assert_eq!(hist.total(), 200);
    hist.record_n(7, 100);
    // The bucket's u8 counter stops at 255.
    assert_eq!(hist.total(), 255);
    hist.record_n(900, 40);
    assert_eq!(hist.total(), 295);

    let mut other_counts = vec![0u8; config.total_buckets()];
    let mut other = Histogram::new(config, &mut other_counts).unwrap();
    other.record_n(1, 10);
    other.record_n(900, 5);
    hist.merge_from(&other).unwrap();
    assert_eq!(hist.total(), 310);
}

/// A histogram's walk is consistent and ascends in value: each
/// bucket starts where the previous one ended, in ranks and in
/// values.
#[test]
fn histogram_walk_is_consistent_and_ascending() {
    let config = cfg(2, 12);
    let mut counts = vec![0u32; config.total_buckets()];
    let mut hist = Histogram::new(config, &mut counts).unwrap();
    for value in (0..4000u64).step_by(7) {
        hist.record(value);
    }
    let walk: Vec<Bucket> = hist.buckets().collect();
    assert_eq!(walk.len(), config.total_buckets());
    assert_eq!(walk[0].cumulative - walk[0].count, 0);
    for pair in walk.windows(2) {
        assert_eq!(pair[1].cumulative - pair[1].count, pair[0].cumulative);
        assert!(pair[0].low <= pair[0].high);
        assert_eq!(pair[0].high + 1, pair[1].low);
    }
    assert_eq!(walk.last().unwrap().cumulative, hist.total());
}

/// Rank windows count exact ranks, bucket by bucket.
#[test]
fn window_ranks_count_exactly() {
    let bucket = Bucket { low: 8, high: 11, count: 5, cumulative: 10 };
    // Ranks 6..=10.
    assert_eq!(bucket.window_ranks(0, u64::MAX), 5);
    assert_eq!(bucket.window_ranks(7, 9), 2);
    assert_eq!(bucket.window_ranks(10, 20), 0);
    assert_eq!(bucket.window_ranks(0, 5), 0);
    let empty = Bucket { low: 0, high: 0, count: 0, cumulative: 10 };
    assert_eq!(empty.window_ranks(0, 20), 0);

    let config = cfg(2, 12);
    let mut counts = vec![0u32; config.total_buckets()];
    let mut hist = Histogram::new(config, &mut counts).unwrap();
    for value in 0..1000u64 {
        hist.record(value * 3);
    }
    let walk: Vec<Bucket> = hist.buckets().collect();
    let all: u64 = walk.iter().map(|b| b.window_ranks(0, u64::MAX)).sum();
    assert_eq!(all, 1000);
    let inner: u64 = walk.iter().map(|b| b.window_ranks(100, 990)).sum();
    assert_eq!(inner, 890);
}
