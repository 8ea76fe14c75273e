use h2hist::{Config, Error, Histogram, HistogramArray};

fn cfg(grouping_power: u8, max_value_power: u8) -> Config {
    Config::new(grouping_power, max_value_power).unwrap()
}

/// Counts length of (2, 8): (8 - 2 + 1) << 2.
const BUCKETS: usize = 28;

#[test]
fn size_checked() {
    let config = cfg(2, 8);
    assert!(matches!(
        HistogramArray::<{ BUCKETS - 1 }>::new(config),
        Err(Error::StorageLen)
    ));
    assert!(HistogramArray::<BUCKETS>::new(config).is_ok());
}

#[test]
fn record_matches_borrowed() {
    const BUCKETS: usize = 80; // (12 - 3 + 1) << 3
    let config = cfg(3, 12);
    let mut owned = HistogramArray::<BUCKETS>::new(config).unwrap();
    let mut storage = [0u32; BUCKETS];
    let mut borrowed = Histogram::new(config, &mut storage).unwrap();
    for value in [0u64, 7, 8, 100, 3000, 4095, u64::MAX] {
        owned.record(value);
        borrowed.record(value);
    }
    assert_eq!(owned.total(), borrowed.total());
    for index in 0..BUCKETS {
        assert_eq!(
            owned.count_at(index),
            borrowed.count_at(index),
            "bucket {index}"
        );
    }
}

#[test]
fn as_histogram_view() {
    let config = cfg(2, 8);
    let mut hist = HistogramArray::<BUCKETS>::new(config).unwrap();
    hist.record(3);
    hist.record(3);
    let view = hist.as_histogram();
    assert_eq!(view.total(), 2);
    assert_eq!(view.count_at(3), Some(2));
}

/// The owned histogram's walk and record_n behave like the
/// borrowed one's.
#[test]
fn array_walk_and_record_n() {
    let config = cfg(2, 8);
    let mut hist = HistogramArray::<BUCKETS, u8>::new(config).unwrap();
    hist.record_n(200, 300);
    assert_eq!(hist.count_at(config.index_for(200)), Some(255));
    assert_eq!(hist.count_at(BUCKETS), None);
    let walk = hist.buckets().collect();
    assert_eq!(walk.len(), BUCKETS);
    assert_eq!(walk[BUCKETS - 1].cumulative, 255);
    assert_eq!(hist.config(), config);
}

/// `count_at` answers exactly below `LEN`, and the handed-back
/// storage has one counter per bucket.
#[test]
fn count_at_bounds_and_storage_length() {
    let config = cfg(2, 8);
    let mut owned: HistogramArray<28> = HistogramArray::new(config).unwrap();
    owned.record(3);
    assert_eq!(owned.count_at(27), Some(0));
    assert_eq!(owned.count_at(3), Some(1));
    assert_eq!(owned.count_at(28), None);

    let mut counts = vec![0u32; config.total_buckets()];
    let mut hist = Histogram::new(config, &mut counts).unwrap();
    hist.record(3);
    let storage = hist.into_counts();
    assert_eq!(storage.len(), config.total_buckets());
    assert_eq!(storage[3], 1);
}
