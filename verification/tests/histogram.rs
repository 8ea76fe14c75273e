use h2hist::{Config, Error, Histogram};

fn cfg(grouping_power: u8, max_value_power: u8) -> Config {
    Config::new(grouping_power, max_value_power).unwrap()
}

/// Counts length of the (2, 8) config most tests here use:
/// (8 - 2 + 1) << 2.
const BUCKETS: usize = 28;

#[test]
fn storage_len_checked() {
    let config = cfg(2, 8);
    assert_eq!(config.total_buckets(), BUCKETS);
    let mut too_short = [0u32; BUCKETS - 1];
    assert!(matches!(
        Histogram::new(config, &mut too_short),
        Err(Error::StorageLen)
    ));
    let mut right = [0u32; BUCKETS];
    assert!(Histogram::new(config, &mut right).is_ok());
}

#[test]
fn record_exact_region() {
    let config = cfg(3, 10);
    let mut counts = vec![0u32; config.total_buckets()];
    let mut hist = Histogram::new(config, &mut counts).unwrap();
    hist.record(0);
    hist.record(5);
    hist.record(5);
    assert_eq!(hist.total(), 3);
    assert_eq!(hist.count_at(0), Some(1));
    assert_eq!(hist.count_at(5), Some(2));
    assert_eq!(hist.count_at(6), Some(0));
}

#[test]
fn record_n_and_clamp() {
    let config = cfg(2, 8);
    let mut counts = [0u32; BUCKETS];
    let mut hist = Histogram::new(config, &mut counts).unwrap();
    hist.record_n(1_000_000, 7); // way over max_value = 255
    assert_eq!(hist.total(), 7);
    assert_eq!(hist.count_at(BUCKETS - 1), Some(7));
}

#[test]
fn counter_saturates_not_wraps() {
    let tiny = cfg(0, 1); // 2 buckets, minimal config
    let mut counts = [u8::MAX - 1, 0u8];
    let mut hist = Histogram::new(tiny, &mut counts).unwrap();
    hist.record(0);
    hist.record(0);
    hist.record(0);
    assert_eq!(hist.count_at(0), Some(u8::MAX as u64));
    // total is the sum of counts, so it saturates with them.
    assert_eq!(hist.total(), u8::MAX as u64);
}

#[test]
fn rebind_total_from_counts() {
    let config = cfg(2, 8);
    let mut counts = [0u32; BUCKETS];
    {
        let mut hist = Histogram::new(config, &mut counts).unwrap();
        hist.record(3);
        hist.record(200);
    }
    // Rebind the same storage: total reads the counts.
    let hist = Histogram::new(config, &mut counts).unwrap();
    assert_eq!(hist.total(), 2);
}

#[test]
fn into_counts_hands_storage_back() {
    let config = cfg(2, 8);
    let mut counts = [0u32; BUCKETS];
    let mut hist = Histogram::new(config, &mut counts).unwrap();
    hist.record(3);
    let slice = hist.into_counts();
    assert_eq!(slice[3], 1);
}

/// count_at past the last bucket is None; config is kept.
#[test]
fn count_at_past_end_and_config() {
    let config = cfg(2, 8);
    let mut counts = [0u32; BUCKETS];
    let hist = Histogram::new(config, &mut counts).unwrap();
    assert_eq!(hist.count_at(BUCKETS), None);
    assert_eq!(hist.config(), config);
}

/// The total saturates at u64::MAX when the counts' sum exceeds it.
#[test]
fn total_saturates() {
    let tiny = cfg(0, 1);
    let mut counts = [u64::MAX, 5u64];
    let hist = Histogram::new(tiny, &mut counts).unwrap();
    assert_eq!(hist.total(), u64::MAX);
}

/// Records of a value land where index_for says, and a second
/// record_n composes with the first.
#[test]
fn record_n_composes() {
    let config = cfg(3, 12);
    let mut counts = vec![0u16; config.total_buckets()];
    let mut hist = Histogram::new(config, &mut counts).unwrap();
    hist.record_n(500, 3);
    hist.record_n(500, 4);
    assert_eq!(hist.count_at(config.index_for(500)), Some(7));
    assert_eq!(hist.total(), 7);
}
