use h2hist::{Config, Histogram};

/// Boundary values (power-of-two edges) land in the same buckets
/// as the h2 oracle.
#[test]
fn h2_counts_parity_boundaries() {
    let (grouping_power, max_value_power) = (5u8, 24u8);
    let config = Config::new(grouping_power, max_value_power).unwrap();
    let mut ours_storage = vec![0u64; config.total_buckets()];
    let mut ours = Histogram::new(config, &mut ours_storage).unwrap();
    let mut oracle = histogram::Histogram::new(grouping_power, max_value_power).unwrap();

    let mut push = |value: u64| {
        ours.record(value);
        oracle.increment(value).unwrap();
    };
    push(0);
    push(config.max_value());
    for exp in 0..max_value_power as u32 {
        let power_of_two = 1u64 << exp;
        push(power_of_two);
        push(power_of_two - 1);
        if power_of_two < config.max_value() {
            push(power_of_two + 1);
        }
    }

    for (index, &oracle_count) in oracle.as_slice().iter().enumerate() {
        assert_eq!(ours.count_at(index), Some(oracle_count), "bucket {index}");
    }
}

/// Exact counts parity with the h2 oracle on a seeded uniform
/// stream (over-max values masked off — the oracle rejects them
/// while we clamp).
#[test]
fn h2_counts_parity_uniform() {
    for (grouping_power, max_value_power) in [(2u8, 10u8), (4, 20), (7, 30), (7, 40)] {
        let config = Config::new(grouping_power, max_value_power).unwrap();
        let mut ours_storage = vec![0u64; config.total_buckets()];
        let mut ours = Histogram::new(config, &mut ours_storage).unwrap();
        let mut oracle = histogram::Histogram::new(grouping_power, max_value_power).unwrap();
        let mut rng = h2hist::SplitMix64(
            0xDEAD_BEEF ^ ((grouping_power as u64) << 8) ^ max_value_power as u64,
        );
        for _ in 0..50_000 {
            let value = rng.next() & config.max_value();
            ours.record(value);
            oracle.increment(value).unwrap();
        }
        let oracle_counts = oracle.as_slice();
        assert_eq!(config.total_buckets(), oracle_counts.len());
        for (index, &oracle_count) in oracle_counts.iter().enumerate() {
            assert_eq!(
                ours.count_at(index),
                Some(oracle_count),
                "bucket {index} differs g={grouping_power} n={max_value_power}"
            );
        }
    }
}
