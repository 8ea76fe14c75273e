use h2hist::Boundary::{Max, Min, N, P, Z};
use h2hist::{Band, BandAssign, Boundary, Bucket, Config, Error, Histogram, Ladder, MidRank, RankSplit};

/// The z4/n10 ladder must match iiac-perf's documented boundary
/// sequence.
#[test]
fn ladder_matches_iiac_perf() {
    let ladder = Ladder::new(4, 10).unwrap();
    let boundaries: Vec<Boundary> = ladder.iter().collect();
    assert_eq!(
        boundaries,
        [
            Min,
            Z(4),
            Z(3),
            Z(2),
            P(1),
            P(2),
            P(3),
            P(4),
            P(5),
            P(6),
            P(7),
            P(8),
            P(9),
            N(2),
            N(3),
            N(4),
            N(5),
            N(6),
            N(7),
            N(8),
            N(9),
            N(10),
            Max,
        ]
    );
    assert_eq!(ladder.len(), 23);
    assert_eq!(ladder.iter().len(), 23);
    assert_eq!(ladder.get(23), None);
}

/// Fractions are exact: endpoints 0 and 1, interior strictly
/// increasing (compared as cross-multiplied rationals).
#[test]
fn fractions_exact_and_increasing() {
    let ladder = Ladder::new(4, 10).unwrap();
    assert_eq!(ladder.get(0).unwrap().fraction(), (0, 1));
    assert_eq!(ladder.get(ladder.len() - 1).unwrap().fraction(), (1, 1));
    let boundaries: Vec<Boundary> = ladder.iter().collect();
    for pair in boundaries.windows(2) {
        let (num_lo, den_lo) = pair[0].fraction();
        let (num_hi, den_hi) = pair[1].fraction();
        assert!(
            (num_lo as u128 * den_hi as u128) < (num_hi as u128 * den_lo as u128),
            "{:?} !< {:?}",
            pair[0],
            pair[1]
        );
    }
    // Spot values.
    assert_eq!(Z(4).fraction(), (1, 10_000));
    assert_eq!(P(5).fraction(), (5, 10));
    assert_eq!(N(2).fraction(), (99, 100));
}

/// Rank boundaries come out exact where float floor math is
/// only approximate.
#[test]
fn ranks_exact() {
    assert_eq!(Min.rank(1_000_000), 0);
    assert_eq!(Max.rank(1_000_000), 1_000_000);
    assert_eq!(Z(4).rank(1_000_000), 100);
    assert_eq!(P(5).rank(1_000_001), 500_000);
    assert_eq!(N(2).rank(1_000), 990);
    // Huge totals stay exact via the u128 product.
    assert_eq!(P(9).rank(u64::MAX), ((u64::MAX as u128 * 9) / 10) as u64);
    // n2's fraction lands within a ulp of 0.99 (the trim anchor).
    let (num, den) = N(2).fraction();
    assert!((num as f64 / den as f64 - 0.99).abs() < 1e-12);
}

/// Depths outside 2..=19 are rejected.
#[test]
fn depth_validation() {
    assert!(Ladder::new(2, 2).is_ok());
    assert!(Ladder::new(4, 19).is_ok());
    assert!(matches!(Ladder::new(1, 10), Err(Error::BandDepth)));
    assert!(matches!(Ladder::new(4, 1), Err(Error::BandDepth)));
    assert!(matches!(Ladder::new(20, 10), Err(Error::BandDepth)));
    assert!(matches!(Ladder::new(4, 20), Err(Error::BandDepth)));
}

/// The demo's z4/n8 depths: the demo's 19 fences plus min and
/// max.
#[test]
fn demo_depths() {
    let ladder = Ladder::new(4, 8).unwrap();
    assert_eq!(ladder.len(), 21);
    assert_eq!(ladder.get(0), Some(Min));
    assert_eq!(ladder.get(ladder.len() - 2), Some(N(8)));
    assert_eq!(ladder.get(ladder.len() - 1), Some(Max));
}

/// A bucket whose rank span is the whole run: `RankSplit`
/// spreads the counts across every band's exact rank span,
/// `MidRank` drops the whole bucket in the p50 band.
#[test]
fn conventions_disagree_on_straddling_bucket() {
    let ladder = Ladder::new(2, 2).unwrap(); // 13 bounds, 12 bands
    let bucket = Bucket {
        low: 5,
        high: 5,
        count: 100,
        cumulative: 100,
    };

    let mut split_bands = [Band::default(); 12];
    RankSplit::new().assign(&bucket, 100, &ladder, &mut split_bands);
    let split_counts: Vec<u64> = split_bands.iter().map(|band| band.count).collect();
    // Fences at ranks 1, 10, 20, .. 90, 99, 100.
    assert_eq!(split_counts, [1, 9, 10, 10, 10, 10, 10, 10, 10, 10, 9, 1]);
    assert_eq!(split_bands.iter().map(|band| band.count).sum::<u64>(), 100);

    let mut mid_bands = [Band::default(); 12];
    MidRank::new().assign(&bucket, 100, &ladder, &mut mid_bands);
    let mid_counts: Vec<u64> = mid_bands.iter().map(|band| band.count).collect();
    // Mid-rank 0.5, right-closed: all 100 in the p50 band.
    assert_eq!(mid_counts, [0, 0, 0, 0, 0, 100, 0, 0, 0, 0, 0, 0]);
}

/// Mid-rank exactly on a fence lands in the band that fence caps
/// (right-closed).
#[test]
fn mid_rank_right_closed() {
    let ladder = Ladder::new(2, 2).unwrap();
    // Band indices: 0 z2, 1 p10, .. 9 p90, 10 n2, 11 max.
    let cases = [
        (50u64, 20u64, 4usize), // mid 0.40 → exactly the p40 fence
        (100, 2, 10),           // mid 0.99 → exactly the n2 fence
        (50, 10, 5),            // mid 0.45 → interior, p50 band
        (100, 100, 5),          // mid 0.50 → exactly the p50 fence
    ];
    for (cumulative, count, expected_band) in cases {
        let bucket = Bucket {
            low: 7,
            high: 7,
            count,
            cumulative,
        };
        let mut bands = [Band::default(); 12];
        MidRank::new().assign(&bucket, 100, &ladder, &mut bands);
        for (index, band) in bands.iter().enumerate() {
            let expected = if index == expected_band { count } else { 0 };
            assert_eq!(
                band.count, expected,
                "cum={cumulative} count={count} band={index}"
            );
        }
    }
}

/// A full histogram pass: `RankSplit` partitions the total
/// exactly (fence spans with zero ranks stay empty), `MidRank`
/// conserves the total; the top value splits them (max band vs
/// n2 band).
#[test]
fn full_pass_over_histogram_buckets() {
    let config = Config::new(2, 8).unwrap();
    let mut counts = vec![0u32; config.total_buckets()];
    let mut hist = Histogram::new(config, &mut counts).unwrap();
    for value in 0..10u64 {
        hist.record(value);
    }

    let ladder = Ladder::new(2, 2).unwrap();
    let total = hist.total();

    let mut split_bands = [Band::default(); 12];
    let mut splitter = RankSplit::new();
    for bucket in hist.buckets().collect() {
        splitter.assign(&bucket, total, &ladder, &mut split_bands);
    }
    let split_counts: Vec<u64> = split_bands.iter().map(|band| band.count).collect();
    // total=10: z2 fence rank 0 (empty), deciles rank 1..9, n2
    // fence rank 9 (empty span), max takes rank 10.
    assert_eq!(split_counts, [0, 1, 1, 1, 1, 1, 1, 1, 1, 1, 0, 1]);

    let mut mid_bands = [Band::default(); 12];
    let mut mid = MidRank::new();
    for bucket in hist.buckets().collect() {
        mid.assign(&bucket, total, &ladder, &mut mid_bands);
    }
    assert_eq!(mid_bands.iter().map(|band| band.count).sum::<u64>(), 10);
    // Values 8 and 9 share one bucket (the exact region ends at
    // 7); its mid-rank is exactly 0.9 → the whole pair lands in
    // the p90 band, while RankSplit put rank 10 in the max band.
    assert_eq!(mid_bands[9].count, 2);
    assert_eq!(mid_bands[10].count, 0);
    assert_eq!(mid_bands[11].count, 0);
}

/// Band folding via assignment: first/last track the
/// contributing buckets' bounds, the mass their midpoints;
/// empty buckets change nothing.
#[test]
fn band_fold_bounds_and_mass() {
    let ladder = Ladder::new(2, 2).unwrap();
    let mut bands = [Band::default(); 12];
    let mut mid = MidRank::new();
    // Two buckets, both mid-rank interior to the p50 band.
    let first = Bucket {
        low: 10,
        high: 11,
        count: 3,
        cumulative: 44,
    };
    let second = Bucket {
        low: 12,
        high: 13,
        count: 4,
        cumulative: 48,
    };
    let empty = Bucket {
        low: 14,
        high: 15,
        count: 0,
        cumulative: 48,
    };
    mid.assign(&first, 100, &ladder, &mut bands);
    mid.assign(&second, 100, &ladder, &mut bands);
    mid.assign(&empty, 100, &ladder, &mut bands);
    let band = &bands[5];
    assert_eq!(band.first, 10);
    assert_eq!(band.last, 13);
    assert_eq!(band.count, 7);
    let expected = 3.0 * 10.5 + 4.0 * 12.5;
    let mean_mass = (band.low_mass + band.high_mass) as f64 / 2.0;
    assert!((mean_mass - expected).abs() < 1e-9);
}

/// Folding adds the count and the low/high masses exactly.
#[test]
fn band_fold_exact_mass() {
    let mut band = Band::default();
    band.fold(10, 11, 3);
    band.fold(12, 13, 4);
    assert_eq!(
        band,
        Band { first: 10, last: 13, count: 7, low_mass: 78, high_mass: 85 }
    );
}

/// The masses stay exact at the extremes: `u64::MAX` occurrences
/// of `u64::MAX` keep their full weight, so the mean reads back.
#[test]
fn band_fold_extreme_mass() {
    let mut band = Band::default();
    band.fold(u64::MAX, u64::MAX, u64::MAX);
    let exact = u64::MAX as u128 * u64::MAX as u128;
    assert_eq!(band.low_mass, exact);
    assert_eq!(band.high_mass, exact);
    let mean = (band.low_mass / band.count as u128 + band.high_mass / band.count as u128) / 2;
    assert_eq!(mean, u64::MAX as u128);
}

/// The ladder's accessors and the 10^k saturation of deep tails.
#[test]
fn ladder_accessors_and_deep_fractions() {
    let ladder = Ladder::new(3, 5).unwrap();
    assert_eq!(ladder.z_depth(), 3);
    assert_eq!(ladder.n_depth(), 5);
    assert_eq!(ladder.len(), 17);
    assert_eq!(ladder.band_count(), 16);
    assert!(!ladder.is_empty());
    assert_eq!(N(19).fraction(), (9_999_999_999_999_999_999, 10_000_000_000_000_000_000));
    assert_eq!(Z(20).fraction(), (1, u64::MAX));
    let mut walk = ladder.iter();
    assert_eq!(walk.next(), Some(Min));
    assert_eq!(walk.next(), Some(Z(3)));
    assert_eq!(walk.len(), 15);
}

/// Each convention names itself.
#[test]
fn assigners_name_themselves() {
    assert_eq!(RankSplit::new().name(), "rank-split");
    assert_eq!(MidRank::new().name(), "mid-rank");
}
