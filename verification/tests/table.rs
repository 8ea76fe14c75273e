use h2hist::{Band, BandAssign, BandTable, Boundary, Bucket, Config, Error, Histogram, Ladder, MidRank, RankSplit};

/// Band capacity of the z2/n2 ladder: 13 boundaries, 12 bands.
const CAP: usize = 12;

fn ladder() -> Ladder {
    Ladder::new(2, 2).unwrap()
}

fn walk_of(values: impl Iterator<Item = u64>) -> Vec<Bucket> {
    let config = Config::new(2, 8).unwrap();
    let mut counts = vec![0u32; config.total_buckets()];
    let mut hist = Histogram::new(config, &mut counts).unwrap();
    for value in values {
        hist.record(value);
    }
    hist.buckets().collect()
}

/// The table's bands match a manual assignment pass.
#[test]
fn table_bands_match_manual_pass() {
    let walk = walk_of(0..10u64);
    let table: BandTable<CAP> = BandTable::build(ladder(), RankSplit::new(), &walk).unwrap();
    assert_eq!(ladder().band_count(), CAP);
    assert_eq!(table.total(), 10);
    assert_eq!(table.bands().len(), 12);
    assert_eq!(table.ladder(), ladder());

    let mut manual = [Band::default(); CAP];
    let mut splitter = RankSplit::new();
    for bucket in &walk {
        splitter.assign(bucket, 10, &ladder(), &mut manual);
    }
    assert_eq!(table.bands(), &manual[..]);
    // n2 rank of 10 samples: floor(10 * 99/100) = 9.
    assert_eq!(Boundary::N(2).rank(table.total()), 9);
}

/// The trim range names the populated extent below the n2 cut by
/// upper boundary.
#[test]
fn trim_range_extent() {
    let walk = walk_of(0..10u64);
    let table: BandTable<CAP> = BandTable::build(ladder(), RankSplit::new(), &walk).unwrap();
    // Ranks 1..9 populate the p10..p90 bands; rank 10 goes to max
    // (past the cut) and the z2 span is empty.
    assert_eq!(table.trim_range(), Some((Boundary::P(1), Boundary::P(9))));
}

/// MidRank assembly conserves the total.
#[test]
fn mid_rank_build_conserves_total() {
    let walk = walk_of((0..100u64).map(|value| value % 20));
    let table: BandTable<CAP> = BandTable::build(ladder(), MidRank::new(), &walk).unwrap();
    let band_total: u64 = table.bands().iter().map(|band| band.count).sum();
    assert_eq!(band_total, table.total());
}

/// Capacity below the ladder's band count is rejected.
#[test]
fn capacity_checked() {
    let walk = walk_of(0..0u64);
    let short: Result<BandTable<{ CAP - 1 }>, Error> =
        BandTable::build(ladder(), RankSplit::new(), &walk);
    assert!(matches!(short, Err(Error::TableCapacity)));
}

/// An empty histogram assembles to a zeroed table.
#[test]
fn empty_walk_zeroed_table() {
    let walk = walk_of(0..0u64);
    let table: BandTable<CAP> = BandTable::build(ladder(), RankSplit::new(), &walk).unwrap();
    assert_eq!(table.total(), 0);
    assert!(table.bands().iter().all(|band| band.count == 0));
    assert_eq!(table.trim_range(), None);
}

/// RankSplit tables partition the total exactly; a larger
/// capacity than needed is fine.
#[test]
fn rank_split_table_partitions_total() {
    let walk = walk_of((0..1000u64).map(|value| (value * 37) % 256));
    let table: BandTable<20> = BandTable::build(ladder(), RankSplit::new(), &walk).unwrap();
    let band_total: u64 = table.bands().iter().map(|band| band.count).sum();
    assert_eq!(table.total(), 1000);
    assert_eq!(band_total, 1000);
    assert_eq!(table.bands().len(), 12);
    // Every decile band holds exactly a tenth of the ranks, less
    // the tail fences' share.
    assert_eq!(table.bands()[0].count, 10);
    assert_eq!(table.bands()[1].count, 90);
    assert_eq!(table.bands()[5].count, 100);
}

/// MidRank keeps value edges disjoint: each populated band's
/// values lie wholly below the next populated band's.
#[test]
fn mid_rank_value_edges_disjoint() {
    let walk = walk_of((0..300u64).map(|value| (value * 11) % 256));
    let table: BandTable<CAP> = BandTable::build(ladder(), MidRank::new(), &walk).unwrap();
    let populated: Vec<&Band> = table.bands().iter().filter(|band| band.count > 0).collect();
    assert!(populated.len() > 1);
    for band in &populated {
        assert!(band.first <= band.last);
    }
    for pair in populated.windows(2) {
        assert!(pair[0].last < pair[1].first);
    }
}

/// RankSplit band counts are the exact rank spans between fences.
#[test]
fn rank_split_bands_are_fence_spans() {
    let walk = walk_of((0..777u64).map(|value| (value * 5) % 256));
    let table: BandTable<CAP> = BandTable::build(ladder(), RankSplit::new(), &walk).unwrap();
    let total = table.total();
    let boundaries: Vec<Boundary> = ladder().iter().collect();
    for (index, band) in table.bands().iter().enumerate() {
        let lower = boundaries[index].rank(total);
        let upper = boundaries[index + 1].rank(total);
        assert_eq!(band.count, upper - lower);
    }
}

/// A RankSplit band's first/last are the low end of the first
/// and the high end of the last bucket with ranks in its span.
#[test]
fn rank_split_band_ends() {
    let walk = walk_of((0..40u64).map(|value| value * 6));
    let table: BandTable<CAP> = BandTable::build(ladder(), RankSplit::new(), &walk).unwrap();
    let total = table.total();
    let boundaries: Vec<Boundary> = ladder().iter().collect();
    for (index, band) in table.bands().iter().enumerate() {
        let lower = boundaries[index].rank(total);
        let upper = boundaries[index + 1].rank(total);
        let reaching: Vec<&Bucket> = walk
            .iter()
            .filter(|b| {
                let start = b.cumulative - b.count;
                b.count > 0 && start < upper && b.cumulative > lower
            })
            .collect();
        if band.count == 0 {
            assert!(reaching.is_empty());
            assert_eq!(*band, Band::default());
        } else {
            assert_eq!(band.first, reaching[0].low);
            assert_eq!(band.last, reaching[reaching.len() - 1].high);
        }
    }
}

/// The trimmed window `(0, rank(n2)]` of ten samples holds nine
/// ranks, summed bucket by bucket or counted at once.
#[test]
fn trimmed_window_counts_nine() {
    let walk = walk_of(0..10u64);
    let cut = Boundary::N(2).rank(10);
    assert_eq!(cut, 9);
    let summed: u64 = walk.iter().map(|bucket| bucket.window_ranks(0, cut)).sum();
    assert_eq!(summed, 9);
    assert_eq!(h2hist::window_count(&walk, 0, cut), 9);
    assert_eq!(h2hist::window_count(&walk, 0, u64::MAX), 10);
    assert_eq!(h2hist::window_count(&walk, 2, 5), 3);
}
