use h2hist::{
    Band, BandLabels, BandTable, Bucket, Config, Histogram, Layout, Ladder, RankSplit, StatCells,
    render_band_table,
};

/// Band capacity of the z2/n2 ladder.
const CAP: usize = 12;

/// Ten samples of value 5, assembled over the z2/n2 ladder.
fn predictable_table() -> BandTable<CAP> {
    let config = Config::new(2, 8).unwrap();
    let mut counts = vec![0u32; config.total_buckets()];
    let mut hist = Histogram::new(config, &mut counts).unwrap();
    hist.record_n(5, 10);
    let walk: Vec<Bucket> = hist.buckets().collect();
    let ladder = Ladder::new(2, 2).unwrap();
    assert_eq!(ladder.band_count(), CAP);
    BandTable::build(ladder, RankSplit::new(), &walk).unwrap()
}

/// Mean cell of a band, one decimal.
fn mean_cell(band: &Band) -> String {
    if band.count == 0 {
        return String::new();
    }
    format!("{:.1}", (band.low_mass + band.high_mass) as f64 / (2.0 * band.count as f64))
}

/// Cells of the predictable table: every value is 5, so every
/// mean is 5.0 and every stdev 0.0.
fn predictable_cells(table: &BandTable<CAP>) -> StatCells {
    StatCells {
        band_means: table.bands().iter().map(mean_cell).collect(),
        overall_mean: String::from("5.0"),
        overall_stdev: String::from("0.0"),
        trimmed_mean: String::from("5.0"),
        trimmed_stdev: String::from("0.0"),
    }
}

/// A fully predictable table (every value identical) renders
/// byte-identically to the demo's format strings.
#[test]
fn render_matches_demo_format() {
    let table = predictable_table();
    let cells = predictable_cells(&table);
    let rendered = render_band_table(&table, BandLabels::Both, &Layout::demo_legacy(), &cells);

    let mut expected = String::new();
    expected.push_str(&format!(
        "{:<4} {:<13} {:>14} {:>14} {:>14} {:>12} {:>14}\n",
        "", "", "first", "last", "range", "count", "mean"
    ));
    for decile in 1..=9u8 {
        expected.push_str(&format!(
            "{:<4} {:<13} {:>14} {:>14} {:>14} {:>12} {:>14}\n",
            format!("p{decile}0"),
            format!("0.{decile}0"),
            "5",
            "5",
            "0",
            "1",
            "5.0"
        ));
    }
    expected.push_str(&format!(
        "{:<4} {:<13} {:>14} {:>14} {:>14} {:>12} {:>14}\n",
        "max", "", "5", "5", "0", "1", "5.0"
    ));
    expected.push('\n');
    expected.push_str(&format!("{:<18} {:>14}\n", "mean", "5.0"));
    expected.push_str(&format!("{:<18} {:>14}\n", "stdev", "0.0"));
    expected.push_str(&format!("{:<18} {:>14}\n", "mean p10..p90", "5.0"));
    expected.push_str(&format!("{:<18} {:>14}\n", "stdev p10..p90", "0.0"));
    assert_eq!(rendered, expected);
}

/// Measured layout is snug and renders aligned rows.
#[test]
fn measured_layout() {
    let table = predictable_table();
    let cells = predictable_cells(&table);
    let layout = Layout::measure(&table, BandLabels::Both, 1, &cells);
    // Snug: zpn 3 ("p10"), value 5 ("first"), count 5
    // ("count"); frac widened so "stdev p10..p90" fits the
    // label region (3 + 1 + frac >= 14).
    assert_eq!(layout.zpn_width, 3);
    assert_eq!(layout.value_width, 5);
    assert_eq!(layout.count_width, 5);
    assert!(layout.zpn_width + 1 + layout.frac_width >= "stdev p10..p90".len());

    let rendered = render_band_table(&table, BandLabels::Both, &layout, &cells);
    let lines: Vec<&str> = rendered.lines().collect();
    let header_len = lines[0].len();
    for line in &lines[1..11] {
        assert_eq!(line.len(), header_len, "line: {line:?}");
    }
}

/// Single-cell styles grow the only label cell to the trimmed
/// summary label, and drop the fraction cell.
#[test]
fn measured_layout_single_cell() {
    let table = predictable_table();
    let cells = predictable_cells(&table);
    let layout = Layout::measure(&table, BandLabels::Zpn, 2, &cells);
    assert_eq!(layout.frac_width, 0);
    assert_eq!(layout.zpn_width, "stdev p10..p90".len());
    assert_eq!(layout.decimals, 2);
    let rendered = render_band_table(&table, BandLabels::Zpn, &layout, &cells);
    let first_row = rendered.lines().nth(1).unwrap();
    assert!(first_row.starts_with("p10 "));
    assert!(rendered.ends_with("stdev p10..p90   0.0\n"));
}

/// The demo layout's fixed widths.
#[test]
fn demo_legacy_widths() {
    let layout = Layout::demo_legacy();
    assert_eq!(
        (layout.zpn_width, layout.frac_width, layout.value_width, layout.count_width, layout.decimals),
        (4, 13, 14, 12, 1)
    );
}

/// A report has a line per populated band plus four, or six with
/// the trimmed rows; every band row is as wide as the header
/// under a measured layout.
#[test]
fn report_line_structure() {
    let table = predictable_table();
    let cells = predictable_cells(&table);
    let populated = table.bands().iter().filter(|band| band.count > 0).count();
    let layout = Layout::measure(&table, BandLabels::Frac, 1, &cells);
    let rendered = render_band_table(&table, BandLabels::Frac, &layout, &cells);
    assert!(rendered.ends_with('\n'));
    assert!(table.trim_range().is_some());
    assert_eq!(rendered.matches('\n').count(), 6 + populated);
    let lines: Vec<&str> = rendered.lines().collect();
    for line in &lines[1..=populated] {
        assert_eq!(line.len(), lines[0].len());
    }
    assert_eq!(lines[populated + 1], "");

    // Everything past the n2 cut: no trimmed rows.
    let config = Config::new(2, 8).unwrap();
    let mut counts = vec![0u32; config.total_buckets()];
    let hist = Histogram::new(config, &mut counts).unwrap();
    let walk: Vec<Bucket> = hist.buckets().collect();
    let empty: BandTable<CAP> =
        BandTable::build(Ladder::new(2, 2).unwrap(), RankSplit::new(), &walk).unwrap();
    let empty_cells = predictable_cells(&empty);
    let text = render_band_table(&empty, BandLabels::Zpn, &Layout::demo_legacy(), &empty_cells);
    assert_eq!(text.matches('\n').count(), 4);
}
