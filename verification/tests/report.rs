use h2hist::{
    BandLabels, Boundary, Ladder, boundary_label, fmt_commas, frac_label, summary_label,
    trim_name, zpn_label,
};

/// Thousands separators, u64 end to end.
#[test]
fn commas_shapes() {
    assert_eq!(fmt_commas(0), "0");
    assert_eq!(fmt_commas(999), "999");
    assert_eq!(fmt_commas(1_000), "1,000");
    assert_eq!(fmt_commas(1_234_567), "1,234,567");
    assert_eq!(fmt_commas(u64::MAX), "18,446,744,073,709,551,615");
}

/// Zero-padded inner groups.
#[test]
fn commas_inner_groups_padded() {
    assert_eq!(fmt_commas(1_000_005), "1,000,005");
    assert_eq!(fmt_commas(10_050), "10,050");
    assert_eq!(fmt_commas(7), "7");
}

/// The z4/n10 ladder's rendered labels must match iiac-perf's
/// documented lists, both styles.
#[test]
fn labels_match_iiac_perf() {
    let ladder = Ladder::new(4, 10).unwrap();
    let zpn_names: Vec<String> = ladder.iter().collect().into_iter().map(zpn_label).collect();
    assert_eq!(
        zpn_names,
        [
            "min", "z4", "z3", "z2", "p10", "p20", "p30", "p40", "p50", "p60", "p70", "p80",
            "p90", "n2", "n3", "n4", "n5", "n6", "n7", "n8", "n9", "n10", "max",
        ]
    );
    let frac_names: Vec<String> = ladder.iter().collect().into_iter().map(frac_label).collect();
    assert_eq!(
        frac_names,
        [
            "min",
            "0.000_1",
            "0.001",
            "0.01",
            "0.10",
            "0.20",
            "0.30",
            "0.40",
            "0.50",
            "0.60",
            "0.70",
            "0.80",
            "0.90",
            "0.99",
            "0.999",
            "0.999_9",
            "0.999_99",
            "0.999_999",
            "0.999_999_9",
            "0.999_999_99",
            "0.999_999_999",
            "0.999_999_999_9",
            "max",
        ]
    );
}

/// `Both` pads zpn to 3 and appends the fraction; min/max
/// collapse to the bare name.
#[test]
fn both_label_shapes() {
    assert_eq!(
        boundary_label(Boundary::N(4), BandLabels::Both),
        "n4  0.999_9"
    );
    assert_eq!(
        boundary_label(Boundary::N(10), BandLabels::Both),
        "n10 0.999_999_999_9"
    );
    assert_eq!(boundary_label(Boundary::P(5), BandLabels::Both), "p50 0.50");
    assert_eq!(boundary_label(Boundary::Min, BandLabels::Both), "min");
    assert_eq!(boundary_label(Boundary::Max, BandLabels::Both), "max");
    assert_eq!(boundary_label(Boundary::Z(3), BandLabels::Zpn), "z3");
    assert_eq!(boundary_label(Boundary::Z(3), BandLabels::Frac), "0.001");
}

/// Trim names use the bare zpn form under `Both`.
#[test]
fn trim_name_bare() {
    assert_eq!(trim_name(Boundary::Z(4), BandLabels::Both), "z4");
    assert_eq!(trim_name(Boundary::N(2), BandLabels::Frac), "0.99");
}

/// Summary labels: bare prefix, single band, or a range.
#[test]
fn summary_label_shapes() {
    assert_eq!(summary_label("mean", None, BandLabels::Both), "mean");
    assert_eq!(
        summary_label("mean", Some((Boundary::P(1), Boundary::P(9))), BandLabels::Both),
        "mean p10..p90"
    );
    assert_eq!(
        summary_label("stdev", Some((Boundary::Z(4), Boundary::Z(4))), BandLabels::Frac),
        "stdev 0.000_1"
    );
    assert_eq!(BandLabels::Zpn.as_str(), "zpn");
    assert_eq!(BandLabels::Frac.as_str(), "frac");
    assert_eq!(BandLabels::Both.as_str(), "both");
}

/// Dropping the separators gives back the plain digits.
#[test]
fn commas_only_add_separators() {
    for value in [0u64, 7, 999, 1_000, 12_345, 1_000_001, 987_654_321_012, u64::MAX] {
        let grouped = fmt_commas(value);
        let digits: String = grouped.chars().filter(|c| *c != ',').collect();
        assert_eq!(digits, value.to_string());
    }
}
