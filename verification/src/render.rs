//! Band-table rendering: the report text of a table, with its
//! mean and stdev cells handed in already formatted.
//!
//! - Header, one row per populated band (first / last / range /
//!   count / mean), a blank line, then the overall and the
//!   tail-trimmed mean/stdev rows.
//! - The mean and stdev cells are computed outside the
//!   integer core and arrive as text ([`StatCells`]); every
//!   other cell, label and alignment is built here.
use vstd::prelude::*;
use vstd::string::StringExecFns;
use crate::bands::{Band, Boundary, ladder_at, ladder_len, valid_depths};
use crate::numfmt::{commas, decimal, digit_char, fmt_commas, three_digits};
use crate::report::{
    BandLabels, boundary_label, frac_label, frac_text, label_text, lemma_label_lengths,
    pad_right, push_padded, summary_label, summary_text, zpn_label, zpn_text, grouped_digits,
    trim_text,
};
use crate::table::{BandTable, trim_extent};

verus! {

/// Column widths for [`render_band_table`], in characters.
///
/// - `zpn_width` — the (first) label cell; single-cell styles
///   put their whole label here.
/// - `frac_width` — the second label cell; used by
///   [`BandLabels::Both`], 0 otherwise.
/// - `value_width` — first / last / range / mean columns.
/// - `count_width` — the count column.
/// - `decimals` — fractional digits on the mean/stdev cells.
#[derive(Debug, Clone, Copy, PartialEq, Eq, Structural)]
pub struct Layout {
    /// First (zpn) label cell width.
    pub zpn_width: usize,
    /// Second (fraction) label cell width; 0 disables it.
    pub frac_width: usize,
    /// Width of the first/last/range/mean columns.
    pub value_width: usize,
    /// Width of the count column.
    pub count_width: usize,
    /// Fractional digits on mean/stdev cells.
    pub decimals: usize,
}

impl Layout {
    /// The demo's historical fixed layout
    /// (`{:<4} {:<13} {:>14} … {:>12} {:>14}`, one decimal).
    pub fn demo_legacy() -> (r: Layout)
        ensures
            r == (Layout {
                zpn_width: 4,
                frac_width: 13,
                value_width: 14,
                count_width: 12,
                decimals: 1,
            }),
    {
        Layout { zpn_width: 4, frac_width: 13, value_width: 14, count_width: 12, decimals: 1 }
    }
}

/// The mean and stdev cells of a report, already formatted with
/// the layout's decimals.
///
/// - `band_means` — one cell per band of the table (read only
///   for populated bands).
/// - `overall_*` — over every rank; `trimmed_*` — over the ranks
///   below the n2 cut.
pub struct StatCells {
    /// Mean cell of each band.
    pub band_means: Vec<String>,
    /// Mean over every rank.
    pub overall_mean: String,
    /// Standard deviation over every rank.
    pub overall_stdev: String,
    /// Mean below the n2 cut.
    pub trimmed_mean: String,
    /// Standard deviation below the n2 cut.
    pub trimmed_stdev: String,
}

impl StatCells {
    /// The band mean cells as text.
    pub open spec fn means(self) -> Seq<Seq<char>> {
        self.band_means@.map_values(|s: String| s@)
    }
}

/// `k` spaces.
pub open spec fn spaces(k: nat) -> Seq<char> {
    Seq::new(k, |i: int| ' ')
}

/// `s` padded with spaces on the left to at least `width`.
pub open spec fn pad_left(s: Seq<char>, width: nat) -> Seq<char> {
    if s.len() >= width {
        s
    } else {
        spaces((width - s.len()) as nat) + s
    }
}

/// A right-aligned column cell: a separating space, then `s`
/// padded on the left to `width`.
pub open spec fn cell(s: Seq<char>, width: nat) -> Seq<char> {
    seq![' '] + pad_left(s, width)
}

/// Width of the label region: the zpn cell, plus the fraction
/// cell and its separator when the layout has one.
pub open spec fn label_region(layout: Layout) -> nat {
    if layout.frac_width > 0 {
        (layout.zpn_width + 1 + layout.frac_width) as nat
    } else {
        layout.zpn_width as nat
    }
}

/// The header row.
pub open spec fn header_text(layout: Layout) -> Seq<char> {
    pad_right(seq![], label_region(layout)) + cell("first"@, layout.value_width as nat) + cell(
        "last"@,
        layout.value_width as nat,
    ) + cell("range"@, layout.value_width as nat) + cell("count"@, layout.count_width as nat)
        + cell("mean"@, layout.value_width as nat) + seq!['\n']
}

/// The fraction cell of a two-cell row: empty for `min`/`max`.
pub open spec fn frac_cell(b: Boundary) -> Seq<char> {
    match b {
        Boundary::Min | Boundary::Max => seq![],
        _ => frac_text(b),
    }
}

/// The label cells of the row of the band capped by `upper`.
pub open spec fn row_labels(upper: Boundary, style: BandLabels, layout: Layout) -> Seq<char> {
    if layout.frac_width > 0 {
        pad_right(zpn_text(upper), layout.zpn_width as nat) + seq![' '] + pad_right(
            frac_cell(upper),
            layout.frac_width as nat,
        )
    } else {
        pad_right(label_text(upper, style), layout.zpn_width as nat)
    }
}

/// The row of a populated band capped by `upper`.
pub open spec fn row_text(
    band: Band,
    upper: Boundary,
    style: BandLabels,
    layout: Layout,
    mean: Seq<char>,
) -> Seq<char> {
    row_labels(upper, style, layout) + cell(commas(band.first as nat), layout.value_width as nat)
        + cell(commas(band.last as nat), layout.value_width as nat) + cell(
        commas((band.last - band.first) as nat),
        layout.value_width as nat,
    ) + cell(commas(band.count as nat), layout.count_width as nat) + cell(
        mean,
        layout.value_width as nat,
    ) + seq!['\n']
}

/// The rows of the first `k` bands: one per populated band that
/// the ladder caps.
pub open spec fn rows_text(
    bands: Seq<Band>,
    z: nat,
    n: nat,
    style: BandLabels,
    layout: Layout,
    means: Seq<Seq<char>>,
    k: nat,
) -> Seq<char>
    decreases k,
{
    if k == 0 {
        seq![]
    } else {
        let prev = rows_text(bands, z, n, style, layout, means, (k - 1) as nat);
        let band = bands[k - 1];
        if band.count > 0 && ladder_at(z, n, k) is Some {
            prev + row_text(band, ladder_at(z, n, k).unwrap(), style, layout, means[k - 1])
        } else {
            prev
        }
    }
}

/// A summary row: its label across the label region, then the
/// value cell.
pub open spec fn summary_row(label: Seq<char>, value: Seq<char>, layout: Layout) -> Seq<char> {
    pad_right(label, label_region(layout)) + cell(value, layout.value_width as nat) + seq!['\n']
}

/// The summary rows: overall mean and stdev, then the trimmed
/// ones over the trim extent when there is one.
pub open spec fn summary_rows(
    trim: Option<(Boundary, Boundary)>,
    style: BandLabels,
    layout: Layout,
    overall_mean: Seq<char>,
    overall_stdev: Seq<char>,
    trimmed_mean: Seq<char>,
    trimmed_stdev: Seq<char>,
) -> Seq<char> {
    summary_row("mean"@, overall_mean, layout) + summary_row("stdev"@, overall_stdev, layout)
        + match trim {
        None => seq![],
        Some(range) => summary_row(summary_text("mean"@, Some(range), style), trimmed_mean, layout)
            + summary_row(summary_text("stdev"@, Some(range), style), trimmed_stdev, layout),
    }
}

/// The whole report text of a table.
pub open spec fn report_text<const CAP: usize>(
    table: BandTable<CAP>,
    style: BandLabels,
    layout: Layout,
    cells: StatCells,
) -> Seq<char> {
    let z = table.spec_ladder().z();
    let n = table.spec_ladder().n();
    let bands = table.spec_bands();
    header_text(layout) + rows_text(bands, z, n, style, layout, cells.means(), bands.len())
        + seq!['\n'] + summary_rows(
        trim_extent(z, n, bands),
        style,
        layout,
        cells.overall_mean@,
        cells.overall_stdev@,
        cells.trimmed_mean@,
        cells.trimmed_stdev@,
    )
}

/// The larger of two numbers.
pub open spec fn max_nat(a: nat, b: nat) -> nat {
    if a >= b {
        a
    } else {
        b
    }
}

/// Widths measured over the first `k` bands, as `(zpn, frac,
/// value, count)`: the widest cell of each column among the
/// populated bands the ladder caps, from the header widths
/// (`first`, `count`: 5) and empty label cells.
pub open spec fn measured_widths(
    bands: Seq<Band>,
    z: nat,
    n: nat,
    style: BandLabels,
    means: Seq<Seq<char>>,
    k: nat,
) -> (nat, nat, nat, nat)
    decreases k,
{
    if k == 0 {
        (0, 0, 5, 5)
    } else {
        let prev = measured_widths(bands, z, n, style, means, (k - 1) as nat);
        let band = bands[k - 1];
        if band.count == 0 || ladder_at(z, n, k) is None {
            prev
        } else {
            let upper = ladder_at(z, n, k).unwrap();
            let two_cell = style == BandLabels::Both;
            let label_len = if two_cell {
                zpn_text(upper).len()
            } else {
                label_text(upper, style).len()
            };
            let frac = if two_cell && !(upper is Min) && !(upper is Max) {
                max_nat(prev.1, frac_text(upper).len())
            } else {
                prev.1
            };
            let value = max_nat(
                max_nat(
                    max_nat(
                        max_nat(prev.2, commas(band.first as nat).len()),
                        commas(band.last as nat).len(),
                    ),
                    commas((band.last - band.first) as nat).len(),
                ),
                means[k - 1].len(),
            );
            (
                max_nat(prev.0, label_len),
                frac,
                value,
                max_nat(prev.3, commas(band.count as nat).len()),
            )
        }
    }
}

/// The snug layout of a table in a style: the widest cell per
/// column, summary cells included, with the label region grown
/// (the fraction cell in two-cell style, else the only cell) to
/// fit the trimmed summary label.
pub open spec fn measured_layout<const CAP: usize>(
    table: BandTable<CAP>,
    style: BandLabels,
    decimals: nat,
    cells: StatCells,
) -> (nat, nat, nat, nat, nat) {
    let z = table.spec_ladder().z();
    let n = table.spec_ladder().n();
    let bands = table.spec_bands();
    let w = measured_widths(bands, z, n, style, cells.means(), bands.len());
    let two_cell = style == BandLabels::Both;
    let value = max_nat(
        max_nat(
            max_nat(max_nat(w.2, cells.overall_mean@.len()), cells.overall_stdev@.len()),
            cells.trimmed_mean@.len(),
        ),
        cells.trimmed_stdev@.len(),
    );
    let trim_label = summary_text("stdev"@, trim_extent(z, n, bands), style).len();
    let region = if two_cell {
        w.0 + 1 + w.1
    } else {
        w.0
    };
    let grow: nat = if trim_label > region {
        (trim_label - region) as nat
    } else {
        0
    };
    let zpn = if two_cell {
        w.0
    } else {
        w.0 + grow
    };
    let frac = if two_cell {
        w.1 + grow
    } else {
        0
    };
    (zpn, frac, value, w.3, decimals)
}

/// Every measured width covers the cells of the first `k`
/// bands, and the value and count widths start at the header's.
proof fn lemma_measured_widths_cover(
    bands: Seq<Band>,
    z: nat,
    n: nat,
    style: BandLabels,
    means: Seq<Seq<char>>,
    k: nat,
)
    requires
        k <= bands.len(),
    ensures
        ({
            let w = measured_widths(bands, z, n, style, means, k);
            &&& w.2 >= 5
            &&& w.3 >= 5
            &&& forall|i: int|
                0 <= i < k && #[trigger] bands[i].count > 0 && ladder_at(z, n, (i + 1) as nat)
                    is Some ==> {
                    let u = ladder_at(z, n, (i + 1) as nat).unwrap();
                    &&& (if style == BandLabels::Both {
                        zpn_text(u).len()
                    } else {
                        label_text(u, style).len()
                    }) <= w.0
                    &&& (style == BandLabels::Both && !(u is Min) && !(u is Max)) ==> frac_text(
                        u,
                    ).len() <= w.1
                    &&& commas(bands[i].first as nat).len() <= w.2
                    &&& commas(bands[i].last as nat).len() <= w.2
                    &&& commas((bands[i].last - bands[i].first) as nat).len() <= w.2
                    &&& means[i].len() <= w.2
                    &&& commas(bands[i].count as nat).len() <= w.3
                }
        }),
    decreases k,
{
    if k > 0 {
        lemma_measured_widths_cover(bands, z, n, style, means, (k - 1) as nat);
    }
}

/// A fraction label is never empty.
proof fn lemma_frac_text_nonempty(b: Boundary)
    ensures
        frac_text(b).len() >= 1,
{
    reveal_strlit("min");
    reveal_strlit("max");
    reveal_strlit("0.");
}

/// Under a measured layout the rows line up: the row of every
/// populated band is exactly as long as the header row.
pub proof fn lemma_measured_rows_align<const CAP: usize>(
    table: BandTable<CAP>,
    style: BandLabels,
    decimals: nat,
    cells: StatCells,
    layout: Layout,
    i: int,
)
    requires
        (
            layout.zpn_width as nat,
            layout.frac_width as nat,
            layout.value_width as nat,
            layout.count_width as nat,
            layout.decimals as nat,
        ) == measured_layout(table, style, decimals, cells),
        0 <= i < table.spec_bands().len(),
        table.spec_bands()[i].count > 0,
        ladder_at(table.spec_ladder().z(), table.spec_ladder().n(), (i + 1) as nat) is Some,
    ensures
        row_text(
            table.spec_bands()[i],
            ladder_at(table.spec_ladder().z(), table.spec_ladder().n(), (i + 1) as nat).unwrap(),
            style,
            layout,
            cells.means()[i],
        ).len() == header_text(layout).len(),
{
    let z = table.spec_ladder().z();
    let n = table.spec_ladder().n();
    let bands = table.spec_bands();
    let means = cells.means();
    let band = bands[i];
    let u = ladder_at(z, n, (i + 1) as nat).unwrap();
    let w = measured_widths(bands, z, n, style, means, bands.len());
    lemma_measured_widths_cover(bands, z, n, style, means, bands.len());
    assert(band.count > 0);
    lemma_frac_text_nonempty(u);
    reveal_strlit("first");
    reveal_strlit("last");
    reveal_strlit("range");
    reveal_strlit("count");
    reveal_strlit("mean");
    let vw = layout.value_width as nat;
    let cw = layout.count_width as nat;
    let region = label_region(layout);
    assert(row_labels(u, style, layout).len() == region);
    assert(header_text(layout).len() == region + 4 * (1 + vw) + 1 + cw + 1);
    assert(row_text(band, u, style, layout, means[i]).len() == region + 4 * (1 + vw) + 1 + cw + 1);
}

/// A line end.
pub open spec fn is_line_end() -> spec_fn(char) -> bool {
    |c: char| c == '\n'
}

/// How many line ends a text holds.
pub open spec fn line_ends(s: Seq<char>) -> nat {
    s.filter(is_line_end()).len()
}

/// A text with no line end in it.
pub open spec fn single_line(s: Seq<char>) -> bool {
    forall|i: int| 0 <= i < s.len() ==> s[i] != '\n'
}

/// How many of the first `k` bands get a row: the populated
/// ones the ladder caps.
pub open spec fn row_count(bands: Seq<Band>, z: nat, n: nat, k: nat) -> nat
    decreases k,
{
    if k == 0 {
        0
    } else {
        row_count(bands, z, n, (k - 1) as nat) + if bands[k - 1].count > 0 && ladder_at(z, n, k)
            is Some {
            1nat
        } else {
            0nat
        }
    }
}

/// Line ends of joined texts add up.
proof fn lemma_line_ends_add(a: Seq<char>, b: Seq<char>)
    ensures
        line_ends(a + b) == line_ends(a) + line_ends(b),
{
    Seq::filter_distributes_over_add(a, b, is_line_end());
}

/// A single line, then a line end, is one line.
proof fn lemma_one_line(s: Seq<char>)
    requires
        single_line(s),
    ensures
        line_ends(s + seq!['\n']) == 1,
{
    lemma_line_ends_add(s, seq!['\n']);
    assert(s.all(|x: char| !is_line_end()(x)));
    s.lemma_all_neg_filter_empty(is_line_end());
    assert(line_ends(seq!['\n']) == 1) by {
        reveal_with_fuel(Seq::filter, 2);
        assert(seq!['\n'].drop_last() =~= Seq::<char>::empty());
    }
}

/// Joining single lines gives a single line.
proof fn lemma_single_line_add(a: Seq<char>, b: Seq<char>)
    requires
        single_line(a),
        single_line(b),
    ensures
        single_line(a + b),
{
    assert forall|i: int| 0 <= i < (a + b).len() implies (a + b)[i] != '\n' by {
        if i < a.len() {
            assert((a + b)[i] == a[i]);
        } else {
            assert((a + b)[i] == b[i - a.len()]);
        }
    }
}

/// Padding a single line keeps it one.
proof fn lemma_pads_single_line(s: Seq<char>, width: nat)
    requires
        single_line(s),
    ensures
        single_line(pad_right(s, width)),
        single_line(pad_left(s, width)),
        single_line(cell(s, width)),
{
    if s.len() < width {
        lemma_single_line_add(s, Seq::new((width - s.len()) as nat, |i: int| ' '));
        lemma_single_line_add(spaces((width - s.len()) as nat), s);
    }
    lemma_single_line_add(seq![' '], pad_left(s, width));
}

/// Decimal digits are a single line.
proof fn lemma_decimal_single_line(v: nat)
    ensures
        single_line(decimal(v)),
    decreases v,
{
    if v >= 10 {
        lemma_decimal_single_line(v / 10);
        lemma_single_line_add(decimal(v / 10), seq![digit_char(v % 10)]);
        assert(decimal(v) =~= decimal(v / 10) + seq![digit_char(v % 10)]);
    }
}

/// Comma-grouped digits are a single line.
proof fn lemma_commas_single_line(v: nat)
    ensures
        single_line(commas(v)),
    decreases v,
{
    if v < 1000 {
        lemma_decimal_single_line(v);
    } else {
        lemma_commas_single_line(v / 1000);
        let t = three_digits(v % 1000);
        assert(single_line(t));
        lemma_single_line_add(commas(v / 1000), seq![',']);
        lemma_single_line_add(commas(v / 1000) + seq![','], t);
    }
}

/// Grouped fraction digits are a single line.
proof fn lemma_grouped_single_line(index: nat, count: nat, fill: char, trailing_one: bool)
    requires
        fill != '\n',
    ensures
        single_line(grouped_digits(index, count, fill, trailing_one)),
    decreases count - index,
{
    if index < count {
        lemma_grouped_single_line(index + 1, count, fill, trailing_one);
        let sep: Seq<char> = if index > 0 && index % 3 == 0 {
            seq!['_']
        } else {
            seq![]
        };
        let digit = if trailing_one && index + 1 == count {
            '1'
        } else {
            fill
        };
        lemma_single_line_add(sep.push(digit), grouped_digits(index + 1, count, fill, trailing_one));
    }
}

/// Boundary labels and summary labels are single lines.
proof fn lemma_labels_single_line(b: Boundary, style: BandLabels)
    ensures
        single_line(zpn_text(b)),
        single_line(frac_text(b)),
        single_line(frac_cell(b)),
        single_line(label_text(b, style)),
        single_line(trim_text(b, style)),
{
    reveal_strlit("min");
    reveal_strlit("max");
    reveal_strlit("z");
    reveal_strlit("p");
    reveal_strlit("n");
    reveal_strlit("0");
    reveal_strlit("0.");
    reveal_strlit(" ");
    match b {
        Boundary::Z(k) => {
            lemma_decimal_single_line(k as nat);
            lemma_single_line_add("z"@, decimal(k as nat));
            lemma_grouped_single_line(0, k as nat, '0', true);
            lemma_single_line_add("0."@, grouped_digits(0, k as nat, '0', true));
        },
        Boundary::P(d) => {
            lemma_decimal_single_line(d as nat);
            lemma_single_line_add("p"@, decimal(d as nat));
            lemma_single_line_add("p"@ + decimal(d as nat), "0"@);
            lemma_single_line_add("0."@, decimal(d as nat));
            lemma_single_line_add("0."@ + decimal(d as nat), "0"@);
        },
        Boundary::N(k) => {
            lemma_decimal_single_line(k as nat);
            lemma_single_line_add("n"@, decimal(k as nat));
            lemma_grouped_single_line(0, k as nat, '9', false);
            lemma_single_line_add("0."@, grouped_digits(0, k as nat, '9', false));
        },
        _ => {},
    }
    lemma_pads_single_line(zpn_text(b), 3);
    lemma_single_line_add(pad_right(zpn_text(b), 3), " "@);
    lemma_single_line_add(pad_right(zpn_text(b), 3) + " "@, frac_text(b));
}

/// The rows of the first `k` bands are one line each.
proof fn lemma_rows_lines(
    bands: Seq<Band>,
    z: nat,
    n: nat,
    style: BandLabels,
    layout: Layout,
    means: Seq<Seq<char>>,
    k: nat,
)
    requires
        k <= bands.len(),
        means.len() == bands.len(),
        forall|i: int| 0 <= i < means.len() ==> single_line(#[trigger] means[i]),
    ensures
        line_ends(rows_text(bands, z, n, style, layout, means, k)) == row_count(bands, z, n, k),
    decreases k,
{
    if k == 0 {
        assert(line_ends(seq![]) == 0) by {
            reveal(Seq::filter);
        }
        return;
    }
    lemma_rows_lines(bands, z, n, style, layout, means, (k - 1) as nat);
    let prev = rows_text(bands, z, n, style, layout, means, (k - 1) as nat);
    let band = bands[k - 1];
    if band.count > 0 && ladder_at(z, n, k) is Some {
        let u = ladder_at(z, n, k).unwrap();
        let zw = layout.zpn_width as nat;
        let fw = layout.frac_width as nat;
        let vw = layout.value_width as nat;
        let cw = layout.count_width as nat;
        lemma_labels_single_line(u, style);
        lemma_pads_single_line(zpn_text(u), zw);
        lemma_pads_single_line(frac_cell(u), fw);
        lemma_pads_single_line(label_text(u, style), zw);
        lemma_single_line_add(pad_right(zpn_text(u), zw), seq![' ']);
        lemma_single_line_add(pad_right(zpn_text(u), zw) + seq![' '], pad_right(frac_cell(u), fw));
        let labels = row_labels(u, style, layout);
        lemma_commas_single_line(band.first as nat);
        lemma_commas_single_line(band.last as nat);
        lemma_commas_single_line((band.last - band.first) as nat);
        lemma_commas_single_line(band.count as nat);
        lemma_pads_single_line(commas(band.first as nat), vw);
        lemma_pads_single_line(commas(band.last as nat), vw);
        lemma_pads_single_line(commas((band.last - band.first) as nat), vw);
        lemma_pads_single_line(commas(band.count as nat), cw);
        lemma_pads_single_line(means[k - 1], vw);
        let c1 = cell(commas(band.first as nat), vw);
        let c2 = cell(commas(band.last as nat), vw);
        let c3 = cell(commas((band.last - band.first) as nat), vw);
        let c4 = cell(commas(band.count as nat), cw);
        let c5 = cell(means[k - 1], vw);
        lemma_single_line_add(labels, c1);
        lemma_single_line_add(labels + c1, c2);
        lemma_single_line_add(labels + c1 + c2, c3);
        lemma_single_line_add(labels + c1 + c2 + c3, c4);
        lemma_single_line_add(labels + c1 + c2 + c3 + c4, c5);
        let body = labels + c1 + c2 + c3 + c4 + c5;
        lemma_one_line(body);
        assert(row_text(band, u, style, layout, means[k - 1]) =~= body + seq!['\n']);
        lemma_line_ends_add(prev, body + seq!['\n']);
    }
}

/// A summary row is one line.
proof fn lemma_summary_row_line(label: Seq<char>, value: Seq<char>, layout: Layout)
    requires
        single_line(label),
        single_line(value),
    ensures
        line_ends(summary_row(label, value, layout)) == 1,
{
    lemma_pads_single_line(label, label_region(layout));
    lemma_pads_single_line(value, layout.value_width as nat);
    lemma_single_line_add(
        pad_right(label, label_region(layout)),
        cell(value, layout.value_width as nat),
    );
    lemma_one_line(pad_right(label, label_region(layout)) + cell(value, layout.value_width as nat));
}

/// The header row is one line.
proof fn lemma_header_line(layout: Layout)
    ensures
        line_ends(header_text(layout)) == 1,
{
    reveal_strlit("first");
    reveal_strlit("last");
    reveal_strlit("range");
    reveal_strlit("count");
    reveal_strlit("mean");
    let vw = layout.value_width as nat;
    let cw = layout.count_width as nat;
    let h0 = pad_right(seq![], label_region(layout));
    lemma_pads_single_line(seq![], label_region(layout));
    lemma_pads_single_line("first"@, vw);
    lemma_pads_single_line("last"@, vw);
    lemma_pads_single_line("range"@, vw);
    lemma_pads_single_line("count"@, cw);
    lemma_pads_single_line("mean"@, vw);
    let h1 = h0 + cell("first"@, vw);
    let h2 = h1 + cell("last"@, vw);
    let h3 = h2 + cell("range"@, vw);
    let h4 = h3 + cell("count"@, cw);
    let h5 = h4 + cell("mean"@, vw);
    lemma_single_line_add(h0, cell("first"@, vw));
    lemma_single_line_add(h1, cell("last"@, vw));
    lemma_single_line_add(h2, cell("range"@, vw));
    lemma_single_line_add(h3, cell("count"@, cw));
    lemma_single_line_add(h4, cell("mean"@, vw));
    lemma_one_line(h5);
    assert(header_text(layout) =~= h5 + seq!['\n']);
}

/// A summary label over a trim extent is a single line.
proof fn lemma_summary_label_line(prefix: Seq<char>, range: (Boundary, Boundary), style: BandLabels)
    requires
        single_line(prefix),
    ensures
        single_line(summary_text(prefix, Some(range), style)),
{
    let (lo, hi) = range;
    lemma_labels_single_line(lo, style);
    lemma_labels_single_line(hi, style);
    reveal_strlit(" ");
    reveal_strlit("..");
    let lt = trim_text(lo, style);
    let ht = trim_text(hi, style);
    lemma_single_line_add(prefix, " "@);
    lemma_single_line_add(prefix + " "@, lt);
    lemma_single_line_add(prefix + " "@ + lt, ".."@);
    lemma_single_line_add(prefix + " "@ + lt + ".."@, ht);
}

/// The summary rows are two lines, or four with the trimmed rows,
/// and end with a line end.
proof fn lemma_summary_lines(
    trim: Option<(Boundary, Boundary)>,
    style: BandLabels,
    layout: Layout,
    om: Seq<char>,
    os: Seq<char>,
    tm: Seq<char>,
    ts: Seq<char>,
)
    requires
        single_line(om),
        single_line(os),
        single_line(tm),
        single_line(ts),
    ensures
        line_ends(summary_rows(trim, style, layout, om, os, tm, ts)) == if trim is Some {
            4nat
        } else {
            2nat
        },
        summary_rows(trim, style, layout, om, os, tm, ts).last() == '\n',
{
    reveal_strlit("mean");
    reveal_strlit("stdev");
    let r1 = summary_row("mean"@, om, layout);
    let r2 = summary_row("stdev"@, os, layout);
    lemma_summary_row_line("mean"@, om, layout);
    lemma_summary_row_line("stdev"@, os, layout);
    lemma_line_ends_add(r1, r2);
    match trim {
        None => {
            assert(summary_rows(trim, style, layout, om, os, tm, ts) =~= r1 + r2);
        },
        Some(range) => {
            lemma_summary_label_line("mean"@, range, style);
            lemma_summary_label_line("stdev"@, range, style);
            let r3 = summary_row(summary_text("mean"@, Some(range), style), tm, layout);
            let r4 = summary_row(summary_text("stdev"@, Some(range), style), ts, layout);
            lemma_summary_row_line(summary_text("mean"@, Some(range), style), tm, layout);
            lemma_summary_row_line(summary_text("stdev"@, Some(range), style), ts, layout);
            lemma_line_ends_add(r3, r4);
            lemma_line_ends_add(r1 + r2, r3 + r4);
            assert(summary_rows(trim, style, layout, om, os, tm, ts) =~= (r1 + r2) + (r3 + r4));
        },
    }
}

/// A report's lines: the header, one row per populated band, a
/// blank line, the overall mean and stdev rows, and the trimmed
/// mean and stdev rows when something below the n2 cut is
/// populated — `4 + P` or `6 + P` lines for `P` rows, the last
/// one ended — wherever its cells are single lines.
pub proof fn lemma_report_lines<const CAP: usize>(
    table: BandTable<CAP>,
    style: BandLabels,
    layout: Layout,
    cells: StatCells,
)
    requires
        cells.band_means@.len() == table.spec_bands().len(),
        forall|i: int|
            0 <= i < cells.band_means@.len() ==> single_line(#[trigger] cells.band_means@[i]@),
        single_line(cells.overall_mean@),
        single_line(cells.overall_stdev@),
        single_line(cells.trimmed_mean@),
        single_line(cells.trimmed_stdev@),
    ensures
        line_ends(report_text(table, style, layout, cells)) == row_count(
            table.spec_bands(),
            table.spec_ladder().z(),
            table.spec_ladder().n(),
            table.spec_bands().len(),
        ) + if trim_extent(table.spec_ladder().z(), table.spec_ladder().n(), table.spec_bands())
            is Some {
            6nat
        } else {
            4nat
        },
        report_text(table, style, layout, cells).last() == '\n',
{
    let z = table.spec_ladder().z();
    let n = table.spec_ladder().n();
    let bands = table.spec_bands();
    let means = cells.means();
    assert forall|i: int| 0 <= i < means.len() implies single_line(#[trigger] means[i]) by {
        assert(means[i] == cells.band_means@[i]@);
    }
    let header = header_text(layout);
    let rows = rows_text(bands, z, n, style, layout, means, bands.len());
    let summary = summary_rows(
        trim_extent(z, n, bands),
        style,
        layout,
        cells.overall_mean@,
        cells.overall_stdev@,
        cells.trimmed_mean@,
        cells.trimmed_stdev@,
    );
    lemma_header_line(layout);
    lemma_rows_lines(bands, z, n, style, layout, means, bands.len());
    lemma_summary_lines(
        trim_extent(z, n, bands),
        style,
        layout,
        cells.overall_mean@,
        cells.overall_stdev@,
        cells.trimmed_mean@,
        cells.trimmed_stdev@,
    );
    lemma_one_line(seq![]);
    assert(seq![] + seq!['\n'] =~= seq!['\n']);
    lemma_line_ends_add(header, rows);
    lemma_line_ends_add(header + rows, seq!['\n']);
    lemma_line_ends_add(header + rows + seq!['\n'], summary);
    assert(report_text(table, style, layout, cells) == header + rows + seq!['\n'] + summary);
}

/// The report ends with its summary rows: `mean` and `stdev`
/// over every rank carrying the overall cells, then, exactly
/// when something below the n2 cut is populated, `mean lo..hi`
/// and `stdev lo..hi` over the trim extent — its boundaries
/// named in the caller's `style` — carrying the trimmed cells.
/// Each row is its label padded across the label region, a
/// space, its value right-aligned in the value column, and a
/// line end; a line end comes right before them.
pub proof fn lemma_report_summary_rows<const CAP: usize>(
    table: BandTable<CAP>,
    style: BandLabels,
    layout: Layout,
    cells: StatCells,
)
    ensures
        ({
            let r = report_text(table, style, layout, cells);
            let region = label_region(layout);
            let vw = layout.value_width as nat;
            let overall = (pad_right("mean"@, region) + (seq![' '] + pad_left(
                cells.overall_mean@,
                vw,
            )) + seq!['\n']) + (pad_right("stdev"@, region) + (seq![' '] + pad_left(
                cells.overall_stdev@,
                vw,
            )) + seq!['\n']);
            let trim = trim_extent(table.spec_ladder().z(), table.spec_ladder().n(), table.spec_bands());
            let tail = match trim {
                None => overall,
                Some((lo, hi)) => {
                    let mean_label = if lo == hi {
                        "mean"@ + " "@ + trim_text(lo, style)
                    } else {
                        "mean"@ + " "@ + trim_text(lo, style) + ".."@ + trim_text(hi, style)
                    };
                    let stdev_label = if lo == hi {
                        "stdev"@ + " "@ + trim_text(lo, style)
                    } else {
                        "stdev"@ + " "@ + trim_text(lo, style) + ".."@ + trim_text(hi, style)
                    };
                    overall + ((pad_right(mean_label, region) + (seq![' '] + pad_left(
                        cells.trimmed_mean@,
                        vw,
                    )) + seq!['\n']) + (pad_right(stdev_label, region) + (seq![' '] + pad_left(
                        cells.trimmed_stdev@,
                        vw,
                    )) + seq!['\n']))
                },
            };
            &&& tail.len() < r.len()
            &&& r[r.len() - tail.len() - 1] == '\n'
            &&& r.subrange(r.len() - tail.len(), r.len() as int) == tail
        }),
{
    let z = table.spec_ladder().z();
    let n = table.spec_ladder().n();
    let bands = table.spec_bands();
    let r = report_text(table, style, layout, cells);
    let head = header_text(layout) + rows_text(bands, z, n, style, layout, cells.means(), bands.len());
    let summary = summary_rows(
        trim_extent(z, n, bands),
        style,
        layout,
        cells.overall_mean@,
        cells.overall_stdev@,
        cells.trimmed_mean@,
        cells.trimmed_stdev@,
    );
    let pre = head + seq!['\n'];
    assert(r == pre + summary);
    assert(r.subrange(pre.len() as int, r.len() as int) =~= summary);
    assert(r[pre.len() - 1] == '\n');
}

/// A piece of a joined text is the piece of whichever side it
/// lies in.
proof fn lemma_subrange_add(x: Seq<char>, y: Seq<char>, a: int, b: int)
    requires
        0 <= a <= b <= x.len() + y.len(),
    ensures
        b <= x.len() ==> (x + y).subrange(a, b) == x.subrange(a, b),
        a >= x.len() ==> (x + y).subrange(a, b) == y.subrange(a - x.len(), b - x.len()),
{
    if b <= x.len() {
        assert((x + y).subrange(a, b) =~= x.subrange(a, b));
    }
    if a >= x.len() {
        assert((x + y).subrange(a, b) =~= y.subrange(a - x.len(), b - x.len()));
    }
}

/// The rows of the first `k` bands open the rows of any longer
/// run of bands.
proof fn lemma_rows_prefix(
    bands: Seq<Band>,
    z: nat,
    n: nat,
    style: BandLabels,
    layout: Layout,
    means: Seq<Seq<char>>,
    k: nat,
    k2: nat,
)
    requires
        k <= k2,
    ensures
        rows_text(bands, z, n, style, layout, means, k).len() <= rows_text(
            bands,
            z,
            n,
            style,
            layout,
            means,
            k2,
        ).len(),
        rows_text(bands, z, n, style, layout, means, k2).subrange(
            0,
            rows_text(bands, z, n, style, layout, means, k).len() as int,
        ) == rows_text(bands, z, n, style, layout, means, k),
    decreases k2 - k,
{
    let short = rows_text(bands, z, n, style, layout, means, k);
    let whole = rows_text(bands, z, n, style, layout, means, k2);
    if k == k2 {
        assert(whole.subrange(0, short.len() as int) =~= short);
    } else {
        lemma_rows_prefix(bands, z, n, style, layout, means, k, (k2 - 1) as nat);
        let prev = rows_text(bands, z, n, style, layout, means, (k2 - 1) as nat);
        assert(whole.subrange(0, prev.len() as int) =~= prev);
        assert(whole.subrange(0, short.len() as int) =~= prev.subrange(0, short.len() as int));
    }
}

/// The rows of a run of bands are empty or end with a line end.
proof fn lemma_rows_end(
    bands: Seq<Band>,
    z: nat,
    n: nat,
    style: BandLabels,
    layout: Layout,
    means: Seq<Seq<char>>,
    k: nat,
)
    ensures
        rows_text(bands, z, n, style, layout, means, k).len() == 0 || rows_text(
            bands,
            z,
            n,
            style,
            layout,
            means,
            k,
        ).last() == '\n',
    decreases k,
{
    if k > 0 {
        lemma_rows_end(bands, z, n, style, layout, means, (k - 1) as nat);
    }
}

/// Under a measured layout the rows of the first `k` bands take
/// one header width per populated band.
proof fn lemma_rows_len<const CAP: usize>(
    table: BandTable<CAP>,
    style: BandLabels,
    decimals: nat,
    cells: StatCells,
    layout: Layout,
    k: nat,
)
    requires
        (
            layout.zpn_width as nat,
            layout.frac_width as nat,
            layout.value_width as nat,
            layout.count_width as nat,
            layout.decimals as nat,
        ) == measured_layout(table, style, decimals, cells),
        k <= table.spec_bands().len(),
    ensures
        rows_text(
            table.spec_bands(),
            table.spec_ladder().z(),
            table.spec_ladder().n(),
            style,
            layout,
            cells.means(),
            k,
        ).len() == header_text(layout).len() * row_count(
            table.spec_bands(),
            table.spec_ladder().z(),
            table.spec_ladder().n(),
            k,
        ),
    decreases k,
{
    if k > 0 {
        lemma_rows_len(table, style, decimals, cells, layout, (k - 1) as nat);
        let bands = table.spec_bands();
        let z = table.spec_ladder().z();
        let n = table.spec_ladder().n();
        let means = cells.means();
        let h = header_text(layout).len();
        let c = row_count(bands, z, n, (k - 1) as nat);
        let prev = rows_text(bands, z, n, style, layout, means, (k - 1) as nat);
        assert(prev.len() == h * c);
        if bands[k - 1].count > 0 && ladder_at(z, n, k) is Some {
            lemma_measured_rows_align(table, style, decimals, cells, layout, k - 1);
            let row = row_text(bands[k - 1], ladder_at(z, n, k).unwrap(), style, layout, means[k - 1]);
            assert(row.len() == h);
            assert(rows_text(bands, z, n, style, layout, means, k) == prev + row);
            assert(row_count(bands, z, n, k) == c + 1);
            assert(h * c + h == h * (c + 1)) by (nonlinear_arith);
        } else {
            assert(rows_text(bands, z, n, style, layout, means, k) == prev);
            assert(row_count(bands, z, n, k) == c);
        }
    } else {
        let h = header_text(layout).len();
        assert(h * 0 == 0) by (nonlinear_arith);
    }
}

/// The header's value columns, right-aligned: `first`, `last`,
/// `range`, `count`, `mean`.
proof fn lemma_header_columns(layout: Layout)
    requires
        layout.value_width >= 5,
        layout.count_width >= 5,
    ensures
        ({
            let h = header_text(layout);
            let region = label_region(layout) as int;
            let vw = layout.value_width as int;
            let cw = layout.count_width as int;
            let c1 = region;
            let c2 = c1 + 1 + vw;
            let c3 = c2 + 1 + vw;
            let c4 = c3 + 1 + vw;
            let c5 = c4 + 1 + cw;
            &&& h.len() == c5 + 1 + vw + 1
            &&& h.subrange(c1, c2) == seq![' '] + pad_left("first"@, vw as nat)
            &&& h.subrange(c2, c3) == seq![' '] + pad_left("last"@, vw as nat)
            &&& h.subrange(c3, c4) == seq![' '] + pad_left("range"@, vw as nat)
            &&& h.subrange(c4, c5) == seq![' '] + pad_left("count"@, cw as nat)
            &&& h.subrange(c5, c5 + 1 + vw) == seq![' '] + pad_left("mean"@, vw as nat)
            &&& h[c5 + 1 + vw] == '\n'
        }),
{
    reveal_strlit("first");
    reveal_strlit("last");
    reveal_strlit("range");
    reveal_strlit("count");
    reveal_strlit("mean");
    let h = header_text(layout);
    let region = label_region(layout) as int;
    let vw = layout.value_width as int;
    let cw = layout.count_width as int;
    let p0 = pad_right(seq![], region as nat);
    let k1 = seq![' '] + pad_left("first"@, vw as nat);
    let k2 = seq![' '] + pad_left("last"@, vw as nat);
    let k3 = seq![' '] + pad_left("range"@, vw as nat);
    let k4 = seq![' '] + pad_left("count"@, cw as nat);
    let k5 = seq![' '] + pad_left("mean"@, vw as nat);
    assert(h =~= p0 + k1 + k2 + k3 + k4 + k5 + seq!['\n']);
    let c1 = region;
    let c2 = c1 + 1 + vw;
    let c3 = c2 + 1 + vw;
    let c4 = c3 + 1 + vw;
    let c5 = c4 + 1 + cw;
    assert(h.subrange(c1, c2) =~= k1);
    assert(h.subrange(c2, c3) =~= k2);
    assert(h.subrange(c3, c4) =~= k3);
    assert(h.subrange(c4, c5) =~= k4);
    assert(h.subrange(c5, c5 + 1 + vw) =~= k5);
}

/// A band row whose cells fit their columns: labels across the
/// label region, then first, last, range, count and mean, each
/// right-aligned in its column.
proof fn lemma_row_columns(band: Band, u: Boundary, style: BandLabels, layout: Layout, mean: Seq<char>)
    requires
        row_labels(u, style, layout).len() == label_region(layout),
        commas(band.first as nat).len() <= layout.value_width,
        commas(band.last as nat).len() <= layout.value_width,
        commas((band.last - band.first) as nat).len() <= layout.value_width,
        commas(band.count as nat).len() <= layout.count_width,
        mean.len() <= layout.value_width,
        layout.frac_width > 0 ==> zpn_text(u).len() <= layout.zpn_width,
    ensures
        ({
            let row = row_text(band, u, style, layout, mean);
            let region = label_region(layout) as int;
            let zw = layout.zpn_width as int;
            let fw = layout.frac_width as int;
            let vw = layout.value_width as int;
            let cw = layout.count_width as int;
            let c1 = region;
            let c2 = c1 + 1 + vw;
            let c3 = c2 + 1 + vw;
            let c4 = c3 + 1 + vw;
            let c5 = c4 + 1 + cw;
            &&& row.len() == c5 + 1 + vw + 1
            &&& row.subrange(c1, c2) == seq![' '] + pad_left(commas(band.first as nat), vw as nat)
            &&& row.subrange(c2, c3) == seq![' '] + pad_left(commas(band.last as nat), vw as nat)
            &&& row.subrange(c3, c4) == seq![' '] + pad_left(
                commas((band.last - band.first) as nat),
                vw as nat,
            )
            &&& row.subrange(c4, c5) == seq![' '] + pad_left(commas(band.count as nat), cw as nat)
            &&& row.subrange(c5, c5 + 1 + vw) == seq![' '] + pad_left(mean, vw as nat)
            &&& row[c5 + 1 + vw] == '\n'
            &&& fw > 0 ==> row.subrange(0, zw) == pad_right(zpn_text(u), zw as nat)
                && row.subrange(zw, region) == seq![' '] + pad_right(frac_cell(u), fw as nat)
            &&& fw == 0 ==> row.subrange(0, region) == pad_right(label_text(u, style), zw as nat)
        }),
{
    let region = label_region(layout) as int;
    let zw = layout.zpn_width as int;
    let fw = layout.frac_width as int;
    let vw = layout.value_width as int;
    let cw = layout.count_width as int;
    let labels = row_labels(u, style, layout);
    let k1 = seq![' '] + pad_left(commas(band.first as nat), vw as nat);
    let k2 = seq![' '] + pad_left(commas(band.last as nat), vw as nat);
    let k3 = seq![' '] + pad_left(commas((band.last - band.first) as nat), vw as nat);
    let k4 = seq![' '] + pad_left(commas(band.count as nat), cw as nat);
    let k5 = seq![' '] + pad_left(mean, vw as nat);
    let a1 = labels + k1;
    let a2 = a1 + k2;
    let a3 = a2 + k3;
    let a4 = a3 + k4;
    let a5 = a4 + k5;
    let row = a5 + seq!['\n'];
    assert(row == row_text(band, u, style, layout, mean));
    let c1 = region;
    let c2 = c1 + 1 + vw;
    let c3 = c2 + 1 + vw;
    let c4 = c3 + 1 + vw;
    let c5 = c4 + 1 + cw;
    assert(a1.len() == c2 && a2.len() == c3 && a3.len() == c4 && a4.len() == c5);
    assert(a5.len() == c5 + 1 + vw);
    // Peel each column back off the row.
    lemma_subrange_add(a5, seq!['\n'], c5, c5 + 1 + vw);
    lemma_subrange_add(a4, k5, c5, c5 + 1 + vw);
    assert(k5.subrange(0, k5.len() as int) =~= k5);
    lemma_subrange_add(a5, seq!['\n'], c4, c5);
    lemma_subrange_add(a4, k5, c4, c5);
    lemma_subrange_add(a3, k4, c4, c5);
    assert(k4.subrange(0, k4.len() as int) =~= k4);
    lemma_subrange_add(a5, seq!['\n'], c3, c4);
    lemma_subrange_add(a4, k5, c3, c4);
    lemma_subrange_add(a3, k4, c3, c4);
    lemma_subrange_add(a2, k3, c3, c4);
    assert(k3.subrange(0, k3.len() as int) =~= k3);
    lemma_subrange_add(a5, seq!['\n'], c2, c3);
    lemma_subrange_add(a4, k5, c2, c3);
    lemma_subrange_add(a3, k4, c2, c3);
    lemma_subrange_add(a2, k3, c2, c3);
    lemma_subrange_add(a1, k2, c2, c3);
    assert(k2.subrange(0, k2.len() as int) =~= k2);
    lemma_subrange_add(a5, seq!['\n'], c1, c2);
    lemma_subrange_add(a4, k5, c1, c2);
    lemma_subrange_add(a3, k4, c1, c2);
    lemma_subrange_add(a2, k3, c1, c2);
    lemma_subrange_add(a1, k2, c1, c2);
    lemma_subrange_add(labels, k1, c1, c2);
    assert(k1.subrange(0, k1.len() as int) =~= k1);
    // The labels.
    lemma_subrange_add(a5, seq!['\n'], 0, c1);
    lemma_subrange_add(a4, k5, 0, c1);
    lemma_subrange_add(a3, k4, 0, c1);
    lemma_subrange_add(a2, k3, 0, c1);
    lemma_subrange_add(a1, k2, 0, c1);
    lemma_subrange_add(labels, k1, 0, c1);
    assert(labels.subrange(0, c1) =~= labels);
    if fw > 0 {
        let zp = pad_right(zpn_text(u), zw as nat);
        let fp = seq![' '] + pad_right(frac_cell(u), fw as nat);
        assert(labels == zp + fp);
        assert(zp.len() == zw);
        lemma_subrange_add(zp, fp, 0, zw);
        lemma_subrange_add(zp, fp, zw, region);
        assert(zp.subrange(0, zw) =~= zp);
        assert(fp.subrange(0, fp.len() as int) =~= fp);
        assert(row.subrange(0, zw) =~= labels.subrange(0, zw));
        assert(row.subrange(zw, region) =~= labels.subrange(zw, region));
    }
}

/// Under a measured layout a populated band's cells fit their
/// columns.
proof fn lemma_measured_row_fits<const CAP: usize>(
    table: BandTable<CAP>,
    style: BandLabels,
    decimals: nat,
    cells: StatCells,
    layout: Layout,
    i: int,
)
    requires
        (
            layout.zpn_width as nat,
            layout.frac_width as nat,
            layout.value_width as nat,
            layout.count_width as nat,
            layout.decimals as nat,
        ) == measured_layout(table, style, decimals, cells),
        0 <= i < table.spec_bands().len(),
        table.spec_bands()[i].count > 0,
        ladder_at(table.spec_ladder().z(), table.spec_ladder().n(), (i + 1) as nat) is Some,
    ensures
        ({
            let band = table.spec_bands()[i];
            let u = ladder_at(table.spec_ladder().z(), table.spec_ladder().n(), (i + 1) as nat).unwrap();
            &&& row_labels(u, style, layout).len() == label_region(layout)
            &&& commas(band.first as nat).len() <= layout.value_width
            &&& commas(band.last as nat).len() <= layout.value_width
            &&& commas((band.last - band.first) as nat).len() <= layout.value_width
            &&& commas(band.count as nat).len() <= layout.count_width
            &&& cells.means()[i].len() <= layout.value_width
            &&& layout.frac_width > 0 ==> zpn_text(u).len() <= layout.zpn_width
            &&& layout.value_width >= 5
            &&& layout.count_width >= 5
        }),
{
    let z = table.spec_ladder().z();
    let n = table.spec_ladder().n();
    let bands = table.spec_bands();
    let means = cells.means();
    let u = ladder_at(z, n, (i + 1) as nat).unwrap();
    lemma_measured_widths_cover(bands, z, n, style, means, bands.len());
    lemma_measured_rows_align(table, style, decimals, cells, layout, i);
    lemma_frac_text_nonempty(u);
    assert(row_labels(u, style, layout).len() == label_region(layout));
}

/// In a report under a measured layout, each populated band's
/// row lines up under the header: the header's value columns
/// read `first`, `last`, `range`, `count`, `mean`, and band
/// `i`'s line — line `1 + P` for the `P` populated bands before
/// it, every line one header width long — holds in those
/// columns the band's first value, its last value, their
/// difference, its count and its mean cell, each right-aligned,
/// after its labels: its upper boundary's zpn name and fraction
/// in two-cell layouts, its style label otherwise.
/// Where band `i`'s row and the header sit in a report under a
/// measured layout: the header opens it, and the row starts one
/// header width per earlier populated band after the header,
/// right after a line end.
#[verifier::rlimit(100)]
#[verifier::spinoff_prover]
proof fn lemma_report_row_slice<const CAP: usize>(
    table: BandTable<CAP>,
    style: BandLabels,
    decimals: nat,
    cells: StatCells,
    layout: Layout,
    i: int,
)
    requires
        (
            layout.zpn_width as nat,
            layout.frac_width as nat,
            layout.value_width as nat,
            layout.count_width as nat,
            layout.decimals as nat,
        ) == measured_layout(table, style, decimals, cells),
        0 <= i < table.spec_bands().len(),
        table.spec_bands()[i].count > 0,
        ladder_at(table.spec_ladder().z(), table.spec_ladder().n(), (i + 1) as nat) is Some,
    ensures
        ({
            let z = table.spec_ladder().z();
            let n = table.spec_ladder().n();
            let bands = table.spec_bands();
            let r = report_text(table, style, layout, cells);
            let header = header_text(layout);
            let row = row_text(
                bands[i],
                ladder_at(z, n, (i + 1) as nat).unwrap(),
                style,
                layout,
                cells.means()[i],
            );
            let w = header.len() as int;
            let o = w * (1 + row_count(bands, z, n, i as nat));
            &&& row.len() == w
            &&& o >= w
            &&& o + w <= r.len()
            &&& r[o - 1] == '\n'
            &&& forall|a: int, b: int|
                o <= a <= b <= o + w ==> #[trigger] r.subrange(a, b) == row.subrange(a - o, b - o)
            &&& forall|a: int, b: int|
                0 <= a <= b <= w ==> #[trigger] r.subrange(a, b) == header.subrange(a, b)
        }),
{
    let z = table.spec_ladder().z();
    let n = table.spec_ladder().n();
    let bands = table.spec_bands();
    let means = cells.means();
    let band = bands[i];
    let u = ladder_at(z, n, (i + 1) as nat).unwrap();
    lemma_measured_rows_align(table, style, decimals, cells, layout, i);
    let header = header_text(layout);
    let w = header.len() as int;
    let row = row_text(band, u, style, layout, means[i]);
    let rows_i = rows_text(bands, z, n, style, layout, means, i as nat);
    assert(rows_text(bands, z, n, style, layout, means, (i + 1) as nat) == rows_i + row);
    lemma_rows_prefix(bands, z, n, style, layout, means, (i + 1) as nat, bands.len());
    let all_rows = rows_text(bands, z, n, style, layout, means, bands.len());
    let t = all_rows.subrange((rows_i + row).len() as int, all_rows.len() as int);
    assert(all_rows =~= rows_i + row + t);
    lemma_rows_len(table, style, decimals, cells, layout, i as nat);
    lemma_rows_end(bands, z, n, style, layout, means, i as nat);
    let rc = row_count(bands, z, n, i as nat) as int;
    assert(w * (1 + rc) == w + w * rc) by (nonlinear_arith);
    assert(w * rc >= 0) by (nonlinear_arith)
        requires
            w >= 0,
            rc >= 0,
    ;
    let o: int = w * (1 + rc);
    let r = report_text(table, style, layout, cells);
    let hr = header + all_rows;
    let nl = seq!['\n'];
    let summary = summary_rows(
        trim_extent(z, n, bands),
        style,
        layout,
        cells.overall_mean@,
        cells.overall_stdev@,
        cells.trimmed_mean@,
        cells.trimmed_stdev@,
    );
    assert(r == (hr + nl) + summary);
    assert(rows_i.len() == o - w);
    assert forall|a: int, b: int| o <= a <= b <= o + w implies #[trigger] r.subrange(a, b)
        == row.subrange(a - o, b - o) by {
        lemma_subrange_add(hr + nl, summary, a, b);
        lemma_subrange_add(hr, nl, a, b);
        lemma_subrange_add(header, all_rows, a, b);
        lemma_subrange_add(rows_i + row, t, a - w, b - w);
        lemma_subrange_add(rows_i, row, a - w, b - w);
    }
    assert forall|a: int, b: int| 0 <= a <= b <= w implies #[trigger] r.subrange(a, b)
        == header.subrange(a, b) by {
        lemma_subrange_add(hr + nl, summary, a, b);
        lemma_subrange_add(hr, nl, a, b);
        lemma_subrange_add(header, all_rows, a, b);
    }
    assert(r[o - 1] == hr[o - 1]);
    if rc == 0 {
        assert(hr[o - 1] == header[w - 1]);
    } else {
        assert(w * rc >= w) by (nonlinear_arith)
            requires
                w >= 0,
                rc >= 1,
        ;
        assert(o - 1 >= w);
        assert(hr[o - 1] == all_rows[o - 1 - w]);
        assert(all_rows[o - 1 - w] == (rows_i + row)[o - 1 - w]);
        assert(all_rows[o - 1 - w] == rows_i.last());
    }
}

#[verifier::rlimit(60)]
pub proof fn lemma_report_band_columns<const CAP: usize>(
    table: BandTable<CAP>,
    style: BandLabels,
    decimals: nat,
    cells: StatCells,
    layout: Layout,
    i: int,
)
    requires
        (
            layout.zpn_width as nat,
            layout.frac_width as nat,
            layout.value_width as nat,
            layout.count_width as nat,
            layout.decimals as nat,
        ) == measured_layout(table, style, decimals, cells),
        0 <= i < table.spec_bands().len(),
        table.spec_bands()[i].count > 0,
        ladder_at(table.spec_ladder().z(), table.spec_ladder().n(), (i + 1) as nat) is Some,
    ensures
        ({
            let r = report_text(table, style, layout, cells);
            let band = table.spec_bands()[i];
            let u = ladder_at(table.spec_ladder().z(), table.spec_ladder().n(), (i + 1) as nat).unwrap();
            let region = label_region(layout) as int;
            let zw = layout.zpn_width as int;
            let fw = layout.frac_width as int;
            let vw = layout.value_width as int;
            let cw = layout.count_width as int;
            let w = region + 4 * (1 + vw) + (1 + cw) + 1;
            let o: int = w * (1 + row_count(
                table.spec_bands(),
                table.spec_ladder().z(),
                table.spec_ladder().n(),
                i as nat,
            ));
            let c1 = region;
            let c2 = c1 + 1 + vw;
            let c3 = c2 + 1 + vw;
            let c4 = c3 + 1 + vw;
            let c5 = c4 + 1 + cw;
            &&& o + w <= r.len()
            &&& r.subrange(c1, c2) == seq![' '] + pad_left("first"@, vw as nat)
            &&& r.subrange(c2, c3) == seq![' '] + pad_left("last"@, vw as nat)
            &&& r.subrange(c3, c4) == seq![' '] + pad_left("range"@, vw as nat)
            &&& r.subrange(c4, c5) == seq![' '] + pad_left("count"@, cw as nat)
            &&& r.subrange(c5, c5 + 1 + vw) == seq![' '] + pad_left("mean"@, vw as nat)
            &&& r[o - 1] == '\n'
            &&& r[o + w - 1] == '\n'
            &&& r.subrange(o + c1, o + c2) == seq![' '] + pad_left(commas(band.first as nat), vw as nat)
            &&& r.subrange(o + c2, o + c3) == seq![' '] + pad_left(commas(band.last as nat), vw as nat)
            &&& r.subrange(o + c3, o + c4) == seq![' '] + pad_left(
                commas((band.last - band.first) as nat),
                vw as nat,
            )
            &&& r.subrange(o + c4, o + c5) == seq![' '] + pad_left(commas(band.count as nat), cw as nat)
            &&& r.subrange(o + c5, o + c5 + 1 + vw) == seq![' '] + pad_left(cells.means()[i], vw as nat)
            &&& fw > 0 ==> r.subrange(o, o + zw) == pad_right(zpn_text(u), zw as nat) && r.subrange(
                o + zw,
                o + region,
            ) == seq![' '] + pad_right(frac_cell(u), fw as nat)
            &&& fw == 0 ==> r.subrange(o, o + region) == pad_right(label_text(u, style), zw as nat)
        }),
{
    let z = table.spec_ladder().z();
    let n = table.spec_ladder().n();
    let bands = table.spec_bands();
    let means = cells.means();
    let band = bands[i];
    let u = ladder_at(z, n, (i + 1) as nat).unwrap();
    let region = label_region(layout) as int;
    lemma_measured_row_fits(table, style, decimals, cells, layout, i);
    lemma_header_columns(layout);
    lemma_row_columns(band, u, style, layout, means[i]);
    lemma_report_row_slice(table, style, decimals, cells, layout, i);
    let r = report_text(table, style, layout, cells);
    let vw = layout.value_width as int;
    let cw = layout.count_width as int;
    let zw = layout.zpn_width as int;
    let w = region + 4 * (1 + vw) + (1 + cw) + 1;
    let o = w * (1 + row_count(bands, z, n, i as nat));
    let c1 = region;
    let c2 = c1 + 1 + vw;
    let c3 = c2 + 1 + vw;
    let c4 = c3 + 1 + vw;
    let c5 = c4 + 1 + cw;
    assert(r.subrange(c1, c2) == header_text(layout).subrange(c1, c2));
    assert(r.subrange(c2, c3) == header_text(layout).subrange(c2, c3));
    assert(r.subrange(c3, c4) == header_text(layout).subrange(c3, c4));
    assert(r.subrange(c4, c5) == header_text(layout).subrange(c4, c5));
    assert(r.subrange(c5, c5 + 1 + vw) == header_text(layout).subrange(c5, c5 + 1 + vw));
    assert(r.subrange(o + c1, o + c2) == row_text(band, u, style, layout, means[i]).subrange(c1, c2));
    assert(r.subrange(o + c2, o + c3) == row_text(band, u, style, layout, means[i]).subrange(c2, c3));
    assert(r.subrange(o + c3, o + c4) == row_text(band, u, style, layout, means[i]).subrange(c3, c4));
    assert(r.subrange(o + c4, o + c5) == row_text(band, u, style, layout, means[i]).subrange(c4, c5));
    assert(r.subrange(o + c5, o + c5 + 1 + vw) == row_text(band, u, style, layout, means[i]).subrange(
        c5,
        c5 + 1 + vw,
    ));
    assert(r[o + w - 1] == r.subrange(o, o + w)[w - 1]);
    assert(r.subrange(o, o + w) == row_text(band, u, style, layout, means[i]).subrange(0, w));
    assert(r.subrange(o, o + zw) == row_text(band, u, style, layout, means[i]).subrange(0, zw));
    assert(r.subrange(o + zw, o + region) == row_text(band, u, style, layout, means[i]).subrange(
        zw,
        region,
    ));
    assert(r.subrange(o, o + region) == row_text(band, u, style, layout, means[i]).subrange(
        0,
        region,
    ));
}

/// The larger of two widths.
fn max_width(a: usize, b: usize) -> (r: usize)
    ensures
        r == max_nat(a as nat, b as nat),
{
    if a >= b {
        a
    } else {
        b
    }
}

impl Layout {
    /// Measure a snug layout for `table` in `style`: widest cell
    /// per column, headers and summary rows included; `cells`
    /// carries the mean/stdev cells formatted with `decimals`.
    pub fn measure<const CAP: usize>(
        table: &BandTable<CAP>,
        style: BandLabels,
        decimals: usize,
        cells: &StatCells,
    ) -> (r: Layout)
        requires
            cells.band_means@.len() == table.spec_bands().len(),
            forall|i: int|
                0 <= i < table.spec_bands().len() && #[trigger] table.spec_bands()[i].count > 0
                    ==> table.spec_bands()[i].first <= table.spec_bands()[i].last,
        ensures
            (r.zpn_width as nat, r.frac_width as nat, r.value_width as nat, r.count_width as nat, r.decimals as nat)
                == measured_layout(*table, style, decimals as nat, *cells),
    {
        let ghost z = table.spec_ladder().z();
        let ghost n = table.spec_ladder().n();
        let ghost means = cells.means();
        let two_cell = match style {
            BandLabels::Both => true,
            _ => false,
        };
        let ladder = table.ladder();
        let _ = ladder.z_depth();
        let bands = table.bands();
        let mut zpn_width: usize = 0;
        let mut frac_width: usize = 0;
        let mut value_width: usize = 5;
        let mut count_width: usize = 5;
        let mut index: usize = 0;
        while index < bands.len()
            invariant
                bands@ == table.spec_bands(),
                bands@.len() == ladder_len(z, n) - 1,
                valid_depths(z, n),
                ladder == table.spec_ladder(),
                z == ladder.z(),
                n == ladder.n(),
                means == cells.means(),
                two_cell == (style == BandLabels::Both),
                cells.band_means@.len() == bands@.len(),
                index <= bands@.len(),
                forall|i: int|
                    0 <= i < bands@.len() && #[trigger] bands@[i].count > 0 ==> bands@[i].first
                        <= bands@[i].last,
                (zpn_width as nat, frac_width as nat, value_width as nat, count_width as nat)
                    == measured_widths(bands@, z, n, style, means, index as nat),
                zpn_width <= 44,
                frac_width <= 40,
            decreases bands@.len() - index,
        {
            let band = &bands[index];
            if band.count > 0 {
                if let Some(upper) = ladder.get(index + 1) {
                    proof {
                        lemma_label_lengths(z, n, (index + 1) as nat);
                    }
                    let label_len = if two_cell {
                        zpn_label(upper).as_str().unicode_len()
                    } else {
                        boundary_label(upper, style).as_str().unicode_len()
                    };
                    zpn_width = max_width(zpn_width, label_len);
                    let bare = match upper {
                        Boundary::Min | Boundary::Max => true,
                        _ => false,
                    };
                    if two_cell && !bare {
                        frac_width = max_width(frac_width, frac_label(upper).as_str().unicode_len());
                    }
                    let mean = &cells.band_means[index];
                    proof {
                        assert(means[index as int] == mean@);
                    }
                    value_width = max_width(value_width, fmt_commas(band.first).as_str().unicode_len());
                    value_width = max_width(value_width, fmt_commas(band.last).as_str().unicode_len());
                    value_width = max_width(
                        value_width,
                        fmt_commas(band.last - band.first).as_str().unicode_len(),
                    );
                    value_width = max_width(value_width, mean.as_str().unicode_len());
                    count_width = max_width(count_width, fmt_commas(band.count).as_str().unicode_len());
                }
            }
            index += 1;
        }

        // Summary values share the value column.
        value_width = max_width(value_width, cells.overall_mean.as_str().unicode_len());
        value_width = max_width(value_width, cells.overall_stdev.as_str().unicode_len());
        value_width = max_width(value_width, cells.trimmed_mean.as_str().unicode_len());
        value_width = max_width(value_width, cells.trimmed_stdev.as_str().unicode_len());

        // Summary labels sit across the whole label region; widen
        // the second cell (or the only cell) to fit.
        proof {
            reveal_strlit("stdev");
        }
        let trim_label = summary_label("stdev", table.trim_range(), style).as_str().unicode_len();
        let region = if two_cell {
            zpn_width + 1 + frac_width
        } else {
            zpn_width
        };
        if trim_label > region {
            let grow = trim_label - region;
            if two_cell {
                frac_width = frac_width + grow;
            } else {
                zpn_width = zpn_width + grow;
            }
        }
        Layout {
            zpn_width,
            frac_width: if two_cell {
                frac_width
            } else {
                0
            },
            value_width,
            count_width,
            decimals,
        }
    }
}

/// Append `s` padded with spaces on the left to `width`.
fn push_left_padded(out: &mut String, s: &str, width: usize)
    ensures
        final(out)@ == old(out)@ + pad_left(s@, width as nat),
{
    let len = s.unicode_len();
    if len < width {
        let mut k: usize = len;
        while k < width
            invariant
                len == s@.len(),
                len <= k <= width,
                out@ == old(out)@ + spaces((k - len) as nat),
            decreases width - k,
        {
            proof {
                reveal_strlit(" ");
            }
            out.append(" ");
            proof {
                assert(out@ =~= old(out)@ + spaces((k + 1 - len) as nat));
            }
            k += 1;
        }
    }
    out.append(s);
    proof {
        assert(out@ =~= old(out)@ + pad_left(s@, width as nat));
    }
}

/// Append a right-aligned column cell.
fn push_cell(out: &mut String, s: &str, width: usize)
    ensures
        final(out)@ == old(out)@ + cell(s@, width as nat),
{
    proof {
        reveal_strlit(" ");
    }
    out.append(" ");
    push_left_padded(out, s, width);
    proof {
        assert(out@ =~= old(out)@ + cell(s@, width as nat));
    }
}

/// Append `label` padded across the label region, then a value
/// cell and the line end.
fn push_summary_row(out: &mut String, label: &str, value: &str, layout: &Layout)
    requires
        layout.zpn_width + 1 + layout.frac_width <= usize::MAX,
    ensures
        final(out)@ == old(out)@ + summary_row(label@, value@, *layout),
{
    let region = if layout.frac_width > 0 {
        layout.zpn_width + 1 + layout.frac_width
    } else {
        layout.zpn_width
    };
    push_padded(out, label, region);
    push_cell(out, value, layout.value_width);
    proof {
        reveal_strlit("\n");
    }
    out.append("\n");
    proof {
        assert(out@ =~= old(out)@ + summary_row(label@, value@, *layout));
    }
}

/// Append the row of a populated band capped by `upper`.
fn push_band_row(
    out: &mut String,
    band: &Band,
    upper: Boundary,
    style: BandLabels,
    layout: &Layout,
    mean: &str,
)
    requires
        band.first <= band.last,
    ensures
        final(out)@ == old(out)@ + row_text(*band, upper, style, *layout, mean@),
{
    if layout.frac_width > 0 {
        let zpn = zpn_label(upper);
        push_padded(out, zpn.as_str(), layout.zpn_width);
        proof {
            reveal_strlit(" ");
        }
        out.append(" ");
        let frac = match upper {
            Boundary::Min | Boundary::Max => String::new(),
            _ => frac_label(upper),
        };
        push_padded(out, frac.as_str(), layout.frac_width);
    } else {
        let label = boundary_label(upper, style);
        push_padded(out, label.as_str(), layout.zpn_width);
    }
    let ghost labels = out@;
    let first = fmt_commas(band.first);
    push_cell(out, first.as_str(), layout.value_width);
    let last = fmt_commas(band.last);
    push_cell(out, last.as_str(), layout.value_width);
    let range = fmt_commas(band.last - band.first);
    push_cell(out, range.as_str(), layout.value_width);
    let count = fmt_commas(band.count);
    push_cell(out, count.as_str(), layout.count_width);
    push_cell(out, mean, layout.value_width);
    proof {
        reveal_strlit("\n");
    }
    out.append("\n");
    proof {
        assert(labels =~= old(out)@ + row_labels(upper, style, *layout));
        assert(out@ =~= old(out)@ + row_text(*band, upper, style, *layout, mean@));
    }
}

/// Append the header row.
fn push_header(out: &mut String, layout: &Layout)
    requires
        layout.zpn_width + 1 + layout.frac_width <= usize::MAX,
    ensures
        final(out)@ == old(out)@ + header_text(*layout),
{
    let region = if layout.frac_width > 0 {
        layout.zpn_width + 1 + layout.frac_width
    } else {
        layout.zpn_width
    };
    proof {
        reveal_strlit("");
        reveal_strlit("first");
        reveal_strlit("last");
        reveal_strlit("range");
        reveal_strlit("count");
        reveal_strlit("mean");
        reveal_strlit("\n");
    }
    push_padded(out, "", region);
    push_cell(out, "first", layout.value_width);
    push_cell(out, "last", layout.value_width);
    push_cell(out, "range", layout.value_width);
    push_cell(out, "count", layout.count_width);
    push_cell(out, "mean", layout.value_width);
    out.append("\n");
    proof {
        assert(out@ =~= old(out)@ + header_text(*layout));
    }
}

/// Append the rows of the populated bands.
fn push_rows<const CAP: usize>(
    out: &mut String,
    table: &BandTable<CAP>,
    style: BandLabels,
    layout: &Layout,
    cells: &StatCells,
)
    requires
        cells.band_means@.len() == table.spec_bands().len(),
        forall|i: int|
            0 <= i < table.spec_bands().len() && #[trigger] table.spec_bands()[i].count > 0
                ==> table.spec_bands()[i].first <= table.spec_bands()[i].last,
    ensures
        final(out)@ == old(out)@ + rows_text(
            table.spec_bands(),
            table.spec_ladder().z(),
            table.spec_ladder().n(),
            style,
            *layout,
            cells.means(),
            table.spec_bands().len(),
        ),
{
    let ghost z = table.spec_ladder().z();
    let ghost n = table.spec_ladder().n();
    let ghost means = cells.means();
    let ladder = table.ladder();
    let bands = table.bands();
    let mut index: usize = 0;
    while index < bands.len()
        invariant
            bands@ == table.spec_bands(),
            ladder == table.spec_ladder(),
            z == ladder.z(),
            n == ladder.n(),
            means == cells.means(),
            cells.band_means@.len() == bands@.len(),
            index <= bands@.len(),
            forall|i: int|
                0 <= i < bands@.len() && #[trigger] bands@[i].count > 0 ==> bands@[i].first
                    <= bands@[i].last,
            out@ == old(out)@ + rows_text(bands@, z, n, style, *layout, means, index as nat),
        decreases bands@.len() - index,
    {
        let ghost before = out@;
        let band = &bands[index];
        if band.count > 0 {
            if let Some(upper) = ladder.get(index + 1) {
                let mean = &cells.band_means[index];
                proof {
                    assert(means[index as int] == mean@);
                }
                push_band_row(out, band, upper, style, layout, mean.as_str());
            }
        }
        proof {
            assert(out@ =~= old(out)@ + rows_text(bands@, z, n, style, *layout, means, (index + 1) as nat));
        }
        index += 1;
    }
}

/// Append the summary rows.
#[verifier::rlimit(40)]
fn push_summaries<const CAP: usize>(
    out: &mut String,
    table: &BandTable<CAP>,
    style: BandLabels,
    layout: &Layout,
    cells: &StatCells,
)
    requires
        layout.zpn_width + 1 + layout.frac_width <= usize::MAX,
    ensures
        final(out)@ == old(out)@ + summary_rows(
            trim_extent(table.spec_ladder().z(), table.spec_ladder().n(), table.spec_bands()),
            style,
            *layout,
            cells.overall_mean@,
            cells.overall_stdev@,
            cells.trimmed_mean@,
            cells.trimmed_stdev@,
        ),
{
    proof {
        reveal_strlit("mean");
        reveal_strlit("stdev");
    }
    push_summary_row(out, "mean", cells.overall_mean.as_str(), layout);
    push_summary_row(out, "stdev", cells.overall_stdev.as_str(), layout);
    let trim = table.trim_range();
    if let Some(range) = trim {
        let mean_label = summary_label("mean", Some(range), style);
        push_summary_row(out, mean_label.as_str(), cells.trimmed_mean.as_str(), layout);
        let stdev_label = summary_label("stdev", Some(range), style);
        push_summary_row(out, stdev_label.as_str(), cells.trimmed_stdev.as_str(), layout);
    }
    proof {
        assert(out@ =~= old(out)@ + summary_rows(
            trim_extent(table.spec_ladder().z(), table.spec_ladder().n(), table.spec_bands()),
            style,
            *layout,
            cells.overall_mean@,
            cells.overall_stdev@,
            cells.trimmed_mean@,
            cells.trimmed_stdev@,
        ));
    }
}

/// Render `table` as text: header, one row per populated band,
/// a blank line, then overall and trimmed mean/stdev rows (the
/// trimmed rows only when something below the n2 cut is
/// populated). Lines end with `\n`.
///
/// - `layout` fixes the column widths — [`Layout::measure`] for
///   snug columns, [`Layout::demo_legacy`] for the demo's
///   historical shape.
/// - `cells` carries the formatted mean and stdev cells.
pub fn render_band_table<const CAP: usize>(
    table: &BandTable<CAP>,
    style: BandLabels,
    layout: &Layout,
    cells: &StatCells,
) -> (r: String)
    requires
        layout.zpn_width + 1 + layout.frac_width <= usize::MAX,
        cells.band_means@.len() == table.spec_bands().len(),
        forall|i: int|
            0 <= i < table.spec_bands().len() && #[trigger] table.spec_bands()[i].count > 0
                ==> table.spec_bands()[i].first <= table.spec_bands()[i].last,
    ensures
        r@ == report_text(*table, style, *layout, *cells),
{
    let mut out = String::new();
    push_header(&mut out, layout);
    push_rows(&mut out, table, style, layout, cells);
    proof {
        reveal_strlit("\n");
    }
    out.append("\n");
    push_summaries(&mut out, table, style, layout, cells);
    proof {
        assert(out@ =~= report_text(*table, style, *layout, *cells));
    }
    out
}

} // verus!
