//! Boundary labels for report rows: presentation text for the
//! ladder's boundaries.
use vstd::prelude::*;
use vstd::string::StringExecFns;
use crate::bands::{Boundary, ladder_at, ladder_len, valid_depths};
use crate::numfmt::{decimal, push_decimal};

verus! {

/// Band-label style for report rows.
///
/// - `Zpn` — nines/zeros + decile names (`z3`, `p50`, `n4`).
/// - `Frac` — literal boundary fractions with `_` grouping
///   (`0.001`, `0.50`, `0.999_9`).
/// - `Both` — zpn and fraction side by side.
#[derive(Debug, Clone, Copy, PartialEq, Eq, Structural)]
pub enum BandLabels {
    /// nines/zeros + decile names.
    Zpn,
    /// Literal fractions.
    Frac,
    /// zpn and fraction side by side.
    Both,
}

impl BandLabels {
    /// Lowercase name for CLI flags and report-header metadata.
    pub fn as_str(self) -> (r: &'static str)
        ensures
            r@ == match self {
                BandLabels::Zpn => "zpn"@,
                BandLabels::Frac => "frac"@,
                BandLabels::Both => "both"@,
            },
    {
        match self {
            BandLabels::Zpn => "zpn",
            BandLabels::Frac => "frac",
            BandLabels::Both => "both",
        }
    }
}

/// The nines/zeros / decile name of a boundary.
pub open spec fn zpn_text(b: Boundary) -> Seq<char> {
    match b {
        Boundary::Min => "min"@,
        Boundary::Max => "max"@,
        Boundary::Z(k) => "z"@ + decimal(k as nat),
        Boundary::P(d) => "p"@ + decimal(d as nat) + "0"@,
        Boundary::N(k) => "n"@ + decimal(k as nat),
    }
}

/// The digits after `0.` of a `count`-digit fraction, from digit
/// `index` on: `fill` digits, `_` before every third, and a final
/// `1` in place of the last fill digit when `trailing_one`.
pub open spec fn grouped_digits(index: nat, count: nat, fill: char, trailing_one: bool) -> Seq<char>
    decreases count - index,
{
    if index >= count {
        seq![]
    } else {
        let sep = if index > 0 && index % 3 == 0 {
            seq!['_']
        } else {
            seq![]
        };
        let digit = if trailing_one && index + 1 == count {
            '1'
        } else {
            fill
        };
        sep.push(digit) + grouped_digits(index + 1, count, fill, trailing_one)
    }
}

/// The literal-fraction name of a boundary.
pub open spec fn frac_text(b: Boundary) -> Seq<char> {
    match b {
        Boundary::Min => "min"@,
        Boundary::Max => "max"@,
        Boundary::P(d) => "0."@ + decimal(d as nat) + "0"@,
        Boundary::Z(k) => "0."@ + grouped_digits(0, k as nat, '0', true),
        Boundary::N(k) => "0."@ + grouped_digits(0, k as nat, '9', false),
    }
}

/// `s` padded with spaces on the right to at least `width`.
pub open spec fn pad_right(s: Seq<char>, width: nat) -> Seq<char> {
    if s.len() >= width {
        s
    } else {
        s + Seq::new((width - s.len()) as nat, |i: int| ' ')
    }
}

/// The single-cell row label of a boundary in a style.
pub open spec fn label_text(b: Boundary, style: BandLabels) -> Seq<char> {
    match style {
        BandLabels::Zpn => zpn_text(b),
        BandLabels::Frac => frac_text(b),
        BandLabels::Both => match b {
            Boundary::Min | Boundary::Max => zpn_text(b),
            _ => pad_right(zpn_text(b), 3) + " "@ + frac_text(b),
        },
    }
}

/// The bare name used in a trimmed-stat range label.
pub open spec fn trim_text(b: Boundary, style: BandLabels) -> Seq<char> {
    match style {
        BandLabels::Frac => frac_text(b),
        BandLabels::Zpn | BandLabels::Both => zpn_text(b),
    }
}

/// A summary-row label: the prefix alone, or `prefix lo..hi`
/// over the trim extent (one name when it is a single band).
pub open spec fn summary_text(
    prefix: Seq<char>,
    range: Option<(Boundary, Boundary)>,
    style: BandLabels,
) -> Seq<char> {
    match range {
        None => prefix,
        Some((lo, hi)) => if lo == hi {
            prefix + " "@ + trim_text(lo, style)
        } else {
            prefix + " "@ + trim_text(lo, style) + ".."@ + trim_text(hi, style)
        },
    }
}

/// Each grouped digit adds at most two characters.
proof fn lemma_grouped_digits_len(index: nat, count: nat, fill: char, trailing_one: bool)
    requires
        index <= count,
    ensures
        grouped_digits(index, count, fill, trailing_one).len() <= 2 * (count - index),
    decreases count - index,
{
    if index < count {
        lemma_grouped_digits_len(index + 1, count, fill, trailing_one);
    }
}

/// A ladder boundary's labels are short: a zpn name fits 3
/// characters, a fraction 40, a row label 44.
pub proof fn lemma_label_lengths(z: nat, n: nat, i: nat)
    requires
        valid_depths(z, n),
        i < ladder_len(z, n),
    ensures
        zpn_text(ladder_at(z, n, i).unwrap()).len() <= 3,
        frac_text(ladder_at(z, n, i).unwrap()).len() <= 40,
        forall|style: BandLabels| #[trigger] label_text(ladder_at(z, n, i).unwrap(), style).len() <= 44,
        forall|style: BandLabels| #[trigger] trim_text(ladder_at(z, n, i).unwrap(), style).len() <= 40,
{
    reveal_strlit("min");
    reveal_strlit("max");
    reveal_strlit("z");
    reveal_strlit("p");
    reveal_strlit("n");
    reveal_strlit("0");
    reveal_strlit("0.");
    reveal_strlit(" ");
    let b = ladder_at(z, n, i).unwrap();
    match b {
        Boundary::Z(k) => {
            lemma_decimal_len(k as nat);
            lemma_grouped_digits_len(0, k as nat, '0', true);
        },
        Boundary::P(d) => {
            lemma_decimal_len(d as nat);
        },
        Boundary::N(k) => {
            lemma_decimal_len(k as nat);
            lemma_grouped_digits_len(0, k as nat, '9', false);
        },
        _ => {},
    }
}

/// Numbers below 100 have at most two decimal digits.
proof fn lemma_decimal_len(v: nat)
    requires
        v < 100,
    ensures
        decimal(v).len() <= 2,
        v < 10 ==> decimal(v).len() == 1,
{
    if v >= 10 {
        assert(decimal(v / 10).len() == 1);
    }
}

/// The nines/zeros / decile name (`z3`, `p50`, `n4`, `min`).
pub fn zpn_label(boundary: Boundary) -> (r: String)
    ensures
        r@ == zpn_text(boundary),
{
    let mut out = String::new();
    match boundary {
        Boundary::Min => out.append("min"),
        Boundary::Max => out.append("max"),
        Boundary::Z(k) => {
            out.append("z");
            push_decimal(&mut out, k as u64);
        },
        Boundary::P(d) => {
            out.append("p");
            push_decimal(&mut out, d as u64);
            out.append("0");
        },
        Boundary::N(k) => {
            out.append("n");
            push_decimal(&mut out, k as u64);
        },
    }
    proof {
        assert(out@ =~= zpn_text(boundary));
    }
    out
}

/// `0.` then `digit_count` digits of `fill`, `_`-grouped in
/// threes; `trailing_one` replaces the last digit with `1` (the
/// zK fractions: `0.000_1`).
fn grouped(digit_count: u8, fill: &str, trailing_one: bool) -> (r: String)
    requires
        fill@.len() == 1,
    ensures
        r@ == "0."@ + grouped_digits(0, digit_count as nat, fill@[0], trailing_one),
{
    proof {
        reveal_strlit("_");
        reveal_strlit("1");
    }
    let mut out = String::new();
    out.append("0.");
    let ghost head = "0."@;
    let mut index: u8 = 0;
    while index < digit_count
        invariant
            fill@.len() == 1,
            index <= digit_count,
            head == "0."@,
            out@ + grouped_digits(index as nat, digit_count as nat, fill@[0], trailing_one) == head
                + grouped_digits(0, digit_count as nat, fill@[0], trailing_one),
        decreases digit_count - index,
    {
        proof {
            reveal_strlit("_");
            reveal_strlit("1");
        }
        let ghost before = out@;
        let ghost sep: Seq<char> = if index > 0 && index % 3 == 0 {
            seq!['_']
        } else {
            seq![]
        };
        let ghost digit: char = if trailing_one && index + 1 == digit_count {
            '1'
        } else {
            fill@[0]
        };
        if index > 0 && index % 3 == 0 {
            out.append("_");
            assert(out@ =~= before + sep);
        } else {
            assert(out@ =~= before + sep);
        }
        let ghost mid = out@;
        let last = index + 1 == digit_count;
        if trailing_one && last {
            out.append("1");
            assert(out@ =~= mid + seq![digit]);
        } else {
            out.append(fill);
            assert(fill@ =~= seq![fill@[0]]);
            assert(out@ =~= mid + seq![digit]);
        }
        proof {
            assert(out@ =~= before + sep.push(digit));
            assert(grouped_digits(index as nat, digit_count as nat, fill@[0], trailing_one)
                =~= sep.push(digit) + grouped_digits(
                (index + 1) as nat,
                digit_count as nat,
                fill@[0],
                trailing_one,
            ));
            assert(before + (sep.push(digit) + grouped_digits(
                (index + 1) as nat,
                digit_count as nat,
                fill@[0],
                trailing_one,
            )) =~= out@ + grouped_digits(
                (index + 1) as nat,
                digit_count as nat,
                fill@[0],
                trailing_one,
            ));
        }
        index += 1;
    }
    proof {
        assert(grouped_digits(index as nat, digit_count as nat, fill@[0], trailing_one) =~= seq![]);
        assert(out@ =~= out@ + grouped_digits(index as nat, digit_count as nat, fill@[0], trailing_one));
    }
    out
}

/// The literal-fraction name with `_` grouping (`0.001`,
/// `0.50`, `0.999_9`, `min`).
pub fn frac_label(boundary: Boundary) -> (r: String)
    ensures
        r@ == frac_text(boundary),
{
    proof {
        reveal_strlit("0");
        reveal_strlit("9");
    }
    match boundary {
        Boundary::Min => String::from_str("min"),
        Boundary::Max => String::from_str("max"),
        Boundary::P(d) => {
            let mut out = String::new();
            out.append("0.");
            push_decimal(&mut out, d as u64);
            out.append("0");
            proof {
                assert(out@ =~= frac_text(boundary));
            }
            out
        },
        Boundary::Z(k) => grouped(k, "0", true),
        Boundary::N(k) => grouped(k, "9", false),
    }
}

/// Append `s` padded with spaces on the right to `width`.
pub(crate) fn push_padded(out: &mut String, s: &str, width: usize)
    ensures
        final(out)@ == old(out)@ + pad_right(s@, width as nat),
{
    proof {
        reveal_strlit(" ");
    }
    out.append(s);
    let len = s.unicode_len();
    if len < width {
        let mut k: usize = len;
        while k < width
            invariant
                len == s@.len(),
                len <= k <= width,
                out@ == old(out)@ + s@ + Seq::new((k - len) as nat, |i: int| ' '),
            decreases width - k,
        {
            proof {
                reveal_strlit(" ");
            }
            out.append(" ");
            proof {
                assert(out@ =~= old(out)@ + s@ + Seq::new((k + 1 - len) as nat, |i: int| ' '));
            }
            k += 1;
        }
    }
    proof {
        assert(out@ =~= old(out)@ + pad_right(s@, width as nat));
    }
}
/// The single-cell row label in the given style.
///
/// - `Both` pads the zpn name to its 3-char max so the fraction
///   column aligns (`n4  0.999_9`); `min`/`max` carry no
///   fraction, so `Both` prints them bare.
pub fn boundary_label(boundary: Boundary, style: BandLabels) -> (r: String)
    ensures
        r@ == label_text(boundary, style),
{
    match style {
        BandLabels::Zpn => zpn_label(boundary),
        BandLabels::Frac => frac_label(boundary),
        BandLabels::Both => match boundary {
            Boundary::Min | Boundary::Max => zpn_label(boundary),
            _ => {
                let zpn = zpn_label(boundary);
                let frac = frac_label(boundary);
                let mut out = String::new();
                push_padded(&mut out, zpn.as_str(), 3);
                out.append(" ");
                out.append(frac.as_str());
                proof {
                    assert(out@ =~= label_text(boundary, style));
                }
                out
            },
        },
    }
}

/// The bare style-name used in a trimmed-stat range label —
/// `Both` reuses the zpn name (`z4`, not the padded pair).
pub fn trim_name(boundary: Boundary, style: BandLabels) -> (r: String)
    ensures
        r@ == trim_text(boundary, style),
{
    match style {
        BandLabels::Frac => frac_label(boundary),
        BandLabels::Zpn | BandLabels::Both => zpn_label(boundary),
    }
}

/// A summary-row label: the prefix alone (`mean`, `stdev`), or
/// `prefix lo..hi` over the trim extent (collapsed to one name
/// when the extent is a single band).
pub fn summary_label(prefix: &str, range: Option<(Boundary, Boundary)>, style: BandLabels) -> (r:
    String)
    ensures
        r@ == summary_text(prefix@, range, style),
{
    let mut out = String::from_str(prefix);
    match range {
        None => {},
        Some((lo, hi)) => {
            out.append(" ");
            let lo_name = trim_name(lo, style);
            out.append(lo_name.as_str());
            if lo != hi {
                out.append("..");
                let hi_name = trim_name(hi, style);
                out.append(hi_name.as_str());
            }
        },
    }
    proof {
        assert(out@ =~= summary_text(prefix@, range, style));
    }
    out
}

} // verus!
