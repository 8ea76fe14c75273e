//! Number formatting: comma-grouped decimal integers for report
//! cells.
use vstd::prelude::*;
use vstd::string::StringExecFns;

verus! {

/// The decimal digit character for `d` in `0..10`.
pub open spec fn digit_char(d: nat) -> char {
    (48 + d) as char
}

/// The decimal representation of `v`, most significant digit
/// first, no leading zeros (`"0"` for 0).
pub open spec fn decimal(v: nat) -> Seq<char>
    decreases v,
{
    if v < 10 {
        seq![digit_char(v)]
    } else {
        decimal(v / 10).push(digit_char(v % 10))
    }
}

/// Three decimal digits of `x < 1000`, zero-padded.
pub open spec fn three_digits(x: nat) -> Seq<char> {
    seq![digit_char(x / 100), digit_char((x / 10) % 10), digit_char(x % 10)]
}

/// The decimal representation of `v` with a `,` between groups
/// of three digits, counted from the right (`12345` → `12,345`).
pub open spec fn commas(v: nat) -> Seq<char>
    decreases v,
{
    if v < 1000 {
        decimal(v)
    } else {
        commas(v / 1000) + seq![','] + three_digits(v % 1000)
    }
}

/// Keeps every character but the thousands separator.
pub open spec fn keep_digits() -> spec_fn(char) -> bool {
    |c: char| c != ','
}

/// Decimal digits hold no comma.
proof fn lemma_decimal_no_commas(v: nat)
    ensures
        decimal(v).filter(keep_digits()) == decimal(v),
    decreases v,
{
    reveal(Seq::filter);
    if v >= 10 {
        lemma_decimal_no_commas(v / 10);
    }
    let s = decimal(v);
    assert(s.drop_last() =~= if v < 10 {
        Seq::<char>::empty()
    } else {
        decimal(v / 10)
    });
    assert(keep_digits()(s.last()));
}

/// Appending a digit to a positive number appends its digit
/// character.
proof fn lemma_decimal_digit(q: nat, d: nat)
    requires
        q >= 1,
        d < 10,
    ensures
        decimal(q * 10 + d) == decimal(q).push(digit_char(d)),
{
    let v = q * 10 + d;
    assert(v / 10 == q);
    assert(v % 10 == d);
}

/// A number of at least 1000 is its thousands followed by three
/// zero-padded digits.
proof fn lemma_decimal_thousands(v: nat)
    requires
        v >= 1000,
    ensures
        decimal(v) == decimal(v / 1000) + three_digits(v % 1000),
{
    let q = v / 1000;
    let r = v % 1000;
    let r2 = r / 100;
    let r1 = (r / 10) % 10;
    let r0 = r % 10;
    assert(v == ((q * 10 + r2) * 10 + r1) * 10 + r0);
    lemma_decimal_digit(q, r2);
    lemma_decimal_digit(q * 10 + r2, r1);
    lemma_decimal_digit((q * 10 + r2) * 10 + r1, r0);
    assert(decimal(v) =~= decimal(q) + three_digits(r));
}

/// Comma grouping only adds separators: dropping the commas of
/// `commas(v)` gives back the plain decimal digits of `v`.
pub proof fn lemma_commas_digits(v: nat)
    ensures
        commas(v).filter(keep_digits()) == decimal(v),
    decreases v,
{
    let keep = keep_digits();
    if v < 1000 {
        lemma_decimal_no_commas(v);
    } else {
        lemma_commas_digits(v / 1000);
        lemma_decimal_thousands(v);
        let head = commas(v / 1000);
        let tail = three_digits(v % 1000);
        Seq::filter_distributes_over_add(head + seq![','], tail, keep);
        Seq::filter_distributes_over_add(head, seq![','], keep);
        assert(seq![','].filter(keep) =~= Seq::<char>::empty()) by {
            reveal_with_fuel(Seq::filter, 2);
            assert(seq![','].drop_last() =~= Seq::<char>::empty());
        }
        assert(tail.filter(keep) =~= tail) by {
            reveal_with_fuel(Seq::filter, 4);
            assert(tail.drop_last() =~= seq![tail[0], tail[1]]);
            assert(tail.drop_last().drop_last() =~= seq![tail[0]]);
            assert(tail.drop_last().drop_last().drop_last() =~= Seq::<char>::empty());
        }
        assert(commas(v) =~= head + seq![','] + tail);
        assert(commas(v).filter(keep) =~= decimal(v / 1000) + tail);
    }
}

/// The one-character string of digit `d`.
pub fn digit_str(d: u64) -> (r: &'static str)
    requires
        d < 10,
    ensures
        r@ == seq![digit_char(d as nat)],
{
    proof {
        reveal_strlit("0");
        reveal_strlit("1");
        reveal_strlit("2");
        reveal_strlit("3");
        reveal_strlit("4");
        reveal_strlit("5");
        reveal_strlit("6");
        reveal_strlit("7");
        reveal_strlit("8");
        reveal_strlit("9");
    }
    match d {
        0 => "0",
        1 => "1",
        2 => "2",
        3 => "3",
        4 => "4",
        5 => "5",
        6 => "6",
        7 => "7",
        8 => "8",
        _ => "9",
    }
}

/// Append the decimal representation of `v` to `out`.
pub fn push_decimal(out: &mut String, v: u64)
    ensures
        final(out)@ == old(out)@ + decimal(v as nat),
    decreases v,
{
    if v >= 10 {
        push_decimal(out, v / 10);
    }
    out.append(digit_str(v % 10));
    proof {
        if v >= 10 {
            assert(decimal(v as nat) == decimal((v / 10) as nat).push(digit_char((v % 10) as nat)));
        }
        assert(final(out)@ =~= old(out)@ + decimal(v as nat));
    }
}

/// Append `x < 1000` as three zero-padded digits.
fn push_three_digits(out: &mut String, x: u64)
    requires
        x < 1000,
    ensures
        final(out)@ == old(out)@ + three_digits(x as nat),
{
    out.append(digit_str(x / 100));
    out.append(digit_str((x / 10) % 10));
    out.append(digit_str(x % 10));
    proof {
        assert(final(out)@ =~= old(out)@ + three_digits(x as nat));
    }
}

/// Append the comma-grouped decimal representation of `v`.
fn push_commas(out: &mut String, v: u64)
    ensures
        final(out)@ == old(out)@ + commas(v as nat),
    decreases v,
{
    if v < 1000 {
        push_decimal(out, v);
    } else {
        push_commas(out, v / 1000);
        out.append(",");
        proof {
            reveal_strlit(",");
        }
        push_three_digits(out, v % 1000);
        proof {
            assert(final(out)@ =~= old(out)@ + commas(v as nat));
        }
    }
}

/// Format an integer with thousands separators,
/// `12345` → `"12,345"`.
pub fn fmt_commas(value: u64) -> (r: String)
    ensures
        r@ == commas(value as nat),
{
    let mut out = String::new();
    push_commas(&mut out, value);
    proof {
        assert(out@ =~= commas(value as nat));
    }
    out
}

} // verus!
