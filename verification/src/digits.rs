//! Rendering numbers for the report.
//!
//! Counts are printed as plain decimal numerals; per-index shares are printed
//! as a percentage with exactly one decimal place, rounded to the nearest
//! tenth of a percent with ties going to the even tenth.

use vstd::prelude::*;

verus! {

/// The character for one decimal digit.
pub open spec fn dec_digit(d: int) -> char {
    if d == 0 {
        '0'
    } else if d == 1 {
        '1'
    } else if d == 2 {
        '2'
    } else if d == 3 {
        '3'
    } else if d == 4 {
        '4'
    } else if d == 5 {
        '5'
    } else if d == 6 {
        '6'
    } else if d == 7 {
        '7'
    } else if d == 8 {
        '8'
    } else {
        '9'
    }
}

/// The decimal numeral of a natural number, most significant digit first.
pub open spec fn dec_str(n: nat) -> Seq<char>
    decreases n,
{
    if n < 10 {
        seq![dec_digit(n as int)]
    } else {
        dec_str(n / 10).push(dec_digit((n % 10) as int))
    }
}

/// The numeral of a signed number: a minus sign before the magnitude.
pub open spec fn int_str(v: int) -> Seq<char> {
    if v < 0 {
        seq!['-'] + dec_str((-v) as nat)
    } else {
        dec_str(v as nat)
    }
}

/// The share of `part` in `whole`, in tenths of a percent, rounded to the
/// nearest tenth, ties to the even tenth.
pub open spec fn pct_tenths(part: nat, whole: nat) -> nat
    recommends
        1 <= whole,
{
    let num = part * 1000;
    let q = num / whole;
    let r = num % whole;
    if 2 * r < whole {
        q
    } else if 2 * r > whole {
        q + 1
    } else if q % 2 == 0 {
        q
    } else {
        q + 1
    }
}

/// The percentage as printed: the tenths split around a decimal point.
pub open spec fn pct_str(part: nat, whole: nat) -> Seq<char> {
    let t = pct_tenths(part, whole);
    dec_str(t / 10) + seq!['.'] + seq![dec_digit((t % 10) as int)]
}

/// Append one decimal digit.
fn append_digit(s: &mut String, d: u64)
    requires
        d < 10,
    ensures
        final(s)@ == old(s)@.push(dec_digit(d as int)),
{
    proof {
        reveal_strlit("0");
        reveal_strlit("1");
        reveal_strlit("2");
        reveal_strlit("3");
        reveal_strlit("4");
        reveal_strlit("5");
        reveal_strlit("6");
        reveal_strlit("7");
        reveal_strlit("8");
        reveal_strlit("9");
    }
    if d == 0 {
        s.append("0");
    } else if d == 1 {
        s.append("1");
    } else if d == 2 {
        s.append("2");
    } else if d == 3 {
        s.append("3");
    } else if d == 4 {
        s.append("4");
    } else if d == 5 {
        s.append("5");
    } else if d == 6 {
        s.append("6");
    } else if d == 7 {
        s.append("7");
    } else if d == 8 {
        s.append("8");
    } else {
        s.append("9");
    }
    proof {
        assert(s@ =~= old(s)@.push(dec_digit(d as int)));
    }
}

/// Append the decimal numeral of `n`.
pub fn append_dec(s: &mut String, n: u128)
    ensures
        final(s)@ == old(s)@ + dec_str(n as nat),
    decreases n,
{
    if n < 10 {
        append_digit(s, n as u64);
        proof {
            assert(old(s)@.push(dec_digit(n as int)) =~= old(s)@ + dec_str(n as nat));
        }
    } else {
        append_dec(s, n / 10);
        append_digit(s, (n % 10) as u64);
        proof {
            assert(old(s)@ + dec_str((n / 10) as nat) + seq![dec_digit((n % 10) as int)] =~= old(
                s,
            )@ + dec_str(n as nat));
            assert(s@ =~= old(s)@ + dec_str(n as nat));
        }
    }
}

/// Append the numeral of a signed sub-index.
pub fn append_index(s: &mut String, v: i64)
    ensures
        final(s)@ == old(s)@ + int_str(v as int),
{
    if v < 0 {
        s.append("-");
        proof {
            reveal_strlit("-");
        }
        let m: u64 = (-(v as i128)) as u64;
        proof {
            assert(m as nat == (-(v as int)) as nat);
        }
        append_dec(s, m as u128);
        proof {
            assert(s@ =~= old(s)@ + int_str(v as int));
        }
    } else {
        append_dec(s, v as u128);
        proof {
            assert(s@ =~= old(s)@ + int_str(v as int));
        }
    }
}

/// Append the percentage of `part` in `whole`, one decimal place.
pub fn append_percent(s: &mut String, part: u64, whole: u128)
    requires
        1 <= whole,
        part as nat <= whole as nat,
    ensures
        final(s)@ == old(s)@ + pct_str(part as nat, whole as nat),
{
    let num: u128 = (part as u128) * 1000;
    let q = num / whole;
    let r = num % whole;
    let t: u128 = if r < whole - r {
        q
    } else if r > whole - r {
        q + 1
    } else if q % 2 == 0 {
        q
    } else {
        q + 1
    };
    proof {
        assert(num as nat == (part as nat) * 1000);
        assert(t as nat == pct_tenths(part as nat, whole as nat));
    }
    append_dec(s, t / 10);
    s.append(".");
    proof {
        reveal_strlit(".");
    }
    append_digit(s, (t % 10) as u64);
    proof {
        assert(s@ =~= old(s)@ + pct_str(part as nat, whole as nat));
    }
}

} // verus!
