//! Money formatting: the allowance widget's balance text.

use vstd::prelude::*;

verus! {

/// Relies on std's `String::push`: it appends exactly the one
/// character to the end of the string.
pub assume_specification[ String::push ](s: &mut String, c: char)
    ensures
        final(s)@ == old(s)@.push(c),
;

/// The character for one decimal digit.
pub open spec fn digit_char(d: nat) -> char
    recommends
        d < 10,
{
    if d == 0 {
        '0'
    } else if d == 1 {
        '1'
    } else if d == 2 {
        '2'
    } else if d == 3 {
        '3'
    } else if d == 4 {
        '4'
    } else if d == 5 {
        '5'
    } else if d == 6 {
        '6'
    } else if d == 7 {
        '7'
    } else if d == 8 {
        '8'
    } else {
        '9'
    }
}

/// The decimal digits of `n`, most significant first, with no sign
/// and no padding.
pub open spec fn dec_digits(n: nat) -> Seq<char>
    decreases n,
{
    if n < 10 {
        seq![digit_char(n)]
    } else {
        dec_digits(n / 10) + seq![digit_char(n % 10)]
    }
}

/// The signed decimal text of `v`.
pub open spec fn int_text(v: int) -> Seq<char> {
    if v < 0 {
        seq!['-'] + dec_digits((-v) as nat)
    } else {
        dec_digits(v as nat)
    }
}

/// `s` with a comma inserted every three characters, counted from the
/// right; the leftmost group keeps whatever one to three characters
/// are left, a sign included.
pub open spec fn comma_grouped(s: Seq<char>) -> Seq<char>
    decreases s.len(),
{
    if s.len() <= 3 {
        s
    } else {
        comma_grouped(s.take(s.len() - 3)) + seq![','] + s.skip(s.len() - 3)
    }
}

/// The cents column: zero-padded to two places when non-negative; a
/// negative remainder keeps its sign, as two-place zero padding
/// prints it.
pub open spec fn cents_text(r: int) -> Seq<char> {
    if r < 0 {
        seq!['-'] + dec_digits((-r) as nat)
    } else if r < 10 {
        seq!['0', digit_char(r as nat)]
    } else {
        dec_digits(r as nat)
    }
}

/// What a balance of `cents` prints as: a dollar sign, the dollars
/// with commas every three characters from the right, a period, and
/// the cents. Dollars and cents are the truncated quotient and the
/// remainder by one hundred, so each keeps the sign of the input, and
/// the comma grouping counts a minus sign like a digit.
pub open spec fn spec_format_cents(cents: int) -> Seq<char> {
    let mag = if cents < 0 {
        -cents
    } else {
        cents
    };
    let dollars = if cents < 0 {
        -(mag / 100)
    } else {
        mag / 100
    };
    let rem = if cents < 0 {
        -(mag % 100)
    } else {
        mag % 100
    };
    seq!['$'] + comma_grouped(int_text(dollars)) + seq!['.'] + cents_text(rem)
}

/// The exec mirror of `digit_char`.
fn digit_char_of(d: u64) -> (c: char)
    requires
        d < 10,
    ensures
        c == digit_char(d as nat),
{
    match d {
        0 => '0',
        1 => '1',
        2 => '2',
        3 => '3',
        4 => '4',
        5 => '5',
        6 => '6',
        7 => '7',
        8 => '8',
        _ => '9',
    }
}

/// Appends the decimal digits of `n`.
fn push_digits(out: &mut String, n: u64)
    ensures
        final(out)@ == old(out)@ + dec_digits(n as nat),
    decreases n,
{
    if n < 10 {
        out.push(digit_char_of(n));
        proof {
            assert(old(out)@.push(digit_char(n as nat)) =~= old(out)@ + dec_digits(n as nat));
        }
    } else {
        push_digits(out, n / 10);
        let ghost mid = out@;
        out.push(digit_char_of(n % 10));
        proof {
            assert(mid.push(digit_char((n % 10) as nat)) =~= old(out)@ + dec_digits(n as nat));
        }
    }
}

/// Appends the first `hi` characters of `s` with a comma inserted
/// every three characters from the right.
fn push_grouped(out: &mut String, s: &str, hi: usize)
    requires
        hi <= s@.len(),
    ensures
        final(out)@ == old(out)@ + comma_grouped(s@.take(hi as int)),
    decreases hi,
{
    if hi <= 3 {
        let mut i: usize = 0;
        while i < hi
            invariant
                i <= hi <= s@.len(),
                out@ == old(out)@ + s@.take(i as int),
            decreases hi - i,
        {
            let ghost mid = out@;
            out.push(s.get_char(i));
            i += 1;
            proof {
                assert(mid.push(s@[i - 1]) =~= old(out)@ + s@.take(i as int));
            }
        }
        proof {
            assert(out@ =~= old(out)@ + comma_grouped(s@.take(hi as int)));
        }
    } else {
        push_grouped(out, s, hi - 3);
        let ghost mid0 = out@;
        out.push(',');
        let ghost mid1 = out@;
        out.push(s.get_char(hi - 3));
        let ghost mid2 = out@;
        out.push(s.get_char(hi - 2));
        let ghost mid3 = out@;
        out.push(s.get_char(hi - 1));
        proof {
            assert(s@.take(hi as int).take(hi - 3) =~= s@.take(hi - 3));
            assert(out@ =~= old(out)@ + comma_grouped(s@.take(hi as int)));
        }
    }
}

/// Formats a balance held in cents as a dollar amount, thousands
/// separated by commas: the running-sum text the allowance widget
/// draws beside each person.
pub fn format_cents_commas(cents: i64) -> (r: String)
    ensures
        r@ == spec_format_cents(cents as int),
{
    let neg = cents < 0;
    let mag: u64 = if cents < 0 {
        (-(cents as i128)) as u64
    } else {
        cents as u64
    };
    let dm = mag / 100;
    let rm = mag % 100;

    let mut dollars = String::new();
    if neg && dm > 0 {
        dollars.push('-');
    }
    push_digits(&mut dollars, dm);
    proof {
        assert(dollars@ =~= int_text(
            if cents < 0 {
                -((mag as int) / 100)
            } else {
                (mag as int) / 100
            },
        ));
    }

    let mut out = String::new();
    out.push('$');
    let dollars_str = dollars.as_str();
    let dn = dollars_str.unicode_len();
    push_grouped(&mut out, dollars_str, dn);
    proof {
        assert(dollars_str@.take(dn as int) =~= dollars_str@);
    }
    out.push('.');
    if neg && rm > 0 {
        out.push('-');
        push_digits(&mut out, rm);
    } else if rm < 10 {
        out.push('0');
        out.push(digit_char_of(rm));
    } else {
        push_digits(&mut out, rm);
    }
    proof {
        assert(out@ =~= spec_format_cents(cents as int));
    }
    out
}

} // verus!
