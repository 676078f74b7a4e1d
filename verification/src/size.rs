//! Sizes: the tagged numeric value every layout node carries.

use vstd::prelude::*;

verus! {

/// How many thousandths of a unit make one unit weight.
pub const MILLIS_PER_UNIT: u64 = 1000;

/// How a node claims space along its parent's split axis.
///
/// `Px` is an absolute pixel count, consumed before any proportional
/// distribution. `Unit` is a proportional weight competing for the
/// leftover space; the weight is stored in thousandths of a unit so
/// that fractional weights written as decimals, such as `12.5`, stay
/// exact: `Size::Unit(12500)` is a weight of 12.5 units.
///
/// The textual form is `"<integer>px"` or `"<decimal>u"`; see
/// [`parse_size`](crate::size::parse_size).
#[derive(Debug, Clone, Copy, PartialEq, Eq, Structural)]
pub enum Size {
    Px(u64),
    Unit(u64),
}

/// Which part of a size or split-direction text was malformed.
#[derive(Debug, Clone, Copy, PartialEq, Eq, Structural)]
pub enum FormatErrorKind {
    /// The text ends neither in `px` nor in `u`.
    BadSuffix,
    /// The text ends in `px` but the prefix is not a non-negative
    /// integer that fits the pixel range.
    BadPixelValue,
    /// The text ends in `u` but the prefix is not a non-negative
    /// decimal that the unit-weight resolution can hold.
    BadUnitValue,
    /// A split direction that is neither `horizontal` nor `vertical`.
    BadSplitWord,
}

/// A malformed `Size` or `SplitDirection` literal, fatal to the whole
/// render: the offending text is kept so the caller can report it.
#[derive(Debug, Clone, PartialEq, Eq)]
pub struct FormatError {
    pub kind: FormatErrorKind,
    pub input: String,
}

/// The pixel count a size contributes to a container's fixed sum:
/// its value for `Px`, zero for `Unit`.
pub open spec fn px_of(s: Size) -> nat {
    match s {
        Size::Px(v) => v as nat,
        Size::Unit(_) => 0,
    }
}

/// The weight (in thousandths of a unit) a size contributes to a
/// container's unit sum: its weight for `Unit`, zero for `Px`.
pub open spec fn units_of(s: Size) -> nat {
    match s {
        Size::Px(_) => 0,
        Size::Unit(w) => w as nat,
    }
}

/// The whitespace the textual form strips around a numeric body: the
/// ASCII whitespace characters.
pub open spec fn is_space(c: char) -> bool {
    c == ' ' || c == '\t' || c == '\n' || c == '\r' || c == '\u{b}' || c == '\u{c}'
}

/// `s` without its leading whitespace.
pub open spec fn trim_front(s: Seq<char>) -> Seq<char>
    decreases s.len(),
{
    if s.len() > 0 && is_space(s[0]) {
        trim_front(s.drop_first())
    } else {
        s
    }
}

/// `s` without its trailing whitespace.
pub open spec fn trim_back(s: Seq<char>) -> Seq<char>
    decreases s.len(),
{
    if s.len() > 0 && is_space(s.last()) {
        trim_back(s.drop_last())
    } else {
        s
    }
}

/// `s` without leading and trailing whitespace.
pub open spec fn trimmed(s: Seq<char>) -> Seq<char> {
    trim_back(trim_front(s))
}

/// A decimal digit.
pub open spec fn is_digit(c: char) -> bool {
    48 <= c as u32 <= 57
}

/// The value of one decimal digit.
pub open spec fn digit_val(c: char) -> nat
    recommends
        is_digit(c),
{
    (c as u32 - 48) as nat
}

pub open spec fn all_digits(s: Seq<char>) -> bool {
    forall|i: int| 0 <= i < s.len() ==> is_digit(#[trigger] s[i])
}

/// The number a run of decimal digits denotes, most significant
/// first.
pub open spec fn digits_val(s: Seq<char>) -> nat
    recommends
        all_digits(s),
    decreases s.len(),
{
    if s.len() == 0 {
        0
    } else {
        digits_val(s.drop_last()) * 10 + digit_val(s.last())
    }
}

/// `s` without one optional leading plus sign, as integer parsing
/// accepts.
pub open spec fn strip_plus(s: Seq<char>) -> Seq<char> {
    if s.len() > 0 && s[0] == '+' {
        s.drop_first()
    } else {
        s
    }
}

/// A valid pixel body (the trimmed text before the `px` suffix): an
/// optional plus sign, then at least one digit, denoting a value that
/// fits 64 bits.
pub open spec fn is_px_body(t: Seq<char>) -> bool {
    let d = strip_plus(t);
    d.len() >= 1 && all_digits(d) && digits_val(d) <= u64::MAX
}

/// The pixel count a valid pixel body denotes.
pub open spec fn px_body_val(t: Seq<char>) -> nat {
    digits_val(strip_plus(t))
}

/// The position of the first decimal point in `d`, or `d.len()` when
/// there is none.
pub open spec fn first_dot(d: Seq<char>) -> int
    decreases d.len(),
{
    if d.len() == 0 {
        0
    } else if d[0] == '.' {
        0
    } else {
        1 + first_dot(d.drop_first())
    }
}

/// The integer digits of a unit body: what stands before the first
/// decimal point.
pub open spec fn unit_int_part(d: Seq<char>) -> Seq<char> {
    d.take(first_dot(d))
}

/// The fractional digits of a unit body: what stands after the first
/// decimal point, empty when there is no point.
pub open spec fn unit_frac_part(d: Seq<char>) -> Seq<char> {
    if first_dot(d) == d.len() {
        Seq::empty()
    } else {
        d.skip(first_dot(d) + 1)
    }
}

/// The thousandths the first three fractional digits denote.
pub open spec fn frac_milli(fp: Seq<char>) -> nat {
    (if fp.len() > 0 {
        digit_val(fp[0]) * 100
    } else {
        0
    }) + (if fp.len() > 1 {
        digit_val(fp[1]) * 10
    } else {
        0
    }) + (if fp.len() > 2 {
        digit_val(fp[2])
    } else {
        0
    })
}

/// Fractional digits past the third place must all be zero: a finer
/// weight cannot be held in thousandths of a unit.
pub open spec fn frac_exact(fp: Seq<char>) -> bool {
    forall|j: int| 3 <= j < fp.len() ==> #[trigger] fp[j] == '0'
}

/// The weight, in thousandths of a unit, that a unit body denotes.
pub open spec fn unit_milli(t: Seq<char>) -> nat {
    let d = strip_plus(t);
    digits_val(unit_int_part(d)) * 1000 + frac_milli(unit_frac_part(d))
}

/// A valid unit body (the trimmed text before the `u` suffix): an
/// optional plus sign, then at least one digit around at most one
/// decimal point, denoting a weight the thousandth resolution can
/// hold in 64 bits.
pub open spec fn is_unit_body(t: Seq<char>) -> bool {
    let d = strip_plus(t);
    let ip = unit_int_part(d);
    let fp = unit_frac_part(d);
    &&& all_digits(ip)
    &&& all_digits(fp)
    &&& ip.len() + fp.len() >= 1
    &&& frac_exact(fp)
    &&& unit_milli(t) <= u64::MAX
}

/// Whether the text ends in the pixel suffix `px`.
pub open spec fn has_px_suffix(s: Seq<char>) -> bool {
    s.len() >= 2 && s[s.len() - 2] == 'p' && s[s.len() - 1] == 'x'
}

/// Whether the text ends in the unit suffix `u`.
pub open spec fn has_unit_suffix(s: Seq<char>) -> bool {
    s.len() >= 1 && s[s.len() - 1] == 'u'
}

/// What a size text denotes. The `px` suffix is tried first: a text
/// ending in `px` is a pixel size or nothing. Then the `u` suffix.
/// The prefix before the suffix is whitespace-trimmed and must
/// denote a valid body.
pub open spec fn spec_parse_size(s: Seq<char>) -> Option<Size> {
    if has_px_suffix(s) {
        let t = trimmed(s.take(s.len() - 2));
        if is_px_body(t) {
            Some(Size::Px(px_body_val(t) as u64))
        } else {
            None
        }
    } else if has_unit_suffix(s) {
        let t = trimmed(s.take(s.len() - 1));
        if is_unit_body(t) {
            Some(Size::Unit(unit_milli(t) as u64))
        } else {
            None
        }
    } else {
        None
    }
}

/// Which error a rejected size text gets, by the suffix it carries.
pub open spec fn spec_size_error_kind(s: Seq<char>) -> FormatErrorKind {
    if has_px_suffix(s) {
        FormatErrorKind::BadPixelValue
    } else if has_unit_suffix(s) {
        FormatErrorKind::BadUnitValue
    } else {
        FormatErrorKind::BadSuffix
    }
}

/// The fixed-pixel component of a size; `Unit` sizes contribute 0.
pub fn fixed_from(size: &Size) -> (r: u64)
    ensures
        r == px_of(*size),
{
    match size {
        Size::Px(v) => *v,
        Size::Unit(_) => 0,
    }
}

/// The proportional component of a size, in thousandths of a unit;
/// `Px` sizes contribute 0.
pub fn scaled_from(size: &Size) -> (r: u64)
    ensures
        r == units_of(*size),
{
    match size {
        Size::Px(_) => 0,
        Size::Unit(w) => *w,
    }
}

proof fn lemma_trim_front_at(s: Seq<char>, k: int)
    requires
        0 <= k <= s.len(),
        forall|j: int| 0 <= j < k ==> is_space(#[trigger] s[j]),
        k == s.len() || !is_space(s[k]),
    ensures
        trim_front(s) == s.skip(k),
    decreases k,
{
    if k == 0 {
        assert(s.skip(0) =~= s);
    } else {
        lemma_trim_front_at(s.drop_first(), k - 1);
        assert(s.drop_first().skip(k - 1) =~= s.skip(k));
    }
}

proof fn lemma_trim_back_at(s: Seq<char>, k: int)
    requires
        0 <= k <= s.len(),
        forall|j: int| k <= j < s.len() ==> is_space(#[trigger] s[j]),
        k == 0 || !is_space(s[k - 1]),
    ensures
        trim_back(s) == s.take(k),
    decreases s.len() - k,
{
    if k == s.len() {
        assert(s.take(k) =~= s);
    } else {
        lemma_trim_back_at(s.drop_last(), k);
        assert(s.drop_last().take(k) =~= s.take(k));
    }
}

proof fn lemma_first_dot_at(d: Seq<char>, k: int)
    requires
        0 <= k <= d.len(),
        forall|j: int| 0 <= j < k ==> #[trigger] d[j] != '.',
        k == d.len() || d[k] == '.',
    ensures
        first_dot(d) == k,
    decreases k,
{
    if k > 0 {
        lemma_first_dot_at(d.drop_first(), k - 1);
    }
}

proof fn lemma_digits_val_take_succ(s: Seq<char>, k: int)
    requires
        0 <= k < s.len(),
    ensures
        digits_val(s.take(k + 1)) == digits_val(s.take(k)) * 10 + digit_val(s[k]),
{
    assert(s.take(k + 1).drop_last() =~= s.take(k));
    assert(s.take(k + 1).last() == s[k]);
}

proof fn lemma_digits_val_prefix_le(s: Seq<char>, k: int)
    requires
        0 <= k <= s.len(),
    ensures
        digits_val(s.take(k)) <= digits_val(s),
    decreases s.len() - k,
{
    if k == s.len() {
        assert(s.take(k) =~= s);
    } else {
        lemma_digits_val_take_succ(s, k);
        lemma_digits_val_prefix_le(s, k + 1);
    }
}

/// For a non-negative bound: `acc * k + d` stays within `m` exactly
/// when `acc` stays within `(m - d) / k`, which plain code can test.
proof fn lemma_scaled_add_within(acc: nat, d: nat, k: nat, m: nat)
    requires
        k > 0,
        d <= m,
    ensures
        acc * k + d <= m <==> acc <= ((m - d) as nat) / k,
{
    let b = (m - d) as nat;
    let q = b / k;
    vstd::arithmetic::div_mod::lemma_fundamental_div_mod(b as int, k as int);
    vstd::arithmetic::div_mod::lemma_mod_division_less_than_divisor(b as int, k as int);
    if acc <= q {
        vstd::arithmetic::mul::lemma_mul_inequality(acc as int, q as int, k as int);
    } else {
        vstd::arithmetic::mul::lemma_mul_inequality(q as int + 1, acc as int, k as int);
        assert((q + 1) * k == q * k + k) by {
            vstd::arithmetic::mul::lemma_mul_is_distributive_add(
                k as int,
                q as int,
                1,
            );
            vstd::arithmetic::mul::lemma_mul_is_commutative(k as int, q as int + 1);
            vstd::arithmetic::mul::lemma_mul_is_commutative(k as int, q as int);
        }
    }
}

/// The exec test matching the spec whitespace set.
fn is_space_char(c: char) -> (r: bool)
    ensures
        r == is_space(c),
{
    c == ' ' || c == '\t' || c == '\n' || c == '\r' || c == '\u{b}' || c == '\u{c}'
}

/// Narrows the window `[lo0, hi0)` of `s` to its whitespace-trimmed
/// core.
fn trim_window(s: &str, lo0: usize, hi0: usize) -> (r: (usize, usize))
    requires
        lo0 <= hi0 <= s@.len(),
    ensures
        lo0 <= r.0 <= r.1 <= hi0,
        s@.subrange(r.0 as int, r.1 as int) == trimmed(
            s@.subrange(lo0 as int, hi0 as int),
        ),
{
    let ghost w = s@.subrange(lo0 as int, hi0 as int);
    let mut lo = lo0;
    let mut stop = false;
    while !stop && lo < hi0
        invariant
            lo0 <= lo <= hi0 <= s@.len(),
            forall|j: int| lo0 <= j < lo ==> is_space(#[trigger] s@[j]),
            stop ==> lo < hi0 && !is_space(s@[lo as int]),
        decreases hi0 - lo + (if stop { 0int } else { 1int }),
    {
        if is_space_char(s.get_char(lo)) {
            lo += 1;
        } else {
            stop = true;
        }
    }
    proof {
        lemma_trim_front_at(w, lo - lo0);
        assert(w.skip(lo - lo0) =~= s@.subrange(lo as int, hi0 as int));
    }
    let ghost w2 = s@.subrange(lo as int, hi0 as int);
    let mut hi = hi0;
    let mut stop2 = false;
    while !stop2 && hi > lo
        invariant
            lo <= hi <= hi0 <= s@.len(),
            forall|j: int| hi <= j < hi0 ==> is_space(#[trigger] s@[j]),
            stop2 ==> hi > lo && !is_space(s@[hi - 1]),
        decreases hi - lo + (if stop2 { 0int } else { 1int }),
    {
        if is_space_char(s.get_char(hi - 1)) {
            hi -= 1;
        } else {
            stop2 = true;
        }
    }
    proof {
        lemma_trim_back_at(w2, hi - lo);
        assert(w2.take(hi - lo) =~= s@.subrange(lo as int, hi as int));
    }
    (lo, hi)
}

/// Reads the window `[lo, hi)` of `s` as decimal digits: the exec
/// mirror of `all_digits` and `digits_val`, rejecting an empty
/// window, a non-digit, and a value past 64 bits.
fn parse_digits_window(s: &str, lo: usize, hi: usize) -> (r: Option<u64>)
    requires
        lo <= hi <= s@.len(),
    ensures
        ({
            let w = s@.subrange(lo as int, hi as int);
            match r {
                Some(v) => w.len() >= 1 && all_digits(w) && v == digits_val(w),
                None => !(w.len() >= 1 && all_digits(w) && digits_val(w) <= u64::MAX),
            }
        }),
{
    let ghost w = s@.subrange(lo as int, hi as int);
    if lo == hi {
        return None;
    }
    let mut acc: u64 = 0;
    let mut i = lo;
    while i < hi
        invariant
            lo <= i <= hi <= s@.len(),
            w == s@.subrange(lo as int, hi as int),
            all_digits(w.take(i - lo)),
            acc == digits_val(w.take(i - lo)),
        decreases hi - i,
    {
        let c = s.get_char(i);
        let u = c as u32;
        proof {
            assert(w[i - lo] == s@[i as int]);
        }
        if u < 48 || u > 57 {
            proof {
                assert(!is_digit(w[i - lo]));
            }
            return None;
        }
        let d = (u - 48) as u64;
        proof {
            lemma_digits_val_take_succ(w, i - lo);
            lemma_scaled_add_within(acc as nat, d as nat, 10, u64::MAX as nat);
        }
        if acc > (0xffff_ffff_ffff_ffffu64 - d) / 10 {
            proof {
                if all_digits(w) {
                    lemma_digits_val_prefix_le(w, i - lo + 1);
                }
            }
            return None;
        }
        acc = acc * 10 + d;
        i += 1;
    }
    proof {
        assert(w.take(hi - lo) =~= w);
    }
    Some(acc)
}

/// Parses the prefix `[0, end)` of `s` as a pixel body: trim, strip
/// one optional plus sign, then digits.
fn parse_px_body(s: &str, end: usize) -> (r: Option<u64>)
    requires
        end <= s@.len(),
    ensures
        ({
            let t = trimmed(s@.take(end as int));
            match r {
                Some(v) => is_px_body(t) && v == px_body_val(t),
                None => !is_px_body(t),
            }
        }),
{
    proof {
        assert(s@.take(end as int) =~= s@.subrange(0, end as int));
    }
    let (lo, hi) = trim_window(s, 0, end);
    let ghost t = trimmed(s@.take(end as int));
    let lo2: usize = if lo < hi && s.get_char(lo) == '+' {
        lo + 1
    } else {
        lo
    };
    proof {
        assert(strip_plus(t) =~= s@.subrange(lo2 as int, hi as int));
    }
    parse_digits_window(s, lo2, hi)
}

/// Parses the prefix `[0, end)` of `s` as a unit body: trim, strip
/// one optional plus sign, then digits around at most one decimal
/// point, read to thousandth resolution.
fn parse_unit_body(s: &str, end: usize) -> (r: Option<u64>)
    requires
        end <= s@.len(),
    ensures
        ({
            let t = trimmed(s@.take(end as int));
            match r {
                Some(m) => is_unit_body(t) && m == unit_milli(t),
                None => !is_unit_body(t),
            }
        }),
{
    proof {
        assert(s@.take(end as int) =~= s@.subrange(0, end as int));
    }
    let (lo, hi) = trim_window(s, 0, end);
    let ghost t = trimmed(s@.take(end as int));
    let lo2: usize = if lo < hi && s.get_char(lo) == '+' {
        lo + 1
    } else {
        lo
    };
    let ghost d = strip_plus(t);
    proof {
        assert(d =~= s@.subrange(lo2 as int, hi as int));
    }

    // Find the first decimal point.
    let mut dot = lo2;
    let mut stop = false;
    while !stop && dot < hi
        invariant
            lo2 <= dot <= hi <= s@.len(),
            forall|j: int| lo2 <= j < dot ==> #[trigger] s@[j] != '.',
            stop ==> dot < hi && s@[dot as int] == '.',
        decreases hi - dot + (if stop { 0int } else { 1int }),
    {
        if s.get_char(dot) == '.' {
            stop = true;
        } else {
            dot += 1;
        }
    }
    proof {
        lemma_first_dot_at(d, dot - lo2);
        assert(unit_int_part(d) =~= s@.subrange(lo2 as int, dot as int));
    }
    let ghost ip = unit_int_part(d);
    let ghost fp = unit_frac_part(d);

    // At least one digit position must exist: an empty body, a lone
    // plus sign, or a lone decimal point is not a number.
    if dot == lo2 && hi - dot <= 1 {
        proof {
            assert(ip.len() == 0);
            assert(fp.len() == 0);
        }
        return None;
    }

    // The integer digits; an empty integer part denotes zero.
    let ipv: u64 = if dot > lo2 {
        match parse_digits_window(s, lo2, dot) {
            Some(v) => v,
            None => {
                proof {
                    if all_digits(ip) && digits_val(ip) > u64::MAX {
                        assert(unit_milli(t) >= digits_val(ip) * 1000) by {
                            vstd::arithmetic::mul::lemma_mul_inequality(
                                1,
                                1000,
                                digits_val(ip) as int,
                            );
                            vstd::arithmetic::mul::lemma_mul_is_commutative(
                                digits_val(ip) as int,
                                1000,
                            );
                        }
                    }
                }
                return None;
            },
        }
    } else {
        0
    };

    // The fractional digits: the first three carry value, the rest
    // may only be zero.
    let mut fm: u64 = 0;
    if dot < hi {
        proof {
            assert(fp =~= s@.subrange(dot as int + 1, hi as int));
        }
        let mut j = dot + 1;
        while j < hi
            invariant
                dot < j <= hi <= s@.len(),
                t == trimmed(s@.take(end as int)),
                d == strip_plus(t),
                ip == unit_int_part(d),
                fp == unit_frac_part(d),
                fp == s@.subrange(dot as int + 1, hi as int),
                all_digits(fp.take(j - dot - 1)),
                forall|p: int| 3 <= p < j - dot - 1 ==> #[trigger] fp[p] == '0',
                fm == (if j - dot - 1 > 0 {
                    digit_val(fp[0]) * 100
                } else {
                    0
                }) + (if j - dot - 1 > 1 {
                    digit_val(fp[1]) * 10
                } else {
                    0
                }) + (if j - dot - 1 > 2 {
                    digit_val(fp[2])
                } else {
                    0
                }),
            decreases hi - j,
        {
            let c = s.get_char(j);
            let u = c as u32;
            proof {
                assert(fp[j - dot - 1] == s@[j as int]);
                if j - dot - 1 > 0 {
                    assert(fp.take(j - dot - 1)[0] == fp[0]);
                    assert(is_digit(fp[0]) && digit_val(fp[0]) <= 9);
                }
                if j - dot - 1 > 1 {
                    assert(fp.take(j - dot - 1)[1] == fp[1]);
                    assert(is_digit(fp[1]) && digit_val(fp[1]) <= 9);
                }
            }
            if u < 48 || u > 57 {
                proof {
                    assert(!is_digit(fp[j - dot - 1]));
                    assert(!all_digits(fp));
                }
                return None;
            }
            let dv = (u - 48) as u64;
            let p = j - dot - 1;
            if p == 0 {
                fm = fm + dv * 100;
            } else if p == 1 {
                fm = fm + dv * 10;
            } else if p == 2 {
                fm = fm + dv;
            } else if dv != 0 {
                proof {
                    assert(fp[p as int] != '0');
                    assert(!frac_exact(fp));
                }
                return None;
            }
            proof {
                assert(all_digits(fp.take(j - dot)));
            }
            j += 1;
        }
        proof {
            assert(fp.take(hi - dot - 1) =~= fp);
        }
    } else {
        proof {
            assert(fp =~= Seq::<char>::empty());
        }
        if dot == lo2 {
            // Neither integer nor fractional digits: not a number.
            return None;
        }
    }
    proof {
        if fp.len() > 0 {
            assert(is_digit(fp[0]) && digit_val(fp[0]) <= 9);
        }
        if fp.len() > 1 {
            assert(is_digit(fp[1]) && digit_val(fp[1]) <= 9);
        }
        if fp.len() > 2 {
            assert(is_digit(fp[2]) && digit_val(fp[2]) <= 9);
        }
        assert(fm == frac_milli(fp));
        assert(fm <= 999);
        lemma_scaled_add_within(ipv as nat, fm as nat, 1000, u64::MAX as nat);
    }
    if ipv > (0xffff_ffff_ffff_ffffu64 - fm) / 1000 {
        return None;
    }
    Some(ipv * 1000 + fm)
}

/// Parses a size text: `"<integer>px"` is an absolute pixel count,
/// `"<decimal>u"` a proportional unit weight in thousandths, with
/// whitespace allowed around the number; anything else is a
/// `FormatError` carrying the offending text.
pub fn parse_size(s: &str) -> (r: Result<Size, FormatError>)
    ensures
        match r {
            Ok(sz) => spec_parse_size(s@) == Some(sz),
            Err(e) => {
                &&& spec_parse_size(s@) is None
                &&& e.kind == spec_size_error_kind(s@)
                &&& e.input@ == s@
            },
        },
{
    let n = s.unicode_len();
    if n >= 2 && s.get_char(n - 2) == 'p' && s.get_char(n - 1) == 'x' {
        match parse_px_body(s, n - 2) {
            Some(v) => Ok(Size::Px(v)),
            None => Err(
                FormatError { kind: FormatErrorKind::BadPixelValue, input: s.to_owned() },
            ),
        }
    } else if n >= 1 && s.get_char(n - 1) == 'u' {
        match parse_unit_body(s, n - 1) {
            Some(m) => Ok(Size::Unit(m)),
            None => Err(
                FormatError { kind: FormatErrorKind::BadUnitValue, input: s.to_owned() },
            ),
        }
    } else {
        Err(FormatError { kind: FormatErrorKind::BadSuffix, input: s.to_owned() })
    }
}

} // verus!
