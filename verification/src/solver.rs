//! The layout solver: how a container's pixel span is split, in one
//! pass and in declaration order, among fixed and proportional
//! children.

use vstd::prelude::*;

use vstd::arithmetic::div_mod::{
    lemma_div_by_multiple, lemma_div_by_self, lemma_div_is_ordered, lemma_div_multiples_vanish,
    lemma_div_multiples_vanish_quotient, lemma_div_of0, lemma_fundamental_div_mod,
    lemma_mod_division_less_than_divisor, lemma_multiply_divide_le,
};
use vstd::arithmetic::mul::{
    lemma_mul_inequality, lemma_mul_is_commutative, lemma_mul_is_distributive_add,
};

use crate::node::LayoutNode;
use crate::size::{fixed_from, px_of, scaled_from, units_of, Size};

verus! {

/// The sizes of a container's children, in declaration order.
pub open spec fn sizes_of(nodes: Seq<LayoutNode>) -> Seq<Size> {
    nodes.map_values(|n: LayoutNode| n.spec_size())
}

/// The fixed sum: every fixed pixel component over `sizes` added up.
pub open spec fn fixed_sum(sizes: Seq<Size>) -> nat
    decreases sizes.len(),
{
    if sizes.len() == 0 {
        0
    } else {
        fixed_sum(sizes.drop_last()) + px_of(sizes.last())
    }
}

/// The unit sum: every unit weight (in thousandths) over `sizes`
/// added up.
pub open spec fn unit_sum(sizes: Seq<Size>) -> nat
    decreases sizes.len(),
{
    if sizes.len() == 0 {
        0
    } else {
        unit_sum(sizes.drop_last()) + units_of(sizes.last())
    }
}

/// The pixels left for proportional children once every fixed child
/// is paid: the span minus the fixed sum, saturating at zero.
pub open spec fn leftover_of(sizes: Seq<Size>, span: nat) -> nat {
    if fixed_sum(sizes) >= span {
        0
    } else {
        (span - fixed_sum(sizes)) as nat
    }
}

/// One child's extent along the split axis. A positive pixel size is
/// honoured exactly, with no distribution. Everything else -- a unit
/// weight, or a pixel size of exactly zero -- is scaled: it gets
/// `floor(leftover * weight / unit-sum)`, and zero when the unit sum
/// is zero; that leftover is silently dropped, not redistributed.
pub open spec fn extent_of(s: Size, leftover: nat, usum: nat) -> nat {
    if px_of(s) > 0 {
        px_of(s)
    } else if usum == 0 {
        0
    } else {
        (leftover * units_of(s)) / usum
    }
}

/// The extent of child `i` in a container with children `sizes` and
/// the given split-axis span.
pub open spec fn child_extent(sizes: Seq<Size>, span: nat, i: int) -> nat {
    extent_of(sizes[i], leftover_of(sizes, span), unit_sum(sizes))
}

/// The start offset of child `k` along the split axis: the running
/// sum of all earlier children's extents. `k == sizes.len()` gives
/// the sum of every child's extent.
pub open spec fn child_offset(sizes: Seq<Size>, span: nat, k: int) -> nat
    decreases k,
{
    if k <= 0 {
        0
    } else {
        child_offset(sizes, span, k - 1) + child_extent(sizes, span, k - 1)
    }
}

pub(crate) proof fn lemma_fixed_sum_take_succ(sizes: Seq<Size>, i: int)
    requires
        0 <= i < sizes.len(),
    ensures
        fixed_sum(sizes.take(i + 1)) == fixed_sum(sizes.take(i)) + px_of(sizes[i]),
{
    assert(sizes.take(i + 1).drop_last() =~= sizes.take(i));
    assert(sizes.take(i + 1).last() == sizes[i]);
}

proof fn lemma_unit_sum_take_succ(sizes: Seq<Size>, i: int)
    requires
        0 <= i < sizes.len(),
    ensures
        unit_sum(sizes.take(i + 1)) == unit_sum(sizes.take(i)) + units_of(sizes[i]),
{
    assert(sizes.take(i + 1).drop_last() =~= sizes.take(i));
    assert(sizes.take(i + 1).last() == sizes[i]);
}

pub(crate) proof fn lemma_fixed_sum_prefix_le(sizes: Seq<Size>, k: int)
    requires
        0 <= k <= sizes.len(),
    ensures
        fixed_sum(sizes.take(k)) <= fixed_sum(sizes),
    decreases sizes.len() - k,
{
    if k == sizes.len() {
        assert(sizes.take(k) =~= sizes);
    } else {
        lemma_fixed_sum_take_succ(sizes, k);
        lemma_fixed_sum_prefix_le(sizes, k + 1);
    }
}

proof fn lemma_unit_sum_prefix_le(sizes: Seq<Size>, k: int)
    requires
        0 <= k <= sizes.len(),
    ensures
        unit_sum(sizes.take(k)) <= unit_sum(sizes),
    decreases sizes.len() - k,
{
    if k == sizes.len() {
        assert(sizes.take(k) =~= sizes);
    } else {
        lemma_unit_sum_take_succ(sizes, k);
        lemma_unit_sum_prefix_le(sizes, k + 1);
    }
}

proof fn lemma_unit_term_le(sizes: Seq<Size>, i: int)
    requires
        0 <= i < sizes.len(),
    ensures
        units_of(sizes[i]) <= unit_sum(sizes),
{
    lemma_unit_sum_take_succ(sizes, i);
    lemma_unit_sum_prefix_le(sizes, i + 1);
}

proof fn lemma_fixed_term_le(sizes: Seq<Size>, i: int)
    requires
        0 <= i < sizes.len(),
    ensures
        px_of(sizes[i]) <= fixed_sum(sizes),
{
    lemma_fixed_sum_take_succ(sizes, i);
    lemma_fixed_sum_prefix_le(sizes, i + 1);
}

/// Division by a positive divisor distributes over addition with only
/// a downward error: `a/d + b/d <= (a+b)/d` for non-negative `a`, `b`.
proof fn lemma_div_sum_le(a: int, b: int, d: int)
    requires
        0 <= a,
        0 <= b,
        0 < d,
    ensures
        a / d + b / d <= (a + b) / d,
{
    lemma_fundamental_div_mod(a, d);
    lemma_fundamental_div_mod(b, d);
    lemma_mod_division_less_than_divisor(a, d);
    lemma_mod_division_less_than_divisor(b, d);
    assert(d * (a / d) + d * (b / d) == d * (a / d + b / d)) by {
        lemma_mul_is_distributive_add(d, a / d, b / d);
    }
    lemma_div_is_ordered(d * (a / d + b / d), a + b, d);
    lemma_div_multiples_vanish(a / d + b / d, d);
}

proof fn lemma_offset_prefix_bound(sizes: Seq<Size>, span: nat, k: int)
    requires
        0 <= k <= sizes.len(),
    ensures
        unit_sum(sizes) == 0 ==> child_offset(sizes, span, k) == fixed_sum(sizes.take(k)),
        unit_sum(sizes) > 0 ==> child_offset(sizes, span, k) <= fixed_sum(sizes.take(k)) + (
        leftover_of(sizes, span) * unit_sum(sizes.take(k))) / unit_sum(sizes),
    decreases k,
{
    let ll = leftover_of(sizes, span);
    let uu = unit_sum(sizes);
    if k == 0 {
        assert(sizes.take(0) =~= Seq::<Size>::empty());
        if uu > 0 {
            lemma_div_of0(uu as int);
        }
    } else {
        lemma_offset_prefix_bound(sizes, span, k - 1);
        lemma_fixed_sum_take_succ(sizes, k - 1);
        lemma_unit_sum_take_succ(sizes, k - 1);
        let s = sizes[k - 1];
        let up = unit_sum(sizes.take(k - 1));
        if px_of(s) > 0 {
            assert(units_of(s) == 0);
        } else {
            if uu > 0 {
                lemma_div_sum_le((ll * up) as int, (ll * units_of(s)) as int, uu as int);
                assert(ll * up + ll * units_of(s) == ll * unit_sum(sizes.take(k))) by {
                    lemma_mul_is_distributive_add(ll as int, up as int, units_of(s) as int);
                }
            }
        }
    }
}

/// Every start offset, and in particular the sum of all the extents,
/// stays within the fixed sum plus the leftover.
pub proof fn lemma_offset_within_budget(sizes: Seq<Size>, span: nat, k: int)
    requires
        0 <= k <= sizes.len(),
    ensures
        child_offset(sizes, span, k) <= fixed_sum(sizes) + leftover_of(sizes, span),
{
    let ll = leftover_of(sizes, span);
    let uu = unit_sum(sizes);
    lemma_offset_prefix_bound(sizes, span, k);
    lemma_fixed_sum_prefix_le(sizes, k);
    if uu > 0 {
        let up = unit_sum(sizes.take(k));
        lemma_unit_sum_prefix_le(sizes, k);
        assert((ll * up) as int <= (ll * uu) as int) by {
            lemma_mul_inequality(up as int, uu as int, ll as int);
            lemma_mul_is_commutative(up as int, ll as int);
            lemma_mul_is_commutative(uu as int, ll as int);
        }
        lemma_div_is_ordered((ll * up) as int, (ll * uu) as int, uu as int);
        assert((ll * uu) as int / (uu as int) == ll as int) by {
            lemma_div_by_multiple(ll as int, uu as int);
        }
    }
}

/// One child's resolved share of the split axis.
#[derive(Debug, Clone, Copy, PartialEq, Eq, Structural)]
pub struct Slot {
    pub start: u64,
    pub extent: u64,
}

/// Splits a container's span among its children: every child gets, in
/// declaration order, its start offset and extent along the split
/// axis. Positive pixel sizes are honoured exactly; the remaining
/// span, clamped to zero if the pixel sizes overflow it, is divided
/// among the scaled children in proportion to their unit weights,
/// rounding down.
pub fn solve_container(entries: &Vec<LayoutNode>, span: u64) -> (slots: Vec<Slot>)
    requires
        fixed_sum(sizes_of(entries@)) + span <= u64::MAX,
    ensures
        slots@.len() == entries@.len(),
        forall|i: int|
            0 <= i < entries@.len() ==> (#[trigger] slots@[i]).extent == child_extent(
                sizes_of(entries@),
                span as nat,
                i,
            ),
        forall|i: int|
            0 <= i < entries@.len() ==> (#[trigger] slots@[i]).start == child_offset(
                sizes_of(entries@),
                span as nat,
                i,
            ),
{
    let ghost sizes = sizes_of(entries@);
    let n = entries.len();

    // 1) Sum the fixed pixels among the children.
    let mut fixed: u64 = 0;
    let mut i: usize = 0;
    while i < n
        invariant
            i <= n,
            n == entries@.len(),
            sizes == sizes_of(entries@),
            fixed_sum(sizes) + span <= u64::MAX,
            fixed == fixed_sum(sizes.take(i as int)),
        decreases n - i,
    {
        proof {
            lemma_fixed_sum_take_succ(sizes, i as int);
            lemma_fixed_sum_prefix_le(sizes, i as int + 1);
        }
        let child = &entries[i];
        fixed = fixed + fixed_from(child.size());
        i += 1;
    }
    proof {
        assert(sizes.take(n as int) =~= sizes);
    }

    // 2) Compute the leftover to be distributed to scaled children,
    //    clamped to zero.
    let leftover: u64 = if fixed >= span {
        0
    } else {
        span - fixed
    };

    // 3) Sum the unit weights among the children. The sum of
    //    arbitrarily many 64-bit weights needs a wider accumulator.
    let mut usum: u128 = 0;
    let mut i: usize = 0;
    while i < n
        invariant
            i <= n,
            n == entries@.len(),
            sizes == sizes_of(entries@),
            usum == unit_sum(sizes.take(i as int)),
            usum <= (i as nat) * 0xffff_ffff_ffff_ffffnat,
        decreases n - i,
    {
        proof {
            lemma_unit_sum_take_succ(sizes, i as int);
            lemma_mul_inequality(i as int + 1, 0xffff_ffff_ffff_ffff, 0xffff_ffff_ffff_ffff);
        }
        let child = &entries[i];
        usum = usum + (scaled_from(child.size()) as u128);
        proof {
            assert((i as nat) * 0xffff_ffff_ffff_ffffnat + 0xffff_ffff_ffff_ffffnat == (i as nat
                + 1) * 0xffff_ffff_ffff_ffffnat) by {
                lemma_mul_is_distributive_add(0xffff_ffff_ffff_ffff, i as int, 1);
                lemma_mul_is_commutative(0xffff_ffff_ffff_ffff, i as int + 1);
                lemma_mul_is_commutative(0xffff_ffff_ffff_ffff, i as int);
            }
        }
        i += 1;
    }

    // 4) Compute each child's extent and start offset, in order.
    let mut slots: Vec<Slot> = Vec::new();
    let mut cursor: u64 = 0;
    let mut i: usize = 0;
    while i < n
        invariant
            i <= n,
            n == entries@.len(),
            sizes == sizes_of(entries@),
            fixed_sum(sizes) + span <= u64::MAX,
            fixed == fixed_sum(sizes),
            leftover == leftover_of(sizes, span as nat),
            usum == unit_sum(sizes),
            slots@.len() == i,
            forall|j: int|
                0 <= j < i ==> (#[trigger] slots@[j]).extent == child_extent(
                    sizes,
                    span as nat,
                    j,
                ),
            forall|j: int|
                0 <= j < i ==> (#[trigger] slots@[j]).start == child_offset(sizes, span as nat, j),
            cursor == child_offset(sizes, span as nat, i as int),
        decreases n - i,
    {
        let child = &entries[i];
        let fs = fixed_from(child.size());
        let ss = scaled_from(child.size());
        let extent: u64 = if fs > 0 {
            fs
        } else if usum == 0 {
            0
        } else {
            proof {
                lemma_unit_term_le(sizes, i as int);
                assert((leftover as int) * (ss as int) <= (usum as int) * (leftover as int)) by {
                    lemma_mul_inequality(ss as int, usum as int, leftover as int);
                    lemma_mul_is_commutative(ss as int, leftover as int);
                }
                lemma_multiply_divide_le(
                    (leftover as int) * (ss as int),
                    usum as int,
                    leftover as int,
                );
                assert((leftover as int) * (ss as int) <= 0xffff_ffff_ffff_ffff
                    * 0xffff_ffff_ffff_ffff) by {
                    lemma_mul_inequality(leftover as int, 0xffff_ffff_ffff_ffff, ss as int);
                    lemma_mul_inequality(ss as int, 0xffff_ffff_ffff_ffff, 0xffff_ffff_ffff_ffff);
                    lemma_mul_is_commutative(0xffff_ffff_ffff_ffff, ss as int);
                }
            }
            (((leftover as u128) * (ss as u128)) / usum) as u64
        };
        proof {
            assert(extent == child_extent(sizes, span as nat, i as int));
            lemma_offset_within_budget(sizes, span as nat, i as int + 1);
        }
        slots.push(Slot { start: cursor, extent });
        cursor = cursor + extent;
        i += 1;
    }
    slots
}

/// Law: start offsets are contiguous. Each child begins exactly where
/// the previous one ends; the first child begins at zero by
/// definition of `child_offset`.
pub proof fn lemma_offsets_contiguous(sizes: Seq<Size>, span: nat, i: int)
    requires
        0 <= i,
    ensures
        child_offset(sizes, span, i + 1) == child_offset(sizes, span, i) + child_extent(
            sizes,
            span,
            i,
        ),
{
}

/// Law: when the fixed children fit within the span and some child
/// carries a positive unit weight, the extents of all the children
/// sum to at most the span: rounding down only removes fractional
/// pixels, it cannot hand out more than the leftover.
///
/// (With fixed children that alone exceed the span, the sum does
/// exceed it, since positive pixel sizes are honoured exactly.)
pub proof fn lemma_extent_sum_within_span(sizes: Seq<Size>, span: nat)
    requires
        unit_sum(sizes) > 0,
        fixed_sum(sizes) <= span,
    ensures
        child_offset(sizes, span, sizes.len() as int) <= span,
{
    lemma_offset_within_budget(sizes, span, sizes.len() as int);
}

proof fn lemma_unit_sum_all_px(sizes: Seq<Size>)
    requires
        forall|j: int| 0 <= j < sizes.len() ==> sizes[j] is Px,
    ensures
        unit_sum(sizes) == 0,
    decreases sizes.len(),
{
    if sizes.len() > 0 {
        lemma_unit_sum_all_px(sizes.drop_last());
    }
}

/// Law: in a container whose children are all pixel-sized, each child
/// gets exactly its declared pixel value, whether or not the fixed
/// sum exceeds the span.
pub proof fn lemma_all_pixels_exact(sizes: Seq<Size>, span: nat, i: int)
    requires
        forall|j: int| 0 <= j < sizes.len() ==> sizes[j] is Px,
        0 <= i < sizes.len(),
    ensures
        child_extent(sizes, span, i) == px_of(sizes[i]),
{
    lemma_unit_sum_all_px(sizes);
}

proof fn lemma_sums_all_equal_units(sizes: Seq<Size>, w: u64)
    requires
        forall|j: int| 0 <= j < sizes.len() ==> sizes[j] == Size::Unit(w),
    ensures
        fixed_sum(sizes) == 0,
        unit_sum(sizes) == sizes.len() * w,
    decreases sizes.len(),
{
    if sizes.len() == 0 {
    } else {
        lemma_sums_all_equal_units(sizes.drop_last(), w);
        assert((sizes.len() - 1) * w + w == sizes.len() * w) by {
            lemma_mul_is_distributive_add(w as int, sizes.len() - 1, 1);
            lemma_mul_is_commutative(w as int, sizes.len() as int);
            lemma_mul_is_commutative(w as int, sizes.len() - 1);
        }
    }
}

/// Law: in a container of `n` children that all carry one equal
/// positive unit weight, every child's extent is `floor(span / n)`
/// and child `i` starts at `i * floor(span / n)`: the span is divided
/// evenly and the offsets are contiguous. While the span covers at
/// least one pixel per child, consecutive offsets strictly increase.
pub proof fn lemma_equal_units_even_split(sizes: Seq<Size>, span: nat, w: u64, i: int)
    requires
        w > 0,
        forall|j: int| 0 <= j < sizes.len() ==> sizes[j] == Size::Unit(w),
        0 <= i < sizes.len(),
    ensures
        child_extent(sizes, span, i) == span / sizes.len(),
        child_offset(sizes, span, i) == i * (span / sizes.len()),
        span >= sizes.len() ==> child_offset(sizes, span, i) < child_offset(sizes, span, i + 1),
    decreases i,
{
    let n = sizes.len();
    lemma_sums_all_equal_units(sizes, w);
    assert(leftover_of(sizes, span) == span);
    assert(child_extent(sizes, span, i) == (span * w) / (n * w));
    assert((span * w) / (n * w) == span / n) by {
        lemma_div_multiples_vanish_quotient(w as int, span as int, n as int);
        lemma_mul_is_commutative(w as int, span as int);
        lemma_mul_is_commutative(w as int, n as int);
    }
    if i == 0 {
    } else {
        lemma_equal_units_even_split(sizes, span, w, i - 1);
        assert((i - 1) * (span / n) + span / n == i * (span / n)) by {
            lemma_mul_is_distributive_add((span / n) as int, i - 1, 1);
            lemma_mul_is_commutative((span / n) as int, i);
            lemma_mul_is_commutative((span / n) as int, i - 1);
        }
    }
    if span >= n {
        assert(span / n >= 1) by {
            lemma_div_by_self(n as int);
            lemma_div_is_ordered(n as int, span as int, n as int);
        }
    }
}

/// Law: when the children's fixed pixels alone exceed the span, the
/// leftover saturates to zero and every scaled child -- every child
/// without a positive pixel size -- gets extent zero.
pub proof fn lemma_overfull_starves_scaled(sizes: Seq<Size>, span: nat, i: int)
    requires
        fixed_sum(sizes) > span,
        0 <= i < sizes.len(),
        px_of(sizes[i]) == 0,
    ensures
        leftover_of(sizes, span) == 0,
        child_extent(sizes, span, i) == 0,
{
    let uu = unit_sum(sizes);
    if uu > 0 {
        lemma_div_of0(uu as int);
    }
}

/// Law: with no fixed pixels and no positive unit weight among the
/// children, the whole span is leftover, yet every child gets extent
/// zero: that leftover is silently dropped, not redistributed.
pub proof fn lemma_zero_unit_sum_drops_leftover(sizes: Seq<Size>, span: nat, i: int)
    requires
        unit_sum(sizes) == 0,
        fixed_sum(sizes) == 0,
        0 <= i < sizes.len(),
    ensures
        leftover_of(sizes, span) == span,
        child_extent(sizes, span, i) == 0,
{
    lemma_fixed_term_le(sizes, i);
}

} // verus!
