use dashboard_layout::node::{LayoutNode, SizedNode};
use dashboard_layout::size::Size;
use dashboard_layout::solver::solve_container;

fn leaf(size: Size) -> LayoutNode {
    LayoutNode::Date(SizedNode { size })
}

#[test]
fn mixed_fixed_and_units_split() {
    // Span 1200, children 200px, 1u, 3u: leftover is 1000, the unit
    // sum 4, so the scaled children get 250 and 750.
    let entries = vec![
        leaf(Size::Px(200)),
        leaf(Size::Unit(1000)),
        leaf(Size::Unit(3000)),
    ];
    let slots = solve_container(&entries, 1200);
    let extents: Vec<u64> = slots.iter().map(|s| s.extent).collect();
    let starts: Vec<u64> = slots.iter().map(|s| s.start).collect();
    assert_eq!(extents, vec![200, 250, 750]);
    assert_eq!(starts, vec![0, 200, 450]);
}

#[test]
fn sum_of_extents_stays_within_span() {
    // Rounding down loses the fractional pixels; the extents can
    // never sum past the span while the fixed children fit.
    let entries = vec![
        leaf(Size::Px(100)),
        leaf(Size::Unit(1000)),
        leaf(Size::Unit(1000)),
        leaf(Size::Unit(1000)),
    ];
    let slots = solve_container(&entries, 1000);
    let total: u64 = slots.iter().map(|s| s.extent).sum();
    assert!(total <= 1000);
    // 900 leftover over three equal weights: floor leaves 900 exactly.
    assert_eq!(total, 1000);

    let entries = vec![
        leaf(Size::Unit(1000)),
        leaf(Size::Unit(1000)),
        leaf(Size::Unit(1000)),
    ];
    let slots = solve_container(&entries, 1000);
    let total: u64 = slots.iter().map(|s| s.extent).sum();
    assert_eq!(total, 999);
    assert!(total <= 1000);
}

#[test]
fn all_pixel_children_get_exact_values() {
    // Even when their sum exceeds the span, fixed children keep their
    // declared extents.
    let entries = vec![leaf(Size::Px(700)), leaf(Size::Px(600)), leaf(Size::Px(0))];
    let slots = solve_container(&entries, 1000);
    let extents: Vec<u64> = slots.iter().map(|s| s.extent).collect();
    assert_eq!(extents, vec![700, 600, 0]);
    let starts: Vec<u64> = slots.iter().map(|s| s.start).collect();
    assert_eq!(starts, vec![0, 700, 1300]);
}

#[test]
fn equal_weights_split_evenly_with_contiguous_offsets() {
    // Four children of one equal weight: each gets floor(span / 4),
    // and each offset is the previous offset plus its extent.
    let entries = vec![
        leaf(Size::Unit(7000)),
        leaf(Size::Unit(7000)),
        leaf(Size::Unit(7000)),
        leaf(Size::Unit(7000)),
    ];
    let slots = solve_container(&entries, 1003);
    for slot in &slots {
        assert_eq!(slot.extent, 1003 / 4);
    }
    let mut expected_start = 0u64;
    let mut prev_start: Option<u64> = None;
    for slot in &slots {
        assert_eq!(slot.start, expected_start);
        if let Some(p) = prev_start {
            assert!(slot.start > p);
        }
        prev_start = Some(slot.start);
        expected_start += slot.extent;
    }
}

#[test]
fn overfull_pixels_saturate_and_starve_units() {
    // The fixed children alone exceed the span: the leftover clamps
    // to zero and every unit child gets nothing.
    let entries = vec![
        leaf(Size::Px(800)),
        leaf(Size::Px(500)),
        leaf(Size::Unit(2000)),
        leaf(Size::Unit(1000)),
    ];
    let slots = solve_container(&entries, 1000);
    let extents: Vec<u64> = slots.iter().map(|s| s.extent).collect();
    assert_eq!(extents, vec![800, 500, 0, 0]);
}

#[test]
fn zero_unit_sum_drops_the_leftover() {
    // A lone zero-pixel child is scaled, but with no positive weight
    // anywhere the whole leftover is dropped: extent 0 despite a full
    // free span.
    let entries = vec![leaf(Size::Px(0))];
    let slots = solve_container(&entries, 500);
    assert_eq!(slots.len(), 1);
    assert_eq!(slots[0].start, 0);
    assert_eq!(slots[0].extent, 0);

    // The same with a zero-weight unit child.
    let entries = vec![leaf(Size::Unit(0)), leaf(Size::Px(0))];
    let slots = solve_container(&entries, 500);
    assert_eq!(slots[0].extent, 0);
    assert_eq!(slots[1].extent, 0);
}

#[test]
fn empty_container_is_legal() {
    let entries: Vec<LayoutNode> = vec![];
    let slots = solve_container(&entries, 800);
    assert!(slots.is_empty());
}

#[test]
fn zero_span_gives_zero_to_scaled_children() {
    let entries = vec![leaf(Size::Unit(1000)), leaf(Size::Unit(3000))];
    let slots = solve_container(&entries, 0);
    assert_eq!(slots[0].extent, 0);
    assert_eq!(slots[1].extent, 0);
}

#[test]
fn weights_scale_invariantly() {
    // Scaling every weight by the same factor leaves extents alone:
    // only the ratios matter.
    let coarse = vec![leaf(Size::Unit(1000)), leaf(Size::Unit(3000))];
    let fine = vec![leaf(Size::Unit(125)), leaf(Size::Unit(375))];
    let a = solve_container(&coarse, 997);
    let b = solve_container(&fine, 997);
    for (x, y) in a.iter().zip(b.iter()) {
        assert_eq!(x, y);
    }
}
