use dashboard_layout::layout::{document_fits, layout_document, layout_node, LayoutError, Rect};
use dashboard_layout::node::{ContainerNode, LayoutNode, SizedNode, SplitDirection, WidgetKind};
use dashboard_layout::size::Size;

fn container(split: SplitDirection, entries: Vec<LayoutNode>) -> LayoutNode {
    LayoutNode::Container(ContainerNode { size: Size::Unit(1000), split, entries })
}

#[test]
fn end_to_end_horizontal_document() {
    // Root container, horizontal split over 1200 pixels, children
    // 200px, 1u and 3u: rectangles at 0, 200 and 450 with widths 200,
    // 250 and 750, each the full height.
    let root = container(
        SplitDirection::Horizontal,
        vec![
            LayoutNode::Date(SizedNode { size: Size::Px(200) }),
            LayoutNode::Weather(SizedNode { size: Size::Unit(1000) }),
            LayoutNode::Todo(SizedNode { size: Size::Unit(3000) }),
        ],
    );
    let placed = layout_document(&root, 1200, 825).unwrap();
    assert_eq!(placed.len(), 3);

    assert_eq!(placed[0].kind, WidgetKind::Date);
    assert_eq!(placed[0].rect, Rect { x: 0, y: 0, width: 200, height: 825 });

    assert_eq!(placed[1].kind, WidgetKind::Weather);
    assert_eq!(placed[1].rect, Rect { x: 200, y: 0, width: 250, height: 825 });

    assert_eq!(placed[2].kind, WidgetKind::Todo);
    assert_eq!(placed[2].rect, Rect { x: 450, y: 0, width: 750, height: 825 });
}

#[test]
fn nested_container_passes_cross_axis_through() {
    // Outer vertical container of height 800; its one child is a
    // horizontal container spanning the full width. The inner
    // container's leaves must see the outer's already-resolved x and
    // width unchanged, and the inner's own height slice.
    let inner = container(
        SplitDirection::Horizontal,
        vec![
            LayoutNode::HLine(SizedNode { size: Size::Px(300) }),
            LayoutNode::VLine(SizedNode { size: Size::Unit(1000) }),
        ],
    );
    let top = LayoutNode::Battery(SizedNode { size: Size::Px(200) });
    let root = container(SplitDirection::Vertical, vec![top, inner]);

    let placed = layout_document(&root, 1200, 800).unwrap();
    assert_eq!(placed.len(), 3);

    // The leading fixed leaf takes the first 200-pixel band.
    assert_eq!(placed[0].kind, WidgetKind::Battery);
    assert_eq!(placed[0].rect, Rect { x: 0, y: 0, width: 1200, height: 200 });

    // The inner container got y = 200, height = 600, and the outer's
    // full width; its own children split that width while keeping the
    // cross-axis values it received.
    assert_eq!(placed[1].kind, WidgetKind::HLine);
    assert_eq!(placed[1].rect, Rect { x: 0, y: 200, width: 300, height: 600 });

    assert_eq!(placed[2].kind, WidgetKind::VLine);
    assert_eq!(placed[2].rect, Rect { x: 300, y: 200, width: 900, height: 600 });
}

#[test]
fn leaves_come_in_document_order() {
    let root = container(
        SplitDirection::Horizontal,
        vec![
            LayoutNode::Allowance(SizedNode { size: Size::Unit(1000) }),
            LayoutNode::Countdown(SizedNode { size: Size::Unit(1000) }),
            LayoutNode::Verse(SizedNode { size: Size::Unit(1000) }),
        ],
    );
    let placed = layout_document(&root, 900, 100).unwrap();
    let kinds: Vec<WidgetKind> = placed.iter().map(|p| p.kind).collect();
    assert_eq!(
        kinds,
        vec![WidgetKind::Allowance, WidgetKind::Countdown, WidgetKind::Verse]
    );
}

#[test]
fn non_container_root_is_an_error() {
    let root = LayoutNode::Date(SizedNode { size: Size::Px(10) });
    assert_eq!(layout_document(&root, 100, 100), Err(LayoutError::RootNotContainer));
}

#[test]
fn empty_container_yields_no_widgets() {
    let root = container(SplitDirection::Vertical, vec![]);
    let placed = layout_document(&root, 640, 480).unwrap();
    assert!(placed.is_empty());
}

#[test]
fn leaf_node_fills_its_rectangle() {
    let node = LayoutNode::Verse(SizedNode { size: Size::Unit(2000) });
    let rect = Rect { x: 5, y: 7, width: 30, height: 40 };
    let placed = layout_node(&node, rect);
    assert_eq!(placed.len(), 1);
    assert_eq!(placed[0].kind, WidgetKind::Verse);
    assert_eq!(placed[0].rect, rect);
}

#[test]
fn document_fits_accepts_ordinary_documents() {
    let root = container(
        SplitDirection::Horizontal,
        vec![
            LayoutNode::Date(SizedNode { size: Size::Px(200) }),
            LayoutNode::Weather(SizedNode { size: Size::Unit(1000) }),
        ],
    );
    assert!(document_fits(&root, 1200, 825));
}

#[test]
fn document_fits_rejects_overflowing_pixel_sums() {
    // Two maximal fixed children: their sum cannot be laid out in
    // 64-bit coordinates.
    let root = container(
        SplitDirection::Horizontal,
        vec![
            LayoutNode::Date(SizedNode { size: Size::Px(u64::MAX) }),
            LayoutNode::Todo(SizedNode { size: Size::Px(u64::MAX) }),
        ],
    );
    assert!(!document_fits(&root, 100, 100));
}
