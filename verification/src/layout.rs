//! Dispatch: the depth-first, pre-order walk that resolves the layout
//! tree into one concrete pixel rectangle per leaf widget.

use vstd::prelude::*;

use crate::node::{ContainerNode, LayoutNode, SplitDirection, WidgetKind};
use crate::size::Size;
use crate::solver::{
    child_extent, child_offset, fixed_sum, lemma_offset_within_budget, leftover_of, sizes_of,
    solve_container,
};

verus! {

/// An integer pixel region assigned to a node during the walk:
/// ephemeral, recomputed on every pass, never stored in the tree.
#[derive(Debug, Clone, Copy, PartialEq, Eq, Structural)]
pub struct Rect {
    pub x: u64,
    pub y: u64,
    pub width: u64,
    pub height: u64,
}

/// One resolved leaf: which widget to draw, and where. The walk hands
/// these to the caller in document order; drawing them is outside the
/// layout engine.
#[derive(Debug, Clone, Copy, PartialEq, Eq, Structural)]
pub struct PlacedWidget {
    pub kind: WidgetKind,
    pub rect: Rect,
}

/// The split-axis span of a rectangle: its width under a horizontal
/// split, its height under a vertical one.
pub open spec fn spec_span_of(rect: Rect, split: SplitDirection) -> nat {
    match split {
        SplitDirection::Horizontal => rect.width as nat,
        SplitDirection::Vertical => rect.height as nat,
    }
}

/// The rectangle child `i` of a container receives: its slice of the
/// split axis, and the container's cross-axis origin and extent
/// passed through unchanged.
pub open spec fn spec_child_rect(rect: Rect, split: SplitDirection, sizes: Seq<Size>, i: int) -> Rect {
    let span = spec_span_of(rect, split);
    let off = child_offset(sizes, span, i);
    let ext = child_extent(sizes, span, i);
    match split {
        SplitDirection::Horizontal => Rect {
            x: (rect.x + off) as u64,
            y: rect.y,
            width: ext as u64,
            height: rect.height,
        },
        SplitDirection::Vertical => Rect {
            x: rect.x,
            y: (rect.y + off) as u64,
            width: rect.width,
            height: ext as u64,
        },
    }
}

/// How far a subtree's rectangles can grow past the space it was
/// given: fixed pixel children are honoured even when they exceed the
/// span, so along any one path the walk can add at most each
/// container's fixed sum to a coordinate. The recursion takes the
/// worst child at every container.
pub open spec fn reach(node: LayoutNode) -> nat
    decreases node, 0int,
{
    match node {
        LayoutNode::Container(c) => fixed_sum(sizes_of(c.entries@)) + reach_of_children(
            c.entries@,
            0,
        ),
        _ => 0,
    }
}

/// The largest reach among `children[k..]`.
pub open spec fn reach_of_children(children: Seq<LayoutNode>, k: int) -> nat
    decreases children, children.len() - k,
{
    if k < 0 || k >= children.len() {
        0
    } else {
        let r0 = reach(children[k]);
        let r1 = reach_of_children(children, k + 1);
        if r0 >= r1 {
            r0
        } else {
            r1
        }
    }
}

/// The walk of `node` inside `rect` stays within 64-bit pixel
/// coordinates: on each axis the origin plus the node's own extent,
/// plus whatever its fixed-sized descendants can add, still fits.
pub open spec fn rect_fits(node: LayoutNode, rect: Rect) -> bool {
    &&& rect.x + rect.width + reach(node) <= u64::MAX
    &&& rect.y + rect.height + reach(node) <= u64::MAX
}

/// Every leaf widget the walk of `node` inside `rect` resolves, in
/// depth-first pre-order: a container is split along its own
/// direction and contributes its children's leaves in declaration
/// order; a leaf contributes itself with the rectangle it was given.
pub open spec fn spec_layout(node: LayoutNode, rect: Rect) -> Seq<PlacedWidget>
    decreases node, 0int,
{
    match node {
        LayoutNode::Container(c) => spec_layout_children(c.entries@, c.split, rect, 0),
        leaf => match leaf.spec_widget() {
            Some(kind) => seq![PlacedWidget { kind, rect }],
            None => Seq::empty(),
        },
    }
}

/// The leaves of `children[k..]` of a container splitting `rect`
/// along `split`, each child walked inside its own slice.
pub open spec fn spec_layout_children(
    children: Seq<LayoutNode>,
    split: SplitDirection,
    rect: Rect,
    k: int,
) -> Seq<PlacedWidget>
    decreases children, children.len() - k,
{
    if k < 0 || k >= children.len() {
        Seq::empty()
    } else {
        spec_layout(children[k], spec_child_rect(rect, split, sizes_of(children), k))
            + spec_layout_children(children, split, rect, k + 1)
    }
}

/// Law: the cross axis passes through unchanged. A horizontal split
/// hands every child its parent's y origin and full height; a
/// vertical split hands every child its parent's x origin and full
/// width. Only the split axis is divided.
pub proof fn lemma_cross_axis_passthrough(
    rect: Rect,
    split: SplitDirection,
    sizes: Seq<Size>,
    i: int,
)
    ensures
        split is Horizontal ==> {
            &&& spec_child_rect(rect, split, sizes, i).y == rect.y
            &&& spec_child_rect(rect, split, sizes, i).height == rect.height
        },
        split is Vertical ==> {
            &&& spec_child_rect(rect, split, sizes, i).x == rect.x
            &&& spec_child_rect(rect, split, sizes, i).width == rect.width
        },
{
}

proof fn lemma_reach_child_le(children: Seq<LayoutNode>, k: int, i: int)
    requires
        0 <= k <= i < children.len(),
    ensures
        reach(children[i]) <= reach_of_children(children, k),
    decreases i - k,
{
    if k < i {
        lemma_reach_child_le(children, k + 1, i);
    }
}

/// A child's slice of a fitting container also fits: its far edge
/// along the split axis stays within the parent's budget, the cross
/// axis is unchanged, and the child's own reach is covered by the
/// parent's.
proof fn lemma_child_rect_fits(c: ContainerNode, rect: Rect, i: int)
    requires
        rect_fits(LayoutNode::Container(c), rect),
        0 <= i < c.entries@.len(),
    ensures
        rect.x + rect.width + fixed_sum(sizes_of(c.entries@)) <= u64::MAX,
        rect.y + rect.height + fixed_sum(sizes_of(c.entries@)) <= u64::MAX,
        child_offset(sizes_of(c.entries@), spec_span_of(rect, c.split), i) + child_extent(
            sizes_of(c.entries@),
            spec_span_of(rect, c.split),
            i,
        ) <= spec_span_of(rect, c.split) + fixed_sum(sizes_of(c.entries@)),
        rect_fits(c.entries@[i], spec_child_rect(rect, c.split, sizes_of(c.entries@), i)),
{
    let sizes = sizes_of(c.entries@);
    let span = spec_span_of(rect, c.split);
    let ll = leftover_of(sizes, span);
    lemma_offset_within_budget(sizes, span, i + 1);
    assert(child_offset(sizes, span, i) + child_extent(sizes, span, i) == child_offset(
        sizes,
        span,
        i + 1,
    ));
    assert(ll <= span);
    lemma_reach_child_le(c.entries@, 0, i);
}

/// Walks one node: a container is solved and each child walked inside
/// its slice; a leaf becomes one placed widget filling `rect`.
pub fn layout_node(node: &LayoutNode, rect: Rect) -> (out: Vec<PlacedWidget>)
    requires
        rect_fits(*node, rect),
    ensures
        out@ == spec_layout(*node, rect),
    decreases *node,
{
    match node {
        LayoutNode::Container(c) => {
            let ghost sizes = sizes_of(c.entries@);
            let span: u64 = match c.split {
                SplitDirection::Horizontal => rect.width,
                SplitDirection::Vertical => rect.height,
            };
            let slots = solve_container(&c.entries, span);
            let mut out: Vec<PlacedWidget> = Vec::new();
            let n = c.entries.len();
            let mut i: usize = 0;
            while i < n
                invariant
                    i <= n,
                    n == c.entries@.len(),
                    sizes == sizes_of(c.entries@),
                    *node == LayoutNode::Container(*c),
                    rect_fits(*node, rect),
                    span == spec_span_of(rect, c.split),
                    slots@.len() == n,
                    forall|j: int|
                        0 <= j < n ==> (#[trigger] slots@[j]).extent == child_extent(
                            sizes,
                            span as nat,
                            j,
                        ),
                    forall|j: int|
                        0 <= j < n ==> (#[trigger] slots@[j]).start == child_offset(
                            sizes,
                            span as nat,
                            j,
                        ),
                    out@ + spec_layout_children(c.entries@, c.split, rect, i as int)
                        == spec_layout_children(c.entries@, c.split, rect, 0),
                decreases n - i,
            {
                let slot = slots[i];
                proof {
                    lemma_child_rect_fits(*c, rect, i as int);
                }
                let crect = match c.split {
                    SplitDirection::Horizontal => Rect {
                        x: rect.x + slot.start,
                        y: rect.y,
                        width: slot.extent,
                        height: rect.height,
                    },
                    SplitDirection::Vertical => Rect {
                        x: rect.x,
                        y: rect.y + slot.start,
                        width: rect.width,
                        height: slot.extent,
                    },
                };
                proof {
                    assert(crect == spec_child_rect(rect, c.split, sizes, i as int));
                }
                let ghost out_before = out@;
                let mut sub = layout_node(&c.entries[i], crect);
                out.append(&mut sub);
                proof {
                    assert(out@ + spec_layout_children(c.entries@, c.split, rect, i as int + 1)
                        =~= out_before + spec_layout_children(c.entries@, c.split, rect, i as int));
                }
                i += 1;
            }
            proof {
                assert(out@ + spec_layout_children(c.entries@, c.split, rect, n as int) =~= out@);
            }
            out
        },
        leaf => {
            let mut out: Vec<PlacedWidget> = Vec::new();
            match leaf.widget_kind() {
                Some(kind) => {
                    out.push(PlacedWidget { kind, rect });
                    proof {
                        assert(out@ =~= spec_layout(*leaf, rect));
                    }
                },
                None => {
                },
            }
            out
        },
    }
}

/// A document whose root is not a container cannot be laid out; the
/// walk never starts and the caller is told why.
#[derive(Debug, Clone, Copy, PartialEq, Eq, Structural)]
pub enum LayoutError {
    RootNotContainer,
}

/// Lays out a whole document on a canvas of `width` by `height`
/// pixels anchored at the origin. The root must be a container;
/// anything else is a structural error, not a silent empty render.
pub fn layout_document(root: &LayoutNode, width: u64, height: u64) -> (r: Result<
    Vec<PlacedWidget>,
    LayoutError,
>)
    requires
        width + reach(*root) <= u64::MAX,
        height + reach(*root) <= u64::MAX,
    ensures
        match r {
            Ok(placed) => (*root) is Container && placed@ == spec_layout(
                *root,
                Rect { x: 0, y: 0, width, height },
            ),
            Err(e) => !((*root) is Container) && e == LayoutError::RootNotContainer,
        },
{
    match root {
        LayoutNode::Container(_) => Ok(layout_node(root, Rect { x: 0, y: 0, width, height })),
        _ => Err(LayoutError::RootNotContainer),
    }
}

/// Computes a subtree's reach when it fits in 64 bits; reports an
/// overflow otherwise.
fn reach_checked(node: &LayoutNode) -> (r: Option<u64>)
    ensures
        match r {
            Some(v) => v == reach(*node),
            None => reach(*node) > u64::MAX,
        },
    decreases *node,
{
    match node {
        LayoutNode::Container(c) => {
            let ghost sizes = sizes_of(c.entries@);
            let n = c.entries.len();

            // The container's own fixed pixels.
            let mut fixed: u64 = 0;
            let mut i: usize = 0;
            while i < n
                invariant
                    i <= n,
                    n == c.entries@.len(),
                    sizes == sizes_of(c.entries@),
                    *node == LayoutNode::Container(*c),
                    fixed == fixed_sum(sizes.take(i as int)),
                decreases n - i,
            {
                proof {
                    crate::solver::lemma_fixed_sum_take_succ(sizes, i as int);
                }
                let child = &c.entries[i];
                let v = crate::size::fixed_from(child.size());
                if v > u64::MAX - fixed {
                    proof {
                        crate::solver::lemma_fixed_sum_prefix_le(sizes, i as int + 1);
                    }
                    return None;
                }
                fixed = fixed + v;
                i += 1;
            }
            proof {
                assert(sizes.take(n as int) =~= sizes);
            }

            // The worst child, walked from the back so the running
            // value is the suffix maximum.
            let mut worst: u64 = 0;
            let mut i: usize = n;
            while i > 0
                invariant
                    i <= n,
                    n == c.entries@.len(),
                    sizes == sizes_of(c.entries@),
                    *node == LayoutNode::Container(*c),
                    fixed == fixed_sum(sizes),
                    worst == reach_of_children(c.entries@, i as int),
                decreases i,
            {
                i -= 1;
                // The call below recurses into a strictly smaller
                // node; spell the chain out for the decreases check.
                proof {
                    assert(decreases_to!(*node => (*node)->Container_0));
                    assert((*node)->Container_0 == *c);
                    assert(decreases_to!(*c => c.entries));
                    assert(decreases_to!(c.entries => c.entries@));
                    assert(decreases_to!(c.entries@ => c.entries@[i as int]));
                    assert(decreases_to!(*node => c.entries@[i as int]));
                }
                match reach_checked(&c.entries[i]) {
                    Some(v) => {
                        if v > worst {
                            worst = v;
                        }
                    },
                    None => {
                        proof {
                            lemma_reach_child_le(c.entries@, 0, i as int);
                        }
                        return None;
                    },
                }
            }
            if fixed > u64::MAX - worst {
                None
            } else {
                Some(fixed + worst)
            }
        },
        _ => Some(0),
    }
}

/// Whether a document fits the 64-bit coordinate space that
/// `layout_document` requires of its callers: checkable by plain
/// code, with no ghost input.
pub fn document_fits(root: &LayoutNode, width: u64, height: u64) -> (ok: bool)
    ensures
        ok <==> (width + reach(*root) <= u64::MAX && height + reach(*root) <= u64::MAX),
{
    let bigger: u64 = if width >= height {
        width
    } else {
        height
    };
    match reach_checked(root) {
        Some(r) => r <= u64::MAX - bigger,
        None => false,
    }
}

} // verus!
