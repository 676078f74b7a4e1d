//! Layout nodes: the tree a dashboard document describes.

use vstd::prelude::*;

use crate::size::{FormatError, FormatErrorKind, Size};

verus! {

/// The axis along which a container lays its children out: children
/// of a `Horizontal` container share the width, children of a
/// `Vertical` container share the height.
#[derive(Debug, Clone, Copy, PartialEq, Eq, Structural)]
pub enum SplitDirection {
    Horizontal,
    Vertical,
}

/// A node of the layout tree: a container that splits its space among
/// ordered children, or a leaf naming one widget. Every variant
/// carries exactly one [`Size`].
#[derive(Debug)]
pub enum LayoutNode {
    Container(ContainerNode),
    Date(SizedNode),
    Todo(SizedNode),
    HLine(SizedNode),
    VLine(SizedNode),
    Weather(SizedNode),
    Allowance(SizedNode),
    Countdown(SizedNode),
    Battery(SizedNode),
    Verse(SizedNode),
}

/// A leaf node: it only claims space.
#[derive(Debug)]
pub struct SizedNode {
    pub size: Size,
}

/// A container node: it claims space from its parent and splits its
/// own space among `entries`, in declaration order, along `split`.
#[derive(Debug)]
pub struct ContainerNode {
    pub size: Size,
    pub split: SplitDirection,
    pub entries: Vec<LayoutNode>,
}

/// The widget a leaf stands for, one tag per leaf variant.
#[derive(Debug, Clone, Copy, PartialEq, Eq, Structural)]
pub enum WidgetKind {
    Date,
    Todo,
    HLine,
    VLine,
    Weather,
    Allowance,
    Countdown,
    Battery,
    Verse,
}

impl LayoutNode {
    /// The size any node carries, whatever its variant.
    pub open spec fn spec_size(self) -> Size {
        match self {
            LayoutNode::Container(n) => n.size,
            LayoutNode::Date(n) => n.size,
            LayoutNode::Todo(n) => n.size,
            LayoutNode::HLine(n) => n.size,
            LayoutNode::VLine(n) => n.size,
            LayoutNode::Weather(n) => n.size,
            LayoutNode::Allowance(n) => n.size,
            LayoutNode::Countdown(n) => n.size,
            LayoutNode::Battery(n) => n.size,
            LayoutNode::Verse(n) => n.size,
        }
    }

    /// The widget tag of a leaf; a container stands for no widget.
    pub open spec fn spec_widget(self) -> Option<WidgetKind> {
        match self {
            LayoutNode::Container(_) => None,
            LayoutNode::Date(_) => Some(WidgetKind::Date),
            LayoutNode::Todo(_) => Some(WidgetKind::Todo),
            LayoutNode::HLine(_) => Some(WidgetKind::HLine),
            LayoutNode::VLine(_) => Some(WidgetKind::VLine),
            LayoutNode::Weather(_) => Some(WidgetKind::Weather),
            LayoutNode::Allowance(_) => Some(WidgetKind::Allowance),
            LayoutNode::Countdown(_) => Some(WidgetKind::Countdown),
            LayoutNode::Battery(_) => Some(WidgetKind::Battery),
            LayoutNode::Verse(_) => Some(WidgetKind::Verse),
        }
    }

    /// Unified accessor for size, avoiding repeated matches elsewhere.
    pub fn size(&self) -> (r: &Size)
        ensures
            *r == self.spec_size(),
    {
        match self {
            LayoutNode::Container(n) => &n.size,
            LayoutNode::Date(n) => &n.size,
            LayoutNode::Todo(n) => &n.size,
            LayoutNode::HLine(n) => &n.size,
            LayoutNode::VLine(n) => &n.size,
            LayoutNode::Weather(n) => &n.size,
            LayoutNode::Allowance(n) => &n.size,
            LayoutNode::Countdown(n) => &n.size,
            LayoutNode::Battery(n) => &n.size,
            LayoutNode::Verse(n) => &n.size,
        }
    }

    /// The widget tag of a leaf, `None` for a container.
    pub fn widget_kind(&self) -> (r: Option<WidgetKind>)
        ensures
            r == self.spec_widget(),
    {
        match self {
            LayoutNode::Container(_) => None,
            LayoutNode::Date(_) => Some(WidgetKind::Date),
            LayoutNode::Todo(_) => Some(WidgetKind::Todo),
            LayoutNode::HLine(_) => Some(WidgetKind::HLine),
            LayoutNode::VLine(_) => Some(WidgetKind::VLine),
            LayoutNode::Weather(_) => Some(WidgetKind::Weather),
            LayoutNode::Allowance(_) => Some(WidgetKind::Allowance),
            LayoutNode::Countdown(_) => Some(WidgetKind::Countdown),
            LayoutNode::Battery(_) => Some(WidgetKind::Battery),
            LayoutNode::Verse(_) => Some(WidgetKind::Verse),
        }
    }
}

/// What a split-direction text denotes: exactly the lowercase words
/// `horizontal` and `vertical` are accepted.
pub open spec fn spec_parse_split(s: Seq<char>) -> Option<SplitDirection> {
    if s == "horizontal"@ {
        Some(SplitDirection::Horizontal)
    } else if s == "vertical"@ {
        Some(SplitDirection::Vertical)
    } else {
        None
    }
}

/// Character-for-character string comparison, so the contract can
/// speak about the views.
fn str_eq(a: &str, b: &str) -> (r: bool)
    ensures
        r == (a@ == b@),
{
    let an = a.unicode_len();
    let bn = b.unicode_len();
    if an != bn {
        proof {
            assert(a@ != b@) by {
                if a@ == b@ {
                    assert(a@.len() == b@.len());
                }
            }
        }
        return false;
    }
    let mut i: usize = 0;
    while i < an
        invariant
            i <= an,
            an == a@.len(),
            an == b@.len(),
            forall|j: int| 0 <= j < i ==> a@[j] == b@[j],
        decreases an - i,
    {
        if a.get_char(i) != b.get_char(i) {
            proof {
                assert(a@ != b@) by {
                    if a@ == b@ {
                        assert(a@[i as int] == b@[i as int]);
                    }
                }
            }
            return false;
        }
        i += 1;
    }
    proof {
        assert(a@ =~= b@);
    }
    true
}

/// Parses a split-direction word; anything but the two accepted words
/// is a `FormatError` carrying the offending text.
pub fn parse_split_direction(s: &str) -> (r: Result<SplitDirection, FormatError>)
    ensures
        match r {
            Ok(d) => spec_parse_split(s@) == Some(d),
            Err(e) => {
                &&& spec_parse_split(s@) is None
                &&& e.kind == FormatErrorKind::BadSplitWord
                &&& e.input@ == s@
            },
        },
{
    if str_eq(s, "horizontal") {
        Ok(SplitDirection::Horizontal)
    } else if str_eq(s, "vertical") {
        Ok(SplitDirection::Vertical)
    } else {
        Err(FormatError { kind: FormatErrorKind::BadSplitWord, input: s.to_owned() })
    }
}

} // verus!
