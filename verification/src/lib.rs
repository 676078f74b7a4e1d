//! A verified layout engine for a static dashboard renderer.
//!
//! A dashboard is described as a tree of nodes: containers that split
//! their space horizontally or vertically among ordered children, and
//! leaves that name a widget. Every node carries a [`size::Size`],
//! either an absolute pixel count or a proportional unit weight. The
//! solver turns a container's span into an offset and an extent for
//! each child, and the dispatch walk resolves the whole tree into one
//! rectangle per leaf widget; drawing those widgets is left to the
//! caller.

pub mod icons;
pub mod layout;
pub mod money;
pub mod node;
pub mod size;
pub mod solver;
