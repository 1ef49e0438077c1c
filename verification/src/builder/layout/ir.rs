//! Layout input: the topology of a diagram with a little line and shape
//! semantics, in source order.

use vstd::prelude::*;

verus! {

/// Shape category of a node (anchors and clipping only).
#[derive(Debug, Clone, Copy, PartialEq, Eq, Structural)]
pub enum ShapeHint {
    Rect,
    Rounded,
    Diamond,
    Circle,
    /// Fork / join bar.
    Bar,
}

/// Line category of an edge (geometry only, no colour or arrow style).
#[derive(Debug, Clone, Copy, PartialEq, Eq, Structural)]
pub enum LineKind {
    /// Plain solid line.
    Solid,
    /// Dashed line.
    Dashed,
    /// Solid line without an arrow head.
    NoArrow,
    /// Thick solid line.
    Thick,
    /// Loop from a node back to itself.
    SelfLoop,
    /// Arrow heads at both ends.
    Bidirectional,
    /// Curve.
    Curved,
    /// Takes part in the topology but is not drawn.
    Invisible,
}

/// Port hint of an edge end; `Auto` leaves the choice to the solver.
#[derive(Debug, Clone, Copy, PartialEq, Eq, Structural)]
pub enum PortHint {
    Auto,
    Top,
    Bottom,
    Left,
    Right,
}

/// An edge between two nodes, by node index.
#[derive(Debug, Clone, Copy, PartialEq, Eq, Structural)]
pub struct LEdge {
    pub source: usize,
    pub target: usize,
    pub source_port: PortHint,
    pub target_port: PortHint,
    pub line_kind: LineKind,
}

/// A member of a group.
#[derive(Debug, Clone, Copy, PartialEq, Eq, Structural)]
pub enum GroupChild {
    Node(usize),
    Group(usize),
}

/// A group (subgraph or composite state), members in source order.
#[derive(Debug, Clone)]
pub struct LGroup {
    pub title: Option<String>,
    pub children: Vec<GroupChild>,
}

} // verus!
