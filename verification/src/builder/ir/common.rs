//! Types shared by the stages of the pipeline.

use vstd::prelude::*;

verus! {

/// Mark at one end of an edge, as the source asks for it.
#[derive(Debug, Clone, Copy, PartialEq, Eq, Structural)]
pub enum ArrowKind {
    Arrow,
    Circle,
    Cross,
    NoMark,
}

/// Marks at both ends of an edge.
#[derive(Debug, Clone, Copy, PartialEq, Eq, Structural)]
pub struct ArrowSpec {
    pub start: ArrowKind,
    pub end: ArrowKind,
}

} // verus!
