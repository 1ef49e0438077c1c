//! Drawn shapes.

use vstd::prelude::*;

verus! {

/// Decoration drawn at one end of an edge.
#[derive(Debug, Clone, Copy, PartialEq, Eq, Structural)]
pub enum EdgeEnds {
    NoMark,
    Arrow,
    Circle,
    Cross,
    Triangle,
    TriangleFilled,
    DiamondFilled,
    DiamondHollow,
}

} // verus!
