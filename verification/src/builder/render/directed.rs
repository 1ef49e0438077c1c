//! Renderer of the directed family (flowchart, state).

use vstd::prelude::*;

use crate::ast::NodeShape;
use crate::builder::layout::ir::ShapeHint;

verus! {

/// Renderer of the directed family (flowchart, state).
pub struct DirectedRenderer;

/// The drawn shape of a state node of a given category.
pub open spec fn spec_state_node_shape(hint: ShapeHint) -> Option<NodeShape> {
    match hint {
        ShapeHint::Rect | ShapeHint::Rounded => Some(NodeShape::Rounded),
        ShapeHint::Circle => Some(NodeShape::Circle),
        ShapeHint::Diamond => Some(NodeShape::Diamond),
        ShapeHint::Bar => None,
    }
}

/// Drawn shape of a state node: rectangles become rounded rectangles,
/// circles and diamonds stay, bars have no node shape.
pub fn state_node_shape(hint: ShapeHint) -> (s: Option<NodeShape>)
    ensures
        s == spec_state_node_shape(hint),
{
    match hint {
        ShapeHint::Rect | ShapeHint::Rounded => Some(NodeShape::Rounded),
        ShapeHint::Circle => Some(NodeShape::Circle),
        ShapeHint::Diamond => Some(NodeShape::Diamond),
        ShapeHint::Bar => None,
    }
}

} // verus!
