//! Node anchors.

use vstd::prelude::*;

verus! {

/// Side of a node where an edge attaches.
#[derive(Debug, Clone, Copy, PartialEq, Eq, Structural)]
pub enum AnchorDir {
    Top,
    Bottom,
    Left,
    Right,
}

} // verus!
