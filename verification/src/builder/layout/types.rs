//! Layout types shared by the layout passes.

use vstd::prelude::*;

use crate::ast::Direction;

verus! {

/// Node identifier.
pub type NodeId = String;

/// Layout metadata.
#[derive(Debug, Clone)]
pub struct LayoutMetadata {
    pub direction: Direction,
}

/// One item of a chain: a node, or a nested group.
#[derive(Debug)]
pub struct ChainItem {
    pub node_id: Option<NodeId>,
    pub sub_group: Option<Box<LogicalGroup>>,
}

/// One arm of a branch.
#[derive(Debug)]
pub struct BranchArm {
    pub body: LogicalGroup,
}

/// Structural groups recognised in a flowchart.
#[derive(Debug)]
pub enum LogicalGroup {
    /// Items laid one after another.
    Chain { items: Vec<ChainItem> },
    /// A source fanning out into parallel arms that may meet again in a sink.
    Branch { source: NodeId, arms: Vec<BranchArm>, sink: Option<NodeId> },
    /// A loop: a condition, a body beside it, and an optional exit.
    Cycle { condition: NodeId, body: Box<LogicalGroup>, exit: Option<NodeId> },
    /// A single node.
    Leaf { node_id: NodeId },
}

/// An edge that no group accounts for.
#[derive(Debug, Clone)]
pub struct OrphanEdge {
    pub from: NodeId,
    pub to: NodeId,
}

/// The recognised group structure of a flowchart.
#[derive(Debug)]
pub struct LayoutTree {
    pub root: LogicalGroup,
    pub orphan_edges: Vec<OrphanEdge>,
}

} // verus!
