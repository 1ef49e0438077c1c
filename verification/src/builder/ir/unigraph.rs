//! Unified graph: the topology that layout works on.

use vstd::prelude::*;

use crate::ast::Direction;

verus! {

/// A node of the unified graph.
#[derive(Debug, Clone)]
pub struct UGNode {
    pub id: String,
}

/// A directed edge of the unified graph, joining two node ids.
#[derive(Debug, Clone)]
pub struct UGEdge {
    pub source: String,
    pub target: String,
}

/// What an edge means, which decides how it is drawn.
#[derive(Debug, Clone, Copy, PartialEq, Eq, Structural)]
pub enum EdgeKind {
    /// Flowchart edge.
    Flow,
    /// State transition.
    Transition,
    /// Class inheritance.
    ClassExtends,
    /// Class composition.
    ClassComposition,
    /// Class aggregation.
    ClassAggregation,
    /// Class association.
    ClassAssociation,
    /// Class dependency.
    ClassDependency,
    /// Interface realisation.
    ClassRealization,
    /// Solid class link.
    ClassLink,
    /// Dashed class link.
    ClassDashed,
    /// ER relationship.
    Relationship,
}

/// Layout family of a graph.
#[derive(Debug, Clone, Copy, PartialEq, Eq, Structural)]
pub enum GraphFamily {
    Directed,
    Grid,
    Linear,
    Simple,
}

/// Unified graph: nodes and edges in source order, with the main direction.
#[derive(Debug, Clone)]
pub struct Unigraph {
    pub nodes: Vec<UGNode>,
    pub edges: Vec<UGEdge>,
    pub direction: Direction,
    pub family: GraphFamily,
}

} // verus!
