//! Solver selection: each diagram family has a solver of its own.

use vstd::prelude::*;

use crate::ast::Diagram;

pub mod directed;
pub mod grouped;

verus! {

/// Layered solver for directed graphs without groups (flowchart, state).
pub struct DirectedSolver;

/// Layered solver for directed graphs with subgraphs or composite states.
pub struct GroupedDirected;

/// Grid solver (class, ER).
pub struct GridSolver;

/// Linear solver (sequence, timeline).
pub struct LinearSolver;

/// Solver that centres or columns its content (pie, git graph).
pub struct SimpleSolver;

/// Solver family of a diagram.
#[derive(Debug, Clone, Copy, PartialEq, Eq, Structural)]
pub enum SolverKind {
    Directed,
    Grid,
    Linear,
    Simple,
}

/// The solver family of each diagram kind.
pub open spec fn spec_solver_for(diagram: Diagram) -> SolverKind {
    match diagram {
        Diagram::Flowchart(_) | Diagram::State(_) => SolverKind::Directed,
        Diagram::Class(_) | Diagram::Er(_) => SolverKind::Grid,
        Diagram::Sequence(_) | Diagram::Timeline(_) => SolverKind::Linear,
        Diagram::Pie(_) | Diagram::GitGraph(_) => SolverKind::Simple,
    }
}

/// Picks the solver family for a diagram: flowchart and state diagrams are
/// directed, class and ER diagrams grids, sequence and timeline diagrams
/// linear, pie charts and git graphs simple.
pub fn solver_for(diagram: &Diagram) -> (k: SolverKind)
    ensures
        k == spec_solver_for(*diagram),
{
    match diagram {
        Diagram::Flowchart(_) | Diagram::State(_) => SolverKind::Directed,
        Diagram::Class(_) | Diagram::Er(_) => SolverKind::Grid,
        Diagram::Sequence(_) | Diagram::Timeline(_) => SolverKind::Linear,
        Diagram::Pie(_) | Diagram::GitGraph(_) => SolverKind::Simple,
    }
}

} // verus!
