//! Diagram syntax tree: the parts of it that the layout logic reads.

use vstd::prelude::*;

verus! {

/// Main direction of a flowchart / state diagram.
#[derive(Debug, Clone, Copy, PartialEq, Eq, Structural)]
pub enum Direction {
    TB,
    TD,
    BT,
    RL,
    LR,
}

/// Shape of a flowchart node, as written in the source.
#[derive(Debug, Clone, Copy, PartialEq, Eq, Structural)]
pub enum NodeShape {
    Rectangle,
    Rounded,
    Stadium,
    Subroutine,
    Cylinder,
    Circle,
    DoubleCircle,
    Asymmetric,
    Diamond,
    Hexagon,
    Parallelogram,
    ParallelogramAlt,
    Trapezoid,
    TrapezoidAlt,
}

/// Arrow of a flowchart edge.
#[derive(Debug, Clone)]
pub enum ArrowType {
    Solid,
    Dotted,
    Thick,
    NoArrow,
    Both,
    Circle,
    Cross,
    MultiCircle,
    MultiCross,
    Invisible,
    Labeled(String),
}

/// A flowchart node; `shape` and `text` are `None` for a node that only
/// appeared as an edge end.
#[derive(Debug, Clone)]
pub struct Node {
    pub id: String,
    pub text: Option<String>,
    pub shape: Option<NodeShape>,
}

/// A flowchart edge.
#[derive(Debug, Clone)]
pub struct Edge {
    pub source: String,
    pub target: String,
    pub arrow_type: ArrowType,
    pub label: Option<String>,
}

/// A flowchart subgraph.
#[derive(Debug, Clone)]
pub struct Subgraph {
    pub title: Option<String>,
    pub nodes: Vec<Node>,
    pub edges: Vec<Edge>,
}

/// A flowchart.
#[derive(Debug, Clone)]
pub struct Flowchart {
    pub direction: Direction,
    pub nodes: Vec<Node>,
    pub edges: Vec<Edge>,
    pub subgraphs: Vec<Subgraph>,
}

/// A state of a state diagram.
#[derive(Debug)]
pub enum State {
    Simple { id: String, description: Option<String> },
    Composite { id: String, inner: Box<StateDiagram> },
    Fork { id: String },
    Join { id: String },
    Start,
    End,
}

/// A transition of a state diagram; `[*]` stands for the start or end state.
#[derive(Debug, Clone)]
pub struct Transition {
    pub from: String,
    pub to: String,
    pub label: Option<String>,
}

/// A state diagram.
#[derive(Debug)]
pub struct StateDiagram {
    pub states: Vec<State>,
    pub transitions: Vec<Transition>,
}

/// A class of a class diagram.
#[derive(Debug, Clone)]
pub struct ClassDef {
    pub name: String,
}

/// A relation between two classes.
#[derive(Debug, Clone)]
pub struct ClassRelation {
    pub source: String,
    pub target: String,
}

/// A class diagram.
#[derive(Debug, Clone)]
pub struct ClassDiagram {
    pub classes: Vec<ClassDef>,
    pub relations: Vec<ClassRelation>,
}

/// How many entities take part at one end of an ER relationship.
#[derive(Debug, Clone, Copy, PartialEq, Eq, Structural)]
pub enum Cardinality {
    ExactlyOne,
    ZeroOrOne,
    OneOrMany,
    ZeroOrMany,
}

/// An entity of an ER diagram.
#[derive(Debug, Clone)]
pub struct ErEntity {
    pub name: String,
}

/// A relationship between two entities.
#[derive(Debug, Clone)]
pub struct ErRelationship {
    pub first_entity: String,
    pub second_entity: String,
    pub first_cardinality: Cardinality,
    pub second_cardinality: Cardinality,
    pub label: String,
}

/// An ER diagram.
#[derive(Debug, Clone)]
pub struct ErDiagram {
    pub entities: Vec<ErEntity>,
    pub relationships: Vec<ErRelationship>,
}

/// A participant of a sequence diagram.
#[derive(Debug, Clone)]
pub struct Participant {
    pub name: String,
}

/// A sequence diagram.
#[derive(Debug, Clone)]
pub struct SequenceDiagram {
    pub participants: Vec<Participant>,
}

/// A section of a timeline, with its events.
#[derive(Debug, Clone)]
pub struct TimelineSection {
    pub name: String,
    pub events: Vec<String>,
}

/// A timeline diagram.
#[derive(Debug, Clone)]
pub struct TimelineDiagram {
    pub title: Option<String>,
    pub sections: Vec<TimelineSection>,
}

/// A pie chart (its slices carry fractional values and are read by the
/// renderer only).
#[derive(Debug, Clone)]
pub struct PieDiagram {
    pub title: Option<String>,
}

/// One statement of a git graph.
#[derive(Debug, Clone)]
pub enum GitGraphStatement {
    Commit { id: Option<String>, tag: Option<String> },
    Branch { name: String },
    Checkout { branch: String },
    Merge { branch: String, id: Option<String>, tag: Option<String> },
    CherryPick { id: String },
}

/// A git graph.
#[derive(Debug, Clone)]
pub struct GitGraphDiagram {
    pub statements: Vec<GitGraphStatement>,
}

/// Any parsed diagram.
#[derive(Debug)]
pub enum Diagram {
    Flowchart(Flowchart),
    State(StateDiagram),
    Class(ClassDiagram),
    Er(ErDiagram),
    Sequence(SequenceDiagram),
    Timeline(TimelineDiagram),
    Pie(PieDiagram),
    GitGraph(GitGraphDiagram),
}

} // verus!
