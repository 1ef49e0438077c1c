use liemermaid::ast::{
    Cardinality, ClassDiagram, Diagram, ErDiagram, Flowchart, Direction, GitGraphDiagram, NodeShape, PieDiagram,
    SequenceDiagram, StateDiagram, TimelineDiagram,
};
use liemermaid::builder::ir::common::{ArrowKind, ArrowSpec};
use liemermaid::builder::ir::shape::EdgeEnds;
use liemermaid::builder::ir::unigraph::EdgeKind;
use liemermaid::builder::layout::ir::ShapeHint;
use liemermaid::builder::layout::solver::{solver_for, SolverKind};
use liemermaid::builder::materialize::{edge_ends, map_ends, split_block_label};
use liemermaid::builder::render::directed::state_node_shape;
use liemermaid::builder::render::er::format_cardinality;

#[test]
fn solver_per_diagram_kind() {
    let fc = Diagram::Flowchart(Flowchart { direction: Direction::TD, nodes: vec![], edges: vec![], subgraphs: vec![] });
    assert_eq!(solver_for(&fc), SolverKind::Directed);
    let st = Diagram::State(StateDiagram { states: vec![], transitions: vec![] });
    assert_eq!(solver_for(&st), SolverKind::Directed);
    let cl = Diagram::Class(ClassDiagram { classes: vec![], relations: vec![] });
    assert_eq!(solver_for(&cl), SolverKind::Grid);
    let er = Diagram::Er(ErDiagram { entities: vec![], relationships: vec![] });
    assert_eq!(solver_for(&er), SolverKind::Grid);
    let sq = Diagram::Sequence(SequenceDiagram { participants: vec![] });
    assert_eq!(solver_for(&sq), SolverKind::Linear);
    let tl = Diagram::Timeline(TimelineDiagram { title: None, sections: vec![] });
    assert_eq!(solver_for(&tl), SolverKind::Linear);
    let pie = Diagram::Pie(PieDiagram { title: Some("p".to_string()) });
    assert_eq!(solver_for(&pie), SolverKind::Simple);
    let gg = Diagram::GitGraph(GitGraphDiagram { statements: vec![] });
    assert_eq!(solver_for(&gg), SolverKind::Simple);
}

#[test]
fn cardinality_texts() {
    assert_eq!(format_cardinality(&Cardinality::ExactlyOne), "1");
    assert_eq!(format_cardinality(&Cardinality::ZeroOrOne), "0..1");
    assert_eq!(format_cardinality(&Cardinality::OneOrMany), "1..N");
    assert_eq!(format_cardinality(&Cardinality::ZeroOrMany), "0..N");
}

#[test]
fn state_shapes() {
    assert_eq!(state_node_shape(ShapeHint::Rect), Some(NodeShape::Rounded));
    assert_eq!(state_node_shape(ShapeHint::Rounded), Some(NodeShape::Rounded));
    assert_eq!(state_node_shape(ShapeHint::Circle), Some(NodeShape::Circle));
    assert_eq!(state_node_shape(ShapeHint::Diamond), Some(NodeShape::Diamond));
    assert_eq!(state_node_shape(ShapeHint::Bar), None);
}

#[test]
fn edge_decorations() {
    assert_eq!(map_ends(ArrowKind::Arrow), EdgeEnds::Arrow);
    assert_eq!(map_ends(ArrowKind::Circle), EdgeEnds::Circle);
    assert_eq!(map_ends(ArrowKind::Cross), EdgeEnds::Cross);
    assert_eq!(map_ends(ArrowKind::NoMark), EdgeEnds::NoMark);
    let spec = ArrowSpec { start: ArrowKind::Circle, end: ArrowKind::Arrow };
    assert_eq!(edge_ends(EdgeKind::Flow, spec), (EdgeEnds::Circle, EdgeEnds::Arrow));
    assert_eq!(edge_ends(EdgeKind::ClassExtends, spec), (EdgeEnds::Triangle, EdgeEnds::NoMark));
    assert_eq!(edge_ends(EdgeKind::ClassComposition, spec), (EdgeEnds::DiamondFilled, EdgeEnds::NoMark));
    assert_eq!(edge_ends(EdgeKind::ClassAggregation, spec), (EdgeEnds::DiamondHollow, EdgeEnds::NoMark));
    assert_eq!(edge_ends(EdgeKind::ClassAssociation, spec), (EdgeEnds::NoMark, EdgeEnds::TriangleFilled));
    assert_eq!(edge_ends(EdgeKind::ClassDependency, spec), (EdgeEnds::NoMark, EdgeEnds::TriangleFilled));
    assert_eq!(edge_ends(EdgeKind::ClassLink, spec), (EdgeEnds::Circle, EdgeEnds::Arrow));
}

#[test]
fn block_labels_split_at_bracket() {
    assert_eq!(split_block_label("loop [Each item]"), ("loop".to_string(), Some("[Each item]".to_string())));
    assert_eq!(split_block_label("alt"), ("alt".to_string(), None));
    assert_eq!(split_block_label("a [b [c]"), ("a".to_string(), Some("[b [c]".to_string())));
    assert_eq!(split_block_label("[x]"), ("[x]".to_string(), None));
    assert_eq!(split_block_label("循环 [每项]"), ("循环".to_string(), Some("[每项]".to_string())));
    assert_eq!(split_block_label(""), ("".to_string(), None));
}
