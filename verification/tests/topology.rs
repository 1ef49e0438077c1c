use liemermaid::ast::{
    Cardinality, ClassDef, ClassDiagram, Diagram, Direction, ErDiagram, ErEntity, ErRelationship, Flowchart,
    GitGraphDiagram, Node, Participant, PieDiagram, SequenceDiagram, State, StateDiagram, TimelineDiagram,
    TimelineSection, Transition,
};
use liemermaid::builder::layout::convert::{
    class_topology, diagram_topology, er_topology, sequence_topology, state_topology, timeline_topology,
    LayoutTopology,
};
use liemermaid::builder::layout::ir::{LEdge, LineKind, PortHint, ShapeHint};
use liemermaid::builder::layout::state_nodes::collect_state_nodes;

fn s(x: &str) -> String {
    x.to_string()
}

fn strings(xs: &[&str]) -> Vec<String> {
    xs.iter().map(|x| x.to_string()).collect()
}

fn ends(t: &LayoutTopology) -> Vec<(usize, usize)> {
    t.edges.iter().map(|e| (e.source, e.target)).collect()
}

fn transition(from: &str, to: &str) -> Transition {
    Transition { from: s(from), to: s(to), label: None }
}

#[test]
fn state_topology_maps_star_to_start_and_end() {
    let sd = StateDiagram {
        states: vec![],
        transitions: vec![transition("[*]", "Idle"), transition("Idle", "Busy"), transition("Busy", "[*]")],
    };
    let t = state_topology(&sd);
    assert_eq!(t.title, None);
    assert_eq!(t.node_ids, strings(&["__start__", "Idle", "Busy", "__end__"]));
    assert_eq!(
        t.shape_hints,
        vec![ShapeHint::Circle, ShapeHint::Rect, ShapeHint::Rect, ShapeHint::Circle]
    );
    assert_eq!(ends(&t), vec![(0, 1), (1, 2), (2, 3)]);
    for e in &t.edges {
        assert_eq!(e.line_kind, LineKind::Solid);
        assert_eq!(e.source_port, PortHint::Auto);
        assert_eq!(e.target_port, PortHint::Auto);
    }
    assert!(t.groups.is_empty());
    assert!(t.cross_group_edges.is_empty());
}

#[test]
fn state_topology_declared_states_first_each_id_once() {
    let sd = StateDiagram {
        states: vec![
            State::Fork { id: s("F") },
            State::Simple { id: s("A"), description: Some(s("a")) },
            State::End,
            State::Simple { id: s("A"), description: None },
        ],
        transitions: vec![transition("A", "B"), transition("B", "A"), transition("F", "[*]")],
    };
    let t = state_topology(&sd);
    assert_eq!(t.node_ids, strings(&["F", "A", "__end__", "B"]));
    assert_eq!(
        t.shape_hints,
        vec![ShapeHint::Rect, ShapeHint::Rect, ShapeHint::Circle, ShapeHint::Rect]
    );
    assert_eq!(ends(&t), vec![(1, 3), (3, 1), (0, 2)]);
}

#[test]
fn state_topology_named_end_state_as_source_is_a_rectangle() {
    // "__end__" first met as a source is not the end circle.
    let sd = StateDiagram { states: vec![], transitions: vec![transition("__end__", "[*]")] };
    let t = state_topology(&sd);
    assert_eq!(t.node_ids, strings(&["__end__"]));
    assert_eq!(t.shape_hints, vec![ShapeHint::Rect]);
    assert_eq!(ends(&t), vec![(0, 0)]);
}

#[test]
fn class_topology_skips_relations_to_unknown_classes() {
    let cd = ClassDiagram {
        classes: vec![ClassDef { name: s("A") }, ClassDef { name: s("B") }, ClassDef { name: s("C") }],
        relations: vec![
            liemermaid::ast::ClassRelation { source: s("A"), target: s("B") },
            liemermaid::ast::ClassRelation { source: s("A"), target: s("Z") },
            liemermaid::ast::ClassRelation { source: s("C"), target: s("A") },
        ],
    };
    let t = class_topology(&cd);
    assert_eq!(t.node_ids, strings(&["A", "B", "C"]));
    assert_eq!(t.shape_hints, vec![ShapeHint::Rect; 3]);
    assert_eq!(ends(&t), vec![(0, 1), (2, 0)]);
}

#[test]
fn class_topology_repeated_name_stands_for_its_last_class() {
    let cd = ClassDiagram {
        classes: vec![ClassDef { name: s("A") }, ClassDef { name: s("B") }, ClassDef { name: s("A") }],
        relations: vec![liemermaid::ast::ClassRelation { source: s("B"), target: s("A") }],
    };
    let t = class_topology(&cd);
    assert_eq!(t.node_ids, strings(&["A", "B", "A"]));
    assert_eq!(ends(&t), vec![(1, 2)]);
}

#[test]
fn er_topology_one_rectangle_per_entity() {
    let er = ErDiagram {
        entities: vec![ErEntity { name: s("CUSTOMER") }, ErEntity { name: s("ORDER") }],
        relationships: vec![
            ErRelationship {
                first_entity: s("CUSTOMER"),
                second_entity: s("ORDER"),
                first_cardinality: Cardinality::ExactlyOne,
                second_cardinality: Cardinality::ZeroOrMany,
                label: s("places"),
            },
            ErRelationship {
                first_entity: s("ORDER"),
                second_entity: s("ITEM"),
                first_cardinality: Cardinality::ExactlyOne,
                second_cardinality: Cardinality::OneOrMany,
                label: s("contains"),
            },
        ],
    };
    let t = er_topology(&er);
    assert_eq!(t.node_ids, strings(&["CUSTOMER", "ORDER"]));
    assert_eq!(ends(&t), vec![(0, 1)]);
}

#[test]
fn sequence_and_timeline_topologies_have_no_edges() {
    let sd = SequenceDiagram { participants: vec![Participant { name: s("Alice") }, Participant { name: s("Bob") }] };
    let t = sequence_topology(&sd);
    assert_eq!(t.node_ids, strings(&["Alice", "Bob"]));
    assert_eq!(t.shape_hints, vec![ShapeHint::Rect, ShapeHint::Rect]);
    assert!(t.edges.is_empty());

    let td = TimelineDiagram {
        title: Some(s("History")),
        sections: vec![
            TimelineSection { name: s("Early"), events: strings(&["a", "b"]) },
            TimelineSection { name: s("Empty"), events: vec![] },
            TimelineSection { name: s("Late"), events: strings(&["c"]) },
        ],
    };
    let t = timeline_topology(&td);
    assert_eq!(t.title, None);
    assert_eq!(t.node_ids, strings(&["a", "b", "c"]));
    assert!(t.edges.is_empty());
}

#[test]
fn diagram_topology_dispatches_by_kind() {
    let pie = diagram_topology(&Diagram::Pie(PieDiagram { title: Some(s("Pets")) }));
    assert_eq!(pie.title, Some(s("Pets")));
    assert!(pie.node_ids.is_empty());
    let git = diagram_topology(&Diagram::GitGraph(GitGraphDiagram { statements: vec![] }));
    assert_eq!(git.title, None);
    assert!(git.node_ids.is_empty());
    let fc = Flowchart {
        direction: Direction::TD,
        nodes: vec![Node { id: s("X"), text: None, shape: None }],
        edges: vec![],
        subgraphs: vec![],
    };
    let t = diagram_topology(&Diagram::Flowchart(fc));
    assert_eq!(t.node_ids, strings(&["X"]));
    assert_eq!(t.title, None);
    let st = diagram_topology(&Diagram::State(StateDiagram { states: vec![State::Start], transitions: vec![] }));
    assert_eq!(st.node_ids, strings(&["__start__"]));
    assert_eq!(st.shape_hints, vec![ShapeHint::Circle]);
    let e: Vec<LEdge> = st.edges;
    assert!(e.is_empty());
}

#[test]
fn state_nodes_carry_labels_and_bars() {
    let sd = StateDiagram {
        states: vec![
            State::Simple { id: s("A"), description: Some(s("first")) },
            State::Fork { id: s("F") },
            State::Composite { id: s("A"), inner: Box::new(StateDiagram { states: vec![], transitions: vec![] }) },
            State::Simple { id: s("A"), description: Some(s("second")) },
            State::Start,
        ],
        transitions: vec![transition("[*]", "A"), transition("A", "B"), transition("B", "[*]"), transition("__start__", "F")],
    };
    let nodes = collect_state_nodes(&sd);
    let ids: Vec<String> = nodes.iter().map(|n| n.id.clone()).collect();
    assert_eq!(ids, strings(&["A", "F", "__start__", "B", "__end__"]));
    assert_eq!(nodes[0].label.as_deref(), Some("second"));
    assert_eq!(nodes[0].shape, ShapeHint::Rect);
    assert_eq!(nodes[1].shape, ShapeHint::Bar);
    assert_eq!(nodes[1].label, None);
    assert_eq!(nodes[2].shape, ShapeHint::Circle);
    assert_eq!(nodes[3].shape, ShapeHint::Rect);
    assert_eq!(nodes[3].label, None);
    assert_eq!(nodes[4].shape, ShapeHint::Circle);
    // The layout numbers the same nodes in the same order.
    assert_eq!(state_topology(&sd).node_ids, ids);
}

#[test]
fn state_nodes_of_transitions_only() {
    let sd = StateDiagram { states: vec![], transitions: vec![transition("X", "[*]"), transition("[*]", "X")] };
    let nodes = collect_state_nodes(&sd);
    let ids: Vec<String> = nodes.iter().map(|n| n.id.clone()).collect();
    assert_eq!(ids, strings(&["X", "__end__", "__start__"]));
    assert_eq!(state_topology(&sd).node_ids, ids);
}
