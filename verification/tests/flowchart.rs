use liemermaid::ast::{ArrowType, Direction, Edge, Flowchart, Node, NodeShape, Subgraph};
use liemermaid::builder::layout::convert::{flowchart_topology, group_of_node, line_kind_of, shape_hint_of};
use liemermaid::builder::layout::ir::{GroupChild, LGroup, LineKind, PortHint, ShapeHint};
use liemermaid::builder::layout::recognize::all_flowchart_nodes;

fn node(id: &str, shape: Option<NodeShape>, text: Option<&str>) -> Node {
    Node { id: id.to_string(), text: text.map(|t| t.to_string()), shape }
}

fn edge(s: &str, t: &str, arrow: ArrowType) -> Edge {
    Edge { source: s.to_string(), target: t.to_string(), arrow_type: arrow, label: None }
}

#[test]
fn subgraph_nodes_fill_in_shells() {
    let fc = Flowchart {
        direction: Direction::TD,
        nodes: vec![
            node("A", None, None),
            node("B", Some(NodeShape::Rounded), Some("b")),
            node("A", Some(NodeShape::Diamond), Some("t")),
        ],
        edges: vec![],
        subgraphs: vec![Subgraph {
            title: Some("S".to_string()),
            nodes: vec![node("A", Some(NodeShape::Circle), Some("alpha")), node("C", None, Some("c"))],
            edges: vec![],
        }],
    };
    let out = all_flowchart_nodes(&fc);
    let ids: Vec<&str> = out.iter().map(|n| n.id.as_str()).collect();
    assert_eq!(ids, vec!["A", "B", "C"]);
    // The top-level shell is filled by the later top-level "A"; the
    // subgraph's "A" then finds nothing left to fill.
    assert_eq!(out[0].shape, Some(NodeShape::Diamond));
    assert_eq!(out[0].text.as_deref(), Some("t"));
    assert_eq!(out[1].shape, Some(NodeShape::Rounded));
    assert_eq!(out[1].text.as_deref(), Some("b"));
    assert_eq!(out[2].shape, None);
    assert_eq!(out[2].text.as_deref(), Some("c"));
}

#[test]
fn repeated_top_level_shell_takes_later_content() {
    let fc = Flowchart {
        direction: Direction::TD,
        nodes: vec![node("A", None, None), node("A", Some(NodeShape::Diamond), Some("t"))],
        edges: vec![],
        subgraphs: vec![],
    };
    let out = all_flowchart_nodes(&fc);
    assert_eq!(out.len(), 1);
    assert_eq!(out[0].shape, Some(NodeShape::Diamond));
    assert_eq!(out[0].text.as_deref(), Some("t"));
}

#[test]
fn filled_fields_are_not_overwritten() {
    let fc = Flowchart {
        direction: Direction::TD,
        nodes: vec![node("A", Some(NodeShape::Hexagon), None)],
        edges: vec![],
        subgraphs: vec![Subgraph {
            title: None,
            nodes: vec![node("A", Some(NodeShape::Circle), Some("t"))],
            edges: vec![],
        }],
    };
    let out = all_flowchart_nodes(&fc);
    assert_eq!(out.len(), 1);
    assert_eq!(out[0].shape, Some(NodeShape::Hexagon));
    assert_eq!(out[0].text.as_deref(), Some("t"));
}

#[test]
fn shape_and_line_categories() {
    assert_eq!(shape_hint_of(&None), ShapeHint::Rect);
    assert_eq!(shape_hint_of(&Some(NodeShape::Diamond)), ShapeHint::Diamond);
    assert_eq!(shape_hint_of(&Some(NodeShape::DoubleCircle)), ShapeHint::Circle);
    assert_eq!(shape_hint_of(&Some(NodeShape::Cylinder)), ShapeHint::Rounded);
    assert_eq!(line_kind_of(&ArrowType::Dotted), LineKind::Dashed);
    assert_eq!(line_kind_of(&ArrowType::MultiCross), LineKind::Bidirectional);
    assert_eq!(line_kind_of(&ArrowType::Invisible), LineKind::Invisible);
    assert_eq!(line_kind_of(&ArrowType::Labeled("x".to_string())), LineKind::Solid);
    assert_eq!(line_kind_of(&ArrowType::Thick), LineKind::Solid);
}

#[test]
fn group_of_node_finds_first_group() {
    let groups = vec![
        LGroup { title: None, children: vec![GroupChild::Node(1), GroupChild::Group(0)] },
        LGroup { title: None, children: vec![GroupChild::Node(2), GroupChild::Node(1)] },
    ];
    assert_eq!(group_of_node(&groups, 1), Some(0));
    assert_eq!(group_of_node(&groups, 2), Some(1));
    assert_eq!(group_of_node(&groups, 0), None);
}

#[test]
fn topology_splits_cross_group_edges() {
    let fc = Flowchart {
        direction: Direction::LR,
        nodes: vec![node("A", None, None), node("B", Some(NodeShape::Diamond), None), node("C", None, None)],
        edges: vec![edge("A", "B", ArrowType::Dotted), edge("A", "Z", ArrowType::Solid)],
        subgraphs: vec![Subgraph {
            title: Some("S1".to_string()),
            nodes: vec![node("B", None, None), node("C", None, None), node("Q", None, None)],
            edges: vec![edge("B", "C", ArrowType::Both)],
        }],
    };
    let t = flowchart_topology(&fc);
    assert_eq!(t.node_ids, vec!["A".to_string(), "B".to_string(), "C".to_string(), "Q".to_string()]);
    assert_eq!(t.shape_hints, vec![ShapeHint::Rect, ShapeHint::Diamond, ShapeHint::Rect, ShapeHint::Rect]);
    assert_eq!(t.groups.len(), 1);
    assert_eq!(t.groups[0].title.as_deref(), Some("S1"));
    assert_eq!(t.groups[0].children, vec![GroupChild::Node(1), GroupChild::Node(2), GroupChild::Node(3)]);
    assert_eq!(t.cross_group_edges.len(), 1);
    assert_eq!(t.cross_group_edges[0].source, 0);
    assert_eq!(t.cross_group_edges[0].target, 1);
    assert_eq!(t.cross_group_edges[0].line_kind, LineKind::Dashed);
    assert_eq!(t.cross_group_edges[0].source_port, PortHint::Auto);
    assert_eq!(t.edges.len(), 1);
    assert_eq!(t.edges[0].source, 1);
    assert_eq!(t.edges[0].target, 2);
    assert_eq!(t.edges[0].line_kind, LineKind::Bidirectional);
}
