use std::collections::HashMap;

use liemermaid::builder::layout::convert::LayoutTopology;
use liemermaid::builder::layout::ir::{GroupChild, LEdge, LGroup, LineKind, PortHint, ShapeHint};
use liemermaid::builder::layout::route::edge_skip;
use liemermaid::builder::layout::solver::grouped::{collect_member_indices, collect_members, extract_subgraph};

fn group(title: Option<&str>, children: Vec<GroupChild>) -> LGroup {
    LGroup { title: title.map(|t| t.to_string()), children }
}

fn edge(s: usize, t: usize, kind: LineKind) -> LEdge {
    LEdge { source: s, target: t, source_port: PortHint::Top, target_port: PortHint::Auto, line_kind: kind }
}

fn sorted(mut v: Vec<usize>) -> Vec<usize> {
    v.sort();
    v
}

/// Group 0 holds node 0 and group 1; group 1 holds nodes 2 and 3; group 2
/// holds node 4.
fn nested_groups() -> Vec<LGroup> {
    vec![
        group(Some("outer"), vec![GroupChild::Node(0), GroupChild::Group(1)]),
        group(Some("inner"), vec![GroupChild::Node(3), GroupChild::Node(2)]),
        group(None, vec![GroupChild::Node(4)]),
    ]
}

#[test]
fn members_follow_nested_groups() {
    let groups = nested_groups();
    let mut out = Vec::new();
    collect_member_indices(&groups, 0, &mut out);
    assert_eq!(sorted(out), vec![0, 2, 3]);
    let mut out = vec![4];
    collect_member_indices(&groups, 1, &mut out);
    assert_eq!(sorted(out), vec![2, 3, 4]);
    let mut out = Vec::new();
    collect_member_indices(&groups, 7, &mut out);
    assert!(out.is_empty());
}

#[test]
fn members_listed_twice_are_collected_once() {
    let groups = vec![group(None, vec![GroupChild::Node(1), GroupChild::Node(1), GroupChild::Group(1)]),
        group(None, vec![GroupChild::Node(1), GroupChild::Group(5)])];
    let mut out = Vec::new();
    collect_member_indices(&groups, 0, &mut out);
    assert_eq!(out, vec![1]);
}

#[test]
fn first_group_wins_for_each_node() {
    let groups = nested_groups();
    let mut node_in_group: HashMap<usize, usize> = HashMap::new();
    for gi in 0..groups.len() {
        collect_members(&groups, gi, &mut node_in_group, gi);
    }
    let mut pairs: Vec<(usize, usize)> = node_in_group.into_iter().collect();
    pairs.sort();
    assert_eq!(pairs, vec![(0, 0), (2, 0), (3, 0), (4, 2)]);
}

#[test]
fn subgraph_of_a_group() {
    let topo = LayoutTopology {
        title: Some("t".to_string()),
        node_ids: ["a", "b", "c", "d", "e"].iter().map(|s| s.to_string()).collect(),
        shape_hints: vec![ShapeHint::Rect, ShapeHint::Circle, ShapeHint::Diamond, ShapeHint::Rounded, ShapeHint::Bar],
        groups: nested_groups(),
        edges: vec![
            edge(0, 3, LineKind::Dashed),
            edge(1, 2, LineKind::Solid),
            edge(3, 2, LineKind::Thick),
            edge(2, 4, LineKind::Solid),
        ],
        cross_group_edges: vec![edge(0, 2, LineKind::Solid)],
    };
    let (sub, members) = extract_subgraph(&topo, 0);
    assert_eq!(members, vec![0, 2, 3]);
    assert_eq!(sub.title, None);
    assert_eq!(sub.node_ids, vec!["a".to_string(), "c".to_string(), "d".to_string()]);
    assert_eq!(sub.shape_hints, vec![ShapeHint::Rect, ShapeHint::Diamond, ShapeHint::Rounded]);
    let ends: Vec<(usize, usize, LineKind)> = sub.edges.iter().map(|e| (e.source, e.target, e.line_kind)).collect();
    assert_eq!(ends, vec![(0, 2, LineKind::Dashed), (2, 1, LineKind::Thick)]);
    assert_eq!(sub.edges[0].source_port, PortHint::Top);
    assert_eq!(sub.groups.len(), 1);
    assert_eq!(sub.groups[0].title.as_deref(), Some("inner"));
    assert_eq!(sub.groups[0].children, vec![GroupChild::Node(1), GroupChild::Node(2)]);
    assert!(sub.cross_group_edges.is_empty());

    let (sub, members) = extract_subgraph(&topo, 2);
    assert_eq!(members, vec![4]);
    assert_eq!(sub.node_ids, vec!["e".to_string()]);
    assert!(sub.edges.is_empty());
    assert!(sub.groups.is_empty());

    let (sub, members) = extract_subgraph(&topo, 9);
    assert!(members.is_empty());
    assert!(sub.node_ids.is_empty());
}

#[test]
fn edges_pass_their_own_ends_and_containers() {
    let members = vec![
        ("g1".to_string(), vec!["a".to_string(), "b".to_string()]),
        ("g2".to_string(), vec!["c".to_string()]),
    ];
    let a = "a".to_string();
    let c = "c".to_string();
    let x = "x".to_string();
    assert!(edge_skip(&a, &c, &members, &a));
    assert!(edge_skip(&a, &c, &members, &c));
    assert!(edge_skip(&a, &c, &members, &"g1".to_string()));
    assert!(edge_skip(&a, &c, &members, &"g2".to_string()));
    assert!(!edge_skip(&a, &x, &members, &"g2".to_string()));
    assert!(!edge_skip(&a, &c, &members, &"b".to_string()));
    assert!(!edge_skip(&a, &c, &members, &"g3".to_string()));
}
