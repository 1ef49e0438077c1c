use std::collections::HashMap;

use liemermaid::builder::layout::layered::layered_order;
use petgraph::graph::{DiGraph, NodeIndex};

fn graph(ids: &[&str], edges: &[(usize, usize)]) -> DiGraph<String, ()> {
    let mut g = DiGraph::new();
    for id in ids {
        g.add_node(id.to_string());
    }
    for &(a, b) in edges {
        g.add_edge(NodeIndex::new(a), NodeIndex::new(b), ());
    }
    g
}

#[test]
fn cycle_is_ranked_and_ordered() {
    let g = graph(&["A", "B", "C", "D"], &[(0, 1), (1, 2), (2, 1), (1, 3)]);
    let (fas, ranks, ordered) = layered_order(&g, 2);
    assert_eq!(fas, vec![(2, 1)]);
    assert_eq!(ranks, vec![0, 1, 2, 2]);
    let expected: HashMap<usize, Vec<usize>> = [(0, vec![0]), (1, vec![1]), (2, vec![2, 3])].into_iter().collect();
    assert_eq!(ordered, expected);
}

#[test]
fn one_layer_is_ordered_by_id() {
    let g = graph(&["z", "a", "m"], &[]);
    let (fas, ranks, ordered) = layered_order(&g, 3);
    assert!(fas.is_empty());
    assert_eq!(ranks, vec![0, 0, 0]);
    assert_eq!(ordered[&0], vec![1, 2, 0]);
}

#[test]
fn crossing_reduction_follows_the_ranks() {
    // Layer 1 starts as [c, d] by id; d hangs below a (position 0), c below b.
    let g = graph(&["a", "b", "c", "d"], &[(0, 3), (1, 2)]);
    let (_, ranks, ordered) = layered_order(&g, 1);
    assert_eq!(ranks, vec![0, 0, 1, 1]);
    assert_eq!(ordered[&0], vec![0, 1]);
    assert_eq!(ordered[&1], vec![3, 2]);
}
