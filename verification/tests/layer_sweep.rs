use std::collections::HashMap;

use liemermaid::builder::layout::layer_sweep::reduce_crossings;
use petgraph::graph::{DiGraph, NodeIndex};

fn graph(n: usize, edges: &[(usize, usize)]) -> DiGraph<String, ()> {
    let mut g = DiGraph::new();
    for i in 0..n {
        g.add_node(format!("n{i}"));
    }
    for &(a, b) in edges {
        g.add_edge(NodeIndex::new(a), NodeIndex::new(b), ());
    }
    g
}

fn layers(entries: &[(usize, &[usize])]) -> HashMap<usize, Vec<usize>> {
    entries.iter().map(|(l, v)| (*l, v.to_vec())).collect()
}

#[test]
fn crossing_pair_is_untangled() {
    let g = graph(4, &[(0, 3), (1, 2)]);
    let out = reduce_crossings(&g, &layers(&[(0, &[0, 1]), (1, &[2, 3])]), &vec![], 1);
    assert_eq!(out, layers(&[(0, &[0, 1]), (1, &[3, 2])]));
}

#[test]
fn feedback_arcs_do_not_pull() {
    let g = graph(4, &[(0, 3), (1, 2)]);
    let out = reduce_crossings(&g, &layers(&[(0, &[0, 1]), (1, &[2, 3])]), &vec![(1, 2)], 1);
    // Node 2 keeps its own position 0 and ties with node 3 (barycenter 0).
    assert_eq!(out, layers(&[(0, &[0, 1]), (1, &[2, 3])]));
}

#[test]
fn barycenters_compare_as_fractions() {
    let g = graph(5, &[(0, 4), (1, 3), (2, 3)]);
    let out = reduce_crossings(&g, &layers(&[(0, &[0, 1, 2]), (1, &[3, 4])]), &vec![], 1);
    // Node 3 sits at (1 + 2) / 2 = 1.5, node 4 at 0.
    assert_eq!(out[&1], vec![4, 3]);
}

#[test]
fn equal_barycenters_keep_their_order() {
    let g = graph(5, &[(0, 3), (2, 3), (1, 4)]);
    let out = reduce_crossings(&g, &layers(&[(0, &[0, 1, 2]), (1, &[3, 4])]), &vec![], 1);
    assert_eq!(out[&1], vec![3, 4]);
}

#[test]
fn missing_layer_stops_the_sweep() {
    let g = graph(2, &[(0, 1)]);
    let input = layers(&[(0, &[0]), (2, &[1])]);
    assert_eq!(reduce_crossings(&g, &input, &vec![], 2), input);
}

#[test]
fn no_rounds_leave_the_layers() {
    let g = graph(4, &[(0, 3), (1, 2)]);
    let input = layers(&[(0, &[0, 1]), (1, &[2, 3])]);
    assert_eq!(reduce_crossings(&g, &input, &vec![], 0), input);
}
