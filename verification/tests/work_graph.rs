use liemermaid::builder::layout::work_graph::build_work_graph;
use petgraph::graph::{DiGraph, NodeIndex};

fn string_graph(ids: &[&str], edges: &[(usize, usize)]) -> DiGraph<String, ()> {
    let mut g = DiGraph::new();
    for id in ids {
        g.add_node(id.to_string());
    }
    for &(a, b) in edges {
        g.add_edge(NodeIndex::new(a), NodeIndex::new(b), ());
    }
    g
}

fn edge_list(g: &DiGraph<String, ()>) -> Vec<(usize, usize)> {
    g.edge_indices()
        .map(|e| {
            let (s, t) = g.edge_endpoints(e).unwrap();
            (s.index(), t.index())
        })
        .collect()
}

#[test]
fn long_edges_become_dummy_chains() {
    let g = string_graph(&["a", "b", "c", "d"], &[(0, 1), (0, 3), (2, 0)]);
    let (work, real_to_work, chains) = build_work_graph(&g, &vec![0, 1, 0, 3]);
    let ids: Vec<String> = (0..work.node_count()).map(|i| work[NodeIndex::new(i)].clone()).collect();
    assert_eq!(ids, vec!["a", "b", "c", "d", "__dummy__", "__dummy__"]);
    assert_eq!(edge_list(&work), vec![(0, 1), (0, 4), (4, 5), (5, 3), (2, 0)]);
    assert_eq!(real_to_work, vec![0, 1, 2, 3]);
    assert_eq!(chains, vec![((0, 3), vec![4, 5])]);
}

#[test]
fn short_and_upward_edges_stay() {
    let g = string_graph(&["x", "y"], &[(0, 1), (1, 0), (1, 1)]);
    let (work, _, chains) = build_work_graph(&g, &vec![5, 6]);
    assert_eq!(work.node_count(), 2);
    assert_eq!(edge_list(&work), vec![(0, 1), (1, 0), (1, 1)]);
    assert!(chains.is_empty());
}
