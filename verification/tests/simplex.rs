use liemermaid::builder::layout::longest_path::detect_feedback_arcs;
use liemermaid::builder::layout::simplex::{assign_layers_network_simplex, compute_cut_values};
use petgraph::graph::{DiGraph, NodeIndex};

fn graph(ids: &[&str], edges: &[(usize, usize)]) -> DiGraph<String, ()> {
    let mut g = DiGraph::new();
    for id in ids {
        g.add_node(id.to_string());
    }
    for &(a, b) in edges {
        g.add_edge(NodeIndex::new(a), NodeIndex::new(b), ());
    }
    g
}

#[test]
fn simplex_ranks_of_an_acyclic_graph_are_longest_paths() {
    let g = graph(&["a", "b", "c", "d", "e"], &[(0, 1), (0, 2), (1, 3), (2, 3), (0, 4), (3, 4)]);
    assert_eq!(assign_layers_network_simplex(&g, &vec![]), vec![0, 1, 1, 2, 3]);
}

#[test]
fn simplex_reverses_feedback_arcs() {
    // The cycle a -> b -> c -> a is broken by reversing c -> a.
    let g = graph(&["a", "b", "c"], &[(0, 1), (1, 2), (2, 0)]);
    let fas = detect_feedback_arcs(&g);
    assert_eq!(fas, vec![(2, 0)]);
    assert_eq!(assign_layers_network_simplex(&g, &fas), vec![0, 1, 2]);
}

#[test]
fn simplex_keeps_cycle_nodes_on_separate_layers() {
    // B <-> C: the reversed arc repeats B -> C; C and D share a layer.
    let g = graph(&["A", "B", "C", "D"], &[(0, 1), (1, 2), (2, 1), (1, 3)]);
    let fas = detect_feedback_arcs(&g);
    assert_eq!(assign_layers_network_simplex(&g, &fas), vec![0, 1, 2, 2]);
}

#[test]
fn simplex_ignores_self_loops() {
    let g = graph(&["a", "b"], &[(0, 0), (0, 1)]);
    let fas = detect_feedback_arcs(&g);
    assert_eq!(fas, vec![(0, 0)]);
    assert_eq!(assign_layers_network_simplex(&g, &fas), vec![0, 1]);
}

#[test]
fn empty_graph_has_no_ranks() {
    let g = graph(&[], &[]);
    assert!(assign_layers_network_simplex(&g, &vec![]).is_empty());
}

#[test]
fn cut_values_of_a_small_tree() {
    // Tree 0 -> 1 -> 2 (ranks 0, 1, 2); the edge 0 -> 2 stays outside.
    let edges = vec![(0usize, 1usize), (1, 2), (0, 2)];
    let rank = vec![0usize, 1, 2];
    let parent = vec![None, Some(0usize), Some(1)];
    let in_tree = vec![true, true, false];
    let mut cut = vec![0i64; 3];
    compute_cut_values(&edges, &rank, &parent, &mut cut, &in_tree, 3);
    // cut(0) = 0 at the root, cut(2) = -1 below a parent: 1 - (0 - (-1)) = 0.
    assert_eq!(cut, vec![0, 0, 0]);
}

#[test]
fn cut_value_between_two_trees() {
    // Two trees rooted at 0 and 2; the edge 2 -> 1 joins them.
    let edges = vec![(0usize, 1usize), (2, 1)];
    let rank = vec![0usize, 1, 0];
    let parent = vec![None, Some(0usize), None];
    let in_tree = vec![true, false];
    let mut cut = vec![0i64; 2];
    compute_cut_values(&edges, &rank, &parent, &mut cut, &in_tree, 3);
    // a = 2 (root, cut 0), b = 1 (cut -1): 1 - (0 - (-1)) = 0.
    assert_eq!(cut, vec![0, 0]);
}

#[test]
fn cut_value_from_a_child_to_a_root() {
    let edges = vec![(0usize, 1usize), (1, 2)];
    let rank = vec![0usize, 1, 1];
    let parent = vec![None, Some(0usize), None];
    let in_tree = vec![true, false];
    let mut cut = vec![0i64; 2];
    compute_cut_values(&edges, &rank, &parent, &mut cut, &in_tree, 3);
    // Equal ranks: a = 1 (cut -1), b = 2 (root, cut 0): 1 - (-1 - 0) = 2.
    assert_eq!(cut, vec![0, 2]);
}

#[test]
fn simplex_ranks_point_every_edge_one_way() {
    let edges = [(0usize, 1usize), (1, 2), (2, 0), (2, 3), (3, 1), (3, 3), (0, 4), (4, 3)];
    let g = graph(&["a", "b", "c", "d", "e"], &edges);
    let fas = detect_feedback_arcs(&g);
    let ranks = assign_layers_network_simplex(&g, &fas);
    for &(u, v) in &edges {
        if u == v {
            continue;
        }
        if fas.contains(&(u, v)) {
            assert!(ranks[v] < ranks[u]);
        } else {
            assert!(ranks[u] < ranks[v]);
        }
    }
}
