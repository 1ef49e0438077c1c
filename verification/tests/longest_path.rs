use liemermaid::builder::layout::longest_path::{
    assign_layers_legacy, assign_layers_longest_path, detect_feedback_arcs,
};
use petgraph::graph::{DiGraph, NodeIndex};

fn graph(ids: &[&str], edges: &[(usize, usize)]) -> DiGraph<String, ()> {
    let mut g = DiGraph::new();
    for id in ids {
        g.add_node(id.to_string());
    }
    for &(a, b) in edges {
        g.add_edge(NodeIndex::new(a), NodeIndex::new(b), ());
    }
    g
}

#[test]
fn feedback_arcs_follow_ascending_successors() {
    // From 0 the search goes to 1 before 2, so the arc that closes the
    // cycle 1 -> 2 -> 1 is 2 -> 1, not 1 -> 2.
    let g = graph(&["a", "b", "c"], &[(0, 2), (0, 1), (2, 1), (1, 2)]);
    assert_eq!(detect_feedback_arcs(&g), vec![(2, 1)]);
}

#[test]
fn acyclic_graph_has_no_feedback_arcs() {
    let g = graph(&["a", "b", "c", "d"], &[(0, 1), (0, 2), (1, 3), (2, 3)]);
    assert!(detect_feedback_arcs(&g).is_empty());
}

#[test]
fn self_loop_is_a_feedback_arc() {
    let g = graph(&["a", "b"], &[(0, 1), (1, 1)]);
    assert_eq!(detect_feedback_arcs(&g), vec![(1, 1)]);
}

#[test]
fn legacy_layers_are_longest_paths() {
    let g = graph(&["a", "b", "c", "d", "e"], &[(0, 1), (0, 2), (1, 3), (2, 3), (0, 4), (3, 4)]);
    assert_eq!(assign_layers_legacy(&g, &vec![]), vec![0, 1, 1, 2, 3]);
}

#[test]
fn legacy_deepens_the_exit_beside_a_feedback_source() {
    // A -> B -> C with feedback C -> B, and A -> B -> D: C keeps its layer,
    // D goes one layer further down.
    let g = graph(&["A", "B", "C", "D"], &[(0, 1), (1, 2), (2, 1), (1, 3)]);
    let fas = detect_feedback_arcs(&g);
    assert_eq!(fas, vec![(2, 1)]);
    assert_eq!(assign_layers_legacy(&g, &fas), vec![0, 1, 2, 3]);
}

#[test]
fn legacy_deepening_carries_what_is_reached() {
    // Layer 2 holds the feedback source C and the node D; D and E, which D
    // reaches, go one layer down.
    let g = graph(&["A", "B", "C", "D", "E"], &[(0, 1), (1, 2), (2, 1), (1, 3), (3, 4)]);
    let fas = detect_feedback_arcs(&g);
    assert_eq!(fas, vec![(2, 1)]);
    let layers = assign_layers_legacy(&g, &fas);
    assert_eq!(layers, vec![0, 1, 2, 3, 4]);
    for &(a, b) in &[(0usize, 1usize), (1, 2), (1, 3), (3, 4)] {
        assert!(layers[a] < layers[b]);
    }
}

#[test]
fn components_share_a_layer() {
    let g = graph(&["a", "b", "c", "d"], &[(0, 1), (1, 2), (2, 1), (2, 3)]);
    let fas = detect_feedback_arcs(&g);
    assert_eq!(fas, vec![(2, 1)]);
    let sccs = vec![vec![3], vec![2, 1], vec![0]];
    assert_eq!(assign_layers_longest_path(&g, &fas, &sccs), vec![0, 1, 1, 2]);
}

#[test]
fn one_component_falls_back_to_legacy_layers() {
    let g = graph(&["A", "B", "C", "D"], &[(0, 1), (1, 2), (2, 1), (1, 3)]);
    let fas = detect_feedback_arcs(&g);
    let sccs = vec![vec![0, 1, 2, 3]];
    assert_eq!(assign_layers_longest_path(&g, &fas, &sccs), vec![0, 1, 2, 3]);
}

#[test]
fn legacy_fills_in_a_cycle_left_unbroken() {
    // Without feedback arcs, Kahn's algorithm takes only 0; 1 gets its layer
    // from 0, and 2 is filled in after its predecessor 1.
    let g = graph(&["a", "b", "c"], &[(0, 1), (1, 2), (2, 1)]);
    assert_eq!(assign_layers_legacy(&g, &vec![]), vec![0, 1, 2]);
}

#[test]
fn legacy_fills_in_behind_a_cycle_in_index_order() {
    let g = graph(&["a", "b", "c", "d"], &[(0, 1), (1, 2), (2, 1), (2, 3)]);
    assert_eq!(assign_layers_legacy(&g, &vec![]), vec![0, 1, 2, 3]);
}

#[test]
fn legacy_fill_counts_feedback_predecessors() {
    // 1 -> 2 is a feedback arc; 2 and 3 form a cycle that Kahn's algorithm
    // never enters, so 2 is filled in from its predecessor 1 over the arc.
    let g = graph(&["a", "b", "c", "d"], &[(0, 1), (1, 2), (2, 3), (3, 2)]);
    assert_eq!(assign_layers_legacy(&g, &vec![(1, 2)]), vec![0, 1, 2, 3]);
}

#[test]
fn legacy_starts_from_the_first_node_when_none_is_free() {
    // Every node has an incoming edge, so the search starts from 0 alone.
    // It takes 1, whose edge back into 0 raises 0 to layer 2; the edge from
    // 3 keeps 0 from being taken again. 2 and 3 are then filled in.
    let g = graph(&["a", "b", "c", "d"], &[(0, 1), (1, 0), (2, 3), (3, 2), (3, 0)]);
    assert_eq!(assign_layers_legacy(&g, &vec![]), vec![2, 1, 1, 2]);
    assert_eq!(assign_layers_longest_path(&g, &vec![], &vec![]), vec![2, 1, 1, 2]);
}
