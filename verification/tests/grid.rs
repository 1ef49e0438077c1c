use liemermaid::ast::Direction;
use liemermaid::builder::ir::unigraph::{GraphFamily, UGEdge, UGNode, Unigraph};
use liemermaid::builder::layout::engine::grid_layers;

fn graph(ids: &[&str], edges: &[(&str, &str)]) -> Unigraph {
    Unigraph {
        nodes: ids.iter().map(|id| UGNode { id: id.to_string() }).collect(),
        edges: edges.iter().map(|(s, t)| UGEdge { source: s.to_string(), target: t.to_string() }).collect(),
        direction: Direction::TB,
        family: GraphFamily::Grid,
    }
}

fn strings(ids: &[&str]) -> Vec<String> {
    ids.iter().map(|s| s.to_string()).collect()
}

#[test]
fn roots_start_the_layers() {
    let ug = graph(&["A", "B", "C", "D"], &[("A", "B"), ("B", "C"), ("D", "C")]);
    let layers = grid_layers(&ug);
    assert_eq!(layers, vec![strings(&["A", "D"]), strings(&["B", "C"])]);
}

#[test]
fn all_cyclic_is_one_layer() {
    let ug = graph(&["A", "B", "C"], &[("A", "B"), ("B", "C"), ("C", "A")]);
    assert_eq!(grid_layers(&ug), vec![strings(&["A", "B", "C"])]);
}

#[test]
fn unreached_cycle_starts_from_its_first_node() {
    let ug = graph(&["A", "B", "C", "D"], &[("A", "B"), ("C", "D"), ("D", "C")]);
    assert_eq!(
        grid_layers(&ug),
        vec![strings(&["A"]), strings(&["B"]), strings(&["C"]), strings(&["D"])]
    );
}

#[test]
fn empty_layer_is_kept() {
    let ug = graph(&["A", "B", "C", "X", "Y"], &[("A", "B"), ("A", "C"), ("B", "C"), ("X", "Y"), ("Y", "X")]);
    assert_eq!(
        grid_layers(&ug),
        vec![strings(&["A"]), strings(&["B", "C"]), vec![], strings(&["X"]), strings(&["Y"])]
    );
}

#[test]
fn self_loops_are_ignored() {
    let ug = graph(&["A", "B"], &[("A", "A"), ("A", "B")]);
    assert_eq!(grid_layers(&ug), vec![strings(&["A"]), strings(&["B"])]);
}

#[test]
fn no_nodes_no_layers() {
    let ug = graph(&[], &[]);
    assert!(grid_layers(&ug).is_empty());
}

#[test]
fn layer_is_shortest_depth_from_the_roots() {
    // C is two steps from A along A -> B -> C, but one along A -> C.
    let ug = graph(&["A", "B", "C", "D"], &[("A", "B"), ("B", "C"), ("A", "C"), ("C", "D")]);
    assert_eq!(
        grid_layers(&ug),
        vec![strings(&["A"]), strings(&["B", "C"]), strings(&["D"])]
    );
}

#[test]
fn only_roots_on_the_first_layer() {
    let ug = graph(&["X", "A", "Y", "B"], &[("A", "X"), ("B", "Y"), ("X", "Y")]);
    let layers = grid_layers(&ug);
    assert_eq!(layers[0], strings(&["A", "B"]));
    assert_eq!(layers, vec![strings(&["A", "B"]), strings(&["X", "Y"])]);
}

#[test]
fn edge_to_an_unknown_end_adds_a_layer() {
    let ug = graph(&["A", "B"], &[("A", "B"), ("B", "X")]);
    assert_eq!(grid_layers(&ug), vec![strings(&["A"]), strings(&["B"]), vec![]]);
}

#[test]
fn repeated_id_is_listed_twice() {
    let ug = graph(&["A", "A", "B"], &[("B", "A")]);
    assert_eq!(grid_layers(&ug), vec![strings(&["B"]), strings(&["A", "A"])]);
}

#[test]
fn unknown_ends_count_toward_the_fresh_start() {
    // X and Y fill the count of placed names, so the cycle B <-> C is never
    // started and its nodes stand on layer 0.
    let ug = graph(&["A", "B", "C"], &[("A", "X"), ("A", "Y"), ("B", "C"), ("C", "B")]);
    assert_eq!(grid_layers(&ug), vec![strings(&["A", "B", "C"]), vec![]]);
}

#[test]
fn unknown_end_between_a_root_and_a_cycle() {
    let ug = graph(&["A", "B", "C"], &[("A", "X"), ("B", "C"), ("C", "B")]);
    assert_eq!(
        grid_layers(&ug),
        vec![strings(&["A"]), vec![], strings(&["B"]), strings(&["C"])]
    );
}
