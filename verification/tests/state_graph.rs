use liemermaid::ast::{State, StateDiagram, Transition};
use liemermaid::builder::state::{
    state_graph, state_layout_order, state_node_kinds, state_node_text, topological_sort, StateNode,
};

fn transition(from: &str, to: &str) -> Transition {
    Transition { from: from.to_string(), to: to.to_string(), label: None }
}

fn strings(xs: &[&str]) -> Vec<String> {
    xs.iter().map(|x| x.to_string()).collect()
}

#[test]
fn state_graph_keys_degrees_and_targets() {
    let ts = vec![
        transition("[*]", "A"),
        transition("A", "B"),
        transition("B", "A"),
        transition("B", "[*]"),
    ];
    let (keys, in_degree, out_edges) = state_graph(&ts);
    assert_eq!(keys, strings(&["__start__", "A", "B", "__end__"]));
    assert_eq!(in_degree, vec![0, 2, 1, 1]);
    assert_eq!(out_edges, vec![vec![1], vec![2], vec![1, 3], vec![]]);
}

#[test]
fn state_graph_of_no_transitions_is_empty() {
    let (keys, in_degree, out_edges) = state_graph(&Vec::new());
    assert!(keys.is_empty() && in_degree.is_empty() && out_edges.is_empty());
}

#[test]
fn layout_order_of_an_acyclic_diagram_follows_transitions() {
    let ts = vec![
        transition("[*]", "A"),
        transition("A", "B"),
        transition("A", "C"),
        transition("C", "B"),
        transition("B", "[*]"),
    ];
    let order = state_layout_order(&ts);
    assert_eq!(order, strings(&["__start__", "A", "C", "B", "__end__"]));
}

#[test]
fn layout_order_puts_states_on_a_cycle_last() {
    let ts = vec![
        transition("[*]", "A"),
        transition("A", "B"),
        transition("B", "A"),
        transition("B", "[*]"),
    ];
    assert_eq!(state_layout_order(&ts), strings(&["__start__", "A", "B", "__end__"]));
}

#[test]
fn state_node_kinds_follow_declarations() {
    let sd = StateDiagram {
        states: vec![
            State::Fork { id: "F".to_string() },
            State::Simple { id: "A".to_string(), description: Some("first".to_string()) },
            State::Join { id: "J".to_string() },
            State::Simple { id: "A".to_string(), description: Some("alpha".to_string()) },
            State::Simple { id: "A".to_string(), description: None },
        ],
        transitions: vec![
            transition("[*]", "A"),
            transition("A", "F"),
            transition("F", "J"),
            transition("J", "B"),
            transition("B", "[*]"),
        ],
    };
    let kinds = state_node_kinds(&sd);
    let (keys, _, _) = state_graph(&sd.transitions);
    assert_eq!(keys, strings(&["__start__", "A", "F", "J", "B", "__end__"]));
    assert!(matches!(kinds[0], StateNode::Start));
    assert!(matches!(&kinds[1], StateNode::Normal { description: None, label: Some(l) } if l == "alpha"));
    assert!(matches!(kinds[2], StateNode::Fork));
    assert!(matches!(kinds[3], StateNode::Join));
    assert!(matches!(&kinds[4], StateNode::Normal { description: None, label: None }));
    assert!(matches!(kinds[5], StateNode::End));
    let texts: Vec<String> = kinds.iter().zip(keys.iter()).map(|(k, id)| state_node_text(k, id)).collect();
    assert_eq!(texts, strings(&["Start", "alpha", "", "J", "B", "End"]));
}

#[test]
fn sorting_passes_over_unknown_targets() {
    // State 0 also points at 7, which is no state; state 1 has no list.
    let in_degree = vec![0, 1];
    let out_edges = vec![vec![7, 1]];
    assert_eq!(topological_sort(&in_degree, &out_edges), vec![0, 1]);
}
