use liemermaid::ast::Direction;
use liemermaid::builder::ir::unigraph::{GraphFamily, UGEdge, UGNode, Unigraph};
use liemermaid::builder::layout::directed::sugiyama_layers;
use liemermaid::builder::layout::types::NodeId;

fn mk_node(id: &str) -> UGNode {
    UGNode { id: id.to_string() }
}

fn mk_edge(s: &str, t: &str) -> UGEdge {
    UGEdge { source: s.to_string(), target: t.to_string() }
}

fn graph(ids: &[&str], edges: &[(&str, &str)], direction: Direction) -> Unigraph {
    Unigraph {
        nodes: ids.iter().map(|id| mk_node(id)).collect(),
        edges: edges.iter().map(|(s, t)| mk_edge(s, t)).collect(),
        direction,
        family: GraphFamily::Directed,
    }
}

fn count_crossings_ug(layers: &[Vec<NodeId>], edges: &[UGEdge]) -> usize {
    let pos = |li: usize, id: &str| -> Option<usize> { layers[li].iter().position(|x| x == id) };
    let mut count = 0;
    for li in 0..layers.len() - 1 {
        let mut segs: Vec<(usize, usize)> = Vec::new();
        for e in edges {
            if let (Some(sp), Some(tp)) = (pos(li, &e.source), pos(li + 1, &e.target)) {
                segs.push((sp, tp));
            }
        }
        for i in 0..segs.len() {
            for j in i + 1..segs.len() {
                let (s1, t1) = segs[i];
                let (s2, t2) = segs[j];
                if (s1 < s2 && t1 > t2) || (s1 > s2 && t1 < t2) {
                    count += 1;
                }
            }
        }
    }
    count
}

fn strings(ids: &[&str]) -> Vec<String> {
    ids.iter().map(|s| s.to_string()).collect()
}

#[test]
fn sugiyama_reduces_crossings_on_3_layers() {
    let ug = graph(
        &["A", "B", "C", "D", "E", "F"],
        &[
            ("A", "C"),
            ("B", "D"),
            ("A", "D"),
            ("B", "C"),
            ("C", "E"),
            ("D", "F"),
            ("C", "F"),
            ("D", "E"),
        ],
        Direction::TB,
    );
    let baseline = vec![strings(&["A", "B"]), strings(&["C", "D"]), strings(&["E", "F"])];
    let baseline_cross = count_crossings_ug(&baseline, &ug.edges);
    assert!(baseline_cross > 0, "基线应存在交叉");

    let out = sugiyama_layers(&ug);
    let out_cross = count_crossings_ug(&out, &ug.edges);
    assert!(out_cross <= baseline_cross, "Sugiyama 交叉({})应不高于基线({})", out_cross, baseline_cross);
}

#[test]
fn sugiyama_reverses_layers_for_bt() {
    let mut ug = graph(&["A", "B", "C"], &[("A", "B"), ("B", "C")], Direction::TB);
    let out = sugiyama_layers(&ug);
    assert_eq!(out[0], vec!["A".to_string()]);
    ug.direction = Direction::BT;
    let out2 = sugiyama_layers(&ug);
    assert_eq!(out2[0], vec!["C".to_string()]);
}

#[test]
fn diamond_layers_by_longest_path() {
    let ug = graph(
        &["A", "B", "C", "D"],
        &[("A", "B"), ("A", "C"), ("B", "D"), ("C", "D"), ("A", "D")],
        Direction::TD,
    );
    let out = sugiyama_layers(&ug);
    assert_eq!(out, vec![strings(&["A"]), strings(&["B", "C"]), strings(&["D"])]);
}

#[test]
fn cycle_is_broken_by_back_edge() {
    let ug = graph(&["A", "B"], &[("A", "B"), ("B", "A")], Direction::LR);
    let out = sugiyama_layers(&ug);
    assert_eq!(out, vec![strings(&["A"]), strings(&["B"])]);
}

#[test]
fn rl_direction_reverses_layers() {
    let ug = graph(&["A", "B", "C"], &[("A", "B"), ("A", "C")], Direction::RL);
    let out = sugiyama_layers(&ug);
    assert_eq!(out, vec![strings(&["B", "C"]), strings(&["A"])]);
}

#[test]
fn every_node_lands_on_exactly_one_layer() {
    let ug = graph(
        &["P", "Q", "R", "S", "T"],
        &[("P", "Q"), ("Q", "R"), ("R", "P"), ("S", "T")],
        Direction::TB,
    );
    let out = sugiyama_layers(&ug);
    let mut all: Vec<String> = out.iter().flatten().cloned().collect();
    all.sort();
    assert_eq!(all, strings(&["P", "Q", "R", "S", "T"]));
}

#[test]
fn empty_graph_has_one_empty_layer() {
    let ug = graph(&[], &[], Direction::TB);
    assert_eq!(sugiyama_layers(&ug), vec![Vec::<String>::new()]);
}

#[test]
fn every_later_node_has_a_kept_edge_from_the_layer_above() {
    // A -> B -> D, A -> C, C -> D, D -> B (back edge), E alone.
    let ug = graph(
        &["A", "B", "C", "D", "E"],
        &[("A", "B"), ("B", "D"), ("A", "C"), ("C", "D"), ("D", "B")],
        Direction::TB,
    );
    let layers = sugiyama_layers(&ug);
    let layer_of = |id: &str| layers.iter().position(|l| l.iter().any(|x| x == id)).unwrap();
    assert_eq!(layer_of("A"), 0);
    assert_eq!(layer_of("E"), 0);
    assert_eq!(layer_of("B"), 1);
    assert_eq!(layer_of("C"), 1);
    assert_eq!(layer_of("D"), 2);
    for l in 1..layers.len() {
        for v in &layers[l] {
            assert!(ug.edges.iter().any(|e| &e.target == v && layer_of(&e.source) + 1 == l));
        }
    }
}

#[test]
fn self_loop_does_not_lift_its_node() {
    let ug = graph(&["A", "B"], &[("A", "A"), ("A", "B"), ("B", "B")], Direction::TB);
    assert_eq!(sugiyama_layers(&ug), vec![strings(&["A"]), strings(&["B"])]);
}

#[test]
fn repeated_id_shares_its_layer() {
    let ug = graph(&["A", "B", "A"], &[("A", "B")], Direction::TB);
    assert_eq!(sugiyama_layers(&ug), vec![strings(&["A", "A"]), strings(&["B"])]);
}

#[test]
fn repeated_id_in_a_cycle_bottom_to_top() {
    let ug = graph(&["A", "B", "B"], &[("A", "B"), ("B", "A")], Direction::BT);
    assert_eq!(sugiyama_layers(&ug), vec![strings(&["B", "B"]), strings(&["A"])]);
}

#[test]
fn edge_to_an_unknown_end_is_layered_but_not_listed() {
    let ug = graph(&["A", "B"], &[("A", "B"), ("B", "X")], Direction::TB);
    assert_eq!(sugiyama_layers(&ug), vec![strings(&["A"]), strings(&["B"])]);
}

#[test]
fn unknown_end_below_the_last_node_adds_an_empty_layer() {
    let ug = graph(&["A"], &[("A", "X")], Direction::TB);
    assert_eq!(sugiyama_layers(&ug), vec![strings(&["A"]), vec![]]);
    let bt = graph(&["A"], &[("A", "X")], Direction::BT);
    assert_eq!(sugiyama_layers(&bt), vec![vec![], strings(&["A"])]);
}

#[test]
fn cycle_of_unknown_ends_is_never_searched() {
    // X and Y are no nodes: the search never reaches them, so neither edge
    // between them is a back edge, and the passes lift them to the cap of 1,
    // which lifts A too.
    let ug = graph(&["A", "B"], &[("X", "Y"), ("Y", "X"), ("Y", "A")], Direction::TB);
    assert_eq!(sugiyama_layers(&ug), vec![strings(&["B"]), strings(&["A"])]);
}

#[test]
fn long_chain_into_unknown_ends_is_capped() {
    let ug = graph(&["A", "B", "C"], &[("A", "B"), ("B", "C"), ("C", "X"), ("X", "Y")], Direction::TB);
    assert_eq!(sugiyama_layers(&ug), vec![strings(&["A"]), strings(&["B"]), strings(&["C"])]);
}
