use liemermaid::builder::layout::crossing::{minimize_crossings, LayerEdge, NodeId};

/// Number of crossings between adjacent layers (edges sharing an end excluded).
fn count_crossings(layers: &[Vec<NodeId>], edges: &[LayerEdge]) -> usize {
    if layers.len() < 2 {
        return 0;
    }
    let pos = |li: usize, id: &str| -> Option<usize> { layers[li].iter().position(|x| x == id) };
    let mut count = 0;
    for li in 0..layers.len() - 1 {
        let mut segs: Vec<(usize, usize)> = Vec::new();
        for e in edges {
            if let (Some(sp), Some(tp)) = (pos(li, &e.source), pos(li + 1, &e.target)) {
                segs.push((sp, tp));
            }
        }
        for i in 0..segs.len() {
            for j in i + 1..segs.len() {
                let (s1, t1) = segs[i];
                let (s2, t2) = segs[j];
                if (s1 < s2 && t1 > t2) || (s1 > s2 && t1 < t2) {
                    count += 1;
                }
            }
        }
    }
    count
}

fn edge(s: &str, t: &str) -> LayerEdge {
    LayerEdge { source: s.to_string(), target: t.to_string() }
}

fn layer(ids: &[&str]) -> Vec<NodeId> {
    ids.iter().map(|s| s.to_string()).collect()
}

#[test]
fn reduces_a_simple_crossing() {
    let layers = vec![layer(&["A", "B"]), layer(&["C", "D"])];
    let edges = vec![edge("A", "D"), edge("B", "C")];
    let out = minimize_crossings(&layers, &edges);
    let crossings = count_crossings(&out, &edges);
    assert_eq!(crossings, 0, "minimize_crossings should remove this simple crossing");
}

#[test]
fn preserves_node_set() {
    let layers = vec![layer(&["A", "B", "C"]), layer(&["D", "E"])];
    let edges = vec![edge("A", "D"), edge("B", "E"), edge("C", "D")];
    let out = minimize_crossings(&layers, &edges);
    let mut flat: Vec<String> = out.iter().flat_map(|l| l.iter().cloned()).collect();
    flat.sort();
    let mut expect = ["A", "B", "C", "D", "E"].iter().map(|s| s.to_string()).collect::<Vec<_>>();
    expect.sort();
    assert_eq!(flat, expect);
}

#[test]
fn empty_layers_give_empty_result() {
    let out = minimize_crossings(&[], &[edge("A", "B")]);
    assert!(out.is_empty());
}

#[test]
fn each_layer_keeps_its_own_nodes() {
    let layers = vec![layer(&["A", "B", "C"]), layer(&["D", "E", "F"]), layer(&["G", "H"])];
    let edges = vec![edge("A", "F"), edge("C", "D"), edge("B", "E"), edge("F", "G"), edge("D", "H")];
    let out = minimize_crossings(&layers, &edges);
    assert_eq!(out.len(), 3);
    for (a, b) in layers.iter().zip(out.iter()) {
        let mut x = a.clone();
        let mut y = b.clone();
        x.sort();
        y.sort();
        assert_eq!(x, y);
    }
}

#[test]
fn barycenter_orders_second_layer() {
    // C's neighbour is B (position 1), D's neighbour is A (position 0): D before C.
    let layers = vec![layer(&["A", "B"]), layer(&["C", "D"])];
    let edges = vec![edge("B", "C"), edge("A", "D")];
    let out = minimize_crossings(&layers, &edges);
    assert_eq!(out[1], layer(&["D", "C"]));
    assert_eq!(out[0], layer(&["A", "B"]));
}

#[test]
fn ties_keep_first_appearance_order() {
    // No edges: every barycenter is the position itself, so nothing moves.
    let layers = vec![layer(&["X", "Y", "Z"]), layer(&["P", "Q"])];
    let out = minimize_crossings(&layers, &[]);
    assert_eq!(out, layers);
}

#[test]
fn no_edges_leave_the_layers_unchanged() {
    let layers = vec![layer(&["C", "A", "B"]), layer(&["F", "D", "E"])];
    assert_eq!(minimize_crossings(&layers, &[]), layers);
}

#[test]
fn one_layer_is_unchanged() {
    let layers = vec![layer(&["C", "A", "B"])];
    let edges = vec![edge("A", "C"), edge("B", "A")];
    assert_eq!(minimize_crossings(&layers, &edges), layers);
}

#[test]
fn edges_between_distant_layers_are_ignored() {
    let layers = vec![layer(&["A", "B"]), layer(&["C", "D"]), layer(&["E", "F"])];
    let edges = vec![edge("A", "D"), edge("B", "C")];
    let mut more = edges.clone();
    more.push(edge("A", "F"));
    more.push(edge("B", "E"));
    more.push(edge("C", "D"));
    more.push(edge("X", "A"));
    assert_eq!(minimize_crossings(&layers, &more), minimize_crossings(&layers, &edges));
}
