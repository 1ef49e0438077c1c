use liemermaid::builder::layout::analyze::{analyze, GraphAnalysis};
use liemermaid::builder::layout::ir::{LEdge, LineKind, PortHint};
use liemermaid::builder::layout::layer_index::build_layer_index;
use liemermaid::builder::layout::solver::directed::{build_graph, heuristic_order};
use liemermaid::builder::layout::tarjan::tarjan_scc;
use petgraph::graph::DiGraph;

fn edge(s: usize, t: usize) -> LEdge {
    LEdge {
        source: s,
        target: t,
        source_port: PortHint::Auto,
        target_port: PortHint::Auto,
        line_kind: LineKind::Solid,
    }
}

fn sorted_lists(lists: &[Vec<usize>]) -> Vec<Vec<usize>> {
    let mut out: Vec<Vec<usize>> = lists
        .iter()
        .map(|l| {
            let mut l = l.clone();
            l.sort();
            l
        })
        .collect();
    out.sort();
    out
}

fn analysis_of(sccs: Vec<Vec<usize>>, comps: Vec<Vec<usize>>) -> GraphAnalysis {
    GraphAnalysis {
        graph: DiGraph::new(),
        sccs,
        topological_order: Vec::new(),
        feedback_arcs: Vec::new(),
        connected_components: comps,
    }
}

#[test]
fn analyze_cycle_and_isolated_node() {
    let a = analyze(4, &[edge(0, 1), edge(1, 2), edge(2, 0)]);
    assert_eq!(a.graph.node_count(), 4);
    assert_eq!(a.graph.edge_count(), 3);
    for i in 0..4 {
        assert_eq!(a.graph[petgraph::graph::NodeIndex::new(i)], i);
    }
    assert_eq!(sorted_lists(&a.sccs), vec![vec![0, 1, 2], vec![3]]);
    assert_eq!(a.feedback_arcs, vec![(2, 0)]);
    // The feedback arc set aside, the rest is ordered: 0 -> 1 -> 2, and 3.
    assert_eq!(a.topological_order, vec![3, 0, 1, 2]);
    assert_eq!(a.connected_components, vec![vec![0, 1, 2], vec![3]]);
}

#[test]
fn analyze_skips_loops_invisible_duplicate_and_dangling_edges() {
    let mut invisible = edge(3, 0);
    invisible.line_kind = LineKind::Invisible;
    let edges = [
        edge(0, 1),
        edge(0, 2),
        edge(0, 1),
        edge(1, 3),
        edge(2, 3),
        edge(3, 3),
        invisible,
        edge(2, 7),
    ];
    let a = analyze(4, &edges);
    assert_eq!(a.graph.node_count(), 4);
    assert_eq!(a.graph.edge_count(), 4);
    assert!(a.feedback_arcs.is_empty());
    assert_eq!(a.connected_components, vec![vec![0, 1, 2, 3]]);
    assert_eq!(sorted_lists(&a.sccs), vec![vec![0], vec![1], vec![2], vec![3]]);
    let order = &a.topological_order;
    let mut sorted = order.clone();
    sorted.sort();
    assert_eq!(sorted, vec![0, 1, 2, 3]);
    let pos = |v: usize| order.iter().position(|&x| x == v).unwrap();
    for (s, t) in [(0, 1), (0, 2), (1, 3), (2, 3)] {
        assert!(pos(s) < pos(t));
    }
}

#[test]
fn analyze_reports_each_back_edge_once() {
    // Two cycles through node 0: 0 -> 1 -> 0 and 0 -> 2 -> 0.
    let a = analyze(3, &[edge(0, 1), edge(1, 0), edge(0, 2), edge(2, 0)]);
    assert_eq!(a.feedback_arcs, vec![(1, 0), (2, 0)]);
    assert_eq!(sorted_lists(&a.sccs), vec![vec![0, 1, 2]]);
    // Without the two feedback arcs only 0 -> 1 and 0 -> 2 remain.
    assert_eq!(a.topological_order, vec![0, 2, 1]);
    assert_eq!(a.connected_components, vec![vec![0, 1, 2]]);
}

#[test]
fn analyze_orders_around_feedback_arcs() {
    let a = analyze(3, &[edge(2, 0), edge(0, 1), edge(1, 0)]);
    assert_eq!(a.feedback_arcs, vec![(1, 0)]);
    assert_eq!(a.topological_order, vec![2, 0, 1]);
}

#[test]
fn analyze_components_come_in_reverse_topological_order() {
    // 0 -> 1 <-> 2 -> 3: components {0}, {1, 2}, {3}.
    let a = analyze(4, &[edge(0, 1), edge(1, 2), edge(2, 1), edge(2, 3)]);
    let comp_of = |v: usize| a.sccs.iter().position(|c| c.contains(&v)).unwrap();
    assert_eq!(a.sccs.len(), 3);
    assert_eq!(comp_of(1), comp_of(2));
    assert!(comp_of(3) < comp_of(2));
    assert!(comp_of(1) < comp_of(0));
    let mut all: Vec<usize> = a.sccs.iter().flatten().copied().collect();
    all.sort();
    assert_eq!(all, vec![0, 1, 2, 3]);
}

#[test]
fn analyze_empty_graph() {
    let a = analyze(0, &[]);
    assert_eq!(a.graph.node_count(), 0);
    assert!(a.sccs.is_empty());
    assert!(a.topological_order.is_empty());
    assert!(a.feedback_arcs.is_empty());
    assert!(a.connected_components.is_empty());
}

#[test]
fn heuristic_order_groups_components_and_cycles() {
    // 3 <-> 1 is a cycle, 4 -> 0 a chain, 2 is alone.
    let a = analyze(5, &[edge(3, 1), edge(1, 3), edge(4, 0)]);
    assert_eq!(a.connected_components, vec![vec![0, 4], vec![1, 3], vec![2]]);
    assert_eq!(heuristic_order(5, &a), vec![0, 4, 1, 3, 2]);
}

#[test]
fn heuristic_order_sorts_cycles_by_smallest_node() {
    let a = analysis_of(vec![vec![5, 1], vec![0, 4]], vec![vec![4, 5, 0, 1]]);
    assert_eq!(heuristic_order(6, &a), vec![0, 4, 1, 5, 2, 3]);
}

#[test]
fn heuristic_order_keeps_cycle_members_in_their_component() {
    let a = analysis_of(vec![vec![1, 2]], vec![vec![2], vec![1]]);
    assert_eq!(heuristic_order(3, &a), vec![2, 1, 0]);
}

#[test]
fn heuristic_order_places_unlisted_nodes_last() {
    let a = analysis_of(Vec::new(), vec![vec![2]]);
    assert_eq!(heuristic_order(3, &a), vec![2, 0, 1]);
    let b = analysis_of(Vec::new(), Vec::new());
    assert_eq!(heuristic_order(3, &b), vec![0, 1, 2]);
}

#[test]
fn heuristic_order_then_component_order() {
    // The component's own order decides for nodes in no listed cycle.
    let a = analysis_of(vec![vec![3]], vec![vec![2, 0, 3, 1]]);
    assert_eq!(heuristic_order(4, &a), vec![3, 2, 0, 1]);
}

fn graph(n: usize, edges: &[(usize, usize)]) -> DiGraph<usize, ()> {
    let mut g = DiGraph::new();
    for i in 0..n {
        g.add_node(i);
    }
    for &(a, b) in edges {
        g.add_edge(petgraph::graph::NodeIndex::new(a), petgraph::graph::NodeIndex::new(b), ());
    }
    g
}

#[test]
fn tarjan_closes_inner_cycles_first() {
    let g = graph(6, &[(0, 1), (1, 2), (2, 0), (2, 3), (3, 4), (4, 3)]);
    assert_eq!(tarjan_scc(&g), vec![vec![4, 3], vec![2, 1, 0], vec![5]]);
}

#[test]
fn tarjan_on_a_chain_gives_singletons_deepest_first() {
    let g = graph(3, &[(0, 1), (1, 2)]);
    assert_eq!(tarjan_scc(&g), vec![vec![2], vec![1], vec![0]]);
    let empty = graph(0, &[]);
    assert!(tarjan_scc(&empty).is_empty());
}

#[test]
fn tarjan_components_partition_the_nodes() {
    let g = graph(7, &[(0, 3), (3, 0), (1, 2), (2, 5), (5, 1), (4, 4), (6, 0)]);
    let sccs = tarjan_scc(&g);
    let mut all: Vec<usize> = sccs.iter().flatten().copied().collect();
    all.sort();
    assert_eq!(all, vec![0, 1, 2, 3, 4, 5, 6]);
    assert_eq!(sorted_lists(&sccs), vec![vec![0, 3], vec![1, 2, 5], vec![4], vec![6]]);
}

#[test]
fn tarjan_follows_the_graphs_edge_order() {
    // petgraph lists the edges leaving a node most recent first, so 0 -> 2
    // is searched before 0 -> 1.
    let g = graph(3, &[(0, 1), (0, 2)]);
    assert_eq!(tarjan_scc(&g), vec![vec![2], vec![1], vec![0]]);
}

#[test]
fn build_graph_names_nodes_by_priority() {
    let edges = [edge(3, 1), edge(1, 3), edge(4, 0), edge(2, 2), edge(0, 9), edge(3, 1)];
    let a = analyze(5, &edges);
    let (g, idx) = build_graph(5, &edges, &a);
    assert_eq!(idx, vec![0, 1, 2, 3, 4]);
    let ids: Vec<String> = (0..5).map(|i| g[petgraph::graph::NodeIndex::new(i)].clone()).collect();
    assert_eq!(ids, vec!["0000:0", "0002:1", "0004:2", "0003:3", "0001:4"]);
    let ends: Vec<(usize, usize)> = g.edge_indices().map(|e| {
        let (s, t) = g.edge_endpoints(e).unwrap();
        (s.index(), t.index())
    }).collect();
    assert_eq!(ends, vec![(3, 1), (1, 3), (4, 0)]);
    // Sorting a layer by these ids gives the priority order.
    let index = build_layer_index(&vec![0; 5], &ids);
    assert_eq!(index.get(&0), Some(&vec![0, 4, 1, 3, 2]));
}
