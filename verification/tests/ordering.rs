use liemermaid::builder::layout::sugiyama::{build_feasible_tree, exchange, longest_path_ranks_scc, shift_subtree_rank};
use liemermaid::builder::state::topological_sort;

#[test]
fn kahn_order_on_a_dag() {
    let in_degree = vec![0, 1, 2];
    let out_edges = vec![vec![1, 2], vec![2], vec![]];
    assert_eq!(topological_sort(&in_degree, &out_edges), vec![0, 1, 2]);
}

#[test]
fn nodes_on_cycles_come_last() {
    let in_degree = vec![1, 1, 0];
    let out_edges = vec![vec![1], vec![0], vec![]];
    assert_eq!(topological_sort(&in_degree, &out_edges), vec![2, 0, 1]);
}

#[test]
fn kahn_queue_order() {
    // 0 -> 3, 1 -> 2, 2 -> 3: roots 0 and 1 first, then 2, then 3.
    let in_degree = vec![0, 0, 1, 2];
    let out_edges = vec![vec![3], vec![2], vec![3], vec![]];
    assert_eq!(topological_sort(&in_degree, &out_edges), vec![0, 1, 2, 3]);
}

#[test]
fn ranks_follow_longest_paths() {
    let rank = longest_path_ranks_scc(&[(0, 1), (1, 2), (0, 2)], 3);
    assert_eq!(rank, vec![0, 1, 2]);
}

#[test]
fn acyclic_order_puts_every_edge_forward() {
    // 3 -> 1, 3 -> 0, 1 -> 0, 2 -> 1 with exact in-degrees.
    let in_degree = vec![2, 2, 0, 0];
    let out_edges = vec![vec![], vec![0], vec![1], vec![1, 0]];
    let order = topological_sort(&in_degree, &out_edges);
    assert_eq!(order, vec![2, 3, 1, 0]);
    let pos = |v: usize| order.iter().position(|&x| x == v).unwrap();
    for (u, ts) in out_edges.iter().enumerate() {
        for &t in ts {
            assert!(pos(u) < pos(t));
        }
    }
}

#[test]
fn acyclic_ranks_are_one_above_the_highest_predecessor() {
    // 0 -> 2, 1 -> 3, 3 -> 2, 2 -> 4, 0 -> 4.
    let edges = [(0, 2), (1, 3), (3, 2), (2, 4), (0, 4)];
    let rank = longest_path_ranks_scc(&edges, 5);
    assert_eq!(rank, vec![0, 0, 2, 1, 3]);
    for v in 0..5 {
        let preds: Vec<usize> = edges.iter().filter(|e| e.1 == v).map(|e| rank[e.0]).collect();
        let expect = preds.iter().max().map(|m| m + 1).unwrap_or(0);
        assert_eq!(rank[v], expect);
    }
}

#[test]
fn ranks_stop_at_cycles() {
    let rank = longest_path_ranks_scc(&[(0, 1), (1, 0), (2, 0)], 3);
    assert_eq!(rank, vec![1, 0, 0]);
}

#[test]
fn feasible_tree_takes_lowest_ranked_parent() {
    let edges = [(0, 1), (1, 2), (0, 2)];
    let rank = [0usize, 1, 2];
    let mut parent = vec![Some(7), None, None];
    let mut tree_edge = vec![Some((7, 0)), None, None];
    build_feasible_tree(&edges, &rank, 3, &mut parent, &mut tree_edge);
    assert_eq!(parent, vec![None, Some(0), Some(0)]);
    assert_eq!(tree_edge, vec![None, Some((0, 1)), Some((0, 2))]);
}

#[test]
fn subtree_shift_moves_descendants_only() {
    let parent = vec![None, Some(0), Some(1), Some(0)];
    let mut rank = vec![0, 1, 2, 1];
    shift_subtree_rank(1, &parent, &mut rank, 3, 4);
    assert_eq!(rank, vec![0, 4, 5, 1]);
    let mut rank2 = vec![0, 1, 2, 1];
    shift_subtree_rank(1, &parent, &mut rank2, -5, 4);
    assert_eq!(rank2, vec![0, 0, 0, 1]);
}

#[test]
fn exchange_swaps_tree_edge() {
    let edges = [(0, 1), (1, 2), (0, 2)];
    let mut rank = vec![0, 1, 2];
    let mut parent = vec![None, Some(0), Some(1)];
    let mut tree_edge = vec![None, Some((0, 1)), Some((1, 2))];
    let mut in_tree = vec![true, true, false];
    exchange(&edges, &mut rank, &mut parent, &mut tree_edge, &mut in_tree, 0, 2, 3);
    assert_eq!(rank, vec![0, 1, 1]);
    assert_eq!(parent, vec![None, Some(0), Some(0)]);
    assert_eq!(tree_edge, vec![None, Some((0, 1)), Some((0, 2))]);
    assert_eq!(in_tree, vec![true, false, true]);
}
