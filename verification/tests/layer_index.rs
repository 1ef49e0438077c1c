use std::collections::HashMap;

use liemermaid::builder::layout::layer_index::build_layer_index;

fn strings(xs: &[&str]) -> Vec<String> {
    xs.iter().map(|x| x.to_string()).collect()
}

fn sorted_entries(m: HashMap<usize, Vec<usize>>) -> Vec<(usize, Vec<usize>)> {
    let mut v: Vec<(usize, Vec<usize>)> = m.into_iter().collect();
    v.sort();
    v
}

#[test]
fn layers_list_their_nodes_by_id() {
    let layers = vec![1, 0, 1, 0, 2];
    let ids = strings(&["0002:0", "0000:1", "0001:2", "0003:3", "0004:4"]);
    let index = build_layer_index(&layers, &ids);
    assert_eq!(sorted_entries(index), vec![(0, vec![1, 3]), (1, vec![2, 0]), (2, vec![4])]);
}

#[test]
fn equal_ids_keep_node_order_and_prefixes_come_first() {
    let index = build_layer_index(&vec![0, 0, 0], &strings(&["b", "a", "b"]));
    assert_eq!(sorted_entries(index), vec![(0, vec![1, 0, 2])]);
    let index = build_layer_index(&vec![3, 3], &strings(&["abc", "ab"]));
    assert_eq!(sorted_entries(index), vec![(3, vec![1, 0])]);
    // Characters compare by code point, as string order does.
    let index = build_layer_index(&vec![0, 0], &strings(&["é", "z"]));
    assert_eq!(sorted_entries(index), vec![(0, vec![1, 0])]);
}

#[test]
fn empty_layer_index() {
    assert!(build_layer_index(&vec![], &vec![]).is_empty());
}
