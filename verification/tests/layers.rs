use liemermaid::builder::layout::layers::assign_layers;
use liemermaid::builder::layout::position::get_first_node_id;
use liemermaid::builder::layout::types::{BranchArm, ChainItem, LayoutTree, LogicalGroup, OrphanEdge};

fn leaf(id: &str) -> LogicalGroup {
    LogicalGroup::Leaf { node_id: id.to_string() }
}

fn node_item(id: &str) -> ChainItem {
    ChainItem { node_id: Some(id.to_string()), sub_group: None }
}

fn group_item(g: LogicalGroup) -> ChainItem {
    ChainItem { node_id: None, sub_group: Some(Box::new(g)) }
}

fn orphan(from: &str, to: &str) -> OrphanEdge {
    OrphanEdge { from: from.to_string(), to: to.to_string() }
}

fn branch_tree() -> LayoutTree {
    let branch = LogicalGroup::Branch {
        source: "C".to_string(),
        arms: vec![BranchArm { body: leaf("D") }, BranchArm { body: leaf("E") }],
        sink: Some("F".to_string()),
    };
    LayoutTree {
        root: LogicalGroup::Chain { items: vec![node_item("A"), node_item("B"), group_item(branch)] },
        orphan_edges: vec![orphan("F", "G"), orphan("X", "Y")],
    }
}

#[test]
fn chain_and_branch_layers() {
    let layers = assign_layers(&branch_tree());
    assert_eq!(layers.get("A"), Some(&0));
    assert_eq!(layers.get("B"), Some(&1));
    assert_eq!(layers.get("C"), Some(&2));
    assert_eq!(layers.get("D"), Some(&3));
    assert_eq!(layers.get("E"), Some(&3));
    assert_eq!(layers.get("F"), Some(&4));
}

#[test]
fn orphan_ends_are_placed() {
    let layers = assign_layers(&branch_tree());
    assert_eq!(layers.get("G"), Some(&5));
    assert_eq!(layers.get("X"), Some(&0));
    assert_eq!(layers.get("Y"), Some(&1));
    assert_eq!(layers.len(), 9);
}

#[test]
fn cycle_body_beside_condition() {
    let tree = LayoutTree {
        root: LogicalGroup::Cycle {
            condition: "K".to_string(),
            body: Box::new(leaf("L")),
            exit: Some("M".to_string()),
        },
        orphan_edges: vec![],
    };
    let layers = assign_layers(&tree);
    assert_eq!(layers.get("K"), Some(&0));
    assert_eq!(layers.get("L"), Some(&0));
    assert_eq!(layers.get("M"), Some(&1));
}

#[test]
fn first_layer_is_kept() {
    let tree = LayoutTree {
        root: LogicalGroup::Chain { items: vec![node_item("A"), node_item("B"), node_item("A")] },
        orphan_edges: vec![orphan("B", "A")],
    };
    let layers = assign_layers(&tree);
    assert_eq!(layers.get("A"), Some(&0));
    assert_eq!(layers.get("B"), Some(&1));
    assert_eq!(layers.len(), 2);
}

#[test]
fn branch_without_sink_ends_at_deepest_arm() {
    let inner = LogicalGroup::Chain { items: vec![node_item("P"), node_item("Q")] };
    let branch = LogicalGroup::Branch {
        source: "S".to_string(),
        arms: vec![BranchArm { body: inner }, BranchArm { body: leaf("R") }],
        sink: None,
    };
    let tree = LayoutTree {
        root: LogicalGroup::Chain { items: vec![group_item(branch), node_item("Z")] },
        orphan_edges: vec![],
    };
    let layers = assign_layers(&tree);
    assert_eq!(layers.get("S"), Some(&0));
    assert_eq!(layers.get("P"), Some(&1));
    assert_eq!(layers.get("Q"), Some(&2));
    assert_eq!(layers.get("R"), Some(&1));
    assert_eq!(layers.get("Z"), Some(&3));
}

#[test]
fn first_node_of_groups() {
    assert_eq!(get_first_node_id(&leaf("X")), "X");
    let chain = LogicalGroup::Chain { items: vec![node_item("A"), node_item("B")] };
    assert_eq!(get_first_node_id(&chain), "A");
    let nested = LogicalGroup::Chain { items: vec![group_item(leaf("Y"))] };
    assert_eq!(get_first_node_id(&nested), "");
    assert_eq!(get_first_node_id(&LogicalGroup::Chain { items: vec![] }), "");
    let cycle = LogicalGroup::Cycle { condition: "C".to_string(), body: Box::new(leaf("D")), exit: None };
    assert_eq!(get_first_node_id(&cycle), "C");
    let branch = LogicalGroup::Branch { source: "S".to_string(), arms: vec![], sink: None };
    assert_eq!(get_first_node_id(&branch), "S");
}

#[test]
fn orphan_edges_chain_in_order() {
    let tree = LayoutTree {
        root: LogicalGroup::Chain { items: vec![node_item("A"), node_item("B")] },
        orphan_edges: vec![orphan("P", "Q"), orphan("Q", "R"), orphan("B", "Z"), orphan("R", "A")],
    };
    let layers = assign_layers(&tree);
    assert_eq!(layers.get("A"), Some(&0));
    assert_eq!(layers.get("B"), Some(&1));
    assert_eq!(layers.get("P"), Some(&0));
    assert_eq!(layers.get("Q"), Some(&1));
    assert_eq!(layers.get("R"), Some(&2));
    assert_eq!(layers.get("Z"), Some(&2));
    assert_eq!(layers.len(), 6);
}
