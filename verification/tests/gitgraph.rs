use liemermaid::ast::{GitGraphDiagram, GitGraphStatement};
use liemermaid::builder::render::gitgraph::git_history;
use petgraph::visit::EdgeRef;

fn commit(tag: Option<&str>) -> GitGraphStatement {
    GitGraphStatement::Commit { id: None, tag: tag.map(|t| t.to_string()) }
}

fn branch(name: &str) -> GitGraphStatement {
    GitGraphStatement::Branch { name: name.to_string() }
}

fn checkout(name: &str) -> GitGraphStatement {
    GitGraphStatement::Checkout { branch: name.to_string() }
}

fn merge(name: &str, tag: Option<&str>) -> GitGraphStatement {
    GitGraphStatement::Merge { branch: name.to_string(), id: None, tag: tag.map(|t| t.to_string()) }
}

fn edges(h: &liemermaid::builder::render::gitgraph::GitHistory) -> Vec<(usize, usize)> {
    h.dag.edge_references().map(|e| (e.source().index(), e.target().index())).collect()
}

#[test]
fn branch_commit_and_merge() {
    let g = GitGraphDiagram {
        statements: vec![
            commit(None),
            branch("develop"),
            commit(Some("v1")),
            checkout("main"),
            commit(None),
            merge("develop", None),
        ],
    };
    let h = git_history(&g);
    assert_eq!(h.branches, vec!["main".to_string(), "develop".to_string()]);
    let rows: Vec<usize> = h.commits.iter().map(|c| c.branch).collect();
    assert_eq!(rows, vec![0, 1, 0, 0]);
    assert_eq!(h.commits[1].tag.as_deref(), Some("v1"));
    assert_eq!(h.commits[3].tag.as_deref(), Some("merge develop"));
    assert!(h.commits[3].is_merge);
    assert!(!h.commits[2].is_merge);
    assert_eq!(h.dag.node_count(), 4);
    for i in 0..4 {
        assert_eq!(h.dag[petgraph::graph::NodeIndex::new(i)], i);
    }
    assert_eq!(edges(&h), vec![(0, 1), (0, 2), (2, 3), (1, 3)]);
}

#[test]
fn merge_keeps_its_own_tag_and_skips_missing_heads() {
    let g = GitGraphDiagram {
        statements: vec![merge("nowhere", Some("m")), GitGraphStatement::CherryPick { id: "x".to_string() }],
    };
    let h = git_history(&g);
    assert_eq!(h.branches, vec!["main".to_string()]);
    assert_eq!(h.commits.len(), 2);
    assert_eq!(h.commits[0].tag.as_deref(), Some("m"));
    assert!(h.commits[0].is_merge);
    assert_eq!(h.commits[1].tag, None);
    assert!(!h.commits[1].is_merge);
    assert_eq!(edges(&h), vec![(0, 1)]);
}

#[test]
fn checkout_lists_new_branches_without_history() {
    let g = GitGraphDiagram {
        statements: vec![commit(None), checkout("feature"), commit(None), branch("main"), commit(None)],
    };
    let h = git_history(&g);
    // "feature" starts without a head; "main" keeps its row and is moved to
    // the current head when named again.
    assert_eq!(h.branches, vec!["main".to_string(), "feature".to_string()]);
    let rows: Vec<usize> = h.commits.iter().map(|c| c.branch).collect();
    assert_eq!(rows, vec![0, 1, 0]);
    assert_eq!(edges(&h), vec![(1, 2)]);
}

#[test]
fn empty_git_graph_has_only_main() {
    let h = git_history(&GitGraphDiagram { statements: vec![] });
    assert_eq!(h.branches, vec!["main".to_string()]);
    assert!(h.commits.is_empty());
    assert_eq!(h.dag.node_count(), 0);
}
