//! The commit history that a git graph describes: statements run in order
//! against a current branch and the head commit of each branch. Drawing the
//! history (rows, columns, colours) works on coordinates elsewhere.

use vstd::prelude::*;
use vstd::string::StringExecFns;

use petgraph::graph::DiGraph;

use crate::ast::{GitGraphDiagram, GitGraphStatement};
use crate::builder::layout::analyze::{
    digraph_edges, digraph_nodes, graph_add_edge, graph_add_node, graph_with_capacity, identity,
};
use crate::builder::layout::crossing::{find_last, last_pos, layer_view};
use crate::builder::layout::recognize::opt_view;

verus! {

/// A commit: the row of its branch (its place in the branch list), its
/// tag, and whether it is a merge.
pub struct GitCommit {
    pub branch: usize,
    pub tag: Option<String>,
    pub is_merge: bool,
}

/// A commit history: the branches in the order they were first named,
/// the commits in statement order, and the commit graph, whose node `i` is
/// commit `i` and whose edges go from parent to child (the current
/// branch's head first, for a merge).
pub struct GitHistory {
    pub branches: Vec<String>,
    pub commits: Vec<GitCommit>,
    pub dag: DiGraph<usize, ()>,
}

/// A commit as mathematical values: branch row, tag, merge flag.
pub type CommitV = (int, Option<Seq<char>>, bool);

/// The state of a git graph after some statements.
pub struct GitStateV {
    /// Branch names, in the order they were first named.
    pub branches: Seq<Seq<char>>,
    /// Head commit of each branch, by row.
    pub heads: Seq<Option<usize>>,
    /// Row of the current branch.
    pub current: int,
    pub commits: Seq<CommitV>,
    /// Parent-to-child edges, in the order they were made.
    pub edges: Seq<(usize, usize)>,
}

/// Before any statement: the branch `main`, current, with no commit.
pub open spec fn git_start() -> GitStateV {
    GitStateV {
        branches: seq!["main"@],
        heads: seq![None],
        current: 0,
        commits: Seq::empty(),
        edges: Seq::empty(),
    }
}

/// The state with branch `name` listed (appended when new).
pub open spec fn with_branch(s: GitStateV, name: Seq<char>) -> GitStateV {
    if last_pos(s.branches, name) >= 0 {
        s
    } else {
        GitStateV { branches: s.branches.push(name), heads: s.heads.push(None), ..s }
    }
}

/// Row of branch `name` (listed).
pub open spec fn row_of(s: GitStateV, name: Seq<char>) -> int {
    last_pos(s.branches, name)
}

/// Adds a commit on the current branch with the given parents, which
/// becomes the branch's head.
pub open spec fn add_commit(s: GitStateV, tag: Option<Seq<char>>, is_merge: bool, parents: Seq<Option<usize>>) -> GitStateV {
    let k = s.commits.len() as usize;
    GitStateV {
        commits: s.commits.push((s.current, tag, is_merge)),
        edges: s.edges + parent_edges(parents, k),
        heads: s.heads.update(s.current, Some(k)),
        ..s
    }
}

/// Edges from the given parents (those that exist) to commit `k`.
pub open spec fn parent_edges(parents: Seq<Option<usize>>, k: usize) -> Seq<(usize, usize)>
    decreases parents.len(),
{
    if parents.len() == 0 {
        Seq::empty()
    } else {
        let r = parent_edges(parents.drop_last(), k);
        match parents.last() {
            Some(p) => r.push((p, k)),
            None => r,
        }
    }
}

/// The tag of a merge: its own, or `merge <branch>`.
pub open spec fn tag_or_merge(tag: Option<String>, branch: Seq<char>) -> Seq<char> {
    match tag {
        Some(t) => t@,
        None => "merge "@ + branch,
    }
}

/// One statement. `branch` names a branch (new ones go last), moves it to
/// the current head, and makes it current; `checkout` makes a branch
/// current; `commit` and `cherry-pick` add a commit on the current branch
/// (a cherry-pick without tag); `merge` adds a merge commit whose parents
/// are the heads of the current and of the merged branch, tagged
/// `merge <branch>` unless it has a tag.
pub open spec fn git_step(s: GitStateV, st: GitGraphStatement) -> GitStateV {
    match st {
        GitGraphStatement::Branch { name } => {
            let s1 = with_branch(s, name@);
            let r = row_of(s1, name@);
            let s2 = match s.heads[s.current] {
                Some(h) => GitStateV { heads: s1.heads.update(r, Some(h)), ..s1 },
                None => s1,
            };
            GitStateV { current: r, ..s2 }
        },
        GitGraphStatement::Checkout { branch } => {
            let s1 = with_branch(s, branch@);
            GitStateV { current: row_of(s1, branch@), ..s1 }
        },
        GitGraphStatement::Commit { tag, .. } => add_commit(s, opt_view(tag), false, seq![s.heads[s.current]]),
        GitGraphStatement::Merge { branch, tag, .. } => {
            let r = row_of(s, branch@);
            let p2 = if r >= 0 { s.heads[r] } else { None };
            let t = match tag {
                Some(t) => Some(t@),
                None => Some("merge "@ + branch@),
            };
            add_commit(s, t, true, seq![s.heads[s.current], p2])
        },
        GitGraphStatement::CherryPick { .. } => add_commit(s, None, false, seq![s.heads[s.current]]),
    }
}

/// The state after the statements, in order.
pub open spec fn git_run(sts: Seq<GitGraphStatement>) -> GitStateV
    decreases sts.len(),
{
    if sts.len() == 0 {
        git_start()
    } else {
        git_step(git_run(sts.drop_last()), sts.last())
    }
}

/// The commits of a history as mathematical values.
pub open spec fn commits_view(cs: Seq<GitCommit>) -> Seq<CommitV> {
    cs.map_values(|c: GitCommit| (c.branch as int, opt_view(c.tag), c.is_merge))
}

/// What holds of the state between statements.
pub open spec fn git_inv(s: GitStateV) -> bool {
    &&& s.heads.len() == s.branches.len()
    &&& 0 <= s.current < s.branches.len()
    &&& forall|r: int| 0 <= r < s.heads.len() && (#[trigger] s.heads[r]) is Some ==> (s.heads[r]->0 as int) < s.commits.len()
    &&& forall|k: int| 0 <= k < s.edges.len() ==> ((#[trigger] s.edges[k]).0 as int) < s.commits.len() && (s.edges[k].1 as int) < s.commits.len()
    &&& s.edges.len() <= 2 * s.commits.len()
}

proof fn lemma_last_pos_bounds(s: Seq<Seq<char>>, x: Seq<char>)
    ensures
        -1 <= last_pos(s, x) < s.len(),
        last_pos(s, x) >= 0 ==> s[last_pos(s, x)] == x,
        last_pos(s, x) < 0 ==> last_pos(s.push(x), x) == s.len(),
    decreases s.len(),
{
    if s.len() > 0 {
        lemma_last_pos_bounds(s.drop_last(), x);
        assert(s.push(x).drop_last() =~= s);
    } else {
        assert(s.push(x).drop_last() =~= s);
    }
}

proof fn lemma_two_parents(p1: Option<usize>, p2: Option<usize>, k: usize)
    ensures
        parent_edges(seq![p1, p2], k) == parent_edges(seq![p1], k) + match p2 {
            Some(p) => seq![(p, k)],
            None => Seq::empty(),
        },
        parent_edges(seq![p1], k) == match p1 {
            Some(p) => seq![(p, k)],
            None => Seq::<(usize, usize)>::empty(),
        },
{
    assert(seq![p1, p2].drop_last() =~= seq![p1]);
    assert(seq![p1].drop_last() =~= Seq::<Option<usize>>::empty());
    reveal_with_fuel(parent_edges, 2);
    assert(parent_edges(seq![p1], k) =~= match p1 {
        Some(p) => seq![(p, k)],
        None => Seq::<(usize, usize)>::empty(),
    });
    assert(parent_edges(seq![p1, p2], k) =~= parent_edges(seq![p1], k) + match p2 {
        Some(p) => seq![(p, k)],
        None => Seq::empty(),
    });
}

proof fn lemma_single_parent(s: GitStateV, t: Option<Seq<char>>, m: bool, p: Option<usize>)
    ensures
        add_commit(s, t, m, seq![p, None]) == add_commit(s, t, m, seq![p]),
{
    let k = s.commits.len() as usize;
    lemma_two_parents(p, None, k);
    assert(parent_edges(seq![p, None], k) =~= parent_edges(seq![p], k));
}

/// Makes sure branch `name` is listed; returns its row.
fn ensure_branch(branches: &mut Vec<String>, heads: &mut Vec<Option<usize>>, name: &String) -> (row: usize)
    requires
        old(heads)@.len() == old(branches)@.len(),
    ensures
        final(heads)@.len() == final(branches)@.len(),
        layer_view(final(branches)@) == if last_pos(layer_view(old(branches)@), name@) >= 0 {
            layer_view(old(branches)@)
        } else {
            layer_view(old(branches)@).push(name@)
        },
        final(heads)@ == if last_pos(layer_view(old(branches)@), name@) >= 0 {
            old(heads)@
        } else {
            old(heads)@.push(None)
        },
        row as int == last_pos(layer_view(final(branches)@), name@),
        (row as int) < final(branches)@.len(),
{
    proof {
        lemma_last_pos_bounds(layer_view(branches@), name@);
    }
    match find_last(branches, name) {
        Some(r) => r,
        None => {
            let ghost before = layer_view(branches@);
            let r = branches.len();
            branches.push(name.clone());
            heads.push(None);
            assert(layer_view(branches@) =~= before.push(name@));
            r
        },
    }
}

/// A merge adds one commit on the current branch and moves only that
/// branch's head to it: every other branch, the merged one included, keeps
/// its head, the branch list and the current branch stay, and the merged
/// branch's head (when it has one) becomes the new commit's second parent.
pub proof fn lemma_merge_moves_current_head_only(s: GitStateV, st: GitGraphStatement, r: int)
    requires
        git_inv(s),
        st is Merge,
        0 <= r < s.heads.len(),
    ensures
        git_step(s, st).branches == s.branches,
        git_step(s, st).current == s.current,
        git_step(s, st).commits.len() == s.commits.len() + 1,
        git_step(s, st).heads.len() == s.heads.len(),
        r != s.current ==> git_step(s, st).heads[r] == s.heads[r],
        r == s.current ==> git_step(s, st).heads[r] == Some(s.commits.len() as usize),
        git_step(s, st).edges.len() >= s.edges.len(),
        forall|k: int| 0 <= k < s.edges.len() ==> #[trigger] git_step(s, st).edges[k] == s.edges[k],
        forall|k: int| s.edges.len() <= k < git_step(s, st).edges.len() ==>
            (#[trigger] git_step(s, st).edges[k]).1 == s.commits.len() as usize,
{
    let t = git_step(s, st);
    let k = s.commits.len() as usize;
    match st {
        GitGraphStatement::Merge { branch, tag, .. } => {
            let rr = row_of(s, branch@);
            let p2 = if rr >= 0 { s.heads[rr] } else { None };
            lemma_two_parents(s.heads[s.current], p2, k);
            let pe = parent_edges(seq![s.heads[s.current], p2], k);
            assert(t.edges == s.edges + pe);
            assert forall|j: int| s.edges.len() <= j < t.edges.len() implies (#[trigger] t.edges[j]).1 == k by {
                assert(t.edges[j] == pe[j - s.edges.len()]);
            }
        },
        _ => {},
    }
}

/// A merge's parents, in order: the current branch's head, then the merged
/// branch's head, each when there is one.
pub proof fn lemma_merge_parents(s: GitStateV, branch: String, id: Option<String>, tag: Option<String>)
    requires
        git_inv(s),
    ensures
        ({
            let t = git_step(s, GitGraphStatement::Merge { branch, id, tag });
            let k = s.commits.len() as usize;
            let rr = last_pos(s.branches, branch@);
            let p2 = if rr >= 0 { s.heads[rr] } else { None };
            &&& s.heads[s.current] is Some ==> t.edges[s.edges.len() as int] == (s.heads[s.current]->0, k)
            &&& p2 is Some ==> t.edges.last() == (p2->0, k)
            &&& t.edges.len() == s.edges.len() + (if s.heads[s.current] is Some { 1int } else { 0int })
                + (if p2 is Some { 1int } else { 0int })
            &&& t.commits.last() == (s.current, Some(tag_or_merge(tag, branch@)), true)
        }),
{
    let k = s.commits.len() as usize;
    let rr = row_of(s, branch@);
    let p2 = if rr >= 0 { s.heads[rr] } else { None };
    lemma_two_parents(s.heads[s.current], p2, k);
}

/// A commit or a cherry-pick adds one commit on the current branch, whose
/// only parent is the branch's previous head (when it has one), and moves
/// only that branch's head to it.
pub proof fn lemma_commit_moves_current_head_only(s: GitStateV, st: GitGraphStatement, r: int)
    requires
        git_inv(s),
        st is Commit || st is CherryPick,
        0 <= r < s.heads.len(),
    ensures
        git_step(s, st).branches == s.branches,
        git_step(s, st).current == s.current,
        git_step(s, st).commits.len() == s.commits.len() + 1,
        git_step(s, st).commits.last().0 == s.current,
        !git_step(s, st).commits.last().2,
        git_step(s, st).heads.len() == s.heads.len(),
        r != s.current ==> git_step(s, st).heads[r] == s.heads[r],
        r == s.current ==> git_step(s, st).heads[r] == Some(s.commits.len() as usize),
        git_step(s, st).edges == s.edges + match s.heads[s.current] {
            Some(h) => seq![(h, s.commits.len() as usize)],
            None => Seq::<(usize, usize)>::empty(),
        },
{
    let k = s.commits.len() as usize;
    lemma_two_parents(s.heads[s.current], None, k);
}

/// `branch` and `checkout` add no commit and no edge; they make the named
/// branch current (listing it last when new, without a head). `branch` also
/// sets the named branch's head to the head of the branch that was current,
/// when that has one; no other branch's head moves.
pub proof fn lemma_branch_and_checkout(s: GitStateV, st: GitGraphStatement, r: int)
    requires
        git_inv(s),
        st is Branch || st is Checkout,
        0 <= r < s.heads.len(),
    ensures
        ({
            let t = git_step(s, st);
            let name = match st {
                GitGraphStatement::Branch { name } => name@,
                GitGraphStatement::Checkout { branch } => branch@,
                _ => Seq::empty(),
            };
            &&& t.commits == s.commits
            &&& t.edges == s.edges
            &&& 0 <= t.current < t.branches.len()
            &&& t.branches[t.current] == name
            &&& s.branches.contains(name) ==> t.branches == s.branches
            &&& !s.branches.contains(name) ==> t.branches == s.branches.push(name) && t.current == s.branches.len()
            &&& r != t.current ==> t.heads[r] == s.heads[r]
            &&& st is Checkout ==> t.heads[t.current] == (if t.current < s.heads.len() { s.heads[t.current] } else { None })
            &&& st is Branch && s.heads[s.current] is Some ==> t.heads[t.current] == s.heads[s.current]
        }),
{
    let name = match st {
        GitGraphStatement::Branch { name } => name@,
        GitGraphStatement::Checkout { branch } => branch@,
        _ => Seq::empty(),
    };
    lemma_last_pos_bounds(s.branches, name);
    if s.branches.contains(name) {
        let j = choose|j: int| 0 <= j < s.branches.len() && s.branches[j] == name;
        lemma_last_pos_found_gg(s.branches, name);
    } else {
        if last_pos(s.branches, name) >= 0 {
            assert(s.branches.contains(name));
        }
    }
}

proof fn lemma_last_pos_found_gg(s: Seq<Seq<char>>, x: Seq<char>)
    requires
        s.contains(x),
    ensures
        last_pos(s, x) >= 0,
    decreases s.len(),
{
    if s.last() != x {
        let j = choose|j: int| 0 <= j < s.len() && s[j] == x;
        assert(j < s.len() - 1);
        assert(s.drop_last()[j] == x);
        lemma_last_pos_found_gg(s.drop_last(), x);
    }
}

/// A statement adds commits and edges, never removes them.
proof fn lemma_step_grows(s: GitStateV, st: GitGraphStatement)
    ensures
        git_step(s, st).commits.len() >= s.commits.len(),
        git_step(s, st).edges.len() >= s.edges.len(),
{
}

/// The commits and edges after the first `k` statements are at most those
/// after all of them.
proof fn lemma_run_grows(sts: Seq<GitGraphStatement>, k: int)
    requires
        0 <= k <= sts.len(),
    ensures
        git_run(sts.take(k)).commits.len() <= git_run(sts).commits.len(),
        git_run(sts.take(k)).edges.len() <= git_run(sts).edges.len(),
    decreases sts.len() - k,
{
    if k == sts.len() {
        assert(sts.take(k) =~= sts);
    } else {
        lemma_run_grows(sts, k + 1);
        assert(sts.take(k + 1).drop_last() =~= sts.take(k));
        lemma_step_grows(git_run(sts.take(k)), sts.take(k + 1).last());
    }
}

/// The commit history of a git graph: the statements run in order from
/// the branch `main` with no commits (see [`git_step`]). The commits and
/// the edges between them must each fit in petgraph's `u32` indices.
pub fn git_history(g: &GitGraphDiagram) -> (h: GitHistory)
    requires
        git_run(g.statements@).commits.len() <= 0xffff_ffff,
        git_run(g.statements@).edges.len() <= 0xffff_ffff,
    ensures
        layer_view(h.branches@) == git_run(g.statements@).branches,
        commits_view(h.commits@) == git_run(g.statements@).commits,
        digraph_nodes(h.dag) == identity(h.commits@.len() as int),
        digraph_edges(h.dag) == git_run(g.statements@).edges,
{
    let sts = &g.statements;
    let mut branches: Vec<String> = Vec::new();
    branches.push(String::from_str("main"));
    let mut heads: Vec<Option<usize>> = Vec::new();
    heads.push(None);
    let mut current: usize = 0;
    let mut commits: Vec<GitCommit> = Vec::new();
    let mut dag = graph_with_capacity(sts.len(), sts.len());
    let mut k: usize = 0;
    assert(sts@.take(0) =~= Seq::<GitGraphStatement>::empty());
    assert(layer_view(branches@) =~= seq!["main"@]);
    assert(commits_view(commits@) =~= Seq::<CommitV>::empty());
    assert(heads@ =~= seq![None]);
    assert(digraph_nodes(dag) =~= identity(0));
    while k < sts.len()
        invariant
            k <= sts@.len(),
            git_run(sts@).commits.len() <= 0xffff_ffff,
            git_run(sts@).edges.len() <= 0xffff_ffff,
            git_inv(git_run(sts@.take(k as int))),
            layer_view(branches@) == git_run(sts@.take(k as int)).branches,
            heads@ == git_run(sts@.take(k as int)).heads,
            current as int == git_run(sts@.take(k as int)).current,
            commits_view(commits@) == git_run(sts@.take(k as int)).commits,
            digraph_nodes(dag) == identity(commits@.len() as int),
            digraph_edges(dag) == git_run(sts@.take(k as int)).edges,
        decreases sts@.len() - k,
    {
        let ghost s = git_run(sts@.take(k as int));
        assert(sts@.take(k + 1).drop_last() =~= sts@.take(k as int));
        assert(sts@.take(k + 1).last() == sts@[k as int]);
        let ghost s2 = git_step(s, sts@[k as int]);
        proof {
            lemma_run_grows(sts@, k + 1);
            assert(git_run(sts@.take(k + 1)) == s2);
        }
        match &sts[k] {
            GitGraphStatement::Branch { name } => {
                let head = heads[current];
                let r = ensure_branch(&mut branches, &mut heads, name);
                match head {
                    Some(hd) => {
                        heads.set(r, Some(hd));
                    },
                    None => {},
                }
                current = r;
                proof {
                    lemma_last_pos_bounds(s.branches, name@);
                }
                assert(heads@ =~= s2.heads);
            },
            GitGraphStatement::Checkout { branch } => {
                let r = ensure_branch(&mut branches, &mut heads, branch);
                current = r;
                proof {
                    lemma_last_pos_bounds(s.branches, branch@);
                }
            },
            GitGraphStatement::Commit { tag, .. } => {
                let parent = heads[current];
                let t = match tag {
                    Some(t) => Some(t.clone()),
                    None => None,
                };
                proof {
                    lemma_single_parent(s, opt_view(*tag), false, parent);
                }
                commit_exec(&mut commits, &mut dag, &mut heads, current, t, false, parent, None, Ghost(s));
            },
            GitGraphStatement::Merge { branch, tag, .. } => {
                let p1 = heads[current];
                proof {
                    lemma_last_pos_bounds(s.branches, branch@);
                }
                let p2 = match find_last(&branches, branch) {
                    Some(r) => heads[r],
                    None => None,
                };
                let t = match tag {
                    Some(t) => t.clone(),
                    None => String::from_str("merge ").concat(branch.as_str()),
                };
                commit_exec(&mut commits, &mut dag, &mut heads, current, Some(t), true, p1, p2, Ghost(s));
            },
            GitGraphStatement::CherryPick { .. } => {
                let parent = heads[current];
                proof {
                    lemma_single_parent(s, None, false, parent);
                }
                commit_exec(&mut commits, &mut dag, &mut heads, current, None, false, parent, None, Ghost(s));
            },
        }
        assert(layer_view(branches@) == s2.branches);
        assert(heads@ == s2.heads);
        assert(commits_view(commits@) == s2.commits);
        assert(digraph_edges(dag) == s2.edges);
        k = k + 1;
    }
    assert(sts@.take(sts@.len() as int) =~= sts@);
    GitHistory { branches, commits, dag }
}

/// Adds a commit on branch row `current` with parents `p1` and `p2` (those
/// that exist, in that order), and makes it the branch's head.
fn commit_exec(
    commits: &mut Vec<GitCommit>,
    dag: &mut DiGraph<usize, ()>,
    heads: &mut Vec<Option<usize>>,
    current: usize,
    tag: Option<String>,
    is_merge: bool,
    p1: Option<usize>,
    p2: Option<usize>,
    Ghost(s): Ghost<GitStateV>,
) -> (k: usize)
    requires
        git_inv(s),
        s.current == current as int,
        s.heads == old(heads)@,
        commits_view(old(commits)@) == s.commits,
        digraph_nodes(*old(dag)) == identity(old(commits)@.len() as int),
        digraph_edges(*old(dag)) == s.edges,
        add_commit(s, opt_view(tag), is_merge, seq![p1, p2]).commits.len() <= 0xffff_ffff,
        add_commit(s, opt_view(tag), is_merge, seq![p1, p2]).edges.len() <= 0xffff_ffff,
        p1 is Some ==> (p1->0 as int) < old(commits)@.len(),
        p2 is Some ==> (p2->0 as int) < old(commits)@.len(),
    ensures
        k == old(commits)@.len(),
        git_inv(add_commit(s, opt_view(tag), is_merge, seq![p1, p2])),
        ({
            let s2 = add_commit(s, opt_view(tag), is_merge, seq![p1, p2]);
            &&& commits_view(final(commits)@) == s2.commits
            &&& final(heads)@ == s2.heads
            &&& digraph_nodes(*final(dag)) == identity(final(commits)@.len() as int)
            &&& digraph_edges(*final(dag)) == s2.edges
        }),
{
    let k = commits.len();
    let ghost t = opt_view(tag);
    proof {
        lemma_two_parents(p1, p2, k);
        assert(commits_view(commits@).len() == commits@.len());
    }
    let idx = graph_add_node(dag, k);
    assert(idx == k);
    assert(digraph_nodes(*dag) =~= identity(k + 1));
    let ghost e0 = digraph_edges(*dag);
    match p1 {
        Some(p) => {
            graph_add_edge(dag, p, k);
        },
        None => {},
    }
    match p2 {
        Some(p) => {
            graph_add_edge(dag, p, k);
        },
        None => {},
    }
    let ghost pe = parent_edges(seq![p1, p2], k);
    proof {
        lemma_two_parents(p1, p2, k);
    }
    assert(digraph_edges(*dag) =~= e0 + pe);
    commits.push(GitCommit { branch: current, tag, is_merge });
    heads.set(current, Some(k));
    let ghost s2 = add_commit(s, t, is_merge, seq![p1, p2]);
    assert(commits_view(commits@) =~= s2.commits);
    assert(heads@ =~= s2.heads);
    assert(git_inv(s2)) by {
        assert forall|j: int| 0 <= j < s2.edges.len() implies ((#[trigger] s2.edges[j]).0 as int) < s2.commits.len()
            && (s2.edges[j].1 as int) < s2.commits.len() by {
            if j >= s.edges.len() {
                assert(s2.edges[j] == pe[j - s.edges.len()]);
            }
        }
    }
    k
}

} // verus!
