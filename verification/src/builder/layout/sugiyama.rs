//! Network-simplex helpers of the layered layout, on a graph of nodes
//! `0..n` given by its edge list.

use vstd::prelude::*;

use crate::builder::state::{
    count_of, deg_view, edges_into, kahn, kahn_order, lemma_distinct_len, lemma_kahn_order_facts,
    lemma_kahn_order_leftover, lemma_relax_inv, lemma_zero_nodes, out_view, out_wf, queue_inv, relax, zero_nodes,
};

verus! {

// ---------------------------------------------------------------------------
// Longest-path ranks
// ---------------------------------------------------------------------------

/// Targets of the edges leaving `u`, in edge order.
pub open spec fn targets_of(es: Seq<(usize, usize)>, u: int) -> Seq<usize>
    decreases es.len(),
{
    if es.len() == 0 {
        Seq::empty()
    } else {
        let r = targets_of(es.drop_last(), u);
        if es.last().0 as int == u { r.push(es.last().1) } else { r }
    }
}

/// Number of edges entering `v`.
pub open spec fn indegree_of(es: Seq<(usize, usize)>, v: int) -> int
    decreases es.len(),
{
    if es.len() == 0 {
        0
    } else {
        indegree_of(es.drop_last(), v) + if es.last().1 as int == v { 1int } else { 0int }
    }
}

/// Adjacency lists of nodes `0..n`.
pub open spec fn adjacency(es: Seq<(usize, usize)>, n: int) -> Seq<Seq<usize>> {
    Seq::new(n as nat, |u: int| targets_of(es, u))
}

/// In-degrees of nodes `0..n`.
pub open spec fn indegrees(es: Seq<(usize, usize)>, n: int) -> Seq<int> {
    Seq::new(n as nat, |v: int| indegree_of(es, v))
}

/// Raises the rank of each target in `ts` to at least `r`.
pub open spec fn raise(rank: Seq<int>, ts: Seq<usize>, r: int) -> Seq<int>
    decreases ts.len(),
{
    if ts.len() == 0 {
        rank
    } else {
        let s = raise(rank, ts.drop_last(), r);
        let t = ts.last() as int;
        s.update(t, if s[t] >= r { s[t] } else { r })
    }
}

/// Ranks after the nodes of `order` are taken in turn, each raising its
/// targets to one more than its own rank.
pub open spec fn ranks_along(order: Seq<usize>, adj: Seq<Seq<usize>>, n: int) -> Seq<int>
    decreases order.len(),
{
    if order.len() == 0 {
        Seq::new(n as nat, |v: int| 0int)
    } else {
        let r = ranks_along(order.drop_last(), adj, n);
        let u = order.last() as int;
        raise(r, adj[u], r[u] + 1)
    }
}

/// The longest-path ranks: the nodes in Kahn's order, each raising its
/// targets to one more than its own rank.
pub open spec fn spec_longest_path_ranks(es: Seq<(usize, usize)>, n: int) -> Seq<int> {
    let adj = adjacency(es, n);
    ranks_along(kahn_order(indegrees(es, n), adj), adj, n)
}

proof fn lemma_targets_range(es: Seq<(usize, usize)>, u: int, n: int)
    requires
        forall|k: int| 0 <= k < es.len() ==> (#[trigger] es[k]).0 < n && es[k].1 < n,
    ensures
        forall|i: int| 0 <= i < targets_of(es, u).len() ==> (#[trigger] targets_of(es, u)[i] as int) < n,
    decreases es.len(),
{
    if es.len() > 0 {
        let t = es.drop_last();
        assert forall|k: int| 0 <= k < t.len() implies (#[trigger] t[k]).0 < n && t[k].1 < n by {
            assert(t[k] == es[k]);
        }
        lemma_targets_range(t, u, n);
        let r = targets_of(t, u);
        let x = es.last().1;
        assert(es.last() == es[es.len() - 1]);
        assert forall|i: int| 0 <= i < r.push(x).len() implies (#[trigger] r.push(x)[i] as int) < n by {
            if i < r.len() {
                assert(r.push(x)[i] == r[i]);
            }
        }
    }
}

proof fn lemma_indegree_le(es: Seq<(usize, usize)>, v: int)
    ensures
        0 <= indegree_of(es, v) <= es.len(),
    decreases es.len(),
{
    if es.len() > 0 {
        lemma_indegree_le(es.drop_last(), v);
    }
}

/// Initial ranks by longest path: Kahn's algorithm from the nodes without
/// incoming edges; each node taken raises its targets to one more than its
/// own rank. Nodes on a cycle are never taken; they keep the rank their
/// taken predecessors gave them (0 when there is none).
pub fn longest_path_ranks_scc(edges: &[(usize, usize)], n: usize) -> (rank: Vec<usize>)
    requires
        n < usize::MAX,
        forall|k: int| 0 <= k < edges@.len() ==> (#[trigger] edges@[k]).0 < n && edges@[k].1 < n,
    ensures
        rank@.len() == n,
        rank@.map_values(|x: usize| x as int) == spec_longest_path_ranks(edges@, n as int),
        edges_acyclic(edges@, n as int) ==> forall|v: int| 0 <= v < n ==> {
            &&& (forall|k: int| 0 <= k < edges@.len() ==> (#[trigger] edges@[k]).1 as int != v) ==> rank@[v] == 0
            &&& forall|k: int| 0 <= k < edges@.len() && (#[trigger] edges@[k]).1 as int == v
                ==> rank@[v] >= rank@[edges@[k].0 as int] + 1
            &&& (exists|k: int| 0 <= k < edges@.len() && (#[trigger] edges@[k]).1 as int == v) ==> exists|k: int|
                0 <= k < edges@.len() && (#[trigger] edges@[k]).1 as int == v && rank@[v] == rank@[edges@[k].0 as int] + 1
        },
{
    let (rank, _order) = kahn_ranks(edges, n);
    proof {
        if edges_acyclic(edges@, n as int) {
            let fin = choose|fin: Seq<int>| ordered_by(edges@, n as int, fin);
            let rv = rank@.map_values(|x: usize| x as int);
            assert forall|v: int| 0 <= v < n implies {
                &&& (forall|k: int| 0 <= k < edges@.len() ==> (#[trigger] edges@[k]).1 as int != v) ==> rank@[v] == 0
                &&& forall|k: int| 0 <= k < edges@.len() && (#[trigger] edges@[k]).1 as int == v
                    ==> rank@[v] >= rank@[edges@[k].0 as int] + 1
                &&& (exists|k: int| 0 <= k < edges@.len() && (#[trigger] edges@[k]).1 as int == v) ==> exists|k: int|
                    0 <= k < edges@.len() && (#[trigger] edges@[k]).1 as int == v && rank@[v] == rank@[edges@[k].0 as int] + 1
            } by {
                lemma_longest_path_ranks_acyclic(edges@, n as int, fin, v);
                assert(rv[v] == rank@[v] as int);
                assert forall|k: int| 0 <= k < edges@.len() implies rv[(#[trigger] edges@[k]).0 as int] == rank@[edges@[k].0 as int] as int by {}
            }
        }
    }
    rank
}

/// The edges leave no cycle: some numbering of the nodes drops along every
/// edge.
pub open spec fn edges_acyclic(es: Seq<(usize, usize)>, n: int) -> bool {
    exists|fin: Seq<int>| ordered_by(es, n, fin)
}

/// The longest-path ranks together with the order in which Kahn's algorithm
/// takes the nodes; no rank exceeds the number of nodes taken.
pub(crate) fn kahn_ranks(edges: &[(usize, usize)], n: usize) -> (r: (Vec<usize>, Vec<usize>))
    requires
        n < usize::MAX,
        forall|k: int| 0 <= k < edges@.len() ==> (#[trigger] edges@[k]).0 < n && edges@[k].1 < n,
    ensures
        r.0@.len() == n,
        r.0@.map_values(|x: usize| x as int) == spec_longest_path_ranks(edges@, n as int),
        r.1@ == kahn_order(indegrees(edges@, n as int), adjacency(edges@, n as int)),
        forall|i: int| 0 <= i < r.1@.len() ==> #[trigger] r.1@[i] < n,
        forall|v: int| 0 <= v < n ==> #[trigger] r.0@[v] <= n,
{
    let ghost es = edges@;
    let ghost adjv = adjacency(es, n as int);
    let ghost deg0 = indegrees(es, n as int);
    let mut indeg: Vec<usize> = Vec::new();
    let mut adj: Vec<Vec<usize>> = Vec::new();
    let mut rank: Vec<usize> = Vec::new();
    let mut i: usize = 0;
    while i < n
        invariant
            i <= n,
            indeg@.len() == i,
            adj@.len() == i,
            rank@.len() == i,
            forall|v: int| 0 <= v < i ==> #[trigger] indeg@[v] == 0,
            forall|v: int| 0 <= v < i ==> (#[trigger] adj@[v])@ == Seq::<usize>::empty(),
            forall|v: int| 0 <= v < i ==> #[trigger] rank@[v] == 0,
        decreases n - i,
    {
        indeg.push(0);
        adj.push(Vec::new());
        rank.push(0);
        i = i + 1;
    }
    let mut k: usize = 0;
    assert(es.take(0) =~= Seq::<(usize, usize)>::empty());
    while k < edges.len()
        invariant
            k <= es.len(),
            es == edges@,
            indeg@.len() == n,
            adj@.len() == n,
            forall|j: int| 0 <= j < es.len() ==> (#[trigger] es[j]).0 < n && es[j].1 < n,
            forall|v: int| 0 <= v < n ==> #[trigger] indeg@[v] as int == indegree_of(es.take(k as int), v),
            forall|v: int| 0 <= v < n ==> (#[trigger] adj@[v])@ == targets_of(es.take(k as int), v),
        decreases es.len() - k,
    {
        let ghost t = es.take(k + 1);
        assert(t.drop_last() =~= es.take(k as int));
        let (u, v) = edges[k];
        assert(t.last() == (u, v));
        proof {
            lemma_indegree_le(es.take(k as int), v as int);
        }
        let d = indeg[v];
        indeg.set(v, d + 1);
        let mut row = adj[u].clone();
        row.push(v);
        adj.set(u, row);
        k = k + 1;
    }
    assert(es.take(es.len() as int) =~= es);
    assert(deg_view(indeg@) =~= deg0);
    assert(out_view(adj@) =~= adjv);
    proof {
        assert forall|u: int, j: int| 0 <= u < n && 0 <= j < adjv[u].len() implies (#[trigger] adjv[u][j] as int) < n by {
            lemma_targets_range(es, u, n as int);
        }
        assert(out_wf(adjv, n as int));
    }
    let mut queue: Vec<usize> = Vec::new();
    let mut i: usize = 0;
    while i < n
        invariant
            i <= n,
            indeg@.len() == n,
            deg_view(indeg@) == deg0,
            queue@ == zero_nodes(deg0, i as int),
        decreases n - i,
    {
        if indeg[i] == 0 {
            assert(deg0[i as int] == 0);
            queue.push(i);
        } else {
            assert(deg0[i as int] != 0);
        }
        i = i + 1;
    }
    proof {
        lemma_zero_nodes(deg0, n as int);
        lemma_distinct_len(queue@, n as int);
    }
    let ghost fuel: int = n + 1;
    let mut head: usize = 0;
    assert(rank@.map_values(|x: usize| x as int) =~= ranks_along(queue@.take(0), adjv, n as int));
    while head < queue.len()
        invariant
            n < usize::MAX,
            adjv == out_view(adj@),
            out_wf(adjv, n as int),
            deg_view(indeg@).len() == n,
            rank@.len() == n,
            queue_inv(deg_view(indeg@), queue@),
            head <= queue@.len(),
            queue@.len() <= n,
            fuel == n + 1,
            kahn_order(deg0, adjv) == kahn(deg_view(indeg@), queue@, head as int, adjv, (fuel - head) as nat),
            rank@.map_values(|x: usize| x as int) == ranks_along(queue@.take(head as int), adjv, n as int),
            forall|v: int| 0 <= v < n ==> #[trigger] rank@[v] <= head,
        decreases n - head,
    {
        let ghost dv = deg_view(indeg@);
        let ghost qv = queue@;
        let ghost rv = rank@.map_values(|x: usize| x as int);
        let u = queue[head];
        let ru = rank[u];
        let outs = &adj[u];
        assert(outs@ == adjv[u as int]);
        let mut k: usize = 0;
        assert(outs@.take(0) =~= Seq::<usize>::empty());
        while k < outs.len()
            invariant
                k <= outs@.len(),
                indeg@.len() == n,
                rank@.len() == n,
                ru <= head,
                head < n,
                rv[u as int] == ru as int,
                forall|j: int| 0 <= j < outs@.len() ==> (#[trigger] outs@[j] as int) < n,
                (deg_view(indeg@), queue@) == relax(dv, qv, outs@.take(k as int)),
                rank@.map_values(|x: usize| x as int) == raise(rv, outs@.take(k as int), ru + 1),
                forall|v: int| 0 <= v < n ==> #[trigger] rank@[v] <= head + 1,
            decreases outs@.len() - k,
        {
            let ghost tt = outs@.take(k + 1);
            assert(tt.drop_last() =~= outs@.take(k as int));
            let t = outs[k];
            assert(tt.last() == t);
            let rt = rank[t];
            if rt < ru + 1 {
                rank.set(t, ru + 1);
            }
            assert(rank@.map_values(|x: usize| x as int) =~= raise(rv, tt, ru + 1));
            let d = indeg[t];
            if d > 0 {
                indeg.set(t, d - 1);
            }
            if d == 1 {
                queue.push(t);
            }
            assert(deg_view(indeg@) =~= relax(dv, qv, tt).0);
            k = k + 1;
        }
        assert(outs@.take(outs@.len() as int) =~= outs@);
        proof {
            assert forall|j: int| 0 <= j < outs@.len() implies (#[trigger] outs@[j] as int) < dv.len() by {}
            lemma_relax_inv(dv, qv, outs@);
            lemma_distinct_len(queue@, n as int);
            let q2 = queue@;
            assert(q2.take(head + 1).drop_last() =~= qv.take(head as int)) by {
                assert forall|j: int| 0 <= j < head implies q2[j] == qv[j] by {}
            }
            assert(q2.take(head + 1).last() == u);
        }
        head = head + 1;
    }
    proof {
        assert(queue@.take(head as int) =~= queue@);
    }
    (rank, queue)
}

// ---------------------------------------------------------------------------
// Feasible tree
// ---------------------------------------------------------------------------

/// The ranks as integers.
pub open spec fn rank_view(rank: Seq<usize>) -> Seq<int> {
    rank.map_values(|x: usize| x as int)
}

/// Candidate parent of `v`: among the sources of the edges into `v` that
/// rank strictly below it, the first one of least rank.
pub open spec fn cand_parent(es: Seq<(usize, usize)>, rank: Seq<int>, v: int) -> Option<usize>
    decreases es.len(),
{
    if es.len() == 0 {
        None
    } else {
        let c = cand_parent(es.drop_last(), rank, v);
        let (u, w) = es.last();
        if w as int == v && rank[w as int] > rank[u as int] {
            match c {
                None => Some(u),
                Some(p) => if rank[p as int] > rank[u as int] { Some(u) } else { c },
            }
        } else {
            c
        }
    }
}

/// An initial spanning forest from the ranks: every node below `n` gets as
/// tree parent its candidate parent (see [`cand_parent`]), and the tree edge
/// from that parent; every other entry is cleared. Each node is given a
/// parent at most once, so the order in which nodes are visited does not
/// change the result.
pub fn build_feasible_tree(
    edges: &[(usize, usize)],
    rank: &[usize],
    n: usize,
    parent: &mut Vec<Option<usize>>,
    tree_edge: &mut Vec<Option<(usize, usize)>>,
)
    requires
        forall|k: int| 0 <= k < edges@.len() ==> (#[trigger] edges@[k]).0 < n && edges@[k].1 < n,
        n <= rank@.len(),
        n <= old(parent)@.len(),
        n <= old(tree_edge)@.len(),
    ensures
        final(parent)@.len() == old(parent)@.len(),
        final(tree_edge)@.len() == old(tree_edge)@.len(),
        forall|u: int| 0 <= u < final(parent)@.len() ==> #[trigger] final(parent)@[u]
            == if u < n { cand_parent(edges@, rank_view(rank@), u) } else { None },
        forall|u: int| 0 <= u < final(tree_edge)@.len() ==> #[trigger] final(tree_edge)@[u]
            == if u < n {
                match cand_parent(edges@, rank_view(rank@), u) {
                    Some(p) => Some((p, u as usize)),
                    None => None,
                }
            } else {
                None
            },
{
    let ghost rv = rank_view(rank@);
    let ghost es = edges@;
    let mut i: usize = 0;
    while i < parent.len()
        invariant
            i <= parent@.len(),
            parent@.len() == old(parent)@.len(),
            forall|u: int| 0 <= u < i ==> #[trigger] parent@[u] is None,
        decreases parent@.len() - i,
    {
        parent.set(i, None);
        i = i + 1;
    }
    let mut i: usize = 0;
    while i < tree_edge.len()
        invariant
            i <= tree_edge@.len(),
            tree_edge@.len() == old(tree_edge)@.len(),
            forall|u: int| 0 <= u < i ==> #[trigger] tree_edge@[u] is None,
        decreases tree_edge@.len() - i,
    {
        tree_edge.set(i, None);
        i = i + 1;
    }
    let mut candidate: Vec<Option<usize>> = Vec::new();
    let mut i: usize = 0;
    while i < n
        invariant
            i <= n,
            candidate@.len() == i,
            forall|u: int| 0 <= u < i ==> #[trigger] candidate@[u] is None,
        decreases n - i,
    {
        candidate.push(None);
        i = i + 1;
    }
    let mut k: usize = 0;
    assert(es.take(0) =~= Seq::<(usize, usize)>::empty());
    while k < edges.len()
        invariant
            k <= es.len(),
            es == edges@,
            rv == rank_view(rank@),
            n <= rank@.len(),
            candidate@.len() == n,
            forall|j: int| 0 <= j < es.len() ==> (#[trigger] es[j]).0 < n && es[j].1 < n,
            forall|v: int| 0 <= v < n ==> #[trigger] candidate@[v] == cand_parent(es.take(k as int), rv, v),
            forall|v: int| 0 <= v < n && (#[trigger] candidate@[v]) is Some ==> (candidate@[v]->0 as int) < n,
        decreases es.len() - k,
    {
        let ghost t = es.take(k + 1);
        assert(t.drop_last() =~= es.take(k as int));
        let (u, v) = edges[k];
        assert(t.last() == (u, v));
        if rank[v] > rank[u] {
            match candidate[v] {
                None => {
                    candidate.set(v, Some(u));
                },
                Some(p) => {
                    if rank[p] > rank[u] {
                        candidate.set(v, Some(u));
                    }
                },
            }
        }
        k = k + 1;
    }
    assert(es.take(es.len() as int) =~= es);
    let mut u: usize = 0;
    while u < n
        invariant
            u <= n,
            n <= parent@.len(),
            n <= tree_edge@.len(),
            parent@.len() == old(parent)@.len(),
            tree_edge@.len() == old(tree_edge)@.len(),
            candidate@.len() == n,
            forall|v: int| 0 <= v < n ==> #[trigger] candidate@[v] == cand_parent(es, rv, v),
            forall|w: int| u <= w < parent@.len() ==> #[trigger] parent@[w] is None,
            forall|w: int| u <= w < tree_edge@.len() ==> #[trigger] tree_edge@[w] is None,
            forall|w: int| 0 <= w < u ==> #[trigger] parent@[w] == candidate@[w],
            forall|w: int| 0 <= w < u ==> #[trigger] tree_edge@[w] == match candidate@[w] {
                Some(p) => Some((p, w as usize)),
                None => None,
            },
        decreases n - u,
    {
        match candidate[u] {
            Some(p) => {
                if parent[u].is_none() {
                    parent.set(u, Some(p));
                    tree_edge.set(u, Some((p, u)));
                }
            },
            None => {},
        }
        u = u + 1;
    }
}

// ---------------------------------------------------------------------------
// Subtrees of the tree
// ---------------------------------------------------------------------------

/// The node reached from `u` by `k` steps up the parent links.
pub open spec fn ancestor(parent: Seq<Option<usize>>, u: int, k: nat) -> Option<int>
    decreases k,
{
    if k == 0 {
        Some(u)
    } else if 0 <= u < parent.len() && parent[u] is Some {
        ancestor(parent, parent[u]->0 as int, (k - 1) as nat)
    } else {
        None
    }
}

/// `u` lies in the subtree of `root`: `root` is reached from `u` up the
/// parent links (in zero or more steps).
pub open spec fn in_subtree(parent: Seq<Option<usize>>, root: int, u: int) -> bool {
    exists|k: nat| ancestor(parent, u, k) == Some(root)
}

/// The parent links form a forest: every parent has a lower depth than its
/// children.
pub open spec fn forest_by(parent: Seq<Option<usize>>, depth: Seq<int>) -> bool {
    &&& depth.len() == parent.len()
    &&& forall|v: int| 0 <= v < parent.len() ==> 0 <= #[trigger] depth[v]
    &&& forall|v: int| 0 <= v < parent.len() && (#[trigger] parent[v]) is Some ==>
        (parent[v]->0 as int) < parent.len() && depth[parent[v]->0 as int] < depth[v]
}

/// The parent links form a forest.
pub open spec fn is_forest(parent: Seq<Option<usize>>) -> bool {
    exists|depth: Seq<int>| forest_by(parent, depth)
}

/// A rank moved by `delta`, not below 0.
pub open spec fn shifted(r: int, delta: int) -> int {
    if r + delta >= 0 { r + delta } else { 0 }
}

proof fn lemma_ancestor_depth(parent: Seq<Option<usize>>, depth: Seq<int>, u: int, k: nat, root: int)
    requires
        forest_by(parent, depth),
        0 <= u < parent.len(),
        ancestor(parent, u, k) == Some(root),
    ensures
        0 <= root < parent.len(),
        depth[root] + k <= depth[u],
    decreases k,
{
    if k > 0 {
        let p = parent[u]->0 as int;
        lemma_ancestor_depth(parent, depth, p, (k - 1) as nat, root);
    }
}

/// The children lists: `children[p]` holds, in order, the nodes whose
/// parent is `p`.
pub open spec fn children_of_upto(parent: Seq<Option<usize>>, p: int, k: int) -> Seq<usize>
    decreases k,
{
    if k <= 0 {
        Seq::empty()
    } else {
        let r = children_of_upto(parent, p, k - 1);
        if parent[k - 1] == Some(p as usize) { r.push((k - 1) as usize) } else { r }
    }
}

proof fn lemma_children(parent: Seq<Option<usize>>, p: int, k: int)
    requires
        0 <= k <= parent.len(),
        parent.len() <= usize::MAX,
        0 <= p,
    ensures
        children_of_upto(parent, p, k).no_duplicates(),
        forall|i: int| 0 <= i < children_of_upto(parent, p, k).len() ==>
            (#[trigger] children_of_upto(parent, p, k)[i] as int) < k
            && parent[children_of_upto(parent, p, k)[i] as int] == Some(p as usize),
        forall|c: int| 0 <= c < k && parent[c] == Some(p as usize) ==> #[trigger] children_of_upto(parent, p, k).contains(c as usize),
    decreases k,
{
    if k > 0 {
        lemma_children(parent, p, k - 1);
        let r = children_of_upto(parent, p, k - 1);
        let x = (k - 1) as usize;
        if parent[k - 1] == Some(p as usize) {
            let z = r.push(x);
            assert forall|i: int| 0 <= i < z.len() implies (#[trigger] z[i] as int) < k && parent[z[i] as int] == Some(p as usize) by {
                if i < r.len() {
                    assert(z[i] == r[i]);
                }
            }
            assert forall|c: int| 0 <= c < k && parent[c] == Some(p as usize) implies #[trigger] z.contains(c as usize) by {
                if c < k - 1 {
                    assert(r.contains(c as usize));
                    let i = choose|i: int| 0 <= i < r.len() && r[i] == c as usize;
                    assert(z[i] == c as usize);
                } else {
                    assert(z[r.len() as int] == x);
                }
            }
            assert forall|i: int, j: int| 0 <= i < j < z.len() implies z[i] != z[j] by {
                if j == r.len() {
                    assert(z[i] == r[i]);
                }
            }
        } else {
            assert forall|c: int| 0 <= c < k && parent[c] == Some(p as usize) implies #[trigger] r.contains(c as usize) by {
                if c < k - 1 {
                    assert(r.contains(c as usize));
                }
            }
        }
    }
}

/// Children lists of all nodes below `n`.
fn build_children(parent: &Vec<Option<usize>>, n: usize) -> (children: Vec<Vec<usize>>)
    requires
        n <= parent@.len(),
        forall|v: int| 0 <= v < n && (#[trigger] parent@[v]) is Some ==> (parent@[v]->0 as int) < n,
    ensures
        children@.len() == n,
        forall|p: int| 0 <= p < n ==> (#[trigger] children@[p])@ == children_of_upto(parent@, p, n as int),
{
    let mut children: Vec<Vec<usize>> = Vec::new();
    let mut i: usize = 0;
    while i < n
        invariant
            i <= n,
            children@.len() == i,
            forall|p: int| 0 <= p < i ==> (#[trigger] children@[p])@ == Seq::<usize>::empty(),
        decreases n - i,
    {
        children.push(Vec::new());
        i = i + 1;
    }
    let mut v: usize = 0;
    while v < n
        invariant
            v <= n,
            n <= parent@.len(),
            children@.len() == n,
            forall|w: int| 0 <= w < n && (#[trigger] parent@[w]) is Some ==> (parent@[w]->0 as int) < n,
            forall|p: int| 0 <= p < n ==> (#[trigger] children@[p])@ == children_of_upto(parent@, p, v as int),
        decreases n - v,
    {
        match parent[v] {
            Some(p) => {
                let mut row = children[p].clone();
                row.push(v);
                children.set(p, row);
            },
            None => {},
        }
        v = v + 1;
    }
    children
}

/// `x` has been met by the search: taken or waiting on the stack.
pub open spec fn met(sub: Seq<usize>, stack: Seq<usize>, x: usize) -> bool {
    sub.contains(x) || stack.contains(x)
}

/// Invariant of the search of the subtree of `root`: taken and waiting
/// nodes are distinct subtree nodes, each one the root or a child of a taken
/// node; the children of taken nodes have all been met; the root has been
/// met.
pub open spec fn search_inv(parent: Seq<Option<usize>>, n: int, root: usize, sub: Seq<usize>, stack: Seq<usize>) -> bool {
    &&& sub.no_duplicates()
    &&& stack.no_duplicates()
    &&& forall|i: int, j: int| 0 <= i < sub.len() && 0 <= j < stack.len() ==> sub[i] != stack[j]
    &&& forall|x: usize| #[trigger] met(sub, stack, x) ==> (x as int) < n && in_subtree(parent, root as int, x as int)
        && (x == root || (parent[x as int] is Some && sub.contains(parent[x as int]->0)))
    &&& forall|x: usize, c: int| #![trigger sub.contains(x), parent[c]] sub.contains(x) && 0 <= c < n && parent[c] == Some(x)
        ==> met(sub, stack, c as usize)
    &&& met(sub, stack, root)
}

proof fn lemma_search_step(
    parent: Seq<Option<usize>>,
    depth: Seq<int>,
    n: int,
    root: usize,
    sub: Seq<usize>,
    stack: Seq<usize>,
)
    requires
        search_inv(parent, n, root, sub, stack),
        stack.len() > 0,
        forest_by(parent, depth),
        n <= parent.len(),
        parent.len() <= usize::MAX,
        forall|v: int| 0 <= v < n && (#[trigger] parent[v]) is Some ==> (parent[v]->0 as int) < n,
    ensures
        search_inv(parent, n, root, sub.push(stack.last()), stack.drop_last() + children_of_upto(parent, stack.last() as int, n)),
{
    let u = stack.last();
    let sub1 = sub.push(u);
    let st1 = stack.drop_last();
    let cs = children_of_upto(parent, u as int, n);
    let st2 = st1 + cs;
    lemma_children(parent, u as int, n);
    assert(stack.contains(u)) by {
        assert(stack[stack.len() - 1] == u);
    }
    assert(met(sub, stack, u));
    assert(!sub.contains(u)) by {
        if sub.contains(u) {
            let i = choose|i: int| 0 <= i < sub.len() && sub[i] == u;
            assert(sub[i] != stack[stack.len() - 1]);
        }
    }
    let ku = choose|k: nat| ancestor(parent, u as int, k) == Some(root as int);
    lemma_ancestor_depth(parent, depth, u as int, ku, root as int);
    // The children of `u` were not met before.
    assert forall|j: int| 0 <= j < cs.len() implies !met(sub, stack, #[trigger] cs[j]) && cs[j] != u by {
        let c = cs[j];
        assert(parent[c as int] == Some(u));
        assert(depth[u as int] < depth[c as int]);
        if met(sub, stack, c) {
            if c == root {
                assert(depth[root as int] <= depth[u as int]);
            } else {
                assert(sub.contains(u));
            }
        }
    }
    assert(sub1.no_duplicates()) by {
        assert forall|i: int, j: int| 0 <= i < j < sub1.len() implies sub1[i] != sub1[j] by {
            if j == sub.len() {
                assert(sub1[i] == sub[i]);
                assert(sub.contains(sub[i]));
            }
        }
    }
    assert(st2.no_duplicates()) by {
        assert forall|i: int, j: int| 0 <= i < j < st2.len() implies st2[i] != st2[j] by {
            if j >= st1.len() {
                if i < st1.len() {
                    assert(st2[i] == stack[i]);
                    assert(stack.contains(stack[i]));
                    assert(!met(sub, stack, cs[j - st1.len()]));
                } else {
                    assert(st2[i] == cs[i - st1.len()]);
                    assert(st2[j] == cs[j - st1.len()]);
                }
            } else {
                assert(st2[i] == stack[i] && st2[j] == stack[j]);
            }
        }
    }
    assert forall|i: int, j: int| 0 <= i < sub1.len() && 0 <= j < st2.len() implies sub1[i] != st2[j] by {
        if j < st1.len() {
            assert(st2[j] == stack[j]);
            if i == sub.len() {
                assert(stack[j] != stack[stack.len() - 1]);
            } else {
                assert(sub1[i] == sub[i]);
            }
        } else {
            let c = cs[j - st1.len()];
            assert(st2[j] == c);
            assert(!met(sub, stack, c) && c != u);
            if i < sub.len() {
                assert(sub1[i] == sub[i]);
                assert(sub.contains(sub[i]));
            }
        }
    }
    assert forall|x: usize| #[trigger] met(sub1, st2, x) implies met(sub, stack, x) || x == u || cs.contains(x) by {
        if sub1.contains(x) {
            let i = choose|i: int| 0 <= i < sub1.len() && sub1[i] == x;
            if i < sub.len() {
                assert(sub[i] == x);
            }
        }
        if st2.contains(x) {
            let j = choose|j: int| 0 <= j < st2.len() && st2[j] == x;
            if j < st1.len() {
                assert(stack[j] == x);
                assert(stack.contains(x));
            } else {
                assert(cs[j - st1.len()] == x);
            }
        }
    }
    assert forall|x: usize| sub.contains(x) implies sub1.contains(x) by {
        let i = choose|i: int| 0 <= i < sub.len() && sub[i] == x;
        assert(sub1[i] == x);
    }
    assert forall|x: usize| met(sub, stack, x) implies met(sub1, st2, x) by {
        if stack.contains(x) && !sub.contains(x) {
            let j = choose|j: int| 0 <= j < stack.len() && stack[j] == x;
            if j == stack.len() - 1 {
                assert(sub1[sub.len() as int] == x);
            } else {
                assert(st2[j] == x);
            }
        }
    }
    assert forall|x: usize| #[trigger] met(sub1, st2, x) implies (x as int) < n && in_subtree(parent, root as int, x as int)
        && (x == root || (parent[x as int] is Some && sub1.contains(parent[x as int]->0))) by {
        if met(sub, stack, x) {
        } else if x == u {
        } else {
            assert(cs.contains(x));
            let j = choose|j: int| 0 <= j < cs.len() && cs[j] == x;
            assert(parent[x as int] == Some(u));
            assert(ancestor(parent, x as int, (ku + 1) as nat) == ancestor(parent, u as int, ku));
            assert(sub1[sub.len() as int] == u);
        }
    }
    assert forall|x: usize, c: int| #![trigger sub1.contains(x), parent[c]] sub1.contains(x) && 0 <= c < n && parent[c] == Some(x)
        implies met(sub1, st2, c as usize) by {
        let i = choose|i: int| 0 <= i < sub1.len() && sub1[i] == x;
        if i < sub.len() {
            assert(sub.contains(x));
            assert(met(sub, stack, c as usize));
        } else {
            assert(x == u);
            assert(cs.contains(c as usize));
            let j = choose|j: int| 0 <= j < cs.len() && cs[j] == c as usize;
            assert(st2[st1.len() + j] == c as usize);
        }
    }
}

proof fn lemma_search_complete(
    parent: Seq<Option<usize>>,
    n: int,
    root: usize,
    sub: Seq<usize>,
    u: int,
    k: nat,
)
    requires
        search_inv(parent, n, root, sub, Seq::empty()),
        0 <= u < n,
        n <= parent.len(),
        ancestor(parent, u, k) == Some(root as int),
        forall|v: int| 0 <= v < n && (#[trigger] parent[v]) is Some ==> (parent[v]->0 as int) < n,
    ensures
        sub.contains(u as usize),
    decreases k,
{
    let e = Seq::<usize>::empty();
    if k == 0 {
        assert(met(sub, e, root));
    } else {
        let p = parent[u]->0 as int;
        lemma_search_complete(parent, n, root, sub, p, (k - 1) as nat);
        assert(met(sub, e, u as usize));
    }
}

/// The nodes of the subtree of `root`, each once.
fn collect_subtree(children: &Vec<Vec<usize>>, root: usize, Ghost(parent): Ghost<Seq<Option<usize>>>, Ghost(depth): Ghost<Seq<int>>) -> (sub: Vec<usize>)
    requires
        children@.len() <= parent.len(),
        parent.len() <= usize::MAX,
        root < children@.len(),
        forest_by(parent, depth),
        forall|v: int| 0 <= v < children@.len() && (#[trigger] parent[v]) is Some ==> (parent[v]->0 as int) < children@.len(),
        forall|p: int| 0 <= p < children@.len() ==> (#[trigger] children@[p])@ == children_of_upto(parent, p, children@.len() as int),
    ensures
        sub@.no_duplicates(),
        forall|i: int| 0 <= i < sub@.len() ==> (#[trigger] sub@[i] as int) < children@.len(),
        forall|u: int| 0 <= u < children@.len() ==> (sub@.contains(u as usize) <==> #[trigger] in_subtree(parent, root as int, u)),
{
    let n = children.len();
    let mut stack: Vec<usize> = Vec::new();
    let mut sub: Vec<usize> = Vec::new();
    stack.push(root);
    proof {
        assert(ancestor(parent, root as int, 0) == Some(root as int));
        assert(stack@[0] == root);
        assert(met(sub@, stack@, root));
        assert forall|x: usize| #[trigger] met(sub@, stack@, x) implies x == root by {
            if stack@.contains(x) {
                let j = choose|j: int| 0 <= j < stack@.len() && stack@[j] == x;
            }
        }
    }
    while stack.len() > 0
        invariant
            n == children@.len(),
            n <= parent.len(),
            parent.len() <= usize::MAX,
            root < n,
            forest_by(parent, depth),
            forall|v: int| 0 <= v < n && (#[trigger] parent[v]) is Some ==> (parent[v]->0 as int) < n,
            forall|p: int| 0 <= p < n ==> (#[trigger] children@[p])@ == children_of_upto(parent, p, n as int),
            search_inv(parent, n as int, root, sub@, stack@),
        decreases n - sub@.len(),
    {
        proof {
            lemma_search_step(parent, depth, n as int, root, sub@, stack@);
            assert forall|i: int| 0 <= i < sub@.push(stack@.last()).len() implies
                (#[trigger] sub@.push(stack@.last())[i] as int) < n by {
                let x = sub@.push(stack@.last())[i];
                assert(sub@.push(stack@.last()).contains(x));
                assert(met(sub@.push(stack@.last()), stack@.drop_last() + children_of_upto(parent, stack@.last() as int, n as int), x));
            }
            lemma_distinct_len(sub@.push(stack@.last()), n as int);
            assert(stack@[stack@.len() - 1] == stack@.last());
            assert(met(sub@, stack@, stack@.last()));
        }
        let ghost sub0 = sub@;
        let ghost stack0 = stack@;
        let u = stack.pop().unwrap();
        assert(u == stack0.last() && stack@ == stack0.drop_last());
        sub.push(u);
        let cs = &children[u];
        let ghost st1 = stack@;
        let mut j: usize = 0;
        assert(cs@.take(0) =~= Seq::<usize>::empty());
        assert(st1 + cs@.take(0) =~= st1);
        while j < cs.len()
            invariant
                j <= cs@.len(),
                stack@ == st1 + cs@.take(j as int),
            decreases cs@.len() - j,
        {
            stack.push(cs[j]);
            assert(st1 + cs@.take(j + 1) =~= (st1 + cs@.take(j as int)).push(cs@[j as int]));
            j = j + 1;
        }
        assert(cs@.take(cs@.len() as int) =~= cs@);
        assert(sub@ == sub0.push(stack0.last()));
        assert(stack@ == stack0.drop_last() + children_of_upto(parent, stack0.last() as int, n as int));
    }
    proof {
        assert(stack@ =~= Seq::<usize>::empty());
        assert forall|i: int| 0 <= i < sub@.len() implies (#[trigger] sub@[i] as int) < n by {
            assert(sub@.contains(sub@[i]));
            assert(met(sub@, stack@, sub@[i]));
        }
        assert forall|u: int| 0 <= u < n implies (sub@.contains(u as usize) <==> #[trigger] in_subtree(parent, root as int, u)) by {
            if sub@.contains(u as usize) {
                assert(met(sub@, stack@, u as usize));
            }
            if in_subtree(parent, root as int, u) {
                let k = choose|k: nat| ancestor(parent, u, k) == Some(root as int);
                lemma_search_complete(parent, n as int, root, sub@, u, k);
            }
        }
    }
    sub
}

/// Moves the ranks of the subtree of `root` by `delta` (not below 0); the
/// other ranks stay.
pub fn shift_subtree_rank(root: usize, parent: &Vec<Option<usize>>, rank: &mut Vec<usize>, delta: i64, _n: usize)
    requires
        old(rank)@.len() <= parent@.len(),
        root < old(rank)@.len(),
        is_forest(parent@),
        forall|v: int| 0 <= v < old(rank)@.len() && (#[trigger] parent@[v]) is Some ==> (parent@[v]->0 as int) < old(rank)@.len(),
        forall|v: int| 0 <= v < old(rank)@.len() ==> #[trigger] old(rank)@[v] < 0x4000_0000_0000_0000,
        forall|v: int| 0 <= v < old(rank)@.len() ==> #[trigger] old(rank)@[v] + delta <= usize::MAX,
        -0x4000_0000_0000_0000 < delta < 0x4000_0000_0000_0000,
    ensures
        final(rank)@.len() == old(rank)@.len(),
        forall|u: int| 0 <= u < old(rank)@.len() ==> #[trigger] final(rank)@[u] as int
            == if in_subtree(parent@, root as int, u) { shifted(old(rank)@[u] as int, delta as int) } else { old(rank)@[u] as int },
{
    let n = rank.len();
    let pl = parent.len();
    assert(parent@.len() == pl);
    let ghost depth = choose|depth: Seq<int>| forest_by(parent@, depth);
    let children = build_children(parent, n);
    let subtree = collect_subtree(&children, root, Ghost(parent@), Ghost(depth));
    let ghost r0 = rank@;
    let mut i: usize = 0;
    while i < subtree.len()
        invariant
            i <= subtree@.len(),
            rank@.len() == n,
            r0.len() == n,
            subtree@.no_duplicates(),
            forall|j: int| 0 <= j < subtree@.len() ==> (#[trigger] subtree@[j] as int) < n,
            forall|v: int| 0 <= v < n ==> #[trigger] r0[v] < 0x4000_0000_0000_0000,
            forall|v: int| 0 <= v < n ==> #[trigger] r0[v] + delta <= usize::MAX,
            -0x4000_0000_0000_0000 < delta < 0x4000_0000_0000_0000,
            forall|u: int| 0 <= u < n ==> #[trigger] rank@[u] as int
                == if subtree@.take(i as int).contains(u as usize) { shifted(r0[u] as int, delta as int) } else { r0[u] as int },
        decreases subtree@.len() - i,
    {
        let u = subtree[i];
        proof {
            assert(!subtree@.take(i as int).contains(u)) by {
                if subtree@.take(i as int).contains(u) {
                    let t0 = subtree@.take(i as int);
                    let j = choose|j: int| 0 <= j < t0.len() && #[trigger] t0[j] == u;
                    assert(subtree@[j] == subtree@[i as int]);
                }
            }
            assert(rank@[u as int] == r0[u as int]);
        }
        let r = rank[u] as i64;
        let moved: usize = if delta >= 0 {
            (r + delta) as usize
        } else {
            let s = r + delta;
            if s > 0 { s as usize } else { 0 }
        };
        rank.set(u, moved);
        proof {
            assert forall|w: int| 0 <= w < n implies (#[trigger] subtree@.take(i + 1).contains(w as usize)
                <==> (subtree@.take(i as int).contains(w as usize) || w == u as int)) by {
                if subtree@.take(i + 1).contains(w as usize) {
                    let t1 = subtree@.take(i + 1);
                    let j = choose|j: int| 0 <= j < t1.len() && #[trigger] t1[j] == w as usize;
                    if j < i {
                        assert(subtree@.take(i as int)[j] == w as usize);
                    }
                }
                if subtree@.take(i as int).contains(w as usize) {
                    let t0 = subtree@.take(i as int);
                    let j = choose|j: int| 0 <= j < t0.len() && #[trigger] t0[j] == w as usize;
                    assert(subtree@.take(i + 1)[j] == w as usize);
                }
                if w == u as int {
                    assert(subtree@.take(i + 1)[i as int] == u);
                }
            }
        }
        i = i + 1;
    }
    assert(subtree@.take(subtree@.len() as int) =~= subtree@);
}

// ---------------------------------------------------------------------------
// Exchange of a tree edge
// ---------------------------------------------------------------------------

/// `p` is the path from `u` up the parent links to its root.
pub open spec fn is_up_path(parent: Seq<Option<usize>>, u: int, p: Seq<usize>) -> bool {
    &&& p.len() >= 1
    &&& p[0] as int == u
    &&& forall|i: int| 0 <= i < p.len() ==> (#[trigger] p[i] as int) < parent.len()
    &&& forall|i: int| 0 <= i < p.len() - 1 ==> parent[#[trigger] p[i] as int] == Some(p[i + 1])
    &&& parent[p.last() as int] is None
}

/// The path from `u` up to its root.
pub open spec fn up_path(parent: Seq<Option<usize>>, u: int) -> Seq<usize> {
    choose|p: Seq<usize>| is_up_path(parent, u, p)
}

proof fn lemma_up_path_unique(parent: Seq<Option<usize>>, u: int, p: Seq<usize>, q: Seq<usize>)
    requires
        is_up_path(parent, u, p),
        is_up_path(parent, u, q),
    ensures
        p == q,
    decreases p.len(),
{
    if p.len() == 1 {
        if q.len() > 1 {
            assert(parent[q[0] as int] == Some(q[1]));
        }
        assert(p =~= q);
    } else {
        assert(parent[p[0] as int] == Some(p[1]));
        if q.len() == 1 {
            assert(parent[q.last() as int] is None);
        }
        assert(parent[q[0] as int] == Some(q[1]));
        let p2 = p.drop_first();
        let q2 = q.drop_first();
        assert forall|i: int| 0 <= i < p2.len() - 1 implies parent[#[trigger] p2[i] as int] == Some(p2[i + 1]) by {
            assert(parent[p[i + 1] as int] == Some(p[i + 2]));
        }
        assert forall|i: int| 0 <= i < q2.len() - 1 implies parent[#[trigger] q2[i] as int] == Some(q2[i + 1]) by {
            assert(parent[q[i + 1] as int] == Some(q[i + 2]));
        }
        assert forall|i: int| 0 <= i < p2.len() implies (#[trigger] p2[i] as int) < parent.len() by {
            assert(p[i + 1] == p2[i]);
        }
        assert forall|i: int| 0 <= i < q2.len() implies (#[trigger] q2[i] as int) < parent.len() by {
            assert(q[i + 1] == q2[i]);
        }
        lemma_up_path_unique(parent, p[1] as int, p2, q2);
        assert(p =~= seq![p[0]] + p2);
        assert(q =~= seq![q[0]] + q2);
    }
}

/// First index of `x` in `s` from `i` on, or -1.
pub open spec fn first_pos_from(s: Seq<usize>, x: usize, i: int) -> int
    decreases s.len() - i,
{
    if i < 0 || i >= s.len() {
        -1
    } else if s[i] == x {
        i
    } else {
        first_pos_from(s, x, i + 1)
    }
}

/// First index in `pb`, before its last node, of a node that `pa` holds,
/// from `j` on; -1 when there is none.
pub open spec fn meet_from(pb: Seq<usize>, pa: Seq<usize>, j: int) -> int
    decreases pb.len() - j,
{
    if j < 0 || j >= pb.len() - 1 {
        -1
    } else if pa.contains(pb[j]) {
        j
    } else {
        meet_from(pb, pa, j + 1)
    }
}

/// The ends of an entering edge, lower rank first.
pub open spec fn oriented_ends(rank: Seq<usize>, eu: usize, ev: usize) -> (usize, usize) {
    if rank[ev as int] >= rank[eu as int] { (eu, ev) } else { (ev, eu) }
}

/// The node whose tree edge leaves: with `pa` and `pb` the paths from the
/// two ends up to their roots, the first node of `pb`'s part below where it
/// meets `pa`; when `b` itself lies on `pa`, the node after it on `pa`.
pub open spec fn leave_of(pa: Seq<usize>, pb: Seq<usize>, a: usize) -> usize {
    let j = meet_from(pb, pa, 0);
    let bpart = if j >= 0 { pb.take(j) } else { pb };
    let split = if j >= 0 { first_pos_from(pa, pb[j], 0) } else { pa.len() as int };
    if bpart.len() > 0 {
        bpart[0]
    } else if split + 1 < pa.len() {
        pa[split + 1]
    } else {
        a
    }
}

/// The leaving node for the entering edge `eu`-`ev`.
pub open spec fn spec_leave(parent: Seq<Option<usize>>, rank: Seq<usize>, eu: usize, ev: usize) -> usize {
    let (a, b) = oriented_ends(rank, eu, ev);
    leave_of(up_path(parent, a as int), up_path(parent, b as int), a)
}

/// Index of the first edge joining `x` and `y` (either way), or -1.
pub open spec fn edge_pos(es: Seq<(usize, usize)>, x: usize, y: usize, i: int) -> int
    decreases es.len() - i,
{
    if i < 0 || i >= es.len() {
        -1
    } else if es[i] == (x, y) || es[i] == (y, x) {
        i
    } else {
        edge_pos(es, x, y, i + 1)
    }
}

/// Sets the flag of the first edge joining `x` and `y` to `val`, if any.
pub open spec fn mark_edge(flags: Seq<bool>, es: Seq<(usize, usize)>, x: usize, y: usize, val: bool) -> Seq<bool> {
    let k = edge_pos(es, x, y, 0);
    if k >= 0 { flags.update(k, val) } else { flags }
}

/// Index of the first edge joining `x` and `y`.
fn find_edge(edges: &[(usize, usize)], x: usize, y: usize) -> (r: Option<usize>)
    ensures
        match r {
            Some(k) => k as int == edge_pos(edges@, x, y, 0) && k < edges@.len(),
            None => edge_pos(edges@, x, y, 0) == -1,
        },
{
    let mut k: usize = 0;
    while k < edges.len()
        invariant
            k <= edges@.len(),
            edge_pos(edges@, x, y, 0) == edge_pos(edges@, x, y, k as int),
        decreases edges@.len() - k,
    {
        let (u, v) = edges[k];
        if (u == x && v == y) || (u == y && v == x) {
            return Some(k);
        }
        k = k + 1;
    }
    None
}

/// The path from `u` up to its root.
fn walk_up(parent: &Vec<Option<usize>>, u: usize, Ghost(depth): Ghost<Seq<int>>) -> (p: Vec<usize>)
    requires
        u < parent@.len(),
        forest_by(parent@, depth),
    ensures
        is_up_path(parent@, u as int, p@),
{
    let mut path: Vec<usize> = Vec::new();
    let mut cur = u;
    loop
        invariant
            cur < parent@.len(),
            forest_by(parent@, depth),
            path@.len() == 0 ==> cur == u,
            path@.len() > 0 ==> path@[0] == u && parent@[path@.last() as int] == Some(cur),
            forall|i: int| 0 <= i < path@.len() ==> (#[trigger] path@[i] as int) < parent@.len(),
            forall|i: int| 0 <= i < path@.len() - 1 ==> parent@[#[trigger] path@[i] as int] == Some(path@[i + 1]),
        decreases depth[cur as int],
    {
        match parent[cur] {
            Some(p) => {
                let ghost before = path@;
                path.push(cur);
                proof {
                    assert forall|i: int| 0 <= i < path@.len() - 1 implies parent@[#[trigger] path@[i] as int] == Some(path@[i + 1]) by {
                        if i < before.len() - 1 {
                            assert(path@[i] == before[i] && path@[i + 1] == before[i + 1]);
                        } else {
                            assert(path@[i] == before.last());
                        }
                    }
                }
                cur = p;
            },
            None => {
                let ghost before = path@;
                path.push(cur);
                proof {
                    assert forall|i: int| 0 <= i < path@.len() - 1 implies parent@[#[trigger] path@[i] as int] == Some(path@[i + 1]) by {
                        if i < before.len() - 1 {
                            assert(path@[i] == before[i] && path@[i + 1] == before[i + 1]);
                        } else {
                            assert(path@[i] == before.last());
                        }
                    }
                }
                return path;
            },
        }
    }
}

/// Index of the first `x` in `s`.
pub(crate) fn position_in(s: &Vec<usize>, x: usize) -> (r: Option<usize>)
    ensures
        match r {
            Some(i) => i as int == first_pos_from(s@, x, 0) && i < s@.len(),
            None => first_pos_from(s@, x, 0) == -1 && !s@.contains(x),
        },
{
    let mut i: usize = 0;
    while i < s.len()
        invariant
            i <= s@.len(),
            first_pos_from(s@, x, 0) == first_pos_from(s@, x, i as int),
            forall|j: int| 0 <= j < i ==> s@[j] != x,
        decreases s@.len() - i,
    {
        if s[i] == x {
            return Some(i);
        }
        i = i + 1;
    }
    None
}

proof fn lemma_up_path_exists(parent: Seq<Option<usize>>, depth: Seq<int>, u: int) -> (p: Seq<usize>)
    requires
        forest_by(parent, depth),
        0 <= u < parent.len(),
        parent.len() <= usize::MAX,
    ensures
        is_up_path(parent, u, p),
    decreases depth[u],
{
    match parent[u] {
        Some(w) => {
            let q = lemma_up_path_exists(parent, depth, w as int);
            let p = seq![u as usize] + q;
            assert forall|i: int| 0 <= i < p.len() - 1 implies parent[#[trigger] p[i] as int] == Some(p[i + 1]) by {
                if i > 0 {
                    assert(p[i] == q[i - 1] && p[i + 1] == q[i]);
                }
            }
            assert forall|i: int| 0 <= i < p.len() implies (#[trigger] p[i] as int) < parent.len() by {
                if i > 0 {
                    assert(p[i] == q[i - 1]);
                }
            }
            p
        },
        None => seq![u as usize],
    }
}

/// The leaving node for the edge from `a` to `b` (see [`leave_of`]).
#[verifier::rlimit(40)]
fn leave_node_for(parent: &Vec<Option<usize>>, a: usize, b: usize, Ghost(depth): Ghost<Seq<int>>) -> (leave_node: usize)
    requires
        a < parent@.len(),
        b < parent@.len(),
        forest_by(parent@, depth),
    ensures
        leave_node == leave_of(up_path(parent@, a as int), up_path(parent@, b as int), a),
        leave_node < parent@.len(),
{
    let ghost p0 = parent@;
    let pl = parent.len();
    assert(p0.len() == pl);
    let path_a = walk_up(parent, a, Ghost(depth));
    proof {
        let w = lemma_up_path_exists(p0, depth, a as int);
        assert(is_up_path(p0, a as int, up_path(p0, a as int)));
        lemma_up_path_unique(p0, a as int, up_path(p0, a as int), path_a@);
        let w2 = lemma_up_path_exists(p0, depth, b as int);
        assert(is_up_path(p0, b as int, up_path(p0, b as int)));
    }
    let ghost pa = path_a@;
    let ghost pb = up_path(p0, b as int);
    let mut cur = b;
    let mut b_path: Vec<usize> = Vec::new();
    let mut found: Option<usize> = None;
    let mut at_root = false;
    let ghost mut j: int = 0;
    while found.is_none() && !at_root
        invariant
            is_up_path(p0, b as int, pb),
            p0 == parent@,
            pa == path_a@,
            0 <= j < pb.len(),
            cur == pb[j],
            b_path@ == pb.take(j),
            meet_from(pb, pa, 0) == meet_from(pb, pa, j),
            found is Some ==> found->0 as int == first_pos_from(pa, cur, 0) && (found->0 as int) < pa.len()
                && pa.contains(cur) && j < pb.len() - 1,
            at_root ==> j == pb.len() - 1,
            found is Some ==> !at_root,
        decreases 2 * (pb.len() - j) + if found is None && !at_root { 1int } else { 0int },
    {
        match parent[cur] {
            None => {
                proof {
                    if j < pb.len() - 1 {
                        assert(parent@[pb[j] as int] == Some(pb[j + 1]));
                    }
                }
                at_root = true;
            },
            Some(p) => {
                proof {
                    if j == pb.len() - 1 {
                        assert(parent@[pb.last() as int] is None);
                    }
                    assert(parent@[pb[j] as int] == Some(pb[j + 1]));
                }
                match position_in(&path_a, cur) {
                    Some(pos) => {
                        assert(pa.contains(cur)) by {
                            assert(pa[pos as int] == cur) by {
                                lemma_first_pos_from(pa, cur, 0);
                            }
                        }
                        found = Some(pos);
                    },
                    None => {
                        b_path.push(cur);
                        assert(b_path@ =~= pb.take(j + 1));
                        cur = p;
                        proof {
                            j = j + 1;
                        }
                    },
                }
            },
        }
    }
    let mut split_idx = path_a.len();
    match found {
        Some(pos) => {
            split_idx = pos;
        },
        None => {
            b_path.push(cur);
            assert(b_path@ =~= pb);
        },
    }
    proof {
        assert(pb[0] as int == b as int);
    }
    let leave_node: usize = if b_path.len() > 0 {
        b_path[0]
    } else if split_idx + 1 < path_a.len() {
        path_a[split_idx + 1]
    } else {
        a
    };
    assert(leave_node == leave_of(pa, pb, a));
    proof {
        assert((leave_node as int) < p0.len()) by {
            if b_path@.len() > 0 {
                assert(b_path@[0] == pb[0]);
            } else if split_idx + 1 < pa.len() {
                assert((pa[split_idx + 1] as int) < p0.len());
            }
        }
    }
    leave_node
}

/// The rank difference that makes the entering edge tight.
pub open spec fn exchange_delta(rank: Seq<usize>, eu: usize, ev: usize) -> int {
    let (a, b) = oriented_ends(rank, eu, ev);
    rank[a as int] + 1 - rank[b as int]
}

/// Exchanges a tree edge for the entering edge `enter_u`-`enter_v`. With
/// `a` the end of lower rank and `b` the other, the leaving node is found
/// where the path from `b` to its root meets the path from `a` (see
/// [`leave_of`]); its subtree is moved so that `b` ranks one above `a`; its
/// tree edge is dropped (the first matching edge leaves `in_tree`); then
/// `b` hangs below `a` and the first edge joining them enters `in_tree`.
pub fn exchange(
    edges: &[(usize, usize)],
    rank: &mut Vec<usize>,
    parent: &mut Vec<Option<usize>>,
    tree_edge: &mut Vec<Option<(usize, usize)>>,
    in_tree: &mut Vec<bool>,
    enter_u: usize,
    enter_v: usize,
    n: usize,
)
    requires
        old(rank)@.len() == n,
        old(parent)@.len() == n,
        old(tree_edge)@.len() == n,
        old(in_tree)@.len() == edges@.len(),
        enter_u < n,
        enter_v < n,
        is_forest(old(parent)@),
        forall|v: int| 0 <= v < n && (#[trigger] old(parent)@[v]) is Some ==> (old(parent)@[v]->0 as int) < n,
        forall|v: int| 0 <= v < n ==> #[trigger] old(rank)@[v] < 0x4000_0000,
    ensures
        final(rank)@.len() == n,
        forall|u: int| 0 <= u < n ==> #[trigger] final(rank)@[u] as int == if in_subtree(
            old(parent)@,
            spec_leave(old(parent)@, old(rank)@, enter_u, enter_v) as int,
            u,
        ) {
            shifted(old(rank)@[u] as int, exchange_delta(old(rank)@, enter_u, enter_v))
        } else {
            old(rank)@[u] as int
        },
        final(parent)@ == ({
            let leave = spec_leave(old(parent)@, old(rank)@, enter_u, enter_v);
            let (a, b) = oriented_ends(old(rank)@, enter_u, enter_v);
            let p1 = if old(parent)@[leave as int] is Some { old(parent)@.update(leave as int, None) } else { old(parent)@ };
            p1.update(b as int, Some(a))
        }),
        final(tree_edge)@ == ({
            let leave = spec_leave(old(parent)@, old(rank)@, enter_u, enter_v);
            let (a, b) = oriented_ends(old(rank)@, enter_u, enter_v);
            let t1 = if old(parent)@[leave as int] is Some { old(tree_edge)@.update(leave as int, None) } else { old(tree_edge)@ };
            t1.update(b as int, Some((a, b)))
        }),
        final(in_tree)@ == ({
            let leave = spec_leave(old(parent)@, old(rank)@, enter_u, enter_v);
            let (a, b) = oriented_ends(old(rank)@, enter_u, enter_v);
            let f1 = match old(parent)@[leave as int] {
                Some(lp) => mark_edge(old(in_tree)@, edges@, lp, leave, false),
                None => old(in_tree)@,
            };
            mark_edge(f1, edges@, a, b, true)
        }),
{
    let ghost p0 = parent@;
    let ghost depth = choose|depth: Seq<int>| forest_by(parent@, depth);
    let (a, b) = if rank[enter_v] >= rank[enter_u] { (enter_u, enter_v) } else { (enter_v, enter_u) };
    assert((a, b) == oriented_ends(rank@, enter_u, enter_v));
    let leave_node = leave_node_for(parent, a, b, Ghost(depth));
    let delta: i64 = (rank[a] + 1) as i64 - rank[b] as i64;
    let leave_parent = parent[leave_node];
    shift_subtree_rank(leave_node, parent, rank, delta, n);
    match leave_parent {
        Some(lp) => {
            match find_edge(edges, lp, leave_node) {
                Some(idx) => {
                    in_tree.set(idx, false);
                },
                None => {},
            }
            parent.set(leave_node, None);
            tree_edge.set(leave_node, None);
        },
        None => {},
    }
    parent.set(b, Some(a));
    tree_edge.set(b, Some((a, b)));
    match find_edge(edges, a, b) {
        Some(idx) => {
            in_tree.set(idx, true);
        },
        None => {},
    }
}

proof fn lemma_first_pos_from(s: Seq<usize>, x: usize, i: int)
    requires
        first_pos_from(s, x, i) >= 0,
    ensures
        0 <= first_pos_from(s, x, i) < s.len(),
        s[first_pos_from(s, x, i)] == x,
    decreases s.len() - i,
{
    if 0 <= i < s.len() && s[i] != x {
        lemma_first_pos_from(s, x, i + 1);
    }
}

// ---------------------------------------------------------------------------
// Laws of the longest-path ranks
// ---------------------------------------------------------------------------

proof fn lemma_raise_exact(rank: Seq<int>, ts: Seq<usize>, r: int)
    requires
        forall|i: int| 0 <= i < ts.len() ==> (#[trigger] ts[i] as int) < rank.len(),
        rank.len() <= usize::MAX,
    ensures
        raise(rank, ts, r).len() == rank.len(),
        forall|t: int| 0 <= t < rank.len() ==> #[trigger] raise(rank, ts, r)[t] == if ts.contains(t as usize) {
            if rank[t] >= r { rank[t] } else { r }
        } else {
            rank[t]
        },
    decreases ts.len(),
{
    if ts.len() > 0 {
        let t2 = ts.drop_last();
        assert forall|i: int| 0 <= i < t2.len() implies (#[trigger] t2[i] as int) < rank.len() by {
            assert(t2[i] == ts[i]);
        }
        lemma_raise_exact(rank, t2, r);
        let x = ts.last();
        assert(x == ts[ts.len() - 1]);
        assert forall|t: int| 0 <= t < rank.len() implies (#[trigger] ts.contains(t as usize) <==> (t2.contains(t as usize) || x == t as usize)) by {
            if ts.contains(t as usize) {
                let i = choose|i: int| 0 <= i < ts.len() && ts[i] == t as usize;
                if i < ts.len() - 1 {
                    assert(t2[i] == t as usize);
                }
            }
            if t2.contains(t as usize) {
                let i = choose|i: int| 0 <= i < t2.len() && t2[i] == t as usize;
                assert(ts[i] == t as usize);
            }
        }
    }
}

proof fn lemma_count_push(ts: Seq<usize>, x: usize, v: int)
    ensures
        count_of(ts.push(x), v) == count_of(ts, v) + if x as int == v { 1int } else { 0int },
{
    assert(ts.push(x).drop_last() =~= ts);
}

proof fn lemma_into_change(a1: Seq<Seq<usize>>, a2: Seq<Seq<usize>>, x: int, k: int, v: int)
    requires
        0 <= x,
        0 <= k <= a1.len(),
        a1.len() == a2.len(),
        forall|w: int| 0 <= w < a1.len() && w != x ==> #[trigger] a1[w] == a2[w],
    ensures
        edges_into(a2, k, v) == edges_into(a1, k, v) + if x < k { count_of(a2[x], v) - count_of(a1[x], v) } else { 0int },
    decreases k,
{
    if k > 0 {
        lemma_into_change(a1, a2, x, k - 1, v);
    }
}

proof fn lemma_indegrees_match(es: Seq<(usize, usize)>, n: int, v: int)
    requires
        forall|k: int| 0 <= k < es.len() ==> (#[trigger] es[k]).0 < n && es[k].1 < n,
        0 <= n,
    ensures
        indegree_of(es, v) == edges_into(adjacency(es, n), n, v),
    decreases es.len(),
{
    if es.len() == 0 {
        lemma_into_zero(adjacency(es, n), n, v);
    } else {
        let t = es.drop_last();
        assert forall|k: int| 0 <= k < t.len() implies (#[trigger] t[k]).0 < n && t[k].1 < n by {
            assert(t[k] == es[k]);
        }
        lemma_indegrees_match(t, n, v);
        let (a, b) = es.last();
        assert(es.last() == es[es.len() - 1]);
        let a1 = adjacency(t, n);
        let a2 = adjacency(es, n);
        assert forall|w: int| 0 <= w < a1.len() && w != a as int implies #[trigger] a1[w] == a2[w] by {}
        lemma_into_change(a1, a2, a as int, n, v);
        assert(a2[a as int] == a1[a as int].push(b));
        lemma_count_push(a1[a as int], b, v);
    }
}

proof fn lemma_into_zero(adj: Seq<Seq<usize>>, k: int, v: int)
    requires
        forall|w: int| 0 <= w < adj.len() ==> (#[trigger] adj[w]).len() == 0,
        k <= adj.len(),
    ensures
        edges_into(adj, k, v) == 0,
    decreases k,
{
    if k > 0 {
        lemma_into_zero(adj, k - 1, v);
        assert(adj[k - 1].len() == 0);
    }
}

proof fn lemma_targets_contains(es: Seq<(usize, usize)>, k: int)
    requires
        0 <= k < es.len(),
    ensures
        targets_of(es, es[k].0 as int).contains(es[k].1),
    decreases es.len(),
{
    let u = es[k].0 as int;
    let r = targets_of(es.drop_last(), u);
    if k == es.len() - 1 {
        assert(targets_of(es, u) == r.push(es[k].1));
        assert(r.push(es[k].1)[r.len() as int] == es[k].1);
    } else {
        assert(es.drop_last()[k] == es[k]);
        lemma_targets_contains(es.drop_last(), k);
        let i = choose|i: int| 0 <= i < r.len() && r[i] == es[k].1;
        if es.last().0 as int == u {
            assert(r.push(es.last().1)[i] == es[k].1);
        }
    }
}

/// Ranks after the first `m` nodes of the order.
pub open spec fn ranks_upto(order: Seq<usize>, adj: Seq<Seq<usize>>, n: int, m: int) -> Seq<int> {
    ranks_along(order.take(m), adj, n)
}

proof fn lemma_ranks_step(order: Seq<usize>, adj: Seq<Seq<usize>>, n: int, m: int)
    requires
        0 <= m < order.len(),
        n <= usize::MAX,
        out_wf(adj, n),
        forall|i: int| 0 <= i < order.len() ==> (#[trigger] order[i] as int) < n,
    ensures
        ranks_upto(order, adj, n, m).len() == n,
        ranks_upto(order, adj, n, m + 1) == raise(
            ranks_upto(order, adj, n, m),
            adj[order[m] as int],
            ranks_upto(order, adj, n, m)[order[m] as int] + 1,
        ),
{
    assert(order.take(m + 1).drop_last() =~= order.take(m));
    assert(order.take(m + 1).last() == order[m]);
    lemma_ranks_len(order.take(m), adj, n);
}

proof fn lemma_ranks_len(order: Seq<usize>, adj: Seq<Seq<usize>>, n: int)
    requires
        n <= usize::MAX,
        out_wf(adj, n),
        forall|i: int| 0 <= i < order.len() ==> (#[trigger] order[i] as int) < n,
    ensures
        ranks_along(order, adj, n).len() == n,
    decreases order.len(),
{
    if order.len() > 0 {
        let o2 = order.drop_last();
        assert forall|i: int| 0 <= i < o2.len() implies (#[trigger] o2[i] as int) < n by {
            assert(o2[i] == order[i]);
        }
        lemma_ranks_len(o2, adj, n);
        let u = order.last() as int;
        assert(order.last() == order[order.len() - 1]);
        assert forall|i: int| 0 <= i < adj[u].len() implies (#[trigger] adj[u][i] as int) < ranks_along(o2, adj, n).len() by {}
        lemma_raise_exact(ranks_along(o2, adj, n), adj[u], ranks_along(o2, adj, n)[u] + 1);
    }
}

/// Ranks only grow as more nodes are taken, and a node's rank stays put
/// while no taken node has an edge to it.
proof fn lemma_ranks_later(order: Seq<usize>, adj: Seq<Seq<usize>>, n: int, m1: int, m2: int, t: int)
    requires
        0 <= m1 <= m2 <= order.len(),
        n <= usize::MAX,
        out_wf(adj, n),
        forall|i: int| 0 <= i < order.len() ==> (#[trigger] order[i] as int) < n,
        0 <= t < n,
    ensures
        ranks_upto(order, adj, n, m2)[t] >= ranks_upto(order, adj, n, m1)[t],
        (forall|j: int| m1 <= j < m2 ==> !(#[trigger] adj[order[j] as int]).contains(t as usize))
            ==> ranks_upto(order, adj, n, m2)[t] == ranks_upto(order, adj, n, m1)[t],
    decreases m2 - m1,
{
    if m1 < m2 {
        lemma_ranks_later(order, adj, n, m1, m2 - 1, t);
        lemma_ranks_step(order, adj, n, m2 - 1);
        let r = ranks_upto(order, adj, n, m2 - 1);
        let u = order[m2 - 1] as int;
        assert forall|i: int| 0 <= i < adj[u].len() implies (#[trigger] adj[u][i] as int) < r.len() by {}
        lemma_raise_exact(r, adj[u], r[u] + 1);
    }
}

/// Along every edge whose source Kahn's algorithm takes, the rank goes up:
/// the target ranks strictly above the source.
pub proof fn lemma_ranks_follow_edges(es: Seq<(usize, usize)>, n: int, k: int)
    requires
        forall|j: int| 0 <= j < es.len() ==> (#[trigger] es[j]).0 < n && es[j].1 < n,
        0 <= n <= usize::MAX,
        0 <= k < es.len(),
        kahn_order(indegrees(es, n), adjacency(es, n)).contains(es[k].0),
    ensures
        spec_longest_path_ranks(es, n)[es[k].1 as int] > spec_longest_path_ranks(es, n)[es[k].0 as int],
{
    let adj = adjacency(es, n);
    let indeg = indegrees(es, n);
    assert forall|u: int, j: int| 0 <= u < n && 0 <= j < adj[u].len() implies (#[trigger] adj[u][j] as int) < n by {
        lemma_targets_range(es, u, n);
    }
    assert forall|v: int| 0 <= v < n implies #[trigger] indeg[v] >= edges_into(adj, n, v) by {
        lemma_indegrees_match(es, n, v);
    }
    lemma_kahn_order_facts(indeg, adj);
    let order = kahn_order(indeg, adj);
    let u = es[k].0;
    let v = es[k].1;
    let i = choose|i: int| 0 <= i < order.len() && order[i] == u;
    lemma_targets_contains(es, k);
    // `v` rises above `u` when `u` is taken.
    lemma_ranks_step(order, adj, n, i);
    let ri = ranks_upto(order, adj, n, i);
    assert forall|x: int| 0 <= x < adj[u as int].len() implies (#[trigger] adj[u as int][x] as int) < ri.len() by {}
    lemma_raise_exact(ri, adj[u as int], ri[u as int] + 1);
    // Later ranks of `v` only grow; the rank of `u` stays.
    lemma_ranks_later(order, adj, n, i + 1, order.len() as int, v as int);
    assert forall|j: int| i <= j < order.len() implies !(#[trigger] adj[order[j] as int]).contains(u) by {
        if adj[order[j] as int].contains(u) {
            let w = order[j] as int;
            assert(0 <= w < n);
            crate::builder::state::lemma_count_pos(adj[w], u);
            assert(count_of(adj[w], order[i] as int) > 0);
            assert(order.take(i).contains(w as usize));
            assert(w as usize == order[j]);
            let j2 = choose|j2: int| 0 <= j2 < order.take(i).len() && order.take(i)[j2] == order[j];
            assert(order[j2] == order[j]);
        }
    }
    lemma_ranks_later(order, adj, n, i, order.len() as int, u as int);
    assert(order.take(order.len() as int) =~= order);
}

proof fn lemma_ranks_attained(order: Seq<usize>, adj: Seq<Seq<usize>>, n: int, m: int, t: int)
    requires
        0 <= m <= order.len(),
        n <= usize::MAX,
        out_wf(adj, n),
        forall|i: int| 0 <= i < order.len() ==> (#[trigger] order[i] as int) < n,
        0 <= t < n,
        ranks_upto(order, adj, n, m)[t] != 0,
    ensures
        exists|j: int| 0 <= j < m && (#[trigger] adj[order[j] as int]).contains(t as usize)
            && ranks_upto(order, adj, n, m)[t] == ranks_upto(order, adj, n, j)[order[j] as int] + 1,
    decreases m,
{
    if m == 0 {
        assert(order.take(0) =~= Seq::<usize>::empty());
    } else {
        lemma_ranks_step(order, adj, n, m - 1);
        let r = ranks_upto(order, adj, n, m - 1);
        let u = order[m - 1] as int;
        assert forall|i: int| 0 <= i < adj[u].len() implies (#[trigger] adj[u][i] as int) < r.len() by {}
        lemma_raise_exact(r, adj[u], r[u] + 1);
        if adj[u].contains(t as usize) && r[t] < r[u] + 1 {
            assert(adj[order[m - 1] as int].contains(t as usize));
        } else {
            lemma_ranks_attained(order, adj, n, m - 1, t);
            let j = choose|j: int| 0 <= j < m - 1 && (#[trigger] adj[order[j] as int]).contains(t as usize)
                && ranks_upto(order, adj, n, m - 1)[t] == ranks_upto(order, adj, n, j)[order[j] as int] + 1;
            assert(adj[order[j] as int].contains(t as usize));
        }
    }
}

proof fn lemma_targets_member(es: Seq<(usize, usize)>, u: int, x: usize)
    requires
        targets_of(es, u).contains(x),
    ensures
        exists|k: int| 0 <= k < es.len() && (#[trigger] es[k]).0 as int == u && es[k].1 == x,
    decreases es.len(),
{
    let t = es.drop_last();
    let r = targets_of(t, u);
    if r.contains(x) {
        lemma_targets_member(t, u, x);
        let k = choose|k: int| 0 <= k < t.len() && (#[trigger] t[k]).0 as int == u && t[k].1 == x;
        assert(es[k] == t[k]);
    } else {
        let i = choose|i: int| 0 <= i < targets_of(es, u).len() && targets_of(es, u)[i] == x;
        assert(es.last().0 as int == u);
        assert(es[es.len() - 1] == es.last());
    }
}

/// A rank above 0 is attained along an edge: some edge into the node comes
/// from a node that Kahn's algorithm takes and that ranks exactly one below.
/// With the law above, a taken node's rank is one more than the highest rank
/// among its predecessors, and 0 when it has none.
pub proof fn lemma_rank_is_attained(es: Seq<(usize, usize)>, n: int, v: int)
    requires
        forall|j: int| 0 <= j < es.len() ==> (#[trigger] es[j]).0 < n && es[j].1 < n,
        0 <= n <= usize::MAX,
        0 <= v < n,
        spec_longest_path_ranks(es, n)[v] > 0,
    ensures
        exists|k: int| 0 <= k < es.len() && (#[trigger] es[k]).1 as int == v
            && kahn_order(indegrees(es, n), adjacency(es, n)).contains(es[k].0)
            && spec_longest_path_ranks(es, n)[v] == spec_longest_path_ranks(es, n)[es[k].0 as int] + 1,
{
    let adj = adjacency(es, n);
    let indeg = indegrees(es, n);
    assert forall|u: int, j: int| 0 <= u < n && 0 <= j < adj[u].len() implies (#[trigger] adj[u][j] as int) < n by {
        lemma_targets_range(es, u, n);
    }
    assert forall|w: int| 0 <= w < n implies #[trigger] indeg[w] >= edges_into(adj, n, w) by {
        lemma_indegrees_match(es, n, w);
    }
    lemma_kahn_order_facts(indeg, adj);
    let order = kahn_order(indeg, adj);
    let m = order.len() as int;
    assert(order.take(m) =~= order);
    lemma_ranks_attained(order, adj, n, m, v);
    let j = choose|j: int| 0 <= j < m && (#[trigger] adj[order[j] as int]).contains(v as usize)
        && ranks_upto(order, adj, n, m)[v] == ranks_upto(order, adj, n, j)[order[j] as int] + 1;
    let u = order[j];
    // The rank of `u` does not change once it is taken.
    assert forall|j2: int| j <= j2 < m implies !(#[trigger] adj[order[j2] as int]).contains(u) by {
        if adj[order[j2] as int].contains(u) {
            let w = order[j2] as int;
            assert(0 <= w < n);
            crate::builder::state::lemma_count_pos(adj[w], u);
            assert(count_of(adj[w], order[j] as int) > 0);
            assert(order.take(j).contains(w as usize));
            assert(w as usize == order[j2]);
            let j3 = choose|j3: int| 0 <= j3 < order.take(j).len() && order.take(j)[j3] == order[j2];
            assert(order[j3] == order[j2]);
        }
    }
    lemma_ranks_later(order, adj, n, j, m, u as int);
    lemma_targets_member(es, u as int, v as usize);
    let k = choose|k: int| 0 <= k < es.len() && (#[trigger] es[k]).0 as int == u as int && es[k].1 == v as usize;
    assert(order.contains(u)) by {
        assert(order[j] == u);
    }
    assert(es[k].0 == u);
}

proof fn lemma_count_contains(ts: Seq<usize>, v: int)
    requires
        count_of(ts, v) > 0,
    ensures
        ts.contains(v as usize),
    decreases ts.len(),
{
    if ts.len() > 0 {
        if count_of(ts.drop_last(), v) > 0 {
            lemma_count_contains(ts.drop_last(), v);
            let i = choose|i: int| 0 <= i < ts.drop_last().len() && ts.drop_last()[i] == v as usize;
            assert(ts[i] == v as usize);
        } else {
            assert(ts[ts.len() - 1] == v as usize);
        }
    }
}

/// Edges ordered by `fin`: every edge goes to a node of lower number.
pub open spec fn ordered_by(es: Seq<(usize, usize)>, n: int, fin: Seq<int>) -> bool {
    &&& fin.len() == n
    &&& forall|x: int| 0 <= x < n ==> 0 <= #[trigger] fin[x] < n
    &&& forall|k: int| 0 <= k < es.len() ==> fin[(#[trigger] es[k]).1 as int] < fin[es[k].0 as int]
}

/// When the edges leave no cycle, Kahn's algorithm takes every node: a node
/// left out would have a predecessor left out, with a higher number, and
/// numbers below `n` cannot climb for ever.
pub(crate) proof fn lemma_every_node_taken(es: Seq<(usize, usize)>, n: int, fin: Seq<int>, v: int)
    requires
        forall|k: int| 0 <= k < es.len() ==> (#[trigger] es[k]).0 < n && es[k].1 < n,
        0 <= n <= usize::MAX,
        ordered_by(es, n, fin),
        0 <= v < n,
    ensures
        kahn_order(indegrees(es, n), adjacency(es, n)).contains(v as usize),
    decreases n - fin[v],
{
    let adj = adjacency(es, n);
    let indeg = indegrees(es, n);
    if !kahn_order(indeg, adj).contains(v as usize) {
        assert forall|u: int, j: int| 0 <= u < n && 0 <= j < adj[u].len() implies (#[trigger] adj[u][j] as int) < n by {
            lemma_targets_range(es, u, n);
        }
        assert forall|w: int| 0 <= w < n implies #[trigger] indeg[w] == edges_into(adj, n, w) by {
            lemma_indegrees_match(es, n, w);
        }
        lemma_kahn_order_leftover(indeg, adj, v);
        let u = choose|u: int| 0 <= u < n && !kahn_order(indeg, adj).contains(u as usize) && count_of(#[trigger] adj[u], v) > 0;
        lemma_count_contains(adj[u], v);
        lemma_targets_member(es, u, v as usize);
        let k = choose|k: int| 0 <= k < es.len() && (#[trigger] es[k]).0 as int == u && es[k].1 == v as usize;
        assert(fin[v] < fin[u]);
        lemma_every_node_taken(es, n, fin, u);
    }
}

/// When the edges leave no cycle, every edge goes to a strictly higher
/// rank: the longest-path ranks put every target below its source.
pub proof fn lemma_ranks_follow_every_edge(es: Seq<(usize, usize)>, n: int, fin: Seq<int>, k: int)
    requires
        forall|j: int| 0 <= j < es.len() ==> (#[trigger] es[j]).0 < n && es[j].1 < n,
        0 <= n <= usize::MAX,
        ordered_by(es, n, fin),
        0 <= k < es.len(),
    ensures
        spec_longest_path_ranks(es, n)[es[k].1 as int] > spec_longest_path_ranks(es, n)[es[k].0 as int],
{
    lemma_every_node_taken(es, n, fin, es[k].0 as int);
    lemma_ranks_follow_edges(es, n, k);
}

/// On edges without a cycle the ranks are longest-path ranks: a node without
/// predecessors ranks 0, and any other node ranks one more than the highest
/// rank among its predecessors.
pub proof fn lemma_longest_path_ranks_acyclic(es: Seq<(usize, usize)>, n: int, fin: Seq<int>, v: int)
    requires
        forall|j: int| 0 <= j < es.len() ==> (#[trigger] es[j]).0 < n && es[j].1 < n,
        0 <= n <= usize::MAX,
        ordered_by(es, n, fin),
        0 <= v < n,
    ensures
        (forall|k: int| 0 <= k < es.len() ==> (#[trigger] es[k]).1 as int != v)
            ==> spec_longest_path_ranks(es, n)[v] == 0,
        forall|k: int| 0 <= k < es.len() && (#[trigger] es[k]).1 as int == v
            ==> spec_longest_path_ranks(es, n)[v] >= spec_longest_path_ranks(es, n)[es[k].0 as int] + 1,
        (exists|k: int| 0 <= k < es.len() && (#[trigger] es[k]).1 as int == v) ==> exists|k: int|
            0 <= k < es.len() && (#[trigger] es[k]).1 as int == v
                && spec_longest_path_ranks(es, n)[v] == spec_longest_path_ranks(es, n)[es[k].0 as int] + 1,
{
    let adj = adjacency(es, n);
    let indeg = indegrees(es, n);
    let rk = spec_longest_path_ranks(es, n);
    assert forall|u: int, j: int| 0 <= u < n && 0 <= j < adj[u].len() implies (#[trigger] adj[u][j] as int) < n by {
        lemma_targets_range(es, u, n);
    }
    assert forall|w: int| 0 <= w < n implies #[trigger] indeg[w] >= edges_into(adj, n, w) by {
        lemma_indegrees_match(es, n, w);
    }
    lemma_kahn_order_facts(indeg, adj);
    let order = kahn_order(indeg, adj);
    let m = order.len() as int;
    assert(order.take(m) =~= order);
    assert(order.take(0) =~= Seq::<usize>::empty());
    lemma_ranks_later(order, adj, n, 0, m, v);
    assert(rk[v] >= 0);
    assert forall|k: int| 0 <= k < es.len() && (#[trigger] es[k]).1 as int == v implies rk[v] >= rk[es[k].0 as int] + 1 by {
        lemma_ranks_follow_every_edge(es, n, fin, k);
    }
    if rk[v] > 0 {
        lemma_rank_is_attained(es, n, v);
    }
    if exists|k: int| 0 <= k < es.len() && (#[trigger] es[k]).1 as int == v {
        let k = choose|k: int| 0 <= k < es.len() && (#[trigger] es[k]).1 as int == v;
        assert(rk[v] >= rk[es[k].0 as int] + 1);
        lemma_every_node_taken(es, n, fin, es[k].0 as int);
        lemma_ranks_later(order, adj, n, 0, m, es[k].0 as int);
        assert(rk[v] > 0);
    }
}

proof fn lemma_ranks_upto_bound(order: Seq<usize>, adj: Seq<Seq<usize>>, n: int, m: int, v: int)
    requires
        0 <= m <= order.len(),
        n <= usize::MAX,
        out_wf(adj, n),
        forall|i: int| 0 <= i < order.len() ==> (#[trigger] order[i] as int) < n,
        0 <= v < n,
    ensures
        0 <= ranks_upto(order, adj, n, m)[v] <= m,
    decreases m,
{
    if m == 0 {
        assert(order.take(0) =~= Seq::<usize>::empty());
    } else {
        lemma_ranks_upto_bound(order, adj, n, m - 1, v);
        lemma_ranks_step(order, adj, n, m - 1);
        let r = ranks_upto(order, adj, n, m - 1);
        let u = order[m - 1] as int;
        lemma_ranks_upto_bound(order, adj, n, m - 1, u);
        assert forall|i: int| 0 <= i < adj[u].len() implies (#[trigger] adj[u][i] as int) < r.len() by {}
        lemma_raise_exact(r, adj[u], r[u] + 1);
    }
}

/// A node that Kahn's algorithm takes ranks below the number of nodes.
pub(crate) proof fn lemma_taken_rank_below(es: Seq<(usize, usize)>, n: int, p: int)
    requires
        forall|j: int| 0 <= j < es.len() ==> (#[trigger] es[j]).0 < n && es[j].1 < n,
        0 <= n <= usize::MAX,
        0 <= p < n,
        kahn_order(indegrees(es, n), adjacency(es, n)).contains(p as usize),
    ensures
        0 <= spec_longest_path_ranks(es, n)[p] < n,
{
    let adj = adjacency(es, n);
    let indeg = indegrees(es, n);
    assert forall|u: int, j: int| 0 <= u < n && 0 <= j < adj[u].len() implies (#[trigger] adj[u][j] as int) < n by {
        lemma_targets_range(es, u, n);
    }
    assert forall|w: int| 0 <= w < n implies #[trigger] indeg[w] >= edges_into(adj, n, w) by {
        lemma_indegrees_match(es, n, w);
    }
    lemma_kahn_order_facts(indeg, adj);
    let order = kahn_order(indeg, adj);
    let m = order.len() as int;
    assert(order.take(m) =~= order);
    let j = choose|j: int| 0 <= j < order.len() && order[j] == p as usize;
    assert forall|j2: int| j <= j2 < m implies !(#[trigger] adj[order[j2] as int]).contains(p as usize) by {
        if adj[order[j2] as int].contains(p as usize) {
            let w = order[j2] as int;
            assert(0 <= w < n);
            crate::builder::state::lemma_count_pos(adj[w], p as usize);
            assert(count_of(adj[w], order[j] as int) > 0);
            assert(order.take(j).contains(w as usize));
            assert(w as usize == order[j2]);
            let j3 = choose|j3: int| 0 <= j3 < order.take(j).len() && order.take(j)[j3] == order[j2];
            assert(order[j3] == order[j2]);
        }
    }
    lemma_ranks_later(order, adj, n, j, m, p);
    lemma_ranks_upto_bound(order, adj, n, j, p);
    crate::builder::state::lemma_distinct_len(order, n);
}

/// The longest-path ranks give every node `0..n` a rank.
pub(crate) proof fn lemma_spec_ranks_len(es: Seq<(usize, usize)>, n: int)
    requires
        forall|j: int| 0 <= j < es.len() ==> (#[trigger] es[j]).0 < n && es[j].1 < n,
        0 <= n <= usize::MAX,
    ensures
        spec_longest_path_ranks(es, n).len() == n,
{
    let adj = adjacency(es, n);
    let indeg = indegrees(es, n);
    assert forall|u: int, j: int| 0 <= u < n && 0 <= j < adj[u].len() implies (#[trigger] adj[u][j] as int) < n by {
        lemma_targets_range(es, u, n);
    }
    assert forall|v: int| 0 <= v < n implies #[trigger] indeg[v] >= edges_into(adj, n, v) by {
        lemma_indegrees_match(es, n, v);
    }
    lemma_kahn_order_facts(indeg, adj);
    lemma_ranks_len(kahn_order(indeg, adj), adj, n);
}

} // verus!
