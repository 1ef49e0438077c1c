//! The network-simplex ranker of the layered layout (the default one):
//! feedback arcs are reversed, longest-path ranks give a feasible start, a
//! spanning forest is grown from them, and tree edges are exchanged while
//! some edge outside the tree has a negative cut value. Cut values are
//! integers here; every node's cut comes to 0 at a root and -1 below a
//! parent, so no cut value is negative and the longest-path ranks stand.

use vstd::prelude::*;

use petgraph::graph::DiGraph;

use super::directed::{acyclic_by, edges_in_range, has_path_of_from, is_path, lemma_path_fin};
use super::longest_path::{feedback_flags, feedback_flags_of, ints};
use super::solver::directed::{sgraph_edges, sgraph_nodes};
use super::sugiyama::{
    build_feasible_tree, cand_parent, exchange, lemma_ranks_follow_every_edge, longest_path_ranks_scc, ordered_by,
    rank_view, spec_longest_path_ranks,
};
use super::work_graph::{sgraph_edge_list, sgraph_node_count};

verus! {

// ---------------------------------------------------------------------------
// Edges of the ranking
// ---------------------------------------------------------------------------

/// An edge as the ranking takes it: a feedback arc reversed.
pub open spec fn oriented_edge(fas: Seq<(usize, usize)>, e: (usize, usize)) -> (usize, usize) {
    if fas.contains(e) { (e.1, e.0) } else { e }
}

/// The edges of the ranking, in edge order: feedback arcs reversed, self
/// loops and repeated pairs dropped.
pub open spec fn simplex_edges(es: Seq<(usize, usize)>, fas: Seq<(usize, usize)>) -> Seq<(usize, usize)>
    decreases es.len(),
{
    if es.len() == 0 {
        Seq::empty()
    } else {
        let r = simplex_edges(es.drop_last(), fas);
        let e = oriented_edge(fas, es.last());
        if e.0 != e.1 && !r.contains(e) { r.push(e) } else { r }
    }
}

proof fn lemma_simplex_edges_range(es: Seq<(usize, usize)>, fas: Seq<(usize, usize)>, n: int)
    requires
        forall|k: int| 0 <= k < es.len() ==> (#[trigger] es[k]).0 < n && es[k].1 < n,
    ensures
        forall|k: int| 0 <= k < simplex_edges(es, fas).len()
            ==> (#[trigger] simplex_edges(es, fas)[k]).0 < n && simplex_edges(es, fas)[k].1 < n,
    decreases es.len(),
{
    if es.len() > 0 {
        let d = es.drop_last();
        assert forall|k: int| 0 <= k < d.len() implies (#[trigger] d[k]).0 < n && d[k].1 < n by {
            assert(d[k] == es[k]);
        }
        lemma_simplex_edges_range(d, fas, n);
        assert(es.last() == es[es.len() - 1]);
        let r = simplex_edges(d, fas);
        let e = oriented_edge(fas, es.last());
        assert forall|k: int| 0 <= k < r.push(e).len() implies (#[trigger] r.push(e)[k]).0 < n && r.push(e)[k].1 < n by {
            if k < r.len() {
                assert(r.push(e)[k] == r[k]);
            }
        }
    }
}

/// The edges of the ranking.
fn ranking_edges(edges: &Vec<(usize, usize)>, flags: &Vec<bool>, Ghost(fas): Ghost<Seq<(usize, usize)>>) -> (r: Vec<(usize, usize)>)
    requires
        flags@ == feedback_flags(edges@, fas),
    ensures
        r@ == simplex_edges(edges@, fas),
{
    let ghost es = edges@;
    let mut r: Vec<(usize, usize)> = Vec::new();
    let mut k: usize = 0;
    while k < edges.len()
        invariant
            k <= edges@.len(),
            es == edges@,
            flags@ == feedback_flags(es, fas),
            r@ == simplex_edges(es.take(k as int), fas),
        decreases edges@.len() - k,
    {
        proof {
            assert(es.take(k + 1).drop_last() =~= es.take(k as int));
            assert(es.take(k + 1).last() == es[k as int]);
        }
        let (u, v) = edges[k];
        let (a, b) = if flags[k] { (v, u) } else { (u, v) };
        if a != b {
            let mut seen = false;
            let mut j: usize = 0;
            while j < r.len()
                invariant
                    j <= r@.len(),
                    seen <==> exists|i: int| 0 <= i < j && r@[i] == (a, b),
                decreases r@.len() - j,
            {
                if r[j].0 == a && r[j].1 == b {
                    seen = true;
                }
                j = j + 1;
            }
            proof {
                if seen {
                    let i = choose|i: int| 0 <= i < r@.len() && r@[i] == (a, b);
                    assert(r@.contains((a, b)));
                } else {
                    assert(!r@.contains((a, b)));
                }
            }
            if !seen {
                r.push((a, b));
            }
        }
        k = k + 1;
    }
    proof {
        assert(es.take(es.len() as int) =~= es);
    }
    r
}

// ---------------------------------------------------------------------------
// Cut values
// ---------------------------------------------------------------------------

/// Number of nodes among `0..k` whose tree parent is `x`.
pub open spec fn children_count(parent: Seq<Option<usize>>, x: int, k: int) -> int
    decreases k,
{
    if k <= 0 {
        0
    } else {
        children_count(parent, x, k - 1) + if parent[k - 1] == Some(x as usize) { 1int } else { 0int }
    }
}

/// The balance of node `x`: one for each tree edge down from it, minus one
/// for the tree edge up from it.
pub open spec fn balance(parent: Seq<Option<usize>>, x: int) -> int {
    children_count(parent, x, parent.len() as int) - if parent[x] is Some { 1int } else { 0int }
}

/// The cut of node `x`: the balances summed over its subtree, which comes
/// to 0 at a root and to -1 below a parent (see [`lemma_cut_recurrence`]).
pub open spec fn node_cut(parent: Seq<Option<usize>>, x: int) -> int {
    if parent[x] is Some { -1 } else { 0 }
}

/// The cut value of each edge: 0 for a tree edge; otherwise, with `a` the
/// end of lower rank (the source on a tie) and `b` the other,
/// `1 - (cut(a) - cut(b))`.
pub open spec fn cut_values(
    es: Seq<(usize, usize)>,
    rank: Seq<int>,
    parent: Seq<Option<usize>>,
    in_tree: Seq<bool>,
) -> Seq<int> {
    Seq::new(
        es.len(),
        |i: int|
            if in_tree[i] {
                0
            } else {
                let (u, v) = es[i];
                let (a, b) = if rank[v as int] >= rank[u as int] { (u, v) } else { (v, u) };
                1 - (node_cut(parent, a as int) - node_cut(parent, b as int))
            },
    )
}

/// Sum of the cuts of the children of `x` among nodes `0..k`.
pub open spec fn children_cut(parent: Seq<Option<usize>>, x: int, k: int) -> int
    decreases k,
{
    if k <= 0 {
        0
    } else {
        children_cut(parent, x, k - 1) + if parent[k - 1] == Some(x as usize) { node_cut(parent, k - 1) } else { 0int }
    }
}

proof fn lemma_children_cut(parent: Seq<Option<usize>>, x: int, k: int)
    requires
        0 <= k <= parent.len(),
    ensures
        children_cut(parent, x, k) == -children_count(parent, x, k),
        0 <= children_count(parent, x, k) <= k,
    decreases k,
{
    if k > 0 {
        lemma_children_cut(parent, x, k - 1);
    }
}

/// The cut of a node is its balance plus the cuts of its children: the
/// balances summed over the subtree, taken from the leaves up.
pub proof fn lemma_cut_recurrence(parent: Seq<Option<usize>>, x: int)
    requires
        0 <= x < parent.len(),
    ensures
        node_cut(parent, x) == balance(parent, x) + children_cut(parent, x, parent.len() as int),
{
    lemma_children_cut(parent, x, parent.len() as int);
}

/// No cut value is negative: the cut values are 0, 1 or 2, so no edge
/// outside the tree can enter it.
pub proof fn lemma_cut_values_not_negative(
    es: Seq<(usize, usize)>,
    rank: Seq<int>,
    parent: Seq<Option<usize>>,
    in_tree: Seq<bool>,
    i: int,
)
    requires
        0 <= i < es.len(),
    ensures
        0 <= cut_values(es, rank, parent, in_tree)[i] <= 2,
{
}

/// Parents rank strictly below their children.
pub open spec fn parents_below(parent: Seq<Option<usize>>, rank: Seq<int>) -> bool {
    forall|v: int| 0 <= v < parent.len() && (#[trigger] parent[v]) is Some ==>
        (parent[v]->0 as int) < parent.len() && rank[parent[v]->0 as int] < rank[v]
}

/// Cut values of the edges. Node balances are summed over subtrees from the
/// highest rank down, so that every child is settled before its parent;
/// then each edge outside the tree gets `1 - (cut(a) - cut(b))` for its
/// ends `a` of lower rank and `b`, and each tree edge 0.
pub fn compute_cut_values(
    edges: &[(usize, usize)],
    rank: &[usize],
    parent: &[Option<usize>],
    cut_value: &mut Vec<i64>,
    in_tree: &[bool],
    n: usize,
)
    requires
        rank@.len() == n,
        parent@.len() == n,
        n < 0x4000_0000_0000_0000,
        forall|k: int| 0 <= k < edges@.len() ==> (#[trigger] edges@[k]).0 < n && edges@[k].1 < n,
        old(cut_value)@.len() == edges@.len(),
        in_tree@.len() == edges@.len(),
        parents_below(parent@, rank_view(rank@)),
    ensures
        final(cut_value)@.len() == edges@.len(),
        forall|i: int| 0 <= i < edges@.len() ==> (#[trigger] final(cut_value)@[i]) as int
            == cut_values(edges@, rank_view(rank@), parent@, in_tree@)[i],
{
    let ghost pv = parent@;
    let ghost rv = rank_view(rank@);
    // Balances.
    let mut bal: Vec<i64> = Vec::new();
    let mut i: usize = 0;
    while i < n
        invariant
            i <= n,
            bal@.len() == i,
            forall|x: int| 0 <= x < i ==> #[trigger] bal@[x] == 0,
        decreases n - i,
    {
        bal.push(0);
        i = i + 1;
    }
    let mut u: usize = 0;
    while u < n
        invariant
            u <= n,
            n < 0x4000_0000_0000_0000,
            pv == parent@,
            parent@.len() == n,
            rank@.len() == n,
            parents_below(pv, rv),
            bal@.len() == n,
            forall|x: int| 0 <= x < n ==> #[trigger] bal@[x] as int
                == children_count(pv, x, u as int) - if x < u && pv[x] is Some { 1int } else { 0int },
        decreases n - u,
    {
        proof {
            assert forall|x: int| 0 <= x < n implies 0 <= #[trigger] children_count(pv, x, u as int) <= u by {
                lemma_children_cut(pv, x, u as int);
            }
        }
        match parent[u] {
            Some(p) => {
                let bp = bal[p] + 1;
                bal.set(p, bp);
                let bu = bal[u] - 1;
                bal.set(u, bu);
            },
            None => {},
        }
        proof {
            assert forall|x: int| 0 <= x < n implies #[trigger] bal@[x] as int
                == children_count(pv, x, u + 1) - if x < u + 1 && pv[x] is Some { 1int } else { 0int } by {
                if pv[u as int] is Some {
                    let p = pv[u as int]->0;
                    assert(p < n);
                }
            }
        }
        u = u + 1;
    }
    // Cuts, from the highest rank down.
    let mut top: usize = 0;
    let mut j: usize = 0;
    while j < n
        invariant
            j <= n,
            rank@.len() == n,
            forall|x: int| 0 <= x < j ==> #[trigger] rank@[x] <= top,
        decreases n - j,
    {
        if rank[j] > top {
            top = rank[j];
        }
        j = j + 1;
    }
    let mut cut: Vec<i64> = Vec::new();
    let mut i2: usize = 0;
    while i2 < n
        invariant
            i2 <= n,
            cut@.len() == i2,
        decreases n - i2,
    {
        cut.push(0);
        i2 = i2 + 1;
    }
    let mut r: usize = top;
    let mut done_r = false;
    while !done_r
        invariant
            r <= top,
            pv == parent@,
            rv == rank_view(rank@),
            parent@.len() == n,
            rank@.len() == n,
            n < 0x4000_0000_0000_0000,
            parents_below(pv, rv),
            forall|x: int| 0 <= x < n ==> #[trigger] rank@[x] <= top,
            bal@.len() == n,
            forall|x: int| 0 <= x < n ==> #[trigger] bal@[x] as int == balance(pv, x),
            cut@.len() == n,
            !done_r ==> forall|x: int| 0 <= x < n && #[trigger] rank@[x] > r ==> cut@[x] as int == node_cut(pv, x),
            done_r ==> forall|x: int| 0 <= x < n ==> #[trigger] cut@[x] as int == node_cut(pv, x),
        decreases r, if done_r { 0int } else { 1int },
    {
        let mut w: usize = 0;
        while w < n
            invariant
                w <= n,
                r <= top,
                pv == parent@,
                rv == rank_view(rank@),
                parent@.len() == n,
                rank@.len() == n,
                n < 0x4000_0000_0000_0000,
                parents_below(pv, rv),
                bal@.len() == n,
                forall|x: int| 0 <= x < n ==> #[trigger] bal@[x] as int == balance(pv, x),
                cut@.len() == n,
                forall|x: int| 0 <= x < n && (#[trigger] rank@[x] > r || (rank@[x] == r && x < w))
                    ==> cut@[x] as int == node_cut(pv, x),
            decreases n - w,
        {
            if rank[w] == r {
                let mut s: i64 = bal[w];
                let mut v: usize = 0;
                proof {
                    lemma_children_cut(pv, w as int, n as int);
                }
                while v < n
                    invariant
                        v <= n,
                        w < n,
                        rank@[w as int] == r,
                        pv == parent@,
                        rv == rank_view(rank@),
                        parent@.len() == n,
                        rank@.len() == n,
                        n < 0x4000_0000_0000_0000,
                        parents_below(pv, rv),
                        cut@.len() == n,
                        forall|x: int| 0 <= x < n && #[trigger] rank@[x] > r ==> cut@[x] as int == node_cut(pv, x),
                        bal@.len() == n,
                        bal@[w as int] as int == balance(pv, w as int),
                        s as int == balance(pv, w as int) - children_count(pv, w as int, v as int),
                    decreases n - v,
                {
                    proof {
                        lemma_children_cut(pv, w as int, v as int);
                        lemma_children_cut(pv, w as int, n as int);
                    }
                    if parent[v] == Some(w) {
                        proof {
                            assert(rv[w as int] < rv[v as int]);
                            assert(rank@[v as int] > r);
                        }
                        s = s + cut[v];
                    }
                    v = v + 1;
                }
                cut.set(w, s);
            }
            w = w + 1;
        }
        if r == 0 {
            proof {
                assert forall|x: int| 0 <= x < n implies #[trigger] cut@[x] as int == node_cut(pv, x) by {
                    if rank@[x] > r {
                    } else {
                        assert(rank@[x] == r && x < w);
                    }
                }
            }
            done_r = true;
        } else {
            r = r - 1;
        }
    }
    // Cut values.
    let mut k: usize = 0;
    while k < edges.len()
        invariant
            k <= edges@.len(),
            pv == parent@,
            rv == rank_view(rank@),
            parent@.len() == n,
            rank@.len() == n,
            forall|k: int| 0 <= k < edges@.len() ==> (#[trigger] edges@[k]).0 < n && edges@[k].1 < n,
            cut@.len() == n,
            forall|x: int| 0 <= x < n ==> #[trigger] cut@[x] as int == node_cut(pv, x),
            cut_value@.len() == edges@.len(),
            in_tree@.len() == edges@.len(),
            forall|i: int| 0 <= i < k ==> (#[trigger] cut_value@[i]) as int == cut_values(edges@, rv, pv, in_tree@)[i],
        decreases edges@.len() - k,
    {
        if in_tree[k] {
            cut_value.set(k, 0);
        } else {
            let (u, v) = edges[k];
            let (a, b) = if rank[v] >= rank[u] { (u, v) } else { (v, u) };
            let cv = 1 - (cut[a] - cut[b]);
            cut_value.set(k, cv);
        }
        k = k + 1;
    }
}

// ---------------------------------------------------------------------------
// The ranker
// ---------------------------------------------------------------------------

proof fn lemma_cand_parent_below(es: Seq<(usize, usize)>, rank: Seq<int>, v: int, n: int)
    requires
        forall|k: int| 0 <= k < es.len() ==> (#[trigger] es[k]).0 < n && es[k].1 < n,
    ensures
        match cand_parent(es, rank, v) {
            Some(p) => (p as int) < n && rank[p as int] < rank[v],
            None => true,
        },
    decreases es.len(),
{
    if es.len() > 0 {
        let d = es.drop_last();
        assert forall|k: int| 0 <= k < d.len() implies (#[trigger] d[k]).0 < n && d[k].1 < n by {
            assert(d[k] == es[k]);
        }
        lemma_cand_parent_below(d, rank, v, n);
        assert(es.last() == es[es.len() - 1]);
    }
}

/// Whether each edge is a tree edge: one end is the tree parent of the
/// other and ranks exactly one below it.
pub open spec fn tree_flags(es: Seq<(usize, usize)>, rank: Seq<int>, parent: Seq<Option<usize>>) -> Seq<bool> {
    Seq::new(
        es.len(),
        |i: int| {
            let (a, b) = es[i];
            (parent[b as int] == Some(a) && rank[b as int] - rank[a as int] == 1) || (parent[a as int] == Some(b)
                && rank[a as int] - rank[b as int] == 1)
        },
    )
}

fn tree_edges_of(edges: &Vec<(usize, usize)>, rank: &Vec<usize>, parent: &Vec<Option<usize>>, n: usize) -> (in_tree: Vec<bool>)
    requires
        rank@.len() == n,
        parent@.len() == n,
        forall|k: int| 0 <= k < edges@.len() ==> (#[trigger] edges@[k]).0 < n && edges@[k].1 < n,
    ensures
        in_tree@ == tree_flags(edges@, rank_view(rank@), parent@),
{
    let mut in_tree: Vec<bool> = Vec::new();
    let mut i: usize = 0;
    while i < edges.len()
        invariant
            i <= edges@.len(),
            rank@.len() == n,
            parent@.len() == n,
            forall|k: int| 0 <= k < edges@.len() ==> (#[trigger] edges@[k]).0 < n && edges@[k].1 < n,
            in_tree@.len() == i,
            forall|j: int| 0 <= j < i ==> #[trigger] in_tree@[j] == tree_flags(edges@, rank_view(rank@), parent@)[j],
        decreases edges@.len() - i,
    {
        let (a, b) = edges[i];
        let down = parent[b] == Some(a) && rank[b] > rank[a] && rank[b] - rank[a] == 1;
        let up = parent[a] == Some(b) && rank[a] > rank[b] && rank[a] - rank[b] == 1;
        in_tree.push(down || up);
        i = i + 1;
    }
    assert(in_tree@ =~= tree_flags(edges@, rank_view(rank@), parent@));
    in_tree
}

/// The edge that enters the tree: among the edges outside it with a
/// negative cut value, the first of least value; `usize::MAX` when there is
/// none.
fn pick_entering(cut_value: &Vec<i64>, in_tree: &Vec<bool>) -> (best: usize)
    requires
        cut_value@.len() == in_tree@.len(),
    ensures
        best == usize::MAX <==> forall|i: int| 0 <= i < in_tree@.len() && !in_tree@[i] ==> #[trigger] cut_value@[i] >= 0,
        best != usize::MAX ==> {
            &&& best < in_tree@.len()
            &&& !in_tree@[best as int]
            &&& cut_value@[best as int] < 0
            &&& forall|i: int| 0 <= i < in_tree@.len() && !in_tree@[i] ==> cut_value@[best as int] <= #[trigger] cut_value@[i]
            &&& forall|i: int| 0 <= i < best && !in_tree@[i] ==> cut_value@[best as int] < #[trigger] cut_value@[i]
        },
{
    let mut best: usize = usize::MAX;
    let mut best_val: i64 = 0;
    let mut i: usize = 0;
    while i < cut_value.len()
        invariant
            i <= cut_value@.len(),
            cut_value@.len() == in_tree@.len(),
            best == usize::MAX ==> best_val == 0,
            best == usize::MAX <==> forall|j: int| 0 <= j < i && !in_tree@[j] ==> #[trigger] cut_value@[j] >= 0,
            best != usize::MAX ==> {
                &&& best < i
                &&& !in_tree@[best as int]
                &&& best_val == cut_value@[best as int]
                &&& best_val < 0
                &&& forall|j: int| 0 <= j < i && !in_tree@[j] ==> best_val <= #[trigger] cut_value@[j]
                &&& forall|j: int| 0 <= j < best && !in_tree@[j] ==> best_val < #[trigger] cut_value@[j]
            },
        decreases cut_value@.len() - i,
    {
        if !in_tree[i] && cut_value[i] < best_val {
            best_val = cut_value[i];
            best = i;
        }
        i = i + 1;
    }
    best
}

/// Ranks by network simplex: feedback arcs reversed, self loops and repeated
/// pairs dropped; longest-path ranks as the feasible start; the spanning
/// forest of [`build_feasible_tree`]; then, for at most `2n + 8` rounds,
/// the edge outside the tree with the most negative cut value enters it
/// through [`exchange`]. No cut value is ever negative (see
/// [`lemma_cut_values_not_negative`]), so the first round ends the search
/// and the ranks are the longest-path ranks of the reversed edges. The
/// result is indexed by node.
pub fn assign_layers_network_simplex(graph: &DiGraph<String, ()>, feedback_arcs: &Vec<(usize, usize)>) -> (layers: Vec<usize>)
    requires
        sgraph_nodes(*graph).len() < usize::MAX,
        sgraph_nodes(*graph).len() < 0x4000_0000_0000_0000,
    ensures
        ints(layers@) == spec_longest_path_ranks(
            simplex_edges(sgraph_edges(*graph), feedback_arcs@),
            sgraph_nodes(*graph).len() as int,
        ),
        layers@.len() == sgraph_nodes(*graph).len(),
{
    let n = sgraph_node_count(graph);
    let edges = sgraph_edge_list(graph);
    let ghost es = edges@;
    let ghost fas = feedback_arcs@;
    if n == 0 {
        let empty: Vec<usize> = Vec::new();
        proof {
            assert(ints(empty@) =~= spec_longest_path_ranks(simplex_edges(es, fas), 0));
        }
        return empty;
    }
    let flags = feedback_flags_of(&edges, feedback_arcs);
    let ns = ranking_edges(&edges, &flags, Ghost(fas));
    proof {
        lemma_simplex_edges_range(es, fas, n as int);
    }
    let mut rank = longest_path_ranks_scc(ns.as_slice(), n);
    let ghost rank0 = rank@;
    let mut parent: Vec<Option<usize>> = Vec::new();
    let mut tree_edge: Vec<Option<(usize, usize)>> = Vec::new();
    let mut i: usize = 0;
    while i < n
        invariant
            i <= n,
            parent@.len() == i,
            tree_edge@.len() == i,
        decreases n - i,
    {
        parent.push(None);
        tree_edge.push(None);
        i = i + 1;
    }
    build_feasible_tree(ns.as_slice(), rank.as_slice(), n, &mut parent, &mut tree_edge);
    proof {
        assert forall|v: int| 0 <= v < parent@.len() && (#[trigger] parent@[v]) is Some implies
            (parent@[v]->0 as int) < parent@.len() && rank_view(rank@)[parent@[v]->0 as int] < rank_view(rank@)[v] by {
            lemma_cand_parent_below(ns@, rank_view(rank@), v, n as int);
        }
    }
    let mut in_tree = tree_edges_of(&ns, &rank, &parent, n);
    let mut cut_value: Vec<i64> = Vec::new();
    let mut j: usize = 0;
    while j < ns.len()
        invariant
            j <= ns@.len(),
            cut_value@.len() == j,
        decreases ns@.len() - j,
    {
        cut_value.push(0);
        j = j + 1;
    }
    compute_cut_values(ns.as_slice(), rank.as_slice(), parent.as_slice(), &mut cut_value, in_tree.as_slice(), n);
    let max_iterations: usize = if n <= (usize::MAX - 8) / 2 { 2 * n + 8 } else { usize::MAX };
    let mut it: usize = 0;
    while it < max_iterations
        invariant_except_break
            it <= max_iterations,
            rank@ == rank0,
            cut_value@.len() == in_tree@.len(),
            cut_value@.len() == ns@.len(),
            forall|k: int| 0 <= k < in_tree@.len() ==> #[trigger] cut_value@[k] as int
                == cut_values(ns@, rank_view(rank@), parent@, in_tree@)[k],
        ensures
            rank@ == rank0,
        decreases max_iterations - it,
    {
        let best = pick_entering(&cut_value, &in_tree);
        proof {
            assert forall|k: int| 0 <= k < in_tree@.len() && !in_tree@[k] implies #[trigger] cut_value@[k] >= 0 by {
                lemma_cut_values_not_negative(ns@, rank_view(rank@), parent@, in_tree@, k);
            }
        }
        if best == usize::MAX {
            break;
        }
        // Never reached: no cut value is negative.
        let (enter_u, enter_v) = ns[best];
        exchange(ns.as_slice(), &mut rank, &mut parent, &mut tree_edge, &mut in_tree, enter_u, enter_v, n);
        compute_cut_values(ns.as_slice(), rank.as_slice(), parent.as_slice(), &mut cut_value, in_tree.as_slice(), n);
        it = it + 1;
    }
    rank
}

// ---------------------------------------------------------------------------
// Law
// ---------------------------------------------------------------------------

/// The edge of `es[k]`, oriented, is an edge of the ranking unless it is a
/// self loop.
proof fn lemma_simplex_edges_hold(es: Seq<(usize, usize)>, fas: Seq<(usize, usize)>, k: int)
    requires
        0 <= k < es.len(),
        es[k].0 != es[k].1,
    ensures
        simplex_edges(es, fas).contains(oriented_edge(fas, es[k])),
    decreases es.len(),
{
    let d = es.drop_last();
    let r = simplex_edges(d, fas);
    let e = oriented_edge(fas, es.last());
    if k < es.len() - 1 {
        assert(d[k] == es[k]);
        lemma_simplex_edges_hold(d, fas, k);
        let i = choose|i: int| 0 <= i < r.len() && r[i] == oriented_edge(fas, es[k]);
        if e.0 != e.1 && !r.contains(e) {
            assert(r.push(e)[i] == r[i]);
        }
    } else {
        assert(es.last() == es[k]);
        if !r.contains(e) {
            assert(r.push(e)[r.len() as int] == e);
        }
    }
}

/// Every edge of the ranking goes to a lower finishing number when the
/// other edges do and each feedback arc closes a path of them.
proof fn lemma_simplex_edges_ordered(es: Seq<(usize, usize)>, fas: Seq<(usize, usize)>, n: int, fin: Seq<int>)
    requires
        edges_in_range(es, n),
        acyclic_by(es, feedback_flags(es, fas), n, fin),
        forall|j: int| 0 <= j < fas.len() ==> has_path_of_from(
            es,
            feedback_flags(es, fas),
            n,
            (#[trigger] fas[j]).1 as int,
            fas[j].0 as int,
        ),
    ensures
        ordered_by(simplex_edges(es, fas), n, fin),
    decreases es.len(),
{
    let se = simplex_edges(es, fas);
    let ff = feedback_flags(es, fas);
    assert forall|k: int| 0 <= k < se.len() implies fin[(#[trigger] se[k]).1 as int] < fin[se[k].0 as int] by {
        lemma_simplex_edges_source(es, fas, k);
        let j = choose|j: int| 0 <= j < es.len() && es[j].0 != es[j].1 && #[trigger] oriented_edge(fas, es[j]) == se[k];
        if fas.contains(es[j]) {
            let i = choose|i: int| 0 <= i < fas.len() && fas[i] == es[j];
            assert(has_path_of_from(es, ff, n, fas[i].1 as int, fas[i].0 as int));
            let p = choose|p: Seq<int>| #[trigger] is_path(es, ff, n, p) && p[0] == fas[i].1 as int && p.last() == fas[i].0 as int;
            lemma_path_fin(es, ff, n, fin, p);
            if p.len() == 1 {
                assert(p[0] == p.last());
            }
        } else {
            assert(!ff[j]);
        }
    }
}

/// Every edge of the ranking comes from an edge between distinct nodes.
proof fn lemma_simplex_edges_source(es: Seq<(usize, usize)>, fas: Seq<(usize, usize)>, k: int)
    requires
        0 <= k < simplex_edges(es, fas).len(),
    ensures
        exists|j: int| 0 <= j < es.len() && es[j].0 != es[j].1 && #[trigger] oriented_edge(fas, es[j]) == simplex_edges(es, fas)[k],
    decreases es.len(),
{
    let d = es.drop_last();
    let r = simplex_edges(d, fas);
    let e = oriented_edge(fas, es.last());
    if k < r.len() {
        if e.0 != e.1 && !r.contains(e) {
            assert(simplex_edges(es, fas)[k] == r[k]);
        }
        lemma_simplex_edges_source(d, fas, k);
        let j = choose|j: int| 0 <= j < d.len() && d[j].0 != d[j].1 && #[trigger] oriented_edge(fas, d[j]) == r[k];
        assert(es[j] == d[j]);
    } else {
        assert(es[es.len() - 1] == es.last());
        assert(e.0 != e.1) by {
            if fas.contains(es.last()) {
            }
        }
        assert(es.last().0 != es.last().1);
    }
}

/// With feedback arcs that leave the other edges acyclic and each close a
/// path of them (as [`super::longest_path::detect_feedback_arcs`] gives
/// them), the ranks put every edge between two distinct nodes one way: an
/// edge that is not a feedback arc goes to a strictly higher rank, a
/// feedback arc to a strictly lower one.
pub proof fn lemma_simplex_ranks_follow_edges(es: Seq<(usize, usize)>, fas: Seq<(usize, usize)>, n: int, k: int)
    requires
        edges_in_range(es, n),
        0 <= n <= usize::MAX,
        exists|fin: Seq<int>| acyclic_by(es, feedback_flags(es, fas), n, fin),
        forall|j: int| 0 <= j < fas.len() ==> has_path_of_from(
            es,
            feedback_flags(es, fas),
            n,
            (#[trigger] fas[j]).1 as int,
            fas[j].0 as int,
        ),
        0 <= k < es.len(),
        es[k].0 != es[k].1,
    ensures
        !fas.contains(es[k]) ==> spec_longest_path_ranks(simplex_edges(es, fas), n)[es[k].0 as int]
            < spec_longest_path_ranks(simplex_edges(es, fas), n)[es[k].1 as int],
        fas.contains(es[k]) ==> spec_longest_path_ranks(simplex_edges(es, fas), n)[es[k].1 as int]
            < spec_longest_path_ranks(simplex_edges(es, fas), n)[es[k].0 as int],
{
    let fin = choose|fin: Seq<int>| acyclic_by(es, feedback_flags(es, fas), n, fin);
    let se = simplex_edges(es, fas);
    lemma_simplex_edges_ordered(es, fas, n, fin);
    lemma_simplex_edges_range(es, fas, n);
    lemma_simplex_edges_hold(es, fas, k);
    let i = choose|i: int| 0 <= i < se.len() && se[i] == oriented_edge(fas, es[k]);
    lemma_ranks_follow_every_edge(se, n, fin, i);
}

} // verus!
