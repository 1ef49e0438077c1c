//! Graph analysis of a layout graph: strongly connected components and a
//! topological order (from petgraph), feedback arcs and weakly connected
//! components. Nodes are the indices `0..n` of the layout graph.

use vstd::prelude::*;

use petgraph::graph::{DiGraph, Graph, NodeIndex};
use petgraph::visit::{EdgeRef, NodeIndexable};
use petgraph::{Directed, Direction};

use super::ir::{LEdge, LineKind};
use crate::builder::state::lemma_distinct_len;
use super::directed::{acyclic_by, graph_acyclic, has_path_of_from, is_finish_order, no_flags};

verus! {

// ---------------------------------------------------------------------------
// petgraph, as far as the analysis uses it
// ---------------------------------------------------------------------------

#[verifier::external_type_specification]
#[verifier::external_body]
#[verifier::reject_recursive_types(N)]
#[verifier::reject_recursive_types(E)]
#[verifier::reject_recursive_types(Ty)]
#[verifier::reject_recursive_types(Ix)]
pub struct ExGraph<N, E, Ty, Ix>(Graph<N, E, Ty, Ix>);

#[verifier::external_type_specification]
#[verifier::external_body]
pub struct ExDirected(Directed);

/// The node weights of a graph, by node index.
pub uninterp spec fn digraph_nodes(g: DiGraph<usize, ()>) -> Seq<usize>;

/// The edges of a graph as (source index, target index), in the order they
/// were added.
pub uninterp spec fn digraph_edges(g: DiGraph<usize, ()>) -> Seq<(usize, usize)>;

/// What `petgraph::algo::tarjan_scc` returns for a graph with `n` nodes and
/// the given edges, as node indices.
pub uninterp spec fn tarjan_sccs(n: nat, edges: Seq<(usize, usize)>) -> Seq<Seq<usize>>;

/// What `petgraph::algo::toposort` returns for a graph with `n` nodes and
/// the given edges, as node indices: `None` for its `Err`.
pub uninterp spec fn toposort_result(n: nat, edges: Seq<(usize, usize)>) -> Option<Seq<usize>>;

/// `Graph::with_capacity`: a graph with no nodes and no edges.
#[verifier::external_body]
pub(crate) fn graph_with_capacity(nodes: usize, edges: usize) -> (g: DiGraph<usize, ()>)
    ensures
        digraph_nodes(g) == Seq::<usize>::empty(),
        digraph_edges(g) == Seq::<(usize, usize)>::empty(),
{
    DiGraph::with_capacity(nodes, edges)
}

/// `Graph::add_node`: appends a node with the given weight and returns its
/// index, the number of nodes before the call. It panics only when the
/// `u32` index space is full, which the `requires` rules out.
#[verifier::external_body]
pub(crate) fn graph_add_node(g: &mut DiGraph<usize, ()>, weight: usize) -> (idx: usize)
    requires
        digraph_nodes(*old(g)).len() < 0xffff_ffff,
    ensures
        idx == digraph_nodes(*old(g)).len(),
        digraph_nodes(*final(g)) == digraph_nodes(*old(g)).push(weight),
        digraph_edges(*final(g)) == digraph_edges(*old(g)),
{
    g.add_node(weight).index()
}

/// `Graph::add_edge`: appends the edge `a -> b` (parallel edges allowed).
/// It panics when an end is not a node or the `u32` edge index space is
/// full, which the `requires` rules out.
#[verifier::external_body]
pub(crate) fn graph_add_edge(g: &mut DiGraph<usize, ()>, a: usize, b: usize)
    requires
        a < digraph_nodes(*old(g)).len(),
        b < digraph_nodes(*old(g)).len(),
        digraph_edges(*old(g)).len() < 0xffff_ffff,
    ensures
        digraph_nodes(*final(g)) == digraph_nodes(*old(g)),
        digraph_edges(*final(g)) == digraph_edges(*old(g)).push((a, b)),
{
    g.add_edge(NodeIndex::new(a), NodeIndex::new(b), ());
}

/// `Graph::find_edge` on a directed graph: whether some edge goes from `a`
/// to `b`.
#[verifier::external_body]
fn graph_has_edge(g: &DiGraph<usize, ()>, a: usize, b: usize) -> (r: bool)
    requires
        a < digraph_nodes(*g).len(),
        b < digraph_nodes(*g).len(),
    ensures
        r == digraph_edges(*g).contains((a, b)),
{
    g.find_edge(NodeIndex::new(a), NodeIndex::new(b)).is_some()
}

/// Writing a node weight through `IndexMut`.
#[verifier::external_body]
fn graph_set_weight(g: &mut DiGraph<usize, ()>, i: usize, weight: usize)
    requires
        i < digraph_nodes(*old(g)).len(),
    ensures
        digraph_nodes(*final(g)) == digraph_nodes(*old(g)).update(i as int, weight),
        digraph_edges(*final(g)) == digraph_edges(*old(g)),
{
    g[NodeIndex::new(i)] = weight;
}

/// Reading a node weight through `Index`.
#[verifier::external_body]
fn graph_weight(g: &DiGraph<usize, ()>, i: usize) -> (w: usize)
    requires
        i < digraph_nodes(*g).len(),
    ensures
        w == digraph_nodes(*g)[i as int],
{
    g[NodeIndex::new(i)]
}

/// The targets of the edges leaving `u`, in the order the edges were added.
pub open spec fn targets_from(edges: Seq<(usize, usize)>, u: int) -> Seq<usize>
    decreases edges.len(),
{
    if edges.len() == 0 {
        Seq::empty()
    } else {
        let r = targets_from(edges.drop_last(), u);
        if edges.last().0 as int == u { r.push(edges.last().1) } else { r }
    }
}

/// The sources of the edges entering `v`, in the order the edges were added.
pub open spec fn sources_into(edges: Seq<(usize, usize)>, v: int) -> Seq<usize>
    decreases edges.len(),
{
    if edges.len() == 0 {
        Seq::empty()
    } else {
        let r = sources_into(edges.drop_last(), v);
        if edges.last().1 as int == v { r.push(edges.last().0) } else { r }
    }
}

/// `Graph::edges_directed(u, Outgoing)`, as target indices: on a directed
/// graph the edges from `u`, most recently added first.
#[verifier::external_body]
pub(crate) fn graph_out_targets(g: &DiGraph<usize, ()>, u: usize) -> (ts: Vec<usize>)
    requires
        u < digraph_nodes(*g).len(),
    ensures
        ts@ == targets_from(digraph_edges(*g), u as int).reverse(),
{
    g.edges_directed(NodeIndex::new(u), Direction::Outgoing).map(|e| e.target().index()).collect()
}

/// `Graph::edges_directed(v, Incoming)`, as source indices: on a directed
/// graph the edges into `v`, most recently added first.
#[verifier::external_body]
fn graph_in_sources(g: &DiGraph<usize, ()>, v: usize) -> (ss: Vec<usize>)
    requires
        v < digraph_nodes(*g).len(),
    ensures
        ss@ == sources_into(digraph_edges(*g), v as int).reverse(),
{
    g.edges_directed(NodeIndex::new(v), Direction::Incoming).map(|e| e.source().index()).collect()
}

/// Some component holds node `v`.
pub open spec fn covers(c: Seq<Seq<usize>>, v: int) -> bool {
    exists|i: int, j: int| 0 <= i < c.len() && 0 <= j < c[i].len() && #[trigger] c[i][j] as int == v
}

/// The components split the nodes `0..n`: none is empty, and every node lies
/// in exactly one of them, once.
pub open spec fn sccs_partition(c: Seq<Seq<usize>>, n: int) -> bool {
    &&& forall|i: int| 0 <= i < c.len() ==> #[trigger] c[i].len() > 0
    &&& forall|i: int, j: int| 0 <= i < c.len() && 0 <= j < c[i].len() ==> (#[trigger] c[i][j] as int) < n
    &&& forall|v: int| 0 <= v < n ==> #[trigger] covers(c, v)
    &&& forall|i1: int, j1: int, i2: int, j2: int|
        0 <= i1 < c.len() && 0 <= j1 < c[i1].len() && 0 <= i2 < c.len() && 0 <= j2 < c[i2].len()
            && #[trigger] c[i1][j1] == #[trigger] c[i2][j2] ==> i1 == i2 && j1 == j2
}

/// A path leads from `a` to `b` (of length 0 when they are the same node).
pub open spec fn reaches(edges: Seq<(usize, usize)>, n: int, a: int, b: int) -> bool {
    has_path_of_from(edges, no_flags(edges.len() as int), n, a, b)
}

/// Two nodes share a component exactly when each reaches the other.
pub open spec fn sccs_strong(c: Seq<Seq<usize>>, edges: Seq<(usize, usize)>, n: int) -> bool {
    forall|i1: int, j1: int, i2: int, j2: int|
        0 <= i1 < c.len() && 0 <= j1 < c[i1].len() && 0 <= i2 < c.len() && 0 <= j2 < c[i2].len()
            ==> (i1 == i2 <==> reaches(edges, n, #[trigger] c[i1][j1] as int, #[trigger] c[i2][j2] as int)
            && reaches(edges, n, c[i2][j2] as int, c[i1][j1] as int))
}

/// Components come in reverse topological order: an edge never leads into
/// a later component.
pub open spec fn sccs_reverse_topological(c: Seq<Seq<usize>>, edges: Seq<(usize, usize)>) -> bool {
    forall|k: int, i1: int, j1: int, i2: int, j2: int|
        0 <= k < edges.len() && 0 <= i1 < c.len() && 0 <= j1 < c[i1].len() && 0 <= i2 < c.len() && 0 <= j2 < c[i2].len()
            && (#[trigger] edges[k]).0 == #[trigger] c[i1][j1] && edges[k].1 == #[trigger] c[i2][j2] ==> i2 <= i1
}

/// `petgraph::algo::tarjan_scc`, as node indices. As its documentation says,
/// it returns the strongly connected components, which split the nodes, in
/// postorder (reverse topological order). The order of the nodes inside a
/// component, and so the list itself, is named, not stated.
#[verifier::external_body]
fn graph_tarjan_scc(g: &DiGraph<usize, ()>) -> (sccs: Vec<Vec<usize>>)
    requires
        edges_below(digraph_edges(*g), digraph_nodes(*g).len() as int),
    ensures
        sccs@.map_values(|c: Vec<usize>| c@) == tarjan_sccs(digraph_nodes(*g).len(), digraph_edges(*g)),
        forall|i: int, j: int| 0 <= i < sccs@.len() && 0 <= j < sccs@[i]@.len() ==>
            #[trigger] sccs@[i]@[j] < digraph_nodes(*g).len(),
        sccs_partition(sccs@.map_values(|c: Vec<usize>| c@), digraph_nodes(*g).len() as int),
        sccs_strong(sccs@.map_values(|c: Vec<usize>| c@), digraph_edges(*g), digraph_nodes(*g).len() as int),
        sccs_reverse_topological(sccs@.map_values(|c: Vec<usize>| c@), digraph_edges(*g)),
{
    petgraph::algo::tarjan_scc(g).into_iter().map(|c| c.into_iter().map(|ni| ni.index()).collect()).collect()
}

/// Every node `0..n` exactly once.
pub open spec fn is_node_order(o: Seq<usize>, n: int) -> bool {
    &&& o.len() == n
    &&& o.no_duplicates()
    &&& forall|i: int| 0 <= i < o.len() ==> (#[trigger] o[i] as int) < n
}

/// Every edge goes forward in `o`: its source stands before its target.
pub open spec fn edges_forward(o: Seq<usize>, edges: Seq<(usize, usize)>) -> bool {
    forall|k: int, i: int, j: int|
        0 <= k < edges.len() && 0 <= i < o.len() && 0 <= j < o.len() && #[trigger] o[i] == (#[trigger] edges[k]).0
            && #[trigger] o[j] == edges[k].1 ==> i < j
}

/// `petgraph::algo::toposort` without a workspace, as node indices: `None`
/// for its `Err`. As its documentation says, it fails exactly when the graph
/// has a cycle, and an `Ok` order lists the nodes with each one before its
/// successors; its source visits every node once, so the order holds each
/// node exactly once. Which of the possible orders it picks is named, not
/// stated.
#[verifier::external_body]
fn graph_toposort(g: &DiGraph<usize, ()>) -> (r: Option<Vec<usize>>)
    requires
        edges_below(digraph_edges(*g), digraph_nodes(*g).len() as int),
    ensures
        match r {
            Some(o) => toposort_result(digraph_nodes(*g).len(), digraph_edges(*g)) == Some(o@)
                && is_node_order(o@, digraph_nodes(*g).len() as int)
                && edges_forward(o@, digraph_edges(*g)),
            None => toposort_result(digraph_nodes(*g).len(), digraph_edges(*g)) is None,
        },
        r is None <==> !graph_acyclic(digraph_edges(*g), digraph_nodes(*g).len() as int),
{
    match petgraph::algo::toposort(g, None) {
        Ok(order) => Some(order.into_iter().map(|ni| ni.index()).collect()),
        Err(_) => None,
    }
}

// ---------------------------------------------------------------------------
// Weak connectivity
// ---------------------------------------------------------------------------

/// `a` and `b` are joined by an edge, either way.
pub open spec fn adjacent(edges: Seq<(usize, usize)>, a: usize, b: usize) -> bool {
    edges.contains((a, b)) || edges.contains((b, a))
}

/// `p` is a walk of nodes along edges taken either way.
pub open spec fn is_walk(edges: Seq<(usize, usize)>, p: Seq<usize>) -> bool {
    &&& p.len() >= 1
    &&& forall|i: int| 0 <= i < p.len() - 1 ==> adjacent(edges, #[trigger] p[i], p[i + 1])
}

/// `a` and `b` are weakly connected.
pub open spec fn connected(edges: Seq<(usize, usize)>, a: usize, b: usize) -> bool {
    exists|p: Seq<usize>| #[trigger] is_walk(edges, p) && p[0] == a && p.last() == b
}

/// `s` is the smallest node of its component.
pub open spec fn is_leader(edges: Seq<(usize, usize)>, s: usize) -> bool {
    forall|u: usize| u < s ==> !#[trigger] connected(edges, u, s)
}

/// The smallest node of each component among nodes `0..k`, in order.
pub open spec fn leaders(edges: Seq<(usize, usize)>, k: int) -> Seq<usize>
    decreases k,
{
    if k <= 0 {
        Seq::empty()
    } else {
        let r = leaders(edges, k - 1);
        if is_leader(edges, (k - 1) as usize) { r.push((k - 1) as usize) } else { r }
    }
}

/// Strictly ascending.
pub open spec fn ascending(s: Seq<usize>) -> bool {
    forall|i: int, j: int| 0 <= i < j < s.len() ==> s[i] < s[j]
}

proof fn lemma_walk_single(edges: Seq<(usize, usize)>, a: usize)
    ensures
        connected(edges, a, a),
{
    let p = seq![a];
    assert(is_walk(edges, p));
}

proof fn lemma_walk_extend(edges: Seq<(usize, usize)>, a: usize, b: usize, c: usize)
    requires
        connected(edges, a, b),
        adjacent(edges, b, c),
    ensures
        connected(edges, a, c),
{
    let p = choose|p: Seq<usize>| #[trigger] is_walk(edges, p) && p[0] == a && p.last() == b;
    let q = p.push(c);
    assert forall|i: int| 0 <= i < q.len() - 1 implies adjacent(edges, #[trigger] q[i], q[i + 1]) by {
        if i < p.len() - 1 {
            assert(q[i] == p[i] && q[i + 1] == p[i + 1]);
        } else {
            assert(q[i] == b);
        }
    }
    assert(is_walk(edges, q));
}

proof fn lemma_walk_reverse(edges: Seq<(usize, usize)>, a: usize, b: usize)
    requires
        connected(edges, a, b),
    ensures
        connected(edges, b, a),
{
    let p = choose|p: Seq<usize>| #[trigger] is_walk(edges, p) && p[0] == a && p.last() == b;
    let q = p.reverse();
    assert forall|i: int| 0 <= i < q.len() - 1 implies adjacent(edges, #[trigger] q[i], q[i + 1]) by {
        let k = p.len() - 2 - i;
        assert(q[i] == p[k + 1] && q[i + 1] == p[k]);
        assert(adjacent(edges, p[k], p[k + 1]));
    }
    assert(is_walk(edges, q));
}

proof fn lemma_walk_join(edges: Seq<(usize, usize)>, a: usize, b: usize, c: usize)
    requires
        connected(edges, a, b),
        connected(edges, b, c),
    ensures
        connected(edges, a, c),
{
    let p = choose|p: Seq<usize>| #[trigger] is_walk(edges, p) && p[0] == a && p.last() == b;
    let q = choose|q: Seq<usize>| #[trigger] is_walk(edges, q) && q[0] == b && q.last() == c;
    let w = p + q.drop_first();
    assert forall|i: int| 0 <= i < w.len() - 1 implies adjacent(edges, #[trigger] w[i], w[i + 1]) by {
        if i < p.len() - 1 {
            assert(w[i] == p[i] && w[i + 1] == p[i + 1]);
        } else if i == p.len() - 1 {
            assert(w[i] == b && w[i + 1] == q[1]);
            assert(adjacent(edges, q[0], q[1]));
        } else {
            let k = i - p.len() + 1;
            assert(w[i] == q[k] && w[i + 1] == q[k + 1]);
        }
    }
    if q.len() == 1 {
        assert(w =~= p);
    } else {
        assert(w.last() == q.last());
    }
    assert(is_walk(edges, w));
}

pub(crate) proof fn lemma_targets_from(edges: Seq<(usize, usize)>, u: usize, v: usize)
    ensures
        targets_from(edges, u as int).contains(v) <==> edges.contains((u, v)),
        sources_into(edges, v as int).contains(u) <==> edges.contains((u, v)),
    decreases edges.len(),
{
    if edges.len() > 0 {
        let e2 = edges.drop_last();
        lemma_targets_from(e2, u, v);
        let t = targets_from(e2, u as int);
        let s = sources_into(e2, v as int);
        assert(edges.contains((u, v)) <==> (e2.contains((u, v)) || edges.last() == (u, v))) by {
            if edges.contains((u, v)) {
                let i = choose|i: int| 0 <= i < edges.len() && edges[i] == (u, v);
                if i < edges.len() - 1 {
                    assert(e2[i] == (u, v));
                }
            }
            if e2.contains((u, v)) {
                let i = choose|i: int| 0 <= i < e2.len() && e2[i] == (u, v);
                assert(edges[i] == (u, v));
            }
        }
        if edges.last().0 == u {
            assert(t.push(edges.last().1).contains(v) <==> (t.contains(v) || edges.last().1 == v)) by {
                if t.push(edges.last().1).contains(v) {
                    let i = choose|i: int| 0 <= i < t.len() + 1 && t.push(edges.last().1)[i] == v;
                    if i < t.len() {
                        assert(t[i] == v);
                    }
                }
                if t.contains(v) {
                    let i = choose|i: int| 0 <= i < t.len() && t[i] == v;
                    assert(t.push(edges.last().1)[i] == v);
                }
                assert(t.push(edges.last().1)[t.len() as int] == edges.last().1);
            }
        }
        if edges.last().1 == v {
            assert(s.push(edges.last().0).contains(u) <==> (s.contains(u) || edges.last().0 == u)) by {
                if s.push(edges.last().0).contains(u) {
                    let i = choose|i: int| 0 <= i < s.len() + 1 && s.push(edges.last().0)[i] == u;
                    if i < s.len() {
                        assert(s[i] == u);
                    }
                }
                if s.contains(u) {
                    let i = choose|i: int| 0 <= i < s.len() && s[i] == u;
                    assert(s.push(edges.last().0)[i] == u);
                }
                assert(s.push(edges.last().0)[s.len() as int] == edges.last().0);
            }
        }
    }
}

proof fn lemma_reverse_contains(s: Seq<usize>, x: usize)
    ensures
        s.reverse().contains(x) <==> s.contains(x),
{
    if s.reverse().contains(x) {
        let i = choose|i: int| 0 <= i < s.len() && s.reverse()[i] == x;
        assert(s[s.len() - 1 - i] == x);
    }
    if s.contains(x) {
        let i = choose|i: int| 0 <= i < s.len() && s[i] == x;
        assert(s.reverse()[s.len() - 1 - i] == x);
    }
}

// ---------------------------------------------------------------------------
// Sorting a component
// ---------------------------------------------------------------------------

/// Sorts ascending.
pub(crate) fn sort_ascending(v: &mut Vec<usize>)
    ensures
        final(v)@.to_multiset() == old(v)@.to_multiset(),
        forall|i: int, j: int| 0 <= i <= j < final(v)@.len() ==> final(v)@[i] <= final(v)@[j],
        final(v)@.len() == old(v)@.len(),
{
    let ghost orig = v@;
    let n = v.len();
    let mut i: usize = 1;
    if n == 0 {
        return;
    }
    while i < n
        invariant
            1 <= i <= n,
            n == v@.len(),
            v@.to_multiset() == orig.to_multiset(),
            forall|a: int, b: int| 0 <= a <= b < i ==> v@[a] <= v@[b],
        decreases n - i,
    {
        let mut j = i;
        while j > 0 && v[j - 1] > v[j]
            invariant
                0 <= j <= i < n,
                n == v@.len(),
                v@.to_multiset() == orig.to_multiset(),
                forall|a: int, b: int| 0 <= a <= b <= i && a != j && b != j ==> v@[a] <= v@[b],
                forall|a: int, b: int| 0 <= a < j && j < b <= i ==> v@[a] <= v@[b],
                forall|b: int| j < b <= i ==> v@[j as int] <= v@[b],
            decreases j,
        {
            let x = v[j - 1];
            let y = v[j];
            let ghost before = v@;
            v.set(j - 1, y);
            v.set(j, x);
            proof {
                assert(v@ =~= before.update(j - 1, y).update(j as int, x));
                lemma_swap_multiset(before, j - 1, j as int);
            }
            j = j - 1;
        }
        i = i + 1;
    }
}

proof fn lemma_swap_multiset(s: Seq<usize>, i: int, j: int)
    requires
        0 <= i < j < s.len(),
    ensures
        s.update(i, s[j]).update(j, s[i]).to_multiset() == s.to_multiset(),
{
    broadcast use vstd::seq_lib::group_to_multiset_ensures;
    let u = s.update(i, s[j]);
    assert(u[j] == s[j]);
    assert(u.to_multiset() == s.to_multiset().insert(s[j]).remove(s[i]));
    assert(u.update(j, s[i]).to_multiset() == u.to_multiset().insert(s[i]).remove(s[j]));
    assert(s.contains(s[i]));
    assert(s.to_multiset().count(s[i]) > 0);
    assert(u.update(j, s[i]).to_multiset() =~= s.to_multiset());
}

// ---------------------------------------------------------------------------
// Weakly connected components
// ---------------------------------------------------------------------------

/// `NodeIndexable::node_bound` of a `Graph`: its number of nodes. Every
/// edge of a `Graph` joins two of its nodes (`add_edge` panics otherwise),
/// so every edge end lies below the bound.
#[verifier::external_body]
pub(crate) fn graph_node_bound(g: &DiGraph<usize, ()>) -> (b: usize)
    ensures
        b == digraph_nodes(*g).len(),
        edges_below(digraph_edges(*g), b as int),
{
    g.node_bound()
}

/// `v` lies in the component of some node below `s`.
pub open spec fn earlier(edges: Seq<(usize, usize)>, s: usize, v: usize) -> bool {
    exists|u: usize| u < s && #[trigger] connected(edges, u, v)
}

/// Invariant of the search of the component of `s`.
pub open spec fn round_inv(
    edges: Seq<(usize, usize)>,
    n: int,
    s: usize,
    visited: Seq<bool>,
    comp: Seq<usize>,
    stack: Seq<usize>,
) -> bool {
    &&& visited.len() == n
    &&& comp.no_duplicates()
    &&& stack.no_duplicates()
    &&& forall|i: int, j: int| 0 <= i < comp.len() && 0 <= j < stack.len() ==> comp[i] != stack[j]
    &&& forall|v: usize| (v as int) < n ==> (#[trigger] visited[v as int] <==> (earlier(edges, s, v) || comp.contains(v) || stack.contains(v)))
    &&& forall|x: usize| #![trigger comp.contains(x)] #![trigger stack.contains(x)]
        comp.contains(x) || stack.contains(x) ==> (x as int) < n && connected(edges, s, x)
    &&& forall|x: usize, y: usize| #[trigger] comp.contains(x) && (y as int) < n && #[trigger] adjacent(edges, x, y) ==> visited[y as int]
    &&& !earlier(edges, s, s)
    &&& comp.contains(s) || stack.contains(s)
}

/// Edges join nodes below `n`.
pub open spec fn edges_below(edges: Seq<(usize, usize)>, n: int) -> bool {
    forall|k: int| 0 <= k < edges.len() ==> ((#[trigger] edges[k]).0 as int) < n && (edges[k].1 as int) < n
}

proof fn lemma_not_earlier(edges: Seq<(usize, usize)>, s: usize, x: usize)
    requires
        !earlier(edges, s, s),
        connected(edges, s, x),
    ensures
        !earlier(edges, s, x),
{
    if earlier(edges, s, x) {
        let u = choose|u: usize| u < s && #[trigger] connected(edges, u, x);
        lemma_walk_reverse(edges, s, x);
        lemma_walk_join(edges, u, x, s);
        assert(connected(edges, u, s));
    }
}

proof fn lemma_adjacent_below(edges: Seq<(usize, usize)>, n: int, x: usize, y: usize)
    requires
        edges_below(edges, n),
        adjacent(edges, x, y),
    ensures
        (x as int) < n && (y as int) < n,
{
    if edges.contains((x, y)) {
        let k = choose|k: int| 0 <= k < edges.len() && edges[k] == (x, y);
        assert(edges_below(edges, n));
        assert((edges[k].0 as int) < n);
    } else {
        let k = choose|k: int| 0 <= k < edges.len() && edges[k] == (y, x);
        assert((edges[k].0 as int) < n);
    }
}

/// Pushes the unvisited nodes of `vs` onto the stack, marking them.
fn push_unvisited(visited: &mut Vec<bool>, stack: &mut Vec<usize>, vs: &Vec<usize>)
    requires
        forall|i: int| 0 <= i < vs@.len() ==> (#[trigger] vs@[i] as int) < old(visited)@.len(),
        old(stack)@.no_duplicates(),
        forall|i: int| 0 <= i < old(stack)@.len() ==> (#[trigger] old(stack)@[i] as int) < old(visited)@.len()
            && old(visited)@[old(stack)@[i] as int],
    ensures
        final(visited)@.len() == old(visited)@.len(),
        final(stack)@.no_duplicates(),
        forall|i: int| 0 <= i < final(stack)@.len() ==> (#[trigger] final(stack)@[i] as int) < final(visited)@.len()
            && final(visited)@[final(stack)@[i] as int],
        forall|v: usize| (v as int) < old(visited)@.len() ==> (#[trigger] final(visited)@[v as int]
            <==> (old(visited)@[v as int] || vs@.contains(v))),
        forall|v: usize| #[trigger] final(stack)@.contains(v) <==> (old(stack)@.contains(v) || (vs@.contains(v) && !old(visited)@[v as int])),
{
    let mut k: usize = 0;
    let ghost v0 = visited@;
    let ghost s0 = stack@;
    while k < vs.len()
        invariant
            k <= vs@.len(),
            visited@.len() == v0.len(),
            forall|i: int| 0 <= i < vs@.len() ==> (#[trigger] vs@[i] as int) < v0.len(),
            stack@.no_duplicates(),
            forall|i: int| 0 <= i < stack@.len() ==> (#[trigger] stack@[i] as int) < visited@.len()
                && visited@[stack@[i] as int],
            forall|v: usize| (v as int) < v0.len() ==> (#[trigger] visited@[v as int]
                <==> (v0[v as int] || vs@.take(k as int).contains(v))),
            forall|v: usize| #[trigger] stack@.contains(v) <==> (s0.contains(v) || (vs@.take(k as int).contains(v) && !v0[v as int])),
        decreases vs@.len() - k,
    {
        let v = vs[k];
        let ghost vt = vs@.take(k as int);
        let ghost vt1 = vs@.take(k + 1);
        assert(vt1 =~= vt.push(v));
        assert forall|w: usize| vt1.contains(w) <==> (vt.contains(w) || w == v) by {
            if vt1.contains(w) {
                let i = choose|i: int| 0 <= i < vt1.len() && vt1[i] == w;
                if i < vt.len() {
                    assert(vt[i] == w);
                }
            }
            if vt.contains(w) {
                let i = choose|i: int| 0 <= i < vt.len() && vt[i] == w;
                assert(vt1[i] == w);
            }
            if w == v {
                assert(vt1[vt.len() as int] == w);
            }
        }
        if !visited[v] {
            let ghost st = stack@;
            visited.set(v, true);
            stack.push(v);
            proof {
                assert(!st.contains(v)) by {
                    if st.contains(v) {
                        let i = choose|i: int| 0 <= i < st.len() && st[i] == v;
                    }
                }
                assert forall|a: int, b: int| 0 <= a < b < stack@.len() implies stack@[a] != stack@[b] by {
                    if b == st.len() {
                        assert(stack@[a] == st[a]);
                        assert(st.contains(st[a]));
                    }
                }
                assert forall|w: usize| #[trigger] stack@.contains(w) <==> (st.contains(w) || w == v) by {
                    if stack@.contains(w) {
                        let i = choose|i: int| 0 <= i < stack@.len() && stack@[i] == w;
                        if i < st.len() {
                            assert(st[i] == w);
                        }
                    }
                    if st.contains(w) {
                        let i = choose|i: int| 0 <= i < st.len() && st[i] == w;
                        assert(stack@[i] == w);
                    }
                    if w == v {
                        assert(stack@[st.len() as int] == w);
                    }
                }
                assert(!v0[v as int]);
            }
        }
        k = k + 1;
    }
    assert(vs@.take(vs@.len() as int) =~= vs@);
}

proof fn lemma_walk_covered(
    edges: Seq<(usize, usize)>,
    n: int,
    s: usize,
    visited: Seq<bool>,
    comp: Seq<usize>,
    p: Seq<usize>,
    i: int,
)
    requires
        round_inv(edges, n, s, visited, comp, Seq::empty()),
        edges_below(edges, n),
        is_walk(edges, p),
        p[0] == s,
        0 <= i < p.len(),
    ensures
        comp.contains(p[i]),
        connected(edges, s, p[i]),
    decreases i,
{
    let e = Seq::<usize>::empty();
    if i == 0 {
        lemma_walk_single(edges, s);
        assert(!e.contains(s));
    } else {
        lemma_walk_covered(edges, n, s, visited, comp, p, i - 1);
        let x = p[i - 1];
        let y = p[i];
        assert(adjacent(edges, x, y));
        lemma_adjacent_below(edges, n, x, y);
        assert(visited[y as int]);
        lemma_walk_extend(edges, s, x, y);
        lemma_not_earlier(edges, s, y);
    }
}

proof fn lemma_push_contains(s: Seq<usize>, u: usize)
    ensures
        forall|x: usize| #[trigger] s.push(u).contains(x) <==> (s.contains(x) || x == u),
{
    assert forall|x: usize| #[trigger] s.push(u).contains(x) <==> (s.contains(x) || x == u) by {
        if s.push(u).contains(x) {
            let i = choose|i: int| 0 <= i < s.len() + 1 && s.push(u)[i] == x;
            if i < s.len() {
                assert(s[i] == x);
            }
        }
        if s.contains(x) {
            let i = choose|i: int| 0 <= i < s.len() && s[i] == x;
            assert(s.push(u)[i] == x);
        }
        if x == u {
            assert(s.push(u)[s.len() as int] == x);
        }
    }
}

proof fn lemma_round_step(
    edges: Seq<(usize, usize)>,
    n: int,
    s: usize,
    visited: Seq<bool>,
    comp: Seq<usize>,
    stack: Seq<usize>,
    visited2: Seq<bool>,
    stack2: Seq<usize>,
)
    requires
        round_inv(edges, n, s, visited, comp, stack),
        edges_below(edges, n),
        stack.len() > 0,
        visited2.len() == n,
        stack2.no_duplicates(),
        forall|v: usize| (v as int) < n ==> (#[trigger] visited2[v as int] <==> (visited[v as int] || adjacent(edges, stack.last(), v))),
        forall|v: usize| #[trigger] stack2.contains(v) <==> (stack.drop_last().contains(v)
            || (adjacent(edges, stack.last(), v) && !visited[v as int])),
    ensures
        round_inv(edges, n, s, visited2, comp.push(stack.last()), stack2),
{
    let u = stack.last();
    let st1 = stack.drop_last();
    let comp2 = comp.push(u);
    lemma_push_contains(comp, u);
    lemma_push_contains(st1, u);
    assert(st1.push(u) =~= stack);
    assert(stack.contains(u)) by {
        assert(stack[stack.len() - 1] == u);
    }
    assert(!st1.contains(u)) by {
        if st1.contains(u) {
            let i = choose|i: int| 0 <= i < st1.len() && st1[i] == u;
            assert(stack[i] == stack[stack.len() - 1]);
        }
    }
    assert(!comp.contains(u)) by {
        if comp.contains(u) {
            let i = choose|i: int| 0 <= i < comp.len() && comp[i] == u;
            assert(comp[i] != stack[stack.len() - 1]);
        }
    }
    assert((u as int) < n && connected(edges, s, u));
    assert(visited[u as int]);
    assert(comp2.no_duplicates()) by {
        assert forall|i: int, j: int| 0 <= i < j < comp2.len() implies comp2[i] != comp2[j] by {
            if j == comp.len() {
                assert(comp2[i] == comp[i]);
                assert(comp.contains(comp[i]));
            }
        }
    }
    assert forall|x: usize| #[trigger] comp.contains(x) implies (x as int) < n && visited[x as int] by {
        assert(comp.contains(x) || stack.contains(x));
    }
    assert forall|i: int, j: int| 0 <= i < comp2.len() && 0 <= j < stack2.len() implies comp2[i] != stack2[j] by {
        let x = stack2[j];
        assert(stack2.contains(x));
        if comp2[i] == x {
            assert(comp2.contains(x));
            if x == u {
            } else {
                assert(comp.contains(x));
                if st1.contains(x) {
                    let k = choose|k: int| 0 <= k < st1.len() && st1[k] == x;
                    let c = choose|c: int| 0 <= c < comp.len() && comp[c] == x;
                    assert(stack[k] == x);
                }
            }
        }
    }
    assert forall|v: usize| (v as int) < n implies (#[trigger] visited2[v as int]
        <==> (earlier(edges, s, v) || comp2.contains(v) || stack2.contains(v))) by {
        if visited[v as int] {
            assert(earlier(edges, s, v) || comp.contains(v) || stack.contains(v));
        }
        if stack.contains(v) {
            assert(visited[v as int]);
        }
    }
    assert forall|x: usize| #![trigger comp2.contains(x)] #![trigger stack2.contains(x)]
        comp2.contains(x) || stack2.contains(x) implies (x as int) < n && connected(edges, s, x) by {
        if comp2.contains(x) {
            if x != u {
                assert(comp.contains(x));
            }
        } else {
            if st1.contains(x) {
                assert(stack.contains(x));
            } else {
                assert(adjacent(edges, u, x));
                lemma_adjacent_below(edges, n, u, x);
                lemma_walk_extend(edges, s, u, x);
            }
        }
    }
    assert forall|x: usize, y: usize| #[trigger] comp2.contains(x) && (y as int) < n && #[trigger] adjacent(edges, x, y)
        implies visited2[y as int] by {
        if x != u {
            assert(comp.contains(x));
            assert(visited[y as int]);
        }
    }
    assert(comp2.contains(s) || stack2.contains(s)) by {
        if stack.contains(s) && s != u {
            assert(st1.contains(s));
        }
    }
}

/// The component of `s`, in search order; `visited` gains its nodes.
fn collect_component(g: &DiGraph<usize, ()>, s: usize, visited: &mut Vec<bool>) -> (comp: Vec<usize>)
    requires
        edges_below(digraph_edges(*g), digraph_nodes(*g).len() as int),
        forall|i: int| 0 <= i < digraph_nodes(*g).len() ==> #[trigger] digraph_nodes(*g)[i] == i as usize,
        old(visited)@.len() == digraph_nodes(*g).len(),
        (s as int) < digraph_nodes(*g).len(),
        forall|v: usize| (v as int) < digraph_nodes(*g).len() ==>
            (#[trigger] old(visited)@[v as int] <==> earlier(digraph_edges(*g), s, v)),
        !earlier(digraph_edges(*g), s, s),
    ensures
        final(visited)@.len() == old(visited)@.len(),
        forall|v: usize| (v as int) < digraph_nodes(*g).len() ==> (#[trigger] final(visited)@[v as int]
            <==> (earlier(digraph_edges(*g), s, v) || connected(digraph_edges(*g), s, v))),
        comp@.no_duplicates(),
        forall|v: usize| #[trigger] comp@.contains(v) <==> ((v as int) < digraph_nodes(*g).len() && connected(digraph_edges(*g), s, v)),
{
    let ghost edges = digraph_edges(*g);
    let ghost n = digraph_nodes(*g).len() as int;
    let mut stack: Vec<usize> = Vec::new();
    let mut comp: Vec<usize> = Vec::new();
    let ghost v0 = visited@;
    stack.push(s);
    visited.set(s, true);
    proof {
        lemma_walk_single(edges, s);
        lemma_push_contains(Seq::<usize>::empty(), s);
        assert(stack@ =~= Seq::<usize>::empty().push(s));
        assert forall|v: usize| (v as int) < n implies (#[trigger] visited@[v as int]
            <==> (earlier(edges, s, v) || comp@.contains(v) || stack@.contains(v))) by {
            if v == s {
                assert(stack@.contains(s));
            }
        }
        assert(round_inv(edges, n, s, visited@, comp@, stack@));
    }
    while stack.len() > 0
        invariant
            edges == digraph_edges(*g),
            n == digraph_nodes(*g).len(),
            edges_below(edges, n),
            forall|i: int| 0 <= i < n ==> #[trigger] digraph_nodes(*g)[i] == i as usize,
            round_inv(edges, n, s, visited@, comp@, stack@),
        decreases n - comp@.len(),
    {
        let ghost vis0 = visited@;
        let ghost st0 = stack@;
        let ghost cp0 = comp@;
        proof {
            lemma_round_facts(edges, n, s, vis0, cp0, st0);
        }
        let u = stack.pop().unwrap();
        let w = graph_weight(g, u);
        assert(w == u);
        comp.push(w);
        let outs = graph_out_targets(g, u);
        let ins = graph_in_sources(g, u);
        proof {
            assert forall|y: usize| outs@.contains(y) <==> edges.contains((u, y)) by {
                lemma_reverse_contains(targets_from(edges, u as int), y);
                lemma_targets_from(edges, u, y);
            }
            assert forall|y: usize| ins@.contains(y) <==> edges.contains((y, u)) by {
                lemma_reverse_contains(sources_into(edges, u as int), y);
                lemma_targets_from(edges, y, u);
            }
            assert forall|i: int| 0 <= i < outs@.len() implies (#[trigger] outs@[i] as int) < visited@.len() by {
                assert(outs@.contains(outs@[i]));
                lemma_adjacent_below(edges, n, u, outs@[i]);
            }
            assert forall|i: int| 0 <= i < ins@.len() implies (#[trigger] ins@[i] as int) < visited@.len() by {
                assert(ins@.contains(ins@[i]));
                lemma_adjacent_below(edges, n, ins@[i], u);
            }
        }
        proof {
            assert forall|i: int| 0 <= i < stack@.len() implies (#[trigger] stack@[i] as int) < visited@.len()
                && visited@[stack@[i] as int] by {
                let x = stack@[i];
                assert(st0[i] == x);
                assert(st0.contains(x));
                assert(visited@[x as int] == vis0[x as int]);
            }
        }
        push_unvisited(visited, &mut stack, &outs);
        let ghost vis_b = visited@;
        let ghost st_b = stack@;
        push_unvisited(visited, &mut stack, &ins);
        proof {
            assert forall|v: usize| (v as int) < n implies (#[trigger] visited@[v as int] <==> (vis0[v as int] || adjacent(edges, u, v))) by {}
            assert forall|v: usize| #[trigger] stack@.contains(v) <==> (st0.drop_last().contains(v)
                || (adjacent(edges, u, v) && !vis0[v as int])) by {}
            lemma_round_step(edges, n, s, vis0, cp0, st0, visited@, stack@);
            assert(comp@ == cp0.push(st0.last()));
        }
    }
    proof {
        let e = Seq::<usize>::empty();
        assert(stack@ =~= e);
        assert forall|v: usize| #[trigger] comp@.contains(v) <==> ((v as int) < n && connected(edges, s, v)) by {
            if (v as int) < n && connected(edges, s, v) {
                let p = choose|p: Seq<usize>| #[trigger] is_walk(edges, p) && p[0] == s && p.last() == v;
                lemma_walk_covered(edges, n, s, visited@, comp@, p, p.len() - 1);
            }
        }
        assert forall|v: usize| (v as int) < n implies (#[trigger] visited@[v as int]
            <==> (earlier(edges, s, v) || connected(edges, s, v))) by {
            if connected(edges, s, v) {
                assert(comp@.contains(v));
            }
        }
    }
    comp
}

proof fn lemma_round_facts(edges: Seq<(usize, usize)>, n: int, s: usize, visited: Seq<bool>, comp: Seq<usize>, stack: Seq<usize>)
    requires
        round_inv(edges, n, s, visited, comp, stack),
        stack.len() > 0,
        0 <= n,
    ensures
        (stack.last() as int) < n,
        !comp.contains(stack.last()),
        comp.len() + 1 <= n,
{
    let u = stack.last();
    assert(stack.contains(u)) by {
        assert(stack[stack.len() - 1] == u);
    }
    assert(!comp.contains(u)) by {
        if comp.contains(u) {
            let i = choose|i: int| 0 <= i < comp.len() && comp[i] == u;
            assert(comp[i] != stack[stack.len() - 1]);
        }
    }
    let c2 = comp.push(u);
    lemma_push_contains(comp, u);
    assert(c2.no_duplicates()) by {
        assert forall|i: int, j: int| 0 <= i < j < c2.len() implies c2[i] != c2[j] by {
            if j == comp.len() {
                assert(c2[i] == comp[i]);
                assert(comp.contains(comp[i]));
            }
        }
    }
    assert forall|i: int| 0 <= i < c2.len() implies (#[trigger] c2[i] as int) < n by {
        assert(c2.contains(c2[i]));
    }
    lemma_distinct_len(c2, n);
}

proof fn lemma_sorted_distinct(a: Seq<usize>, b: Seq<usize>)
    requires
        b.no_duplicates(),
        a.to_multiset() == b.to_multiset(),
        forall|i: int, j: int| 0 <= i <= j < a.len() ==> a[i] <= a[j],
    ensures
        ascending(a),
        forall|x: usize| #[trigger] a.contains(x) <==> b.contains(x),
{
    broadcast use vstd::seq_lib::group_to_multiset_ensures;
    b.lemma_multiset_has_no_duplicates();
    a.lemma_multiset_has_no_duplicates_conv();
    assert forall|x: usize| #[trigger] a.contains(x) <==> b.contains(x) by {
        assert(a.contains(x) <==> a.to_multiset().count(x) > 0);
        assert(b.contains(x) <==> b.to_multiset().count(x) > 0);
    }
    assert forall|i: int, j: int| 0 <= i < j < a.len() implies a[i] < a[j] by {
        assert(a[i] != a[j]);
    }
}

/// Weakly connected components, each sorted ascending, in the order of
/// their smallest nodes (`n` is not read).
fn compute_connected_components(graph: &DiGraph<usize, ()>, n: usize) -> (comps: Vec<Vec<usize>>)
    requires
        edges_below(digraph_edges(*graph), digraph_nodes(*graph).len() as int),
        forall|i: int| 0 <= i < digraph_nodes(*graph).len() ==> #[trigger] digraph_nodes(*graph)[i] == i as usize,
    ensures
        comps@.len() == leaders(digraph_edges(*graph), digraph_nodes(*graph).len() as int).len(),
        forall|k: int| 0 <= k < comps@.len() ==> ascending(#[trigger] comps@[k]@),
        forall|k: int, v: usize| 0 <= k < comps@.len() ==> (#[trigger] comps@[k]@.contains(v) <==> ((v as int) < digraph_nodes(*graph).len()
            && connected(digraph_edges(*graph), leaders(digraph_edges(*graph), digraph_nodes(*graph).len() as int)[k], v))),
{
    let ghost edges = digraph_edges(*graph);
    let bound = graph_node_bound(graph);
    let ghost nn = bound as int;
    let mut visited: Vec<bool> = Vec::new();
    let mut i: usize = 0;
    while i < bound
        invariant
            i <= bound,
            visited@.len() == i,
            forall|v: int| 0 <= v < i ==> !#[trigger] visited@[v],
        decreases bound - i,
    {
        visited.push(false);
        i = i + 1;
    }
    let mut comps: Vec<Vec<usize>> = Vec::new();
    let mut ni: usize = 0;
    while ni < bound
        invariant
            ni <= bound,
            nn == bound,
            edges == digraph_edges(*graph),
            nn == digraph_nodes(*graph).len(),
            edges_below(edges, nn),
            forall|i: int| 0 <= i < nn ==> #[trigger] digraph_nodes(*graph)[i] == i as usize,
            visited@.len() == nn,
            forall|v: usize| (v as int) < nn ==> (#[trigger] visited@[v as int] <==> earlier(edges, ni, v)),
            comps@.len() == leaders(edges, ni as int).len(),
            forall|k: int| 0 <= k < comps@.len() ==> ascending(#[trigger] comps@[k]@),
            forall|k: int, v: usize| 0 <= k < comps@.len() ==> (#[trigger] comps@[k]@.contains(v)
                <==> ((v as int) < nn && connected(edges, leaders(edges, ni as int)[k], v))),
        decreases bound - ni,
    {
        let ghost l0 = leaders(edges, ni as int);
        if visited[ni] {
            proof {
                assert(earlier(edges, ni, ni));
                let u = choose|u: usize| u < ni && #[trigger] connected(edges, u, ni);
                assert(!is_leader(edges, ni));
                assert(leaders(edges, ni + 1) == l0);
                assert forall|v: usize| (v as int) < nn implies (#[trigger] visited@[v as int] <==> earlier(edges, (ni + 1) as usize, v)) by {
                    if earlier(edges, (ni + 1) as usize, v) {
                        let w = choose|w: usize| w < ni + 1 && #[trigger] connected(edges, w, v);
                        if w == ni {
                            lemma_walk_join(edges, u, ni, v);
                            assert(connected(edges, u, v));
                        }
                        assert(earlier(edges, ni, v));
                    }
                    if earlier(edges, ni, v) {
                        let w = choose|w: usize| w < ni && #[trigger] connected(edges, w, v);
                        assert(w < ni + 1);
                    }
                }
            }
        } else {
            proof {
                assert(!earlier(edges, ni, ni));
                assert(is_leader(edges, ni)) by {
                    assert forall|u: usize| u < ni implies !#[trigger] connected(edges, u, ni) by {
                        if connected(edges, u, ni) {
                            assert(earlier(edges, ni, ni));
                        }
                    }
                }
                assert(leaders(edges, ni + 1) == l0.push(ni));
            }
            let mut comp = collect_component(graph, ni, &mut visited);
            let ghost unsorted = comp@;
            sort_ascending(&mut comp);
            proof {
                lemma_sorted_distinct(comp@, unsorted);
            }
            let ghost before = comps@;
            comps.push(comp);
            proof {
                assert forall|v: usize| (v as int) < nn implies (#[trigger] visited@[v as int] <==> earlier(edges, (ni + 1) as usize, v)) by {
                    if earlier(edges, (ni + 1) as usize, v) {
                        let w = choose|w: usize| w < ni + 1 && #[trigger] connected(edges, w, v);
                        if w != ni {
                            assert(earlier(edges, ni, v));
                        }
                    }
                    if earlier(edges, ni, v) {
                        let w = choose|w: usize| w < ni && #[trigger] connected(edges, w, v);
                        assert(w < ni + 1);
                    }
                    if connected(edges, ni, v) {
                        assert(ni < ni + 1);
                    }
                }
                assert forall|k: int| 0 <= k < comps@.len() implies ascending(#[trigger] comps@[k]@) by {
                    if k < before.len() {
                        assert(comps@[k] == before[k]);
                    }
                }
                assert forall|k: int, v: usize| 0 <= k < comps@.len() implies (#[trigger] comps@[k]@.contains(v)
                    <==> ((v as int) < nn && connected(edges, leaders(edges, ni + 1)[k], v))) by {
                    if k < before.len() {
                        assert(comps@[k] == before[k]);
                        assert(leaders(edges, ni + 1)[k] == l0[k]);
                    }
                }
            }
        }
        ni = ni + 1;
    }
    comps
}

// ---------------------------------------------------------------------------
// Feedback arcs
// ---------------------------------------------------------------------------

/// Search state: visited flags, on-stack flags, arcs found so far.
pub type SearchState = (Seq<bool>, Seq<bool>, Seq<(usize, usize)>);

/// Ascending order on node indices.
pub open spec fn index_leq() -> spec_fn(usize, usize) -> bool {
    |a: usize, b: usize| a <= b
}

/// The targets of `u` in ascending order.
pub open spec fn sorted_targets(edges: Seq<(usize, usize)>, u: int) -> Seq<usize> {
    targets_from(edges, u).reverse().sort_by(index_leq())
}

/// Depth-first search from `u`: marks it visited and on the stack, looks
/// at its targets in ascending order, then takes it off the stack (at most
/// `fuel` levels deep).
pub open spec fn dfs_node(edges: Seq<(usize, usize)>, st: SearchState, u: usize, fuel: nat) -> SearchState
    decreases fuel, 0nat,
{
    if fuel == 0 {
        st
    } else {
        let st1 = (st.0.update(u as int, true), st.1.update(u as int, true), st.2);
        let st2 = dfs_list(edges, st1, u, sorted_targets(edges, u as int), (fuel - 1) as nat);
        (st2.0, st2.1.update(u as int, false), st2.2)
    }
}

/// The targets `vs` of `u`, in order: a target on the stack closes a
/// feedback arc from `u`; an unvisited one is searched.
pub open spec fn dfs_list(edges: Seq<(usize, usize)>, st: SearchState, u: usize, vs: Seq<usize>, fuel: nat) -> SearchState
    decreases fuel, vs.len() + 1,
{
    if vs.len() == 0 {
        st
    } else {
        let st1 = dfs_list(edges, st, u, vs.drop_last(), fuel);
        let v = vs.last();
        if st1.1[v as int] {
            (st1.0, st1.1, st1.2.push((u, v)))
        } else if !st1.0[v as int] {
            dfs_node(edges, st1, v, fuel)
        } else {
            st1
        }
    }
}

/// The search started from every unvisited node among `0..k`, in order.
pub open spec fn dfs_all(edges: Seq<(usize, usize)>, n: int, k: int) -> SearchState
    decreases k,
{
    if k <= 0 {
        (Seq::new(n as nat, |i: int| false), Seq::new(n as nat, |i: int| false), Seq::empty())
    } else {
        let st = dfs_all(edges, n, k - 1);
        if !st.0[k - 1] { dfs_node(edges, st, (k - 1) as usize, (n + 1) as nat) } else { st }
    }
}

/// The feedback arcs: edges into a node still on the search stack, in the
/// order the search meets them.
pub open spec fn spec_feedback_arcs(edges: Seq<(usize, usize)>, n: int) -> Seq<(usize, usize)> {
    dfs_all(edges, n, n).2
}

/// Number of unvisited nodes.
pub open spec fn unvisited(v: Seq<bool>) -> int
    decreases v.len(),
{
    if v.len() == 0 {
        0
    } else {
        unvisited(v.drop_last()) + if v.last() { 0int } else { 1int }
    }
}

pub(crate) proof fn lemma_unvisited_bounds(v: Seq<bool>)
    ensures
        0 <= unvisited(v) <= v.len(),
    decreases v.len(),
{
    if v.len() > 0 {
        lemma_unvisited_bounds(v.drop_last());
    }
}

pub(crate) proof fn lemma_unvisited_mark(v: Seq<bool>, i: int)
    requires
        0 <= i < v.len(),
        !v[i],
    ensures
        unvisited(v.update(i, true)) == unvisited(v) - 1,
        unvisited(v) >= 1,
    decreases v.len(),
{
    let u = v.update(i, true);
    lemma_unvisited_bounds(v.drop_last());
    if i < v.len() - 1 {
        assert(u.drop_last() =~= v.drop_last().update(i, true));
        lemma_unvisited_mark(v.drop_last(), i);
    } else {
        assert(u.drop_last() =~= v.drop_last());
    }
}

proof fn lemma_unvisited_mono(a: Seq<bool>, b: Seq<bool>)
    requires
        a.len() == b.len(),
        forall|i: int| 0 <= i < a.len() && #[trigger] a[i] ==> b[i],
    ensures
        unvisited(b) <= unvisited(a),
    decreases a.len(),
{
    if a.len() > 0 {
        let a2 = a.drop_last();
        let b2 = b.drop_last();
        assert forall|i: int| 0 <= i < a2.len() && #[trigger] a2[i] implies b2[i] by {
            assert(a[i]);
        }
        lemma_unvisited_mono(a2, b2);
        assert(a.last() ==> b.last()) by {
            assert(a[a.len() - 1] ==> b[b.len() - 1]);
        }
    }
}

proof fn lemma_index_leq_total()
    ensures
        vstd::relations::total_ordering(index_leq()),
{
}

/// The targets of `u`, ascending.
fn sorted_out_targets(g: &DiGraph<usize, ()>, u: usize) -> (ts: Vec<usize>)
    requires
        u < digraph_nodes(*g).len(),
    ensures
        ts@ == sorted_targets(digraph_edges(*g), u as int),
{
    let mut ts = graph_out_targets(g, u);
    let ghost raw = ts@;
    sort_ascending(&mut ts);
    proof {
        lemma_index_leq_total();
        raw.lemma_sort_by_ensures(index_leq());
        assert(vstd::relations::sorted_by(ts@, index_leq())) by {
            assert forall|i: int, j: int| 0 <= i < j < ts@.len() implies #[trigger] (index_leq())(ts@[i], ts@[j]) by {}
        }
        vstd::seq_lib::lemma_sorted_unique(ts@, raw.sort_by(index_leq()), index_leq());
    }
    ts
}

proof fn lemma_sorted_targets_below(edges: Seq<(usize, usize)>, n: int, u: int)
    requires
        edges_below(edges, n),
        0 <= u <= usize::MAX,
    ensures
        forall|i: int| 0 <= i < sorted_targets(edges, u).len() ==> (#[trigger] sorted_targets(edges, u)[i] as int) < n,
{
    let t = targets_from(edges, u).reverse();
    lemma_index_leq_total();
    t.lemma_sort_by_ensures(index_leq());
    assert forall|i: int| 0 <= i < sorted_targets(edges, u).len() implies (#[trigger] sorted_targets(edges, u)[i] as int) < n by {
        let x = sorted_targets(edges, u)[i];
        assert(sorted_targets(edges, u).contains(x));
        assert(t.contains(x));
        lemma_reverse_contains(targets_from(edges, u), x);
        lemma_targets_from(edges, u as usize, x);
        assert(adjacent(edges, u as usize, x));
        lemma_adjacent_below(edges, n, u as usize, x);
    }
}

/// Depth-first search from `u` as [`dfs_node`] says.
fn dfs(
    g: &DiGraph<usize, ()>,
    u: usize,
    visited: &mut Vec<bool>,
    on_stack: &mut Vec<bool>,
    fas: &mut Vec<(usize, usize)>,
    Ghost(fuel): Ghost<nat>,
)
    requires
        edges_below(digraph_edges(*g), digraph_nodes(*g).len() as int),
        forall|i: int| 0 <= i < digraph_nodes(*g).len() ==> #[trigger] digraph_nodes(*g)[i] == i as usize,
        old(visited)@.len() == digraph_nodes(*g).len(),
        old(on_stack)@.len() == digraph_nodes(*g).len(),
        (u as int) < digraph_nodes(*g).len(),
        !old(visited)@[u as int],
        fuel > unvisited(old(visited)@),
    ensures
        (final(visited)@, final(on_stack)@, final(fas)@) == dfs_node(
            digraph_edges(*g),
            (old(visited)@, old(on_stack)@, old(fas)@),
            u,
            fuel,
        ),
        final(visited)@.len() == old(visited)@.len(),
        final(on_stack)@.len() == old(on_stack)@.len(),
        forall|i: int| 0 <= i < old(visited)@.len() && #[trigger] old(visited)@[i] ==> final(visited)@[i],
    decreases fuel,
{
    let ghost edges = digraph_edges(*g);
    let ghost n = digraph_nodes(*g).len() as int;
    let ghost v0 = visited@;
    proof {
        lemma_unvisited_mark(v0, u as int);
    }
    visited.set(u, true);
    on_stack.set(u, true);
    let outs = sorted_out_targets(g, u);
    proof {
        lemma_sorted_targets_below(edges, n, u as int);
    }
    let ghost st1: SearchState = (visited@, on_stack@, fas@);
    let mut k: usize = 0;
    assert(outs@.take(0) =~= Seq::<usize>::empty());
    while k < outs.len()
        invariant
            edges == digraph_edges(*g),
            n == digraph_nodes(*g).len(),
            edges_below(edges, n),
            forall|i: int| 0 <= i < n ==> #[trigger] digraph_nodes(*g)[i] == i as usize,
            k <= outs@.len(),
            outs@ == sorted_targets(edges, u as int),
            forall|i: int| 0 <= i < outs@.len() ==> (#[trigger] outs@[i] as int) < n,
            (u as int) < n,
            st1.0.len() == n,
            fuel >= 1,
            (fuel - 1) as int > unvisited(st1.0) - 0,
            (visited@, on_stack@, fas@) == dfs_list(edges, st1, u, outs@.take(k as int), (fuel - 1) as nat),
            visited@.len() == n,
            on_stack@.len() == n,
            forall|i: int| 0 <= i < n && #[trigger] st1.0[i] ==> visited@[i],
            forall|i: int| 0 <= i < n && #[trigger] v0[i] ==> st1.0[i],
            unvisited(st1.0) < unvisited(v0),
        decreases outs@.len() - k,
    {
        let ghost t = outs@.take(k + 1);
        assert(t.drop_last() =~= outs@.take(k as int));
        let v = outs[k];
        assert(t.last() == v);
        if on_stack[v] {
            let wu = graph_weight(g, u);
            let wv = graph_weight(g, v);
            fas.push((wu, wv));
        } else if !visited[v] {
            proof {
                lemma_unvisited_mono(st1.0, visited@);
                lemma_unvisited_bounds(visited@);
                assert(unvisited(visited@) < unvisited(v0));
            }
            dfs(g, v, visited, on_stack, fas, Ghost((fuel - 1) as nat));
        }
        k = k + 1;
    }
    assert(outs@.take(outs@.len() as int) =~= outs@);
    on_stack.set(u, false);
}

/// Feedback arcs by depth-first search from every unvisited node in index
/// order, each node looking at its targets in ascending order: an edge to a
/// node still on the search stack is a feedback arc.
fn detect_feedback_arcs(graph: &DiGraph<usize, ()>) -> (fas: Vec<(usize, usize)>)
    requires
        edges_below(digraph_edges(*graph), digraph_nodes(*graph).len() as int),
        forall|i: int| 0 <= i < digraph_nodes(*graph).len() ==> #[trigger] digraph_nodes(*graph)[i] == i as usize,
    ensures
        fas@ == spec_feedback_arcs(digraph_edges(*graph), digraph_nodes(*graph).len() as int),
{
    let ghost edges = digraph_edges(*graph);
    let bound = graph_node_bound(graph);
    let ghost n = bound as int;
    let mut visited: Vec<bool> = Vec::new();
    let mut on_stack: Vec<bool> = Vec::new();
    let mut i: usize = 0;
    while i < bound
        invariant
            i <= bound,
            visited@.len() == i,
            on_stack@.len() == i,
            forall|v: int| 0 <= v < i ==> !#[trigger] visited@[v],
            forall|v: int| 0 <= v < i ==> !#[trigger] on_stack@[v],
        decreases bound - i,
    {
        visited.push(false);
        on_stack.push(false);
        i = i + 1;
    }
    let mut fas: Vec<(usize, usize)> = Vec::new();
    assert(visited@ =~= Seq::new(n as nat, |i: int| false));
    assert(on_stack@ =~= Seq::new(n as nat, |i: int| false));
    let mut ni: usize = 0;
    while ni < bound
        invariant
            ni <= bound,
            n == bound,
            edges == digraph_edges(*graph),
            n == digraph_nodes(*graph).len(),
            edges_below(edges, n),
            forall|i: int| 0 <= i < n ==> #[trigger] digraph_nodes(*graph)[i] == i as usize,
            (visited@, on_stack@, fas@) == dfs_all(edges, n, ni as int),
            visited@.len() == n,
            on_stack@.len() == n,
        decreases bound - ni,
    {
        if !visited[ni] {
            proof {
                lemma_unvisited_bounds(visited@);
            }
            dfs(graph, ni, &mut visited, &mut on_stack, &mut fas, Ghost((n + 1) as nat));
        }
        ni = ni + 1;
    }
    fas
}

// ---------------------------------------------------------------------------
// The feedback arcs break every cycle
// ---------------------------------------------------------------------------

/// Node `i` is finished: visited and off the search stack.
pub open spec fn finished(st: SearchState, i: int) -> bool {
    st.0[i] && !st.1[i]
}

/// How many of the nodes `0..k` are finished.
pub open spec fn finished_count(st: SearchState, k: int) -> int
    decreases k,
{
    if k <= 0 {
        0
    } else {
        finished_count(st, k - 1) + if finished(st, k - 1) { 1int } else { 0int }
    }
}

/// What holds between the steps of the search: nodes on the stack are
/// visited; the finished nodes carry distinct finishing numbers below their
/// count; and every edge out of a finished node is a feedback arc found or
/// goes to a finished node with a smaller number.
pub open spec fn search_inv(edges: Seq<(usize, usize)>, n: int, st: SearchState, fin: Seq<int>) -> bool {
    &&& st.0.len() == n
    &&& st.1.len() == n
    &&& fin.len() == n
    &&& forall|i: int| 0 <= i < n && #[trigger] st.1[i] ==> st.0[i]
    &&& forall|i: int| 0 <= i < n && #[trigger] finished(st, i) ==> 0 <= fin[i] < finished_count(st, n)
    &&& forall|i: int, j: int|
        0 <= i < n && 0 <= j < n && finished(st, i) && finished(st, j) && #[trigger] fin[i] == #[trigger] fin[j] ==> i == j
    &&& forall|k: int| 0 <= k < edges.len() && finished(st, (#[trigger] edges[k]).0 as int) ==>
        st.2.contains(edges[k]) || (finished(st, edges[k].1 as int) && fin[edges[k].1 as int] < fin[edges[k].0 as int])
}

proof fn lemma_count_same(a: SearchState, b: SearchState, k: int)
    requires
        forall|i: int| 0 <= i < k ==> finished(a, i) == finished(b, i),
    ensures
        finished_count(a, k) == finished_count(b, k),
    decreases k,
{
    if k > 0 {
        lemma_count_same(a, b, k - 1);
    }
}

proof fn lemma_count_finish(st: SearchState, u: int, k: int)
    requires
        0 <= u < k <= st.1.len(),
        st.0[u],
        st.1[u],
    ensures
        finished_count((st.0, st.1.update(u, false), st.2), k) == finished_count(st, k) + 1,
    decreases k,
{
    let r = (st.0, st.1.update(u, false), st.2);
    if u < k - 1 {
        lemma_count_finish(st, u, k - 1);
        assert(finished(r, k - 1) == finished(st, k - 1));
    } else {
        lemma_count_same(r, st, k - 1);
    }
}

proof fn lemma_count_nonneg(st: SearchState, k: int)
    ensures
        finished_count(st, k) >= 0,
    decreases k,
{
    if k > 0 {
        lemma_count_nonneg(st, k - 1);
    }
}

proof fn lemma_count_all(st: SearchState, k: int)
    requires
        0 <= k,
        forall|i: int| 0 <= i < k ==> #[trigger] finished(st, i),
    ensures
        finished_count(st, k) == k,
    decreases k,
{
    if k > 0 {
        lemma_count_all(st, k - 1);
    }
}

proof fn lemma_sorted_targets_has(edges: Seq<(usize, usize)>, k: int)
    requires
        0 <= k < edges.len(),
    ensures
        sorted_targets(edges, edges[k].0 as int).contains(edges[k].1),
{
    broadcast use vstd::seq_lib::group_to_multiset_ensures;
    let u = edges[k].0;
    let v = edges[k].1;
    assert(edges.contains((u, v)));
    lemma_targets_from(edges, u, v);
    lemma_reverse_contains(targets_from(edges, u as int), v);
    let t = targets_from(edges, u as int).reverse();
    lemma_index_leq_total();
    t.lemma_sort_by_ensures(index_leq());
    assert(t.to_multiset().count(v) > 0);
    assert(t.sort_by(index_leq()).to_multiset().count(v) > 0);
}

/// `f` drops along every edge.
pub open spec fn ranked(edges: Seq<(usize, usize)>, n: int, f: Seq<int>) -> bool {
    &&& f.len() == n
    &&& forall|k: int| 0 <= k < edges.len() ==> f[(#[trigger] edges[k]).1 as int] < f[edges[k].0 as int]
}

proof fn lemma_sorted_target_is_edge(edges: Seq<(usize, usize)>, u: usize, v: usize)
    requires
        sorted_targets(edges, u as int).contains(v),
    ensures
        edges.contains((u, v)),
{
    broadcast use vstd::seq_lib::group_to_multiset_ensures;
    let t = targets_from(edges, u as int).reverse();
    lemma_index_leq_total();
    t.lemma_sort_by_ensures(index_leq());
    assert(t.sort_by(index_leq()).to_multiset().count(v) > 0);
    assert(t.to_multiset().count(v) > 0);
    assert(t.contains(v));
    lemma_reverse_contains(targets_from(edges, u as int), v);
    lemma_targets_from(edges, u, v);
}

proof fn lemma_dfs_node_search(
    edges: Seq<(usize, usize)>,
    n: int,
    st: SearchState,
    u: usize,
    fuel: nat,
    fin: Seq<int>,
    f: Seq<int>,
) -> (fin2: Seq<int>)
    requires
        edges_below(edges, n),
        search_inv(edges, n, st, fin),
        (u as int) < n,
        !st.0[u as int],
        fuel > unvisited(st.0),
    ensures
        search_inv(edges, n, dfs_node(edges, st, u, fuel), fin2),
        dfs_node(edges, st, u, fuel).1 == st.1,
        dfs_node(edges, st, u, fuel).0[u as int],
        forall|i: int| 0 <= i < n && #[trigger] st.0[i] ==> dfs_node(edges, st, u, fuel).0[i],
        forall|i: int| 0 <= i < n && #[trigger] finished(st, i) ==> fin2[i] == fin[i],
        forall|x: (usize, usize)| #[trigger] st.2.contains(x) ==> dfs_node(edges, st, u, fuel).2.contains(x),
        forall|x: (usize, usize)| #[trigger] dfs_node(edges, st, u, fuel).2.contains(x) ==> st.2.contains(x) || edges.contains(x),
        ranked(edges, n, f) && (forall|i: int| 0 <= i < n && #[trigger] st.1[i] ==> f[i] >= f[u as int])
            ==> dfs_node(edges, st, u, fuel).2 == st.2,
    decreases fuel, 0nat,
{
    let ui = u as int;
    lemma_unvisited_mark(st.0, ui);
    lemma_unvisited_bounds(st.0.update(ui, true));
    let st1: SearchState = (st.0.update(ui, true), st.1.update(ui, true), st.2);
    assert(!st.1[ui]);
    assert forall|i: int| 0 <= i < n implies finished(st, i) == finished(st1, i) by {}
    lemma_count_same(st, st1, n);
    assert(search_inv(edges, n, st1, fin)) by {
        assert forall|k: int| 0 <= k < edges.len() && finished(st1, (#[trigger] edges[k]).0 as int) implies
            st1.2.contains(edges[k]) || (finished(st1, edges[k].1 as int) && fin[edges[k].1 as int] < fin[edges[k].0 as int]) by {
            assert((edges[k].0 as int) < n && (edges[k].1 as int) < n);
            assert(finished(st, edges[k].0 as int));
        }
    }
    let vs = sorted_targets(edges, ui);
    lemma_sorted_targets_below(edges, n, ui);
    assert forall|j: int| 0 <= j < vs.len() implies edges.contains((u, #[trigger] vs[j])) by {
        assert(vs.contains(vs[j]));
        lemma_sorted_target_is_edge(edges, u, vs[j]);
    }
    assert(ranked(edges, n, f) && (forall|i: int| 0 <= i < n && #[trigger] st.1[i] ==> f[i] >= f[u as int])
        ==> (forall|i: int| 0 <= i < n && #[trigger] st1.1[i] ==> f[i] >= f[u as int])) by {
        if ranked(edges, n, f) && (forall|i: int| 0 <= i < n && #[trigger] st.1[i] ==> f[i] >= f[u as int]) {
            assert forall|i: int| 0 <= i < n && #[trigger] st1.1[i] implies f[i] >= f[u as int] by {
                if i != ui {
                    assert(st.1[i]);
                }
            }
        }
    }
    let fin1 = lemma_dfs_list_search(edges, n, st1, u, vs, (fuel - 1) as nat, fin, f);
    let st2 = dfs_list(edges, st1, u, vs, (fuel - 1) as nat);
    let r: SearchState = (st2.0, st2.1.update(ui, false), st2.2);
    assert(dfs_node(edges, st, u, fuel) == r);
    assert(st1.0[ui]);
    assert(st2.0[ui]);
    assert(st2.1[ui]);
    assert forall|i: int| 0 <= i < n && #[trigger] st.0[i] implies r.0[i] by {
        assert(st1.0[i]);
    }
    assert forall|x: (usize, usize)| #[trigger] st.2.contains(x) implies r.2.contains(x) by {
        assert(st1.2.contains(x));
    }
    let c = finished_count(st2, n);
    lemma_count_finish(st2, ui, n);
    let fin3 = fin1.update(ui, c);
    assert(!finished(st2, ui));
    assert forall|i: int| 0 <= i < n && i != ui implies finished(r, i) == finished(st2, i) by {}
    assert(search_inv(edges, n, r, fin3)) by {
        assert forall|i: int| 0 <= i < n && #[trigger] r.1[i] implies r.0[i] by {
            if i != ui {
                assert(r.1[i] == st2.1[i]);
                assert(st2.1[i]);
            }
        }
        lemma_count_nonneg(st2, n);
        assert forall|i: int| 0 <= i < n && #[trigger] finished(r, i) implies 0 <= fin3[i] < finished_count(r, n) by {
            if i != ui {
                assert(finished(st2, i));
                assert(fin3[i] == fin1[i]);
            } else {
                assert(fin3[i] == c);
            }
        }
        assert forall|i: int, j: int|
            0 <= i < n && 0 <= j < n && finished(r, i) && finished(r, j) && #[trigger] fin3[i] == #[trigger] fin3[j] implies i == j by {
            if i != ui && j != ui {
                assert(finished(st2, i) && finished(st2, j));
                assert(fin1[i] == fin1[j]);
            } else if i != ui {
                assert(finished(st2, i));
                assert(fin1[i] < c);
            } else if j != ui {
                assert(finished(st2, j));
                assert(fin1[j] < c);
            }
        }
        assert forall|k: int| 0 <= k < edges.len() && finished(r, (#[trigger] edges[k]).0 as int) implies
            r.2.contains(edges[k]) || (finished(r, edges[k].1 as int) && fin3[edges[k].1 as int] < fin3[edges[k].0 as int]) by {
            let a = edges[k].0 as int;
            let b = edges[k].1 as int;
            assert(a < n && b < n);
            if a == ui {
                lemma_sorted_targets_has(edges, k);
                let j = choose|j: int| 0 <= j < vs.len() && vs[j] == edges[k].1;
                assert(st2.2.contains((u, vs[j])) || finished(st2, vs[j] as int));
                if !st2.2.contains(edges[k]) {
                    assert(finished(st2, b));
                    assert(b != ui);
                    assert(fin3[b] == fin1[b]);
                }
            } else {
                assert(finished(st2, a));
                if !st2.2.contains(edges[k]) {
                    assert(finished(st2, b) && fin1[b] < fin1[a]);
                    assert(b != ui);
                }
            }
        }
    }
    assert(r.1 =~= st.1);
    fin3
}

proof fn lemma_dfs_list_search(
    edges: Seq<(usize, usize)>,
    n: int,
    st: SearchState,
    u: usize,
    vs: Seq<usize>,
    fuel: nat,
    fin: Seq<int>,
    f: Seq<int>,
) -> (fin2: Seq<int>)
    requires
        edges_below(edges, n),
        search_inv(edges, n, st, fin),
        (u as int) < n,
        st.0[u as int],
        st.1[u as int],
        forall|i: int| 0 <= i < vs.len() ==> (#[trigger] vs[i] as int) < n,
        forall|j: int| 0 <= j < vs.len() ==> edges.contains((u, #[trigger] vs[j])),
        fuel > unvisited(st.0),
    ensures
        search_inv(edges, n, dfs_list(edges, st, u, vs, fuel), fin2),
        dfs_list(edges, st, u, vs, fuel).1 == st.1,
        forall|i: int| 0 <= i < n && #[trigger] st.0[i] ==> dfs_list(edges, st, u, vs, fuel).0[i],
        forall|i: int| 0 <= i < n && #[trigger] finished(st, i) ==> fin2[i] == fin[i],
        forall|x: (usize, usize)| #[trigger] st.2.contains(x) ==> dfs_list(edges, st, u, vs, fuel).2.contains(x),
        forall|j: int| 0 <= j < vs.len() ==> dfs_list(edges, st, u, vs, fuel).2.contains((u, #[trigger] vs[j]))
            || finished(dfs_list(edges, st, u, vs, fuel), vs[j] as int),
        forall|x: (usize, usize)| #[trigger] dfs_list(edges, st, u, vs, fuel).2.contains(x) ==> st.2.contains(x) || edges.contains(x),
        ranked(edges, n, f) && (forall|i: int| 0 <= i < n && #[trigger] st.1[i] ==> f[i] >= f[u as int])
            ==> dfs_list(edges, st, u, vs, fuel).2 == st.2,
    decreases fuel, vs.len() + 1,
{
    if vs.len() == 0 {
        fin
    } else {
        let d = vs.drop_last();
        assert forall|i: int| 0 <= i < d.len() implies (#[trigger] d[i] as int) < n by {
            assert(d[i] == vs[i]);
        }
        assert forall|j: int| 0 <= j < d.len() implies edges.contains((u, #[trigger] d[j])) by {
            assert(d[j] == vs[j]);
        }
        let fin1 = lemma_dfs_list_search(edges, n, st, u, d, fuel, fin, f);
        let st1 = dfs_list(edges, st, u, d, fuel);
        let v = vs.last();
        assert(vs[vs.len() - 1] == v);
        let vi = v as int;
        let r = dfs_list(edges, st, u, vs, fuel);
        if st1.1[vi] {
            assert(r == (st1.0, st1.1, st1.2.push((u, v))));
            assert forall|i: int| 0 <= i < n implies finished(r, i) == finished(st1, i) by {}
            lemma_count_same(r, st1, n);
            assert forall|x: (usize, usize)| #[trigger] st1.2.contains(x) implies r.2.contains(x) by {
                let q = choose|q: int| 0 <= q < st1.2.len() && st1.2[q] == x;
                assert(r.2[q] == x);
            }
            assert(r.2[st1.2.len() as int] == (u, v));
            assert(edges.contains((u, v)));
            assert forall|x: (usize, usize)| #[trigger] r.2.contains(x) implies st.2.contains(x) || edges.contains(x) by {
                let q = choose|q: int| 0 <= q < r.2.len() && r.2[q] == x;
                if q < st1.2.len() {
                    assert(st1.2[q] == x);
                    assert(st1.2.contains(x));
                }
            }
            if ranked(edges, n, f) && (forall|i: int| 0 <= i < n && #[trigger] st.1[i] ==> f[i] >= f[u as int]) {
                let k = choose|k: int| 0 <= k < edges.len() && edges[k] == (u, v);
                assert(f[vi] < f[u as int]);
                assert(st1.1 == st.1);
                assert(st.1[vi]);
                assert(false);
            }
            assert(search_inv(edges, n, r, fin1)) by {
                assert forall|k: int| 0 <= k < edges.len() && finished(r, (#[trigger] edges[k]).0 as int) implies
                    r.2.contains(edges[k]) || (finished(r, edges[k].1 as int) && fin1[edges[k].1 as int] < fin1[edges[k].0 as int]) by {
                    assert(finished(st1, edges[k].0 as int));
                }
            }
            assert forall|j: int| 0 <= j < vs.len() implies r.2.contains((u, #[trigger] vs[j])) || finished(r, vs[j] as int) by {
                if j < vs.len() - 1 {
                    assert(d[j] == vs[j]);
                }
            }
            fin1
        } else if !st1.0[vi] {
            lemma_unvisited_mono(st.0, st1.0);
            assert(r == dfs_node(edges, st1, v, fuel));
            assert(edges.contains((u, v)));
            if ranked(edges, n, f) && (forall|i: int| 0 <= i < n && #[trigger] st.1[i] ==> f[i] >= f[u as int]) {
                let k = choose|k: int| 0 <= k < edges.len() && edges[k] == (u, v);
                assert(f[vi] < f[u as int]);
                assert forall|i: int| 0 <= i < n && #[trigger] st1.1[i] implies f[i] >= f[vi] by {
                    assert(st.1[i]);
                }
            }
            let fin2 = lemma_dfs_node_search(edges, n, st1, v, fuel, fin1, f);
            assert forall|x: (usize, usize)| #[trigger] r.2.contains(x) implies st.2.contains(x) || edges.contains(x) by {
                if !st1.2.contains(x) {
                    assert(edges.contains(x));
                }
            }
            assert forall|j: int| 0 <= j < vs.len() implies r.2.contains((u, #[trigger] vs[j])) || finished(r, vs[j] as int) by {
                if j < vs.len() - 1 {
                    assert(d[j] == vs[j]);
                    if !st1.2.contains((u, vs[j])) {
                        assert(finished(st1, vs[j] as int));
                    }
                } else {
                    assert(r.0[vi] && !r.1[vi]);
                }
            }
            assert forall|i: int| 0 <= i < n && #[trigger] finished(st, i) implies fin2[i] == fin[i] by {
                assert(finished(st1, i));
            }
            fin2
        } else {
            assert(r == st1);
            assert forall|j: int| 0 <= j < vs.len() implies r.2.contains((u, #[trigger] vs[j])) || finished(r, vs[j] as int) by {
                if j < vs.len() - 1 {
                    assert(d[j] == vs[j]);
                }
            }
            fin1
        }
    }
}

proof fn lemma_dfs_all_search(edges: Seq<(usize, usize)>, n: int, k: int, f: Seq<int>) -> (fin: Seq<int>)
    requires
        edges_below(edges, n),
        0 <= k <= n,
        n <= usize::MAX,
    ensures
        search_inv(edges, n, dfs_all(edges, n, k), fin),
        forall|x: (usize, usize)| #[trigger] dfs_all(edges, n, k).2.contains(x) ==> edges.contains(x),
        ranked(edges, n, f) ==> dfs_all(edges, n, k).2.len() == 0,
        forall|i: int| 0 <= i < n ==> !#[trigger] dfs_all(edges, n, k).1[i],
        forall|i: int| 0 <= i < k ==> #[trigger] dfs_all(edges, n, k).0[i],
    decreases k,
{
    if k <= 0 {
        let f = Seq::new(n as nat, |i: int| 0int);
        let st = dfs_all(edges, n, k);
        assert forall|i: int| 0 <= i < n implies !finished(st, i) by {}
        assert forall|i: int| 0 <= i < n implies !#[trigger] st.1[i] by {}
        f
    } else {
        let fin1 = lemma_dfs_all_search(edges, n, k - 1, f);
        let st = dfs_all(edges, n, k - 1);
        let r = dfs_all(edges, n, k);
        if !st.0[k - 1] {
            lemma_unvisited_bounds(st.0);
            let fin2 = lemma_dfs_node_search(edges, n, st, (k - 1) as usize, (n + 1) as nat, fin1, f);
            assert(r == dfs_node(edges, st, (k - 1) as usize, (n + 1) as nat));
            assert forall|i: int| 0 <= i < k implies #[trigger] r.0[i] by {
                if i < k - 1 {
                    assert(st.0[i]);
                }
            }
            assert forall|i: int| 0 <= i < n implies !#[trigger] r.1[i] by {
                assert(!st.1[i]);
            }
            fin2
        } else {
            assert(r == st);
            assert forall|i: int| 0 <= i < k implies #[trigger] r.0[i] by {
                if i < k - 1 {
                    assert(st.0[i]);
                }
            }
            fin1
        }
    }
}

/// The feedback arcs break every cycle: with them set aside, the graph is
/// acyclic, whatever the graph (a search is started from every node not yet
/// visited, so a cycle that node 0 does not reach is broken too).
pub proof fn lemma_feedback_arcs_break_every_cycle(edges: Seq<(usize, usize)>, n: int)
    requires
        edges_below(edges, n),
        0 <= n <= usize::MAX,
    ensures
        graph_acyclic(without_arcs(edges, spec_feedback_arcs(edges, n)), n),
{
    let fin = lemma_dfs_all_search(edges, n, n, Seq::empty());
    let st = dfs_all(edges, n, n);
    let fas = st.2;
    assert(fas == spec_feedback_arcs(edges, n));
    assert forall|i: int| 0 <= i < n implies #[trigger] finished(st, i) by {
        assert(st.0[i]);
        assert(!st.1[i]);
    }
    lemma_count_all(st, n);
    assert forall|x: int| 0 <= x < n implies 0 <= #[trigger] fin[x] < n by {
        assert(finished(st, x));
    }
    assert forall|x: int, y: int| 0 <= x < n && 0 <= y < n && #[trigger] fin[x] == #[trigger] fin[y] implies x == y by {
        assert(finished(st, x) && finished(st, y));
    }
    assert(is_finish_order(fin, n));
    let w = without_arcs(edges, fas);
    assert forall|k: int| 0 <= k < w.len() && !no_flags(w.len() as int)[k] implies
        fin[(#[trigger] w[k]).1 as int] < fin[w[k].0 as int] by {
        assert(w.contains(w[k]));
        lemma_without_arcs(edges, fas, w[k]);
        let i = choose|i: int| 0 <= i < edges.len() && edges[i] == w[k];
        assert((edges[i].0 as int) < n && (edges[i].1 as int) < n);
        assert(finished(st, edges[i].0 as int));
    }
    assert(acyclic_by(w, no_flags(w.len() as int), n, fin));
}

/// Every feedback arc is an edge of the graph, and a graph without a cycle
/// has none (the search only reports an edge into a node still on its
/// stack, and on an acyclic graph no edge leads back to the stack).
pub proof fn lemma_feedback_arcs_are_cycle_edges(edges: Seq<(usize, usize)>, n: int)
    requires
        edges_below(edges, n),
        0 <= n <= usize::MAX,
    ensures
        forall|x: (usize, usize)| #[trigger] spec_feedback_arcs(edges, n).contains(x) ==> edges.contains(x),
        graph_acyclic(edges, n) ==> spec_feedback_arcs(edges, n).len() == 0,
{
    if graph_acyclic(edges, n) {
        let fin = choose|fin: Seq<int>| acyclic_by(edges, no_flags(edges.len() as int), n, fin);
        assert forall|k: int| 0 <= k < edges.len() implies fin[(#[trigger] edges[k]).1 as int] < fin[edges[k].0 as int] by {
            assert(!no_flags(edges.len() as int)[k]);
        }
        assert(ranked(edges, n, fin));
        let _ = lemma_dfs_all_search(edges, n, n, fin);
    } else {
        let _ = lemma_dfs_all_search(edges, n, n, Seq::empty());
    }
}

// ---------------------------------------------------------------------------
// The analysis
// ---------------------------------------------------------------------------

/// Analysis of a layout graph; node indices are those of the layout graph.
pub struct GraphAnalysis {
    /// The graph analysed: node `i` has weight `i`.
    pub graph: DiGraph<usize, ()>,
    /// Strongly connected components, as petgraph's `tarjan_scc` lists them.
    pub sccs: Vec<Vec<usize>>,
    /// petgraph's topological order of the graph with its feedback arcs set
    /// aside, or all nodes in index order should that graph keep a cycle.
    pub topological_order: Vec<usize>,
    /// Edges that close a cycle, as a depth-first search meets them.
    pub feedback_arcs: Vec<(usize, usize)>,
    /// Weakly connected components, each ascending, by smallest node.
    pub connected_components: Vec<Vec<usize>>,
}

/// An edge that takes part in the analysis: not a self-loop, not
/// invisible, both ends nodes of the graph.
pub open spec fn usable(n: int, e: LEdge) -> bool {
    &&& e.source != e.target
    &&& e.line_kind != LineKind::Invisible
    &&& (e.source as int) < n
    &&& (e.target as int) < n
}

/// The edges of the analysed graph: the usable edges, each pair of ends
/// once, in order.
pub open spec fn analysis_edges(n: int, es: Seq<LEdge>) -> Seq<(usize, usize)>
    decreases es.len(),
{
    if es.len() == 0 {
        Seq::empty()
    } else {
        let r = analysis_edges(n, es.drop_last());
        let e = es.last();
        if usable(n, e) && !r.contains((e.source, e.target)) { r.push((e.source, e.target)) } else { r }
    }
}

proof fn lemma_analysis_edges(n: int, es: Seq<LEdge>)
    ensures
        analysis_edges(n, es).len() <= es.len(),
        edges_below(analysis_edges(n, es), n),
    decreases es.len(),
{
    if es.len() > 0 {
        lemma_analysis_edges(n, es.drop_last());
        let r = analysis_edges(n, es.drop_last());
        let e = es.last();
        if usable(n, e) && !r.contains((e.source, e.target)) {
            let r2 = r.push((e.source, e.target));
            assert forall|k: int| 0 <= k < r2.len() implies ((#[trigger] r2[k]).0 as int) < n && (r2[k].1 as int) < n by {
                if k < r.len() {
                    assert(r2[k] == r[k]);
                }
            }
        }
    }
}

/// The edges that are not feedback arcs, in order.
pub open spec fn without_arcs(edges: Seq<(usize, usize)>, fas: Seq<(usize, usize)>) -> Seq<(usize, usize)>
    decreases edges.len(),
{
    if edges.len() == 0 {
        Seq::empty()
    } else {
        let r = without_arcs(edges.drop_last(), fas);
        if fas.contains(edges.last()) { r } else { r.push(edges.last()) }
    }
}

proof fn lemma_without_arcs(edges: Seq<(usize, usize)>, fas: Seq<(usize, usize)>, x: (usize, usize))
    ensures
        without_arcs(edges, fas).contains(x) <==> edges.contains(x) && !fas.contains(x),
        without_arcs(edges, fas).len() <= edges.len(),
    decreases edges.len(),
{
    if edges.len() > 0 {
        let d = edges.drop_last();
        lemma_without_arcs(d, fas, x);
        let r = without_arcs(d, fas);
        let w = without_arcs(edges, fas);
        if w.contains(x) {
            let j = choose|j: int| 0 <= j < w.len() && w[j] == x;
            if j < r.len() {
                assert(r[j] == x);
                let i = choose|i: int| 0 <= i < d.len() && d[i] == x;
                assert(edges[i] == x);
            } else {
                assert(edges[edges.len() - 1] == x);
            }
        }
        if edges.contains(x) && !fas.contains(x) {
            let i = choose|i: int| 0 <= i < edges.len() && edges[i] == x;
            if i < d.len() {
                assert(d[i] == x);
                let j = choose|j: int| 0 <= j < r.len() && r[j] == x;
                if !fas.contains(edges.last()) {
                    assert(r.push(edges.last())[j] == x);
                }
            } else {
                assert(r.push(edges.last())[r.len() as int] == x);
            }
        }
    }
}

proof fn lemma_without_arcs_below(edges: Seq<(usize, usize)>, fas: Seq<(usize, usize)>, n: int)
    requires
        edges_below(edges, n),
    ensures
        edges_below(without_arcs(edges, fas), n),
{
    let w = without_arcs(edges, fas);
    assert forall|k: int| 0 <= k < w.len() implies ((#[trigger] w[k]).0 as int) < n && (w[k].1 as int) < n by {
        assert(w.contains(w[k]));
        lemma_without_arcs(edges, fas, w[k]);
        let i = choose|i: int| 0 <= i < edges.len() && edges[i] == w[k];
    }
}

/// Whether `v` holds the pair `x`.
fn contains_pair(v: &Vec<(usize, usize)>, x: (usize, usize)) -> (b: bool)
    ensures
        b == v@.contains(x),
{
    let mut i: usize = 0;
    while i < v.len()
        invariant
            i <= v@.len(),
            forall|j: int| 0 <= j < i ==> v@[j] != x,
        decreases v@.len() - i,
    {
        if v[i].0 == x.0 && v[i].1 == x.1 {
            assert(v@[i as int] == x);
            return true;
        }
        i = i + 1;
    }
    false
}

/// Node indices `0..n`.
pub open spec fn identity(n: int) -> Seq<usize> {
    Seq::new(n as nat, |i: int| i as usize)
}

/// Analyses the graph of `node_count` nodes and the given edges. The
/// analysed graph has node `i` with weight `i` and the usable edges (see
/// [`analysis_edges`]). Components and orders are reported by node weight.
pub fn analyze(node_count: usize, edges: &[LEdge]) -> (a: GraphAnalysis)
    requires
        node_count < 0xffff_ffff,
        edges@.len() < 0xffff_ffff,
    ensures
        digraph_nodes(a.graph) == identity(node_count as int),
        digraph_edges(a.graph) == analysis_edges(node_count as int, edges@),
        a.sccs@.map_values(|c: Vec<usize>| c@) == tarjan_sccs(node_count as nat, analysis_edges(node_count as int, edges@)),
        sccs_partition(a.sccs@.map_values(|c: Vec<usize>| c@), node_count as int),
        sccs_strong(a.sccs@.map_values(|c: Vec<usize>| c@), analysis_edges(node_count as int, edges@), node_count as int),
        sccs_reverse_topological(a.sccs@.map_values(|c: Vec<usize>| c@), analysis_edges(node_count as int, edges@)),
        a.topological_order@ == match toposort_result(
            node_count as nat,
            without_arcs(analysis_edges(node_count as int, edges@), a.feedback_arcs@),
        ) {
            Some(o) => o,
            None => identity(node_count as int),
        },
        graph_acyclic(without_arcs(analysis_edges(node_count as int, edges@), a.feedback_arcs@), node_count as int)
            ==> is_node_order(a.topological_order@, node_count as int) && edges_forward(
            a.topological_order@,
            without_arcs(analysis_edges(node_count as int, edges@), a.feedback_arcs@),
        ),
        a.feedback_arcs@ == spec_feedback_arcs(analysis_edges(node_count as int, edges@), node_count as int),
        graph_acyclic(without_arcs(analysis_edges(node_count as int, edges@), a.feedback_arcs@), node_count as int),
        forall|x: (usize, usize)| #[trigger] a.feedback_arcs@.contains(x) ==> analysis_edges(node_count as int, edges@).contains(x),
        graph_acyclic(analysis_edges(node_count as int, edges@), node_count as int) ==> a.feedback_arcs@.len() == 0,
        is_node_order(a.topological_order@, node_count as int),
        edges_forward(a.topological_order@, without_arcs(analysis_edges(node_count as int, edges@), a.feedback_arcs@)),
        a.connected_components@.len() == leaders(analysis_edges(node_count as int, edges@), node_count as int).len(),
        forall|k: int| 0 <= k < a.connected_components@.len() ==> ascending(#[trigger] a.connected_components@[k]@),
        forall|k: int, v: usize| 0 <= k < a.connected_components@.len() ==> (#[trigger] a.connected_components@[k]@.contains(v)
            <==> ((v as int) < node_count && connected(
                analysis_edges(node_count as int, edges@),
                leaders(analysis_edges(node_count as int, edges@), node_count as int)[k],
                v,
            ))),
{
    let n = node_count;
    let ghost es = edges@;
    let mut graph = graph_with_capacity(n, edges.len());
    let mut i: usize = 0;
    while i < n
        invariant
            i <= n,
            n < 0xffff_ffff,
            digraph_nodes(graph) == Seq::new(i as nat, |j: int| 0usize),
            digraph_edges(graph) == Seq::<(usize, usize)>::empty(),
        decreases n - i,
    {
        graph_add_node(&mut graph, 0);
        assert(digraph_nodes(graph) =~= Seq::new((i + 1) as nat, |j: int| 0usize));
        i = i + 1;
    }
    let mut k: usize = 0;
    assert(es.take(0) =~= Seq::<LEdge>::empty());
    while k < edges.len()
        invariant
            k <= es.len(),
            es == edges@,
            es.len() < 0xffff_ffff,
            digraph_nodes(graph).len() == n,
            digraph_nodes(graph) == Seq::new(n as nat, |j: int| 0usize),
            digraph_edges(graph) == analysis_edges(n as int, es.take(k as int)),
        decreases es.len() - k,
    {
        let ghost t = es.take(k + 1);
        assert(t.drop_last() =~= es.take(k as int));
        let e = edges[k];
        assert(t.last() == e);
        proof {
            lemma_analysis_edges(n as int, es.take(k as int));
        }
        if e.source != e.target && e.line_kind != LineKind::Invisible && e.source < n && e.target < n {
            if !graph_has_edge(&graph, e.source, e.target) {
                graph_add_edge(&mut graph, e.source, e.target);
            }
        }
        k = k + 1;
    }
    assert(es.take(es.len() as int) =~= es);
    let mut i: usize = 0;
    while i < n
        invariant
            i <= n,
            digraph_nodes(graph).len() == n,
            forall|j: int| 0 <= j < i ==> #[trigger] digraph_nodes(graph)[j] == j as usize,
            digraph_edges(graph) == analysis_edges(n as int, es),
        decreases n - i,
    {
        graph_set_weight(&mut graph, i, i);
        i = i + 1;
    }
    assert(digraph_nodes(graph) =~= identity(n as int));
    let ghost ae = analysis_edges(n as int, es);
    proof {
        lemma_analysis_edges(n as int, es);
    }
    // Strongly connected components, by node weight.
    let comps = graph_tarjan_scc(&graph);
    let mut sccs: Vec<Vec<usize>> = Vec::new();
    let mut c: usize = 0;
    while c < comps.len()
        invariant
            c <= comps@.len(),
            digraph_nodes(graph) == identity(n as int),
            comps@.map_values(|x: Vec<usize>| x@) == tarjan_sccs(n as nat, ae),
            forall|i: int, j: int| 0 <= i < comps@.len() && 0 <= j < comps@[i]@.len() ==> #[trigger] comps@[i]@[j] < n,
            ae == digraph_edges(graph),
            sccs@.len() == c,
            forall|q: int| 0 <= q < c ==> (#[trigger] sccs@[q])@ == comps@[q]@,
        decreases comps@.len() - c,
    {
        let comp = &comps[c];
        let mut mapped: Vec<usize> = Vec::new();
        let mut j: usize = 0;
        while j < comp.len()
            invariant
                j <= comp@.len(),
                comp@ == comps@[c as int]@,
                digraph_nodes(graph) == identity(n as int),
                forall|x: int| 0 <= x < comp@.len() ==> #[trigger] comp@[x] < n,
                mapped@ == comp@.take(j as int),
            decreases comp@.len() - j,
        {
            let w = graph_weight(&graph, comp[j]);
            mapped.push(w);
            assert(mapped@ =~= comp@.take(j + 1));
            j = j + 1;
        }
        assert(comp@.take(comp@.len() as int) =~= comp@);
        sccs.push(mapped);
        c = c + 1;
    }
    assert(sccs@.map_values(|x: Vec<usize>| x@) =~= comps@.map_values(|x: Vec<usize>| x@));
    // Feedback arcs.
    let feedback_arcs = detect_feedback_arcs(&graph);
    // The graph without its feedback arcs.
    let mut rest = graph_with_capacity(n, edges.len());
    let mut i: usize = 0;
    while i < n
        invariant
            i <= n,
            n < 0xffff_ffff,
            digraph_nodes(rest) == Seq::new(i as nat, |j: int| 0usize),
            digraph_edges(rest) == Seq::<(usize, usize)>::empty(),
        decreases n - i,
    {
        graph_add_node(&mut rest, 0);
        assert(digraph_nodes(rest) =~= Seq::new((i + 1) as nat, |j: int| 0usize));
        i = i + 1;
    }
    let ghost fa = feedback_arcs@;
    let mut k: usize = 0;
    assert(es.take(0) =~= Seq::<LEdge>::empty());
    while k < edges.len()
        invariant
            k <= es.len(),
            es == edges@,
            es.len() < 0xffff_ffff,
            fa == feedback_arcs@,
            digraph_nodes(rest).len() == n,
            digraph_edges(rest) == without_arcs(analysis_edges(n as int, es.take(k as int)), fa),
        decreases es.len() - k,
    {
        let ghost t = es.take(k + 1);
        assert(t.drop_last() =~= es.take(k as int));
        let e = edges[k];
        assert(t.last() == e);
        let ghost r = analysis_edges(n as int, es.take(k as int));
        proof {
            lemma_analysis_edges(n as int, es.take(k as int));
            lemma_without_arcs(r, fa, (e.source, e.target));
        }
        if e.source != e.target && e.line_kind != LineKind::Invisible && e.source < n && e.target < n {
            if !contains_pair(&feedback_arcs, (e.source, e.target)) {
                if !graph_has_edge(&rest, e.source, e.target) {
                    graph_add_edge(&mut rest, e.source, e.target);
                }
            }
        }
        proof {
            let x = (e.source, e.target);
            let r2 = analysis_edges(n as int, t);
            if usable(n as int, e) && !r.contains(x) {
                assert(r2 == r.push(x));
                assert(r2.drop_last() =~= r);
                assert(r2.last() == x);
            } else {
                assert(r2 == r);
            }
        }
        k = k + 1;
    }
    assert(es.take(es.len() as int) =~= es);
    proof {
        lemma_without_arcs_below(ae, fa, n as int);
        lemma_feedback_arcs_break_every_cycle(ae, n as int);
        lemma_feedback_arcs_are_cycle_edges(ae, n as int);
    }
    // Topological order, or index order should a cycle remain.
    let mut topological_order: Vec<usize> = Vec::new();
    match graph_toposort(&rest) {
        Some(order) => {
            let mut j: usize = 0;
            while j < order.len()
                invariant
                    j <= order@.len(),
                    topological_order@ == order@.take(j as int),
                decreases order@.len() - j,
            {
                topological_order.push(order[j]);
                assert(topological_order@ =~= order@.take(j + 1));
                j = j + 1;
            }
            assert(order@.take(order@.len() as int) =~= order@);
        },
        None => {
            let mut j: usize = 0;
            while j < n
                invariant
                    j <= n,
                    topological_order@ == identity(j as int),
                decreases n - j,
            {
                topological_order.push(j);
                assert(topological_order@ =~= identity(j + 1));
                j = j + 1;
            }
        },
    }
    let connected_components = compute_connected_components(&graph, n);
    GraphAnalysis { graph, sccs, topological_order, feedback_arcs, connected_components }
}

} // verus!
