//! Longest-path layering of the layered layout, the ranker other than
//! network simplex. Nodes `0..n` of a graph are layered by the longest path
//! of edges that are not feedback arcs. With feedback arcs present, a
//! deepening pass then takes each layer that holds a feedback source and
//! moves its other nodes one layer down, with everything they reach.
//! Alternatively, strongly connected components share one layer and the
//! components are layered by the longest path between them.

use vstd::prelude::*;

use petgraph::graph::DiGraph;

use super::analyze::{lemma_unvisited_bounds, lemma_unvisited_mark, unvisited};
use super::directed::{
    acyclic_by, detect_back_edges, edges_in_range, graph_acyclic, has_path_of_from, lemma_acyclic_closes_nothing, no_flags, is_finish_order, is_longest, is_path,
    lemma_longest_layer, lemma_longest_unique, lemma_path_push, longest_layer, longest_path_layers, max_layer,
    nb_edge, spec_back_flags,
};
use super::sugiyama::{
    adjacency, indegree_of, indegrees, kahn_ranks, lemma_every_node_taken, lemma_ranks_follow_every_edge,
    lemma_spec_ranks_len, lemma_taken_rank_below, ordered_by, spec_longest_path_ranks,
};
use crate::builder::state::kahn_order;
use super::solver::directed::{sgraph_edges, sgraph_nodes};
use super::work_graph::{sgraph_edge_list, sgraph_node_count};

verus! {

// ---------------------------------------------------------------------------
// Model
// ---------------------------------------------------------------------------

/// Layers as integers.
pub open spec fn ints(s: Seq<usize>) -> Seq<int> {
    s.map_values(|x: usize| x as int)
}

/// For every edge, whether it is one of the feedback arcs.
pub open spec fn feedback_flags(es: Seq<(usize, usize)>, fas: Seq<(usize, usize)>) -> Seq<bool> {
    Seq::new(es.len(), |k: int| fas.contains(es[k]))
}

/// `x` is the source of some feedback arc.
pub open spec fn is_feedback_source(fas: Seq<(usize, usize)>, x: int) -> bool {
    exists|k: int| 0 <= k < fas.len() && (#[trigger] fas[k]).0 as int == x
}

/// `m` reaches `x` along edges that are not feedback arcs (every node
/// reaches itself).
pub open spec fn reaches(es: Seq<(usize, usize)>, fas: Seq<(usize, usize)>, n: int, m: int, x: int) -> bool {
    has_path_of_from(es, feedback_flags(es, fas), n, m, x)
}

/// How many nodes among `0..k` lie on layer `l` of `cur`, are no feedback
/// source, and reach `x`.
pub open spec fn pushes(
    es: Seq<(usize, usize)>,
    fas: Seq<(usize, usize)>,
    n: int,
    cur: Seq<int>,
    l: int,
    k: int,
    x: int,
) -> int
    decreases k,
{
    if k <= 0 {
        0
    } else {
        pushes(es, fas, n, cur, l, k - 1, x) + if cur[k - 1] == l && !is_feedback_source(fas, k - 1) && reaches(
            es,
            fas,
            n,
            k - 1,
            x,
        ) {
            1int
        } else {
            0int
        }
    }
}

/// Layer `l` of `cur` holds a feedback source and a node that is none.
pub open spec fn mixed_layer(fas: Seq<(usize, usize)>, cur: Seq<int>, l: int) -> bool {
    &&& exists|x: int| #![trigger cur[x]] 0 <= x < cur.len() && cur[x] == l && is_feedback_source(fas, x)
    &&& exists|x: int| #![trigger cur[x]] 0 <= x < cur.len() && cur[x] == l && !is_feedback_source(fas, x)
}

/// The deepening of layer `l`: when the layer is mixed, every node goes
/// down once for each node of the layer that is no feedback source and
/// reaches it.
pub open spec fn deepen_layer(es: Seq<(usize, usize)>, fas: Seq<(usize, usize)>, n: int, cur: Seq<int>, l: int) -> Seq<int> {
    if mixed_layer(fas, cur, l) {
        Seq::new(cur.len(), |x: int| cur[x] + pushes(es, fas, n, cur, l, n, x))
    } else {
        cur
    }
}

/// The deepening of the layers `l..=hi` that occur in `first`, in
/// ascending order, starting from `cur`.
pub open spec fn deepen_from(
    es: Seq<(usize, usize)>,
    fas: Seq<(usize, usize)>,
    n: int,
    first: Seq<int>,
    cur: Seq<int>,
    l: int,
    hi: int,
) -> Seq<int>
    decreases hi + 1 - l,
{
    if l > hi {
        cur
    } else {
        let c = if first.contains(l) { deepen_layer(es, fas, n, cur, l) } else { cur };
        deepen_from(es, fas, n, first, c, l + 1, hi)
    }
}

/// The edges that are not feedback arcs, in edge order.
pub open spec fn nf_edges(es: Seq<(usize, usize)>, fas: Seq<(usize, usize)>) -> Seq<(usize, usize)>
    decreases es.len(),
{
    if es.len() == 0 {
        Seq::empty()
    } else {
        let r = nf_edges(es.drop_last(), fas);
        if fas.contains(es.last()) { r } else { r.push(es.last()) }
    }
}

/// Whether Kahn's algorithm over the edges `nf` gives each node a layer:
/// it takes the node, or an edge leads to the node from a taken one.
pub open spec fn kahn_reached(nf: Seq<(usize, usize)>, n: int) -> Seq<bool> {
    let taken = kahn_order(indegrees(nf, n), adjacency(nf, n));
    Seq::new(
        n as nat,
        |v: int| taken.contains(v as usize) || exists|k: int| 0 <= k < nf.len() && (#[trigger] nf[k]).1 as int == v && taken.contains(nf[k].0),
    )
}

/// The highest layer among the sources of edges into `v` that have a
/// layer (feedback arcs included), 0 when none has.
pub open spec fn pred_max(es: Seq<(usize, usize)>, lay: Seq<int>, got: Seq<bool>, v: int) -> int
    decreases es.len(),
{
    if es.len() == 0 {
        0
    } else {
        let m = pred_max(es.drop_last(), lay, got, v);
        let (u, w) = es.last();
        if w as int == v && got[u as int] && lay[u as int] > m { lay[u as int] } else { m }
    }
}

/// Filling in the nodes `0..k` without a layer, in index order: each gets
/// one more than [`pred_max`] at that moment.
pub open spec fn fill_upto(es: Seq<(usize, usize)>, lay: Seq<int>, got: Seq<bool>, k: int) -> (Seq<int>, Seq<bool>)
    decreases k,
{
    if k <= 0 {
        (lay, got)
    } else {
        let (l2, h2) = fill_upto(es, lay, got, k - 1);
        let v = k - 1;
        if h2[v] { (l2, h2) } else { (l2.update(v, pred_max(es, l2, h2, v) + 1), h2.update(v, true)) }
    }
}

/// Some node among `0..n` has no edge of `nf` into it.
pub open spec fn has_root(nf: Seq<(usize, usize)>, n: int) -> bool {
    exists|v: int| 0 <= v < n && #[trigger] indegree_of(nf, v) == 0
}

/// The edges, in order, that do not lead into node 0.
pub open spec fn off_start(nf: Seq<(usize, usize)>) -> Seq<(usize, usize)>
    decreases nf.len(),
{
    if nf.len() == 0 {
        Seq::empty()
    } else {
        let r = off_start(nf.drop_last());
        if nf.last().1 == 0 { r } else { r.push(nf.last()) }
    }
}

/// The nodes that Kahn's algorithm takes when it starts from node 0: node
/// 0's own incoming edges do not hold it back.
pub open spec fn start_taken(nf: Seq<(usize, usize)>, n: int) -> Seq<usize> {
    kahn_order(indegrees(off_start(nf), n), adjacency(off_start(nf), n))
}

/// The layer that node 0 ends on when the search starts from it: one more
/// than the highest layer among the taken sources of edges into it, 0 when
/// there is none.
pub open spec fn start_raise(nf: Seq<(usize, usize)>, rk: Seq<int>, taken: Seq<usize>) -> int
    decreases nf.len(),
{
    if nf.len() == 0 {
        0
    } else {
        let m = start_raise(nf.drop_last(), rk, taken);
        let (u, w) = nf.last();
        if w == 0 && taken.contains(u) && rk[u as int] + 1 > m { rk[u as int] + 1 } else { m }
    }
}

/// The layers before deepening: Kahn's algorithm over the edges that are
/// not feedback arcs, from the nodes without such edges into them, gives
/// each node it takes one more than the highest layer of its
/// predecessors, and each node an edge leads to from a taken node one more
/// than the highest layer among those; the nodes left are then filled in.
/// When every node has such an edge into it, the search starts from node 0
/// alone, which its own incoming edges then only raise.
pub open spec fn first_layers(es: Seq<(usize, usize)>, fas: Seq<(usize, usize)>, n: int) -> Seq<int> {
    let nf = nf_edges(es, fas);
    if n > 0 && !has_root(nf, n) {
        let nf0 = off_start(nf);
        let rk = spec_longest_path_ranks(nf0, n);
        fill_upto(es, rk.update(0, start_raise(nf, rk, start_taken(nf, n))), kahn_reached(nf0, n), n).0
    } else {
        fill_upto(es, spec_longest_path_ranks(nf, n), kahn_reached(nf, n), n).0
    }
}

/// The search that lays out the nodes comes to an end: there is no node,
/// some node has no incoming edge other than feedback arcs, or, when the
/// search starts from node 0, some such edge into node 0 comes from a node
/// that it never takes. (Otherwise node 0 is queued again once its last
/// predecessor is taken, and the search goes round for ever.)
pub open spec fn legacy_ends(es: Seq<(usize, usize)>, fas: Seq<(usize, usize)>, n: int) -> bool {
    let nf = nf_edges(es, fas);
    ||| n == 0
    ||| has_root(nf, n)
    ||| exists|k: int| 0 <= k < nf.len() && (#[trigger] nf[k]).1 == 0 && !start_taken(nf, n).contains(nf[k].0)
}

/// The layers: [`first_layers`]; then, when there are feedback arcs, the
/// deepening of each layer that occurs, in ascending order.
pub open spec fn spec_legacy_layers(es: Seq<(usize, usize)>, fas: Seq<(usize, usize)>, n: int) -> Seq<int> {
    let first = first_layers(es, fas, n);
    if fas.len() == 0 {
        first
    } else {
        deepen_from(es, fas, n, first, first, 0, max_layer(first))
    }
}

// ---------------------------------------------------------------------------
// Pieces
// ---------------------------------------------------------------------------

/// Whether each edge is one of the feedback arcs.
pub(crate) fn feedback_flags_of(edges: &Vec<(usize, usize)>, fas: &Vec<(usize, usize)>) -> (flags: Vec<bool>)
    ensures
        flags@ == feedback_flags(edges@, fas@),
{
    let mut flags: Vec<bool> = Vec::new();
    let mut k: usize = 0;
    while k < edges.len()
        invariant
            k <= edges.len(),
            flags@.len() == k,
            forall|j: int| 0 <= j < k ==> #[trigger] flags@[j] == fas@.contains(edges@[j]),
        decreases edges.len() - k,
    {
        let e = edges[k];
        let mut found = false;
        let mut j: usize = 0;
        while j < fas.len()
            invariant
                j <= fas.len(),
                found <==> exists|i: int| 0 <= i < j && fas@[i] == e,
            decreases fas.len() - j,
        {
            if fas[j].0 == e.0 && fas[j].1 == e.1 {
                found = true;
            }
            j = j + 1;
        }
        proof {
            if found {
                let i = choose|i: int| 0 <= i < fas.len() && fas@[i] == e;
                assert(fas@.contains(e));
            } else {
                assert(!fas@.contains(e));
            }
        }
        flags.push(found);
        k = k + 1;
    }
    assert(flags@ =~= feedback_flags(edges@, fas@));
    flags
}

/// Whether each node `0..n` is the source of a feedback arc.
fn feedback_sources(n: usize, fas: &Vec<(usize, usize)>) -> (fs: Vec<bool>)
    ensures
        fs@.len() == n,
        forall|x: int| 0 <= x < n ==> #[trigger] fs@[x] == is_feedback_source(fas@, x),
{
    let mut fs: Vec<bool> = Vec::new();
    let mut i: usize = 0;
    while i < n
        invariant
            i <= n,
            fs@.len() == i,
            forall|x: int| 0 <= x < i ==> !#[trigger] fs@[x],
        decreases n - i,
    {
        fs.push(false);
        i = i + 1;
    }
    let mut k: usize = 0;
    while k < fas.len()
        invariant
            k <= fas.len(),
            fs@.len() == n,
            forall|x: int| 0 <= x < n ==> (#[trigger] fs@[x] <==> exists|i: int| 0 <= i < k && fas@[i].0 as int == x),
        decreases fas.len() - k,
    {
        let a = fas[k].0;
        if a < n {
            fs.set(a, true);
        }
        proof {
            assert forall|x: int| 0 <= x < n implies (#[trigger] fs@[x] <==> exists|i: int| 0 <= i < k + 1 && fas@[i].0 as int == x) by {
                if fas@[k as int].0 as int == x {
                    assert(0 <= k < k + 1 && fas@[k as int].0 as int == x);
                }
                if exists|i: int| 0 <= i < k + 1 && fas@[i].0 as int == x {
                    let i = choose|i: int| 0 <= i < k + 1 && fas@[i].0 as int == x;
                    if i < k {
                        assert(exists|i2: int| 0 <= i2 < k && fas@[i2].0 as int == x);
                    }
                }
            }
        }
        k = k + 1;
    }
    proof {
        assert forall|x: int| 0 <= x < n implies #[trigger] fs@[x] == is_feedback_source(fas@, x) by {
            if fs@[x] {
                let i = choose|i: int| 0 <= i < fas.len() && fas@[i].0 as int == x;
                assert(fas@[i].0 as int == x);
            }
            if is_feedback_source(fas@, x) {
                let i = choose|i: int| 0 <= i < fas.len() && (#[trigger] fas@[i]).0 as int == x;
                assert(0 <= i < fas.len() && fas@[i].0 as int == x);
            }
        }
    }
    fs
}

/// A visited set closed under the edges that are not flagged holds the end
/// of every path that starts in it.
proof fn lemma_closed_reach(es: Seq<(usize, usize)>, back: Seq<bool>, n: int, vis: Seq<bool>, p: Seq<int>)
    requires
        vis.len() == n,
        is_path(es, back, n, p),
        vis[p[0]],
        forall|k: int| 0 <= k < es.len() && !back[k] && vis[(#[trigger] es[k]).0 as int] ==> vis[es[k].1 as int],
    ensures
        vis[p.last()],
    decreases p.len(),
{
    if p.len() > 1 {
        let q = p.drop_last();
        assert forall|i: int| 0 <= i < q.len() - 1 implies nb_edge(es, back, #[trigger] q[i], q[i + 1]) by {
            assert(q[i] == p[i] && q[i + 1] == p[i + 1]);
            assert(nb_edge(es, back, p[i], p[i + 1]));
        }
        assert(is_path(es, back, n, q));
        lemma_closed_reach(es, back, n, vis, q);
        let i = p.len() - 2;
        assert(nb_edge(es, back, p[i], p[i + 1]));
        let k = choose|k: int| 0 <= k < es.len() && !back[k] && (#[trigger] es[k]).0 == p[i] && es[k].1 == p[i + 1];
        assert(q.last() == p[i]);
        assert(vis[es[k].0 as int]);
    }
}

/// The nodes that `m` reaches along unflagged edges, `m` included: a
/// depth-first search with an explicit stack.
fn reached_from(n: usize, edges: &Vec<(usize, usize)>, flags: &Vec<bool>, m: usize) -> (vis: Vec<bool>)
    requires
        m < n,
        edges_in_range(edges@, n as int),
        flags@.len() == edges@.len(),
    ensures
        vis@.len() == n,
        forall|x: int| 0 <= x < n ==> (#[trigger] vis@[x] <==> has_path_of_from(edges@, flags@, n as int, m as int, x)),
{
    let ghost es = edges@;
    let ghost back = flags@;
    let ghost nn = n as int;
    let mut vis: Vec<bool> = Vec::new();
    let mut i: usize = 0;
    while i < n
        invariant
            i <= n,
            vis@.len() == i,
            forall|x: int| 0 <= x < i ==> !#[trigger] vis@[x],
        decreases n - i,
    {
        vis.push(false);
        i = i + 1;
    }
    proof {
        lemma_unvisited_mark(vis@, m as int);
        let p = seq![m as int];
        assert(is_path(es, back, nn, p));
        assert(p[0] == m as int && p.last() == m as int);
    }
    vis.set(m, true);
    let mut stack: Vec<usize> = Vec::new();
    stack.push(m);
    proof {
        lemma_unvisited_bounds(vis@);
        assert(stack@[0] == m);
        assert forall|k: int| 0 <= k < es.len() && !back[k] && vis@[(#[trigger] es[k]).0 as int] implies stack@.contains(es[k].0) by {
            assert(es[k].0 == m);
        }
    }
    while stack.len() > 0
        invariant
            vis@.len() == n,
            nn == n,
            m < n,
            es == edges@,
            back == flags@,
            edges_in_range(es, nn),
            back.len() == es.len(),
            vis@[m as int],
            0 <= unvisited(vis@),
            stack@.no_duplicates(),
            forall|i: int| 0 <= i < stack@.len() ==> (#[trigger] stack@[i]) < n && vis@[stack@[i] as int],
            forall|x: int| 0 <= x < n && #[trigger] vis@[x] ==> has_path_of_from(es, back, nn, m as int, x),
            forall|k: int|
                0 <= k < es.len() && !back[k] && vis@[(#[trigger] es[k]).0 as int] && !stack@.contains(es[k].0)
                    ==> vis@[es[k].1 as int],
        decreases 2 * unvisited(vis@) + stack@.len(),
    {
        let ghost m0 = 2 * unvisited(vis@) + stack@.len();
        let ghost s0 = stack@;
        let c = stack.pop().unwrap();
        proof {
            assert(stack@ =~= s0.drop_last());
            assert(c == s0[s0.len() - 1]);
            if stack@.contains(c) {
                let j = choose|j: int| 0 <= j < stack@.len() && stack@[j] == c;
                assert(s0[j] == s0[s0.len() - 1]);
            }
            assert forall|x: usize| s0.contains(x) && x != c implies stack@.contains(x) by {
                let j = choose|j: int| 0 <= j < s0.len() && s0[j] == x;
                assert(j != s0.len() - 1);
                assert(stack@[j] == x);
            }
        }
        let mut k: usize = 0;
        while k < edges.len()
            invariant
                k <= edges.len(),
                vis@.len() == n,
                nn == n,
                m < n,
                c < n,
                es == edges@,
                back == flags@,
                edges_in_range(es, nn),
                back.len() == es.len(),
                vis@[m as int],
                vis@[c as int],
                !stack@.contains(c),
                0 <= unvisited(vis@),
                2 * unvisited(vis@) + stack@.len() < m0,
                stack@.no_duplicates(),
                forall|i: int| 0 <= i < stack@.len() ==> (#[trigger] stack@[i]) < n && vis@[stack@[i] as int],
                forall|x: int| 0 <= x < n && #[trigger] vis@[x] ==> has_path_of_from(es, back, nn, m as int, x),
                forall|j: int| 0 <= j < k && !back[j] && (#[trigger] es[j]).0 == c ==> vis@[es[j].1 as int],
                forall|j: int|
                    0 <= j < es.len() && !back[j] && vis@[(#[trigger] es[j]).0 as int] && !stack@.contains(es[j].0)
                        && es[j].0 != c ==> vis@[es[j].1 as int],
            decreases edges.len() - k,
        {
            let (a, b) = edges[k];
            if a == c && !flags[k] && !vis[b] {
                proof {
                    let p = choose|p: Seq<int>| #[trigger] is_path(es, back, nn, p) && p[0] == m as int && p.last() == c as int;
                    lemma_path_push(es, back, nn, p, k as int);
                    let q = p.push(b as int);
                    assert(q[0] == m as int && q.last() == b as int);
                    lemma_unvisited_mark(vis@, b as int);
                    assert(!stack@.contains(b));
                }
                let ghost st0 = stack@;
                vis.set(b, true);
                stack.push(b);
                proof {
                    lemma_unvisited_bounds(vis@);
                    assert forall|x: usize| st0.contains(x) implies stack@.contains(x) by {
                        let j = choose|j: int| 0 <= j < st0.len() && st0[j] == x;
                        assert(stack@[j] == x);
                    }
                    assert(stack@[stack@.len() - 1] == b);
                    assert(!stack@.contains(c));
                }
            }
            k = k + 1;
        }
        proof {
            assert forall|j: int|
                0 <= j < es.len() && !back[j] && vis@[(#[trigger] es[j]).0 as int] && !stack@.contains(es[j].0)
                    implies vis@[es[j].1 as int] by {
                if es[j].0 == c {
                    assert(0 <= j < k);
                }
            }
        }
    }
    proof {
        assert forall|x: int| 0 <= x < n implies (#[trigger] vis@[x] <==> has_path_of_from(es, back, nn, m as int, x)) by {
            if has_path_of_from(es, back, nn, m as int, x) {
                let p = choose|p: Seq<int>| #[trigger] is_path(es, back, nn, p) && p[0] == m as int && p.last() == x;
                assert forall|k: int| 0 <= k < es.len() && !back[k] && vis@[(#[trigger] es[k]).0 as int] implies vis@[es[k].1 as int] by {
                    assert(!stack@.contains(es[k].0));
                }
                lemma_closed_reach(es, back, nn, vis@, p);
            }
        }
    }
    vis
}

/// Whether layer `l` of `cur` is mixed.
fn mixed_in(cur: &Vec<usize>, fs: &Vec<bool>, l: usize, Ghost(fas): Ghost<Seq<(usize, usize)>>) -> (b: bool)
    requires
        fs@.len() == cur@.len(),
        forall|x: int| 0 <= x < cur@.len() ==> #[trigger] fs@[x] == is_feedback_source(fas, x),
    ensures
        b == mixed_layer(fas, ints(cur@), l as int),
{
    let ghost c = ints(cur@);
    let mut has_source = false;
    let mut has_other = false;
    let mut x: usize = 0;
    while x < cur.len()
        invariant
            x <= cur@.len(),
            c == ints(cur@),
            fs@.len() == cur@.len(),
            forall|y: int| 0 <= y < cur@.len() ==> #[trigger] fs@[y] == is_feedback_source(fas, y),
            has_source <==> exists|y: int| #![trigger c[y]] 0 <= y < x && c[y] == l && is_feedback_source(fas, y),
            has_other <==> exists|y: int| #![trigger c[y]] 0 <= y < x && c[y] == l && !is_feedback_source(fas, y),
        decreases cur@.len() - x,
    {
        if cur[x] == l {
            if fs[x] {
                has_source = true;
            } else {
                has_other = true;
            }
        }
        proof {
            assert(c[x as int] == cur@[x as int] as int);
        }
        x = x + 1;
    }
    has_source && has_other
}

/// Whether some node lies on layer `l`.
fn occurs(layers: &Vec<usize>, l: usize) -> (b: bool)
    ensures
        b == ints(layers@).contains(l as int),
{
    let mut x: usize = 0;
    while x < layers.len()
        invariant
            x <= layers@.len(),
            forall|y: int| 0 <= y < x ==> (#[trigger] layers@[y]) != l,
        decreases layers@.len() - x,
    {
        if layers[x] == l {
            proof {
                assert(ints(layers@)[x as int] == l as int);
            }
            return true;
        }
        x = x + 1;
    }
    proof {
        if ints(layers@).contains(l as int) {
            let y = choose|y: int| 0 <= y < ints(layers@).len() && ints(layers@)[y] == l as int;
            assert(layers@[y] == l);
        }
    }
    false
}

proof fn lemma_pushes_bounds(es: Seq<(usize, usize)>, fas: Seq<(usize, usize)>, n: int, cur: Seq<int>, l: int, k: int, x: int)
    requires
        k >= 0,
    ensures
        0 <= pushes(es, fas, n, cur, l, k, x) <= k,
    decreases k,
{
    if k > 0 {
        lemma_pushes_bounds(es, fas, n, cur, l, k - 1, x);
    }
}

proof fn lemma_layer_bound(c: int, n: int)
    by (nonlinear_arith)
    requires
        0 <= c < n,
        n * n + 2 * n <= usize::MAX,
    ensures
        2 * n + c * n + n == 2 * n + (c + 1) * n,
        2 * n + (c + 1) * n <= usize::MAX,
{
}

/// How many of the layers `0..l` occur in `f`.
pub open spec fn occurring_below(f: Seq<int>, l: int) -> int
    decreases l,
{
    if l <= 0 {
        0
    } else {
        occurring_below(f, l - 1) + if f.contains(l - 1) { 1int } else { 0int }
    }
}

proof fn lemma_occurring_drop(f: Seq<int>, l: int)
    requires
        f.len() > 0,
    ensures
        occurring_below(f, l) <= occurring_below(f.drop_last(), l) + 1,
        occurring_below(f, l) >= occurring_below(f.drop_last(), l),
        occurring_below(f, l) == occurring_below(f.drop_last(), l) + if 0 <= f.last() < l && !f.drop_last().contains(f.last()) { 1int } else { 0int },
    decreases l,
{
    let d = f.drop_last();
    let x = f.last();
    assert forall|y: int| f.contains(y) <==> (d.contains(y) || y == x) by {
        if f.contains(y) && y != x {
            let j = choose|j: int| 0 <= j < f.len() && f[j] == y;
            assert(j < f.len() - 1);
            assert(d[j] == y);
        }
        if d.contains(y) {
            let j = choose|j: int| 0 <= j < d.len() && d[j] == y;
            assert(f[j] == y);
        }
        if y == x {
            assert(f[f.len() - 1] == x);
        }
    }
    if l > 0 {
        lemma_occurring_drop(f, l - 1);
    }
}

/// No more layers occur than there are nodes.
proof fn lemma_occurring_count(f: Seq<int>, l: int)
    ensures
        occurring_below(f, l) <= f.len(),
        occurring_below(f, l) >= 0,
    decreases f.len(),
{
    if f.len() == 0 {
        lemma_occurring_none(f, l);
    } else {
        lemma_occurring_drop(f, l);
        lemma_occurring_count(f.drop_last(), l);
    }
}

proof fn lemma_occurring_none(f: Seq<int>, l: int)
    requires
        f.len() == 0,
    ensures
        occurring_below(f, l) == 0,
    decreases l,
{
    if l > 0 {
        lemma_occurring_none(f, l - 1);
    }
}

/// The deepening of a mixed layer `l`: every node goes down once for each
/// node of the layer (as it was before the pass) that is no feedback source
/// and reaches it.
fn deepen_once(
    n: usize,
    edges: &Vec<(usize, usize)>,
    flags: &Vec<bool>,
    fs: &Vec<bool>,
    cur: &Vec<usize>,
    l: usize,
    Ghost(fas): Ghost<Seq<(usize, usize)>>,
) -> (res: Vec<usize>)
    requires
        edges_in_range(edges@, n as int),
        flags@ == feedback_flags(edges@, fas),
        fs@.len() == n,
        forall|x: int| 0 <= x < n ==> #[trigger] fs@[x] == is_feedback_source(fas, x),
        cur@.len() == n,
        forall|x: int| 0 <= x < n ==> (#[trigger] cur@[x]) + n <= usize::MAX,
    ensures
        res@.len() == n,
        forall|x: int| 0 <= x < n ==> (#[trigger] res@[x]) as int == cur@[x] + pushes(edges@, fas, n as int, ints(cur@), l as int, n as int, x),
{
    let ghost snap = ints(cur@);
    let mut res: Vec<usize> = Vec::new();
    let mut i: usize = 0;
    while i < n
        invariant
            i <= n,
            cur@.len() == n,
            res@.len() == i,
            forall|x: int| 0 <= x < i ==> #[trigger] res@[x] == cur@[x],
        decreases n - i,
    {
        res.push(cur[i]);
        i = i + 1;
    }
    let mut m: usize = 0;
    while m < n
        invariant
            m <= n,
            snap == ints(cur@),
            edges_in_range(edges@, n as int),
            flags@ == feedback_flags(edges@, fas),
            flags@.len() == edges@.len(),
            fs@.len() == n,
            forall|x: int| 0 <= x < n ==> #[trigger] fs@[x] == is_feedback_source(fas, x),
            cur@.len() == n,
            forall|x: int| 0 <= x < n ==> (#[trigger] cur@[x]) + n <= usize::MAX,
            res@.len() == n,
            forall|x: int| 0 <= x < n ==> (#[trigger] res@[x]) as int == cur@[x] + pushes(edges@, fas, n as int, snap, l as int, m as int, x),
        decreases n - m,
    {
        if cur[m] == l && !fs[m] {
            let vis = reached_from(n, edges, flags, m);
            let ghost r0 = res@;
            let mut x: usize = 0;
            while x < n
                invariant
                    x <= n,
                    m < n,
                    vis@.len() == n,
                    res@.len() == n,
                    r0.len() == n,
                    cur@.len() == n,
                    forall|y: int| 0 <= y < n ==> (#[trigger] cur@[y]) + n <= usize::MAX,
                    forall|y: int| 0 <= y < n ==> (#[trigger] r0[y]) as int == cur@[y] + pushes(edges@, fas, n as int, snap, l as int, m as int, y),
                    forall|y: int| 0 <= y < x ==> (#[trigger] res@[y]) == r0[y] + if vis@[y] { 1int } else { 0int },
                    forall|y: int| x <= y < n ==> (#[trigger] res@[y]) == r0[y],
                decreases n - x,
            {
                if vis[x] {
                    proof {
                        lemma_pushes_bounds(edges@, fas, n as int, snap, l as int, m as int, x as int);
                    }
                    let v = res[x] + 1;
                    res.set(x, v);
                }
                x = x + 1;
            }
            proof {
                assert forall|y: int| 0 <= y < n implies (#[trigger] res@[y]) as int == cur@[y] + pushes(edges@, fas, n as int, snap, l as int, m + 1, y) by {
                    assert(snap[m as int] == l as int);
                }
            }
        } else {
            proof {
                assert forall|y: int| 0 <= y < n implies (#[trigger] res@[y]) as int == cur@[y] + pushes(edges@, fas, n as int, snap, l as int, m + 1, y) by {
                    assert(snap[m as int] == cur@[m as int] as int);
                }
            }
        }
        m = m + 1;
    }
    res
}

/// The deepening of every layer that occurs in `first`, in ascending order.
fn deepen(n: usize, edges: &Vec<(usize, usize)>, flags: &Vec<bool>, fas: &Vec<(usize, usize)>, first: &Vec<usize>) -> (layers: Vec<usize>)
    requires
        n * n + 2 * n <= usize::MAX,
        edges_in_range(edges@, n as int),
        flags@ == feedback_flags(edges@, fas@),
        first@.len() == n,
        forall|v: int| 0 <= v < n ==> (#[trigger] first@[v]) <= 2 * n,
    ensures
        ints(layers@) == deepen_from(edges@, fas@, n as int, ints(first@), ints(first@), 0, max_layer(ints(first@))),
{
    let ghost f = ints(first@);
    let fs = feedback_sources(n, fas);
    let mut hi: usize = 0;
    let mut i: usize = 0;
    while i < n
        invariant
            i <= n,
            f == ints(first@),
            first@.len() == n,
            forall|v: int| 0 <= v < n ==> (#[trigger] first@[v]) <= 2 * n,
            hi as int == max_layer(f.take(i as int)),
            hi <= 2 * n,
        decreases n - i,
    {
        proof {
            assert(f.take(i + 1).drop_last() =~= f.take(i as int));
            assert(f.take(i + 1).last() == first@[i as int] as int);
        }
        if first[i] > hi {
            hi = first[i];
        }
        i = i + 1;
    }
    proof {
        assert(f.take(n as int) =~= f);
    }
    let ghost target = deepen_from(edges@, fas@, n as int, f, f, 0, hi as int);
    let mut cur: Vec<usize> = Vec::new();
    let mut j: usize = 0;
    while j < n
        invariant
            j <= n,
            first@.len() == n,
            cur@.len() == j,
            forall|x: int| 0 <= x < j ==> #[trigger] cur@[x] == first@[x],
        decreases n - j,
    {
        cur.push(first[j]);
        j = j + 1;
    }
    assert(ints(cur@) =~= f);
    let ghost mut cnt: int = 0;
    proof {
        assert forall|x: int| 0 <= x < n implies (#[trigger] cur@[x]) <= 2 * n + 0 * n by {
            assert(cur@[x] == first@[x]);
        }
    }
    let mut l: usize = 0;
    while l <= hi
        invariant
            n * n + 2 * n <= usize::MAX,
            hi <= 2 * n,
            l <= hi + 1,
            f == ints(first@),
            first@.len() == n,
            edges_in_range(edges@, n as int),
            flags@ == feedback_flags(edges@, fas@),
            fs@.len() == n,
            forall|x: int| 0 <= x < n ==> #[trigger] fs@[x] == is_feedback_source(fas@, x),
            cur@.len() == n,
            cnt == occurring_below(f, l as int),
            forall|x: int| 0 <= x < n ==> (#[trigger] cur@[x]) <= 2 * n + cnt * n,
            deepen_from(edges@, fas@, n as int, f, ints(cur@), l as int, hi as int) == target,
        decreases hi + 1 - l,
    {
        let ghost c0 = ints(cur@);
        if occurs(first, l) {
            proof {
                lemma_occurring_count(f, l + 1);
                lemma_occurring_count(f, l as int);
                assert(f.len() == n);
                assert(f.contains(l as int));
                assert(occurring_below(f, l + 1) == cnt + 1);
                lemma_layer_bound(cnt, n as int);
                assert forall|x: int| 0 <= x < n implies (#[trigger] cur@[x]) + n <= usize::MAX by {
                    assert(cur@[x] <= 2 * n + cnt * n);
                }
            }
            if mixed_in(&cur, &fs, l, Ghost(fas@)) {
                let next = deepen_once(n, edges, flags, &fs, &cur, l, Ghost(fas@));
                proof {
                    assert(ints(next@) =~= deepen_layer(edges@, fas@, n as int, c0, l as int));
                    assert forall|x: int| 0 <= x < n implies (#[trigger] next@[x]) <= 2 * n + (cnt + 1) * n by {
                        lemma_pushes_bounds(edges@, fas@, n as int, c0, l as int, n as int, x);
                        assert(cur@[x] <= 2 * n + cnt * n);
                    }
                }
                cur = next;
            } else {
                proof {
                    assert forall|x: int| 0 <= x < n implies (#[trigger] cur@[x]) <= 2 * n + (cnt + 1) * n by {
                        assert(cur@[x] <= 2 * n + cnt * n);
                    }
                }
            }
            proof {
                cnt = cnt + 1;
            }
        } else {
            proof {
                assert(occurring_below(f, l + 1) == cnt);
            }
        }
        l = l + 1;
    }
    cur
}

// ---------------------------------------------------------------------------
// Layer assignment
// ---------------------------------------------------------------------------

/// The edges that are not feedback arcs.
fn nf_list(edges: &Vec<(usize, usize)>, flags: &Vec<bool>, Ghost(fas): Ghost<Seq<(usize, usize)>>) -> (r: Vec<(usize, usize)>)
    requires
        flags@ == feedback_flags(edges@, fas),
    ensures
        r@ == nf_edges(edges@, fas),
{
    let ghost es = edges@;
    let mut r: Vec<(usize, usize)> = Vec::new();
    let mut k: usize = 0;
    while k < edges.len()
        invariant
            k <= edges@.len(),
            es == edges@,
            flags@ == feedback_flags(es, fas),
            r@ == nf_edges(es.take(k as int), fas),
        decreases edges@.len() - k,
    {
        proof {
            assert(es.take(k + 1).drop_last() =~= es.take(k as int));
            assert(es.take(k + 1).last() == es[k as int]);
        }
        if !flags[k] {
            r.push(edges[k]);
        }
        k = k + 1;
    }
    proof {
        assert(es.take(es.len() as int) =~= es);
    }
    r
}

proof fn lemma_nf_edges_from(es: Seq<(usize, usize)>, fas: Seq<(usize, usize)>, j: int)
    requires
        0 <= j < nf_edges(es, fas).len(),
    ensures
        exists|k: int| 0 <= k < es.len() && !fas.contains(es[k]) && #[trigger] es[k] == nf_edges(es, fas)[j],
    decreases es.len(),
{
    let d = es.drop_last();
    let r = nf_edges(d, fas);
    if j < r.len() {
        if !fas.contains(es.last()) {
            assert(nf_edges(es, fas)[j] == r[j]);
        }
        lemma_nf_edges_from(d, fas, j);
        let k = choose|k: int| 0 <= k < d.len() && !fas.contains(d[k]) && #[trigger] d[k] == r[j];
        assert(es[k] == d[k]);
    } else {
        assert(es[es.len() - 1] == es.last());
    }
}

proof fn lemma_nf_edges_hold(es: Seq<(usize, usize)>, fas: Seq<(usize, usize)>, k: int)
    requires
        0 <= k < es.len(),
        !fas.contains(es[k]),
    ensures
        nf_edges(es, fas).contains(es[k]),
    decreases es.len(),
{
    let d = es.drop_last();
    let r = nf_edges(d, fas);
    if k < es.len() - 1 {
        assert(d[k] == es[k]);
        lemma_nf_edges_hold(d, fas, k);
        let i = choose|i: int| 0 <= i < r.len() && r[i] == es[k];
        if !fas.contains(es.last()) {
            assert(r.push(es.last())[i] == es[k]);
        }
    } else {
        assert(es.last() == es[k]);
        assert(r.push(es.last())[r.len() as int] == es[k]);
    }
}

proof fn lemma_nf_edges_range(es: Seq<(usize, usize)>, fas: Seq<(usize, usize)>, n: int)
    requires
        edges_in_range(es, n),
    ensures
        edges_in_range(nf_edges(es, fas), n),
{
    assert forall|j: int| 0 <= j < nf_edges(es, fas).len() implies (#[trigger] nf_edges(es, fas)[j]).0 < n
        && nf_edges(es, fas)[j].1 < n by {
        lemma_nf_edges_from(es, fas, j);
    }
}

/// [`pred_max`] of node `v`.
fn pred_max_of(edges: &Vec<(usize, usize)>, lay: &Vec<usize>, got: &Vec<bool>, v: usize) -> (m: usize)
    requires
        lay@.len() == got@.len(),
        forall|k: int| 0 <= k < edges@.len() ==> (#[trigger] edges@[k]).0 < lay@.len() && edges@[k].1 < lay@.len(),
    ensures
        m as int == pred_max(edges@, ints(lay@), got@, v as int),
        m == 0 || exists|y: int| 0 <= y < lay@.len() && lay@[y] == m,
{
    let ghost es = edges@;
    let mut m: usize = 0;
    let mut k: usize = 0;
    while k < edges.len()
        invariant
            k <= edges@.len(),
            es == edges@,
            lay@.len() == got@.len(),
            forall|k: int| 0 <= k < edges@.len() ==> (#[trigger] edges@[k]).0 < lay@.len() && edges@[k].1 < lay@.len(),
            m as int == pred_max(es.take(k as int), ints(lay@), got@, v as int),
            m == 0 || exists|y: int| 0 <= y < lay@.len() && lay@[y] == m,
        decreases edges@.len() - k,
    {
        proof {
            assert(es.take(k + 1).drop_last() =~= es.take(k as int));
            assert(es.take(k + 1).last() == es[k as int]);
        }
        let (u, w) = edges[k];
        if w == v && got[u] && lay[u] > m {
            m = lay[u];
        }
        k = k + 1;
    }
    proof {
        assert(es.take(es.len() as int) =~= es);
    }
    m
}

/// The number of edges into every node.
fn indegree_counts(nf: &Vec<(usize, usize)>, n: usize) -> (c: Vec<usize>)
    requires
        edges_in_range(nf@, n as int),
    ensures
        c@.len() == n,
        forall|v: int| 0 <= v < n ==> #[trigger] c@[v] as int == indegree_of(nf@, v),
{
    let ghost es = nf@;
    let mut c: Vec<usize> = Vec::new();
    let mut i: usize = 0;
    while i < n
        invariant
            i <= n,
            c@.len() == i,
            forall|v: int| 0 <= v < i ==> #[trigger] c@[v] == 0,
        decreases n - i,
    {
        c.push(0);
        i = i + 1;
    }
    let mut k: usize = 0;
    assert(es.take(0) =~= Seq::<(usize, usize)>::empty());
    while k < nf.len()
        invariant
            k <= es.len(),
            es == nf@,
            edges_in_range(es, n as int),
            c@.len() == n,
            forall|v: int| 0 <= v < n ==> #[trigger] c@[v] as int == indegree_of(es.take(k as int), v),
            forall|v: int| 0 <= v < n ==> #[trigger] c@[v] <= k,
        decreases es.len() - k,
    {
        assert(es.take(k + 1).drop_last() =~= es.take(k as int));
        assert(es.take(k + 1).last() == es[k as int]);
        let t = nf[k].1;
        let d = c[t];
        c.set(t, d + 1);
        k = k + 1;
    }
    assert(es.take(es.len() as int) =~= es);
    c
}

/// Whether some count is 0.
fn has_zero(c: &Vec<usize>) -> (b: bool)
    ensures
        b <==> exists|v: int| 0 <= v < c@.len() && c@[v] == 0,
{
    let mut i: usize = 0;
    while i < c.len()
        invariant
            i <= c@.len(),
            forall|v: int| 0 <= v < i ==> c@[v] != 0,
        decreases c@.len() - i,
    {
        if c[i] == 0 {
            return true;
        }
        i = i + 1;
    }
    false
}

/// The edges, or when `drop` holds those that do not lead into node 0.
fn drop_into_start(nf: &Vec<(usize, usize)>, drop: bool) -> (r: Vec<(usize, usize)>)
    ensures
        r@ == if drop { off_start(nf@) } else { nf@ },
{
    let ghost es = nf@;
    let mut r: Vec<(usize, usize)> = Vec::new();
    let mut k: usize = 0;
    assert(es.take(0) =~= Seq::<(usize, usize)>::empty());
    while k < nf.len()
        invariant
            k <= es.len(),
            es == nf@,
            r@ == if drop { off_start(es.take(k as int)) } else { es.take(k as int) },
        decreases es.len() - k,
    {
        assert(es.take(k + 1).drop_last() =~= es.take(k as int));
        assert(es.take(k + 1).last() == es[k as int]);
        if !(drop && nf[k].1 == 0) {
            r.push(nf[k]);
        }
        assert(r@ =~= if drop { off_start(es.take(k + 1)) } else { es.take(k + 1) });
        k = k + 1;
    }
    assert(es.take(es.len() as int) =~= es);
    r
}

proof fn lemma_off_start_range(nf: Seq<(usize, usize)>, n: int)
    requires
        edges_in_range(nf, n),
    ensures
        edges_in_range(off_start(nf), n),
        forall|k: int| 0 <= k < off_start(nf).len() ==> (#[trigger] off_start(nf)[k]).1 != 0,
    decreases nf.len(),
{
    if nf.len() > 0 {
        let d = nf.drop_last();
        assert forall|k: int| 0 <= k < d.len() implies (#[trigger] d[k]).0 < n && d[k].1 < n by {
            assert(d[k] == nf[k]);
        }
        lemma_off_start_range(d, n);
        let r = off_start(d);
        assert(nf.last() == nf[nf.len() - 1]);
        if nf.last().1 != 0 {
            assert forall|k: int| 0 <= k < r.push(nf.last()).len() implies (#[trigger] r.push(nf.last())[k]).0 < n
                && r.push(nf.last())[k].1 < n && r.push(nf.last())[k].1 != 0 by {
                if k < r.len() {
                    assert(r.push(nf.last())[k] == r[k]);
                }
            }
        }
    }
}

/// The layer of node 0 when the search starts from it (see [`start_raise`]).
fn start_raise_of(
    nf: &Vec<(usize, usize)>,
    rank: &Vec<usize>,
    tk: &Vec<bool>,
    Ghost(taken): Ghost<Seq<usize>>,
) -> (m: usize)
    requires
        edges_in_range(nf@, rank@.len() as int),
        tk@.len() == rank@.len(),
        forall|x: usize| x < rank@.len() ==> (#[trigger] tk@[x as int] <==> taken.contains(x)),
        forall|x: int| 0 <= x < rank@.len() && #[trigger] tk@[x] ==> rank@[x] < rank@.len(),
    ensures
        m as int == start_raise(nf@, ints(rank@), taken),
        m <= rank@.len(),
{
    let ghost es = nf@;
    let mut m: usize = 0;
    let mut k: usize = 0;
    assert(es.take(0) =~= Seq::<(usize, usize)>::empty());
    while k < nf.len()
        invariant
            k <= es.len(),
            es == nf@,
            edges_in_range(es, rank@.len() as int),
            tk@.len() == rank@.len(),
            forall|x: usize| x < rank@.len() ==> (#[trigger] tk@[x as int] <==> taken.contains(x)),
            forall|x: int| 0 <= x < rank@.len() && #[trigger] tk@[x] ==> rank@[x] < rank@.len(),
            m as int == start_raise(es.take(k as int), ints(rank@), taken),
            m <= rank@.len(),
        decreases es.len() - k,
    {
        assert(es.take(k + 1).drop_last() =~= es.take(k as int));
        assert(es.take(k + 1).last() == es[k as int]);
        let (u, w) = nf[k];
        proof {
            assert(es[k as int].0 < rank@.len());
        }
        if w == 0 && tk[u] {
            let r = rank[u];
            let ln = rank.len();
            assert(r < ln);
            if r + 1 > m {
                m = r + 1;
            }
        }
        k = k + 1;
    }
    assert(es.take(es.len() as int) =~= es);
    m
}

/// The layers before deepening (see [`first_layers`]).
fn first_layers_of(n: usize, edges: &Vec<(usize, usize)>, flags: &Vec<bool>, Ghost(fas): Ghost<Seq<(usize, usize)>>) -> (first: Vec<usize>)
    requires
        n * n + 2 * n <= usize::MAX,
        edges_in_range(edges@, n as int),
        flags@ == feedback_flags(edges@, fas),
    ensures
        ints(first@) == first_layers(edges@, fas, n as int),
        first@.len() == n,
        forall|v: int| 0 <= v < n ==> (#[trigger] first@[v]) <= 2 * n,
{
    let ghost es = edges@;
    let ghost nn = n as int;
    let nf_all = nf_list(edges, flags, Ghost(fas));
    let ghost nfa = nf_all@;
    proof {
        lemma_nf_edges_range(es, fas, nn);
    }
    let counts = indegree_counts(&nf_all, n);
    let rooted = has_zero(&counts);
    let start_only = n > 0 && !rooted;
    proof {
        if has_root(nfa, nn) {
            let v = choose|v: int| 0 <= v < nn && #[trigger] indegree_of(nfa, v) == 0;
            assert(counts@[v] == 0);
        }
        if rooted {
            let v = choose|v: int| 0 <= v < counts@.len() && counts@[v] == 0;
            assert(indegree_of(nfa, v) == 0);
        }
        assert(start_only == (nn > 0 && !has_root(nfa, nn)));
    }
    let nf = drop_into_start(&nf_all, start_only);
    let ghost nfv = nf@;
    proof {
        lemma_off_start_range(nfa, nn);
    }
    let (rank, order) = kahn_ranks(nf.as_slice(), n);
    let ghost taken = kahn_order(indegrees(nfv, nn), adjacency(nfv, nn));
    let ghost reached = kahn_reached(nfv, nn);
    // Nodes taken.
    let mut tk: Vec<bool> = Vec::new();
    let mut i: usize = 0;
    while i < n
        invariant
            i <= n,
            tk@.len() == i,
            forall|x: int| 0 <= x < i ==> !#[trigger] tk@[x],
        decreases n - i,
    {
        tk.push(false);
        i = i + 1;
    }
    let mut q: usize = 0;
    while q < order.len()
        invariant
            q <= order@.len(),
            order@ == taken,
            forall|i: int| 0 <= i < order@.len() ==> #[trigger] order@[i] < n,
            tk@.len() == n,
            forall|x: int| 0 <= x < n ==> (#[trigger] tk@[x] <==> taken.take(q as int).contains(x as usize)),
        decreases order@.len() - q,
    {
        let x = order[q];
        tk.set(x, true);
        proof {
            assert forall|y: int| 0 <= y < n implies (#[trigger] tk@[y] <==> taken.take(q + 1).contains(y as usize)) by {
                let t0 = taken.take(q as int);
                let t1 = taken.take(q + 1);
                if t1.contains(y as usize) && y != x as int {
                    let j = choose|j: int| 0 <= j < t1.len() && t1[j] == y as usize;
                    assert(t0[j] == y as usize);
                }
                if t0.contains(y as usize) {
                    let j = choose|j: int| 0 <= j < t0.len() && t0[j] == y as usize;
                    assert(t1[j] == y as usize);
                }
                if y == x as int {
                    assert(t1[q as int] == x);
                }
            }
        }
        q = q + 1;
    }
    proof {
        assert(taken.take(taken.len() as int) =~= taken);
    }
    // Nodes reached: taken, or the target of an edge from a taken node.
    let mut got: Vec<bool> = Vec::new();
    let mut i2: usize = 0;
    while i2 < n
        invariant
            i2 <= n,
            tk@.len() == n,
            got@.len() == i2,
            forall|x: int| 0 <= x < i2 ==> #[trigger] got@[x] == tk@[x],
        decreases n - i2,
    {
        got.push(tk[i2]);
        i2 = i2 + 1;
    }
    let mut k: usize = 0;
    while k < nf.len()
        invariant
            k <= nfv.len(),
            nfv == nf@,
            edges_in_range(nfv, nn),
            nn == n,
            tk@.len() == n,
            got@.len() == n,
            forall|x: int| 0 <= x < n ==> (#[trigger] tk@[x] <==> taken.contains(x as usize)),
            forall|x: int| 0 <= x < n ==> (#[trigger] got@[x] <==> (tk@[x]
                || exists|j: int| 0 <= j < k && (#[trigger] nfv[j]).1 as int == x && taken.contains(nfv[j].0))),
        decreases nfv.len() - k,
    {
        let (a, b) = nf[k];
        if tk[a] {
            got.set(b, true);
        }
        proof {
            assert forall|x: int| 0 <= x < n implies (#[trigger] got@[x] <==> (tk@[x]
                || exists|j: int| 0 <= j < k + 1 && (#[trigger] nfv[j]).1 as int == x && taken.contains(nfv[j].0))) by {
                if exists|j: int| 0 <= j < k + 1 && (#[trigger] nfv[j]).1 as int == x && taken.contains(nfv[j].0) {
                    let j = choose|j: int| 0 <= j < k + 1 && (#[trigger] nfv[j]).1 as int == x && taken.contains(nfv[j].0);
                    if j < k {
                        assert(exists|j2: int| 0 <= j2 < k && (#[trigger] nfv[j2]).1 as int == x && taken.contains(nfv[j2].0));
                    }
                }
                if tk@[a as int] && x == b as int {
                    assert(nfv[k as int].1 as int == x && taken.contains(nfv[k as int].0));
                }
            }
        }
        k = k + 1;
    }
    proof {
        assert(got@ =~= reached);
        lemma_spec_ranks_len(nfv, nn);
    }
    // Node 0, where a search without a free node starts, rises above the
    // taken sources of its incoming edges.
    let mut lay: Vec<usize> = rank;
    if start_only {
        proof {
            assert forall|x: int| 0 <= x < lay@.len() && #[trigger] tk@[x] implies lay@[x] < lay@.len() by {
                lemma_taken_rank_below(nfv, nn, x);
                assert(ints(lay@)[x] == lay@[x] as int);
            }
        }
        let m = start_raise_of(&nf_all, &lay, &tk, Ghost(taken));
        lay.set(0, m);
    }
    proof {
        if start_only {
            assert(ints(lay@) =~= spec_longest_path_ranks(nfv, nn).update(0, start_raise(nfa, spec_longest_path_ranks(nfv, nn), start_taken(nfa, nn))));
        } else {
            assert(ints(lay@) =~= spec_longest_path_ranks(nfv, nn));
        }
    }
    // Filling in the nodes left.
    let ghost r0 = ints(lay@);
    let mut v: usize = 0;
    while v < n
        invariant
            v <= n,
            n * n + 2 * n <= usize::MAX,
            es == edges@,
            edges_in_range(es, nn),
            nn == n,
            lay@.len() == n,
            got@.len() == n,
            r0.len() == n,
            (ints(lay@), got@) == fill_upto(es, r0, reached, v as int),
            forall|x: int| 0 <= x < n ==> (#[trigger] lay@[x]) <= n + v,
        decreases n - v,
    {
        let ghost (l0, h0) = fill_upto(es, r0, reached, v as int);
        if !got[v] {
            let m = pred_max_of(edges, &lay, &got, v);
            proof {
                if m != 0 {
                    let y = choose|y: int| 0 <= y < lay@.len() && lay@[y] == m;
                    assert(lay@[y] <= n + v);
                }
            }
            lay.set(v, m + 1);
            got.set(v, true);
            proof {
                assert(ints(lay@) =~= l0.update(v as int, pred_max(es, l0, h0, v as int) + 1));
            }
        }
        v = v + 1;
    }
    proof {
        assert(nfa == nf_edges(es, fas));
    }
    lay
}

/// Layers by longest path, with the deepening pass.
///
/// The in-degrees count the edges that are not feedback arcs; Kahn's
/// algorithm from the nodes without such edges gives each node it takes
/// one more than the highest layer of its predecessors, and each node an
/// edge leads to from a taken node one more than the highest layer among
/// those. Each node still without a layer (on a cycle of such edges, or
/// behind one) is then given, in index order, one more than the highest
/// layer among its predecessors that have one, feedback arcs included.
/// When there are feedback arcs, each layer that occurs is finally looked
/// at in ascending order: if it holds a feedback source and a node that is
/// none, every such other node, with all it reaches along edges that are
/// not feedback arcs, goes one layer down.
///
/// When every node has an incoming edge other than a feedback arc, the
/// search starts from node 0 alone: its own incoming edges then only raise
/// its layer, to one more than the highest layer among the taken sources.
/// The search must come to an end ([`legacy_ends`]); `n² + 2n` must fit in
/// `usize`, which bounds every layer (with 64-bit `usize`, any node count
/// that petgraph's `u32` indices allow). The result is indexed by node.
pub fn assign_layers_legacy(graph: &DiGraph<String, ()>, feedback_arcs: &Vec<(usize, usize)>) -> (layers: Vec<usize>)
    requires
        sgraph_nodes(*graph).len() * sgraph_nodes(*graph).len() + 2 * sgraph_nodes(*graph).len() <= usize::MAX,
        legacy_ends(sgraph_edges(*graph), feedback_arcs@, sgraph_nodes(*graph).len() as int),
    ensures
        ints(layers@) == spec_legacy_layers(sgraph_edges(*graph), feedback_arcs@, sgraph_nodes(*graph).len() as int),
{
    let n = sgraph_node_count(graph);
    let edges = sgraph_edge_list(graph);
    let flags = feedback_flags_of(&edges, feedback_arcs);
    let first = first_layers_of(n, &edges, &flags, Ghost(feedback_arcs@));
    if feedback_arcs.len() == 0 {
        return first;
    }
    deepen(n, &edges, &flags, feedback_arcs, &first)
}

// ---------------------------------------------------------------------------
// Layering by strongly connected components
// ---------------------------------------------------------------------------

/// The components as sequences of nodes.
pub open spec fn comps(sccs: Seq<Vec<usize>>) -> Seq<Seq<usize>> {
    sccs.map_values(|c: Vec<usize>| c@)
}

/// The position of the last component that lists `v`, -1 when none does.
pub open spec fn component_of(sccs: Seq<Seq<usize>>, v: int) -> int
    decreases sccs.len(),
{
    if sccs.len() == 0 {
        -1
    } else if sccs.last().contains(v as usize) {
        sccs.len() - 1
    } else {
        component_of(sccs.drop_last(), v)
    }
}

/// The components partition the nodes `0..n`: each node is listed exactly
/// once, and only nodes are listed.
pub open spec fn partitions(sccs: Seq<Seq<usize>>, n: int) -> bool {
    &&& forall|v: int| 0 <= v < n ==> #[trigger] component_of(sccs, v) >= 0
    &&& forall|i: int, a: int| 0 <= i < sccs.len() && 0 <= a < sccs[i].len() ==> (#[trigger] sccs[i][a]) < n
    &&& forall|i: int, a: int, j: int, b: int|
        0 <= i < sccs.len() && 0 <= a < sccs[i].len() && 0 <= j < sccs.len() && 0 <= b < sccs[j].len()
            && #[trigger] sccs[i][a] == #[trigger] sccs[j][b] ==> i == j && a == b
}

/// The graph between components: every edge taken to the components of
/// its ends.
pub open spec fn condensed_edges(es: Seq<(usize, usize)>, sccs: Seq<Seq<usize>>) -> Seq<(usize, usize)> {
    es.map_values(|e: (usize, usize)| (component_of(sccs, e.0 as int) as usize, component_of(sccs, e.1 as int) as usize))
}

/// Edges inside one component, and feedback arcs, are set aside.
pub open spec fn condensed_flags(es: Seq<(usize, usize)>, fas: Seq<(usize, usize)>, sccs: Seq<Seq<usize>>) -> Seq<bool> {
    Seq::new(
        es.len(),
        |k: int| component_of(sccs, es[k].0 as int) == component_of(sccs, es[k].1 as int) || fas.contains(es[k]),
    )
}

/// With at most one component, the layers of [`assign_layers_legacy`];
/// otherwise every node lies on the layer of its component, the length of
/// the longest path between components, along edges that are not feedback
/// arcs, that ends in it.
pub open spec fn spec_component_layers(
    es: Seq<(usize, usize)>,
    fas: Seq<(usize, usize)>,
    sccs: Seq<Seq<usize>>,
    n: int,
) -> Seq<int> {
    if sccs.len() <= 1 {
        spec_legacy_layers(es, fas, n)
    } else {
        let ce = condensed_edges(es, sccs);
        let cf = condensed_flags(es, fas, sccs);
        Seq::new(n as nat, |v: int| longest_layer(ce, cf, sccs.len() as int, component_of(sccs, v)))
    }
}

proof fn lemma_component_range(sccs: Seq<Seq<usize>>, v: int)
    ensures
        -1 <= component_of(sccs, v) < sccs.len(),
        component_of(sccs, v) >= 0 ==> sccs[component_of(sccs, v)].contains(v as usize),
    decreases sccs.len(),
{
    if sccs.len() > 0 && !sccs.last().contains(v as usize) {
        lemma_component_range(sccs.drop_last(), v);
        let c = component_of(sccs.drop_last(), v);
        if c >= 0 {
            assert(sccs[c] == sccs.drop_last()[c]);
        }
    }
}

/// For every node, the position of the last component listing it.
fn component_index(n: usize, sccs: &Vec<Vec<usize>>) -> (comp: Vec<usize>)
    requires
        forall|i: int, a: int| 0 <= i < sccs@.len() && 0 <= a < sccs@[i]@.len() ==> (#[trigger] sccs@[i]@[a]) < n,
        forall|v: int| 0 <= v < n ==> #[trigger] component_of(comps(sccs@), v) >= 0,
    ensures
        comp@.len() == n,
        forall|v: int| 0 <= v < n ==> (#[trigger] comp@[v]) as int == component_of(comps(sccs@), v),
{
    let ghost sv = comps(sccs@);
    let mut comp: Vec<usize> = Vec::new();
    let mut i: usize = 0;
    while i < n
        invariant
            i <= n,
            comp@.len() == i,
        decreases n - i,
    {
        comp.push(0);
        i = i + 1;
    }
    let mut sid: usize = 0;
    while sid < sccs.len()
        invariant
            sid <= sccs@.len(),
            sv == comps(sccs@),
            comp@.len() == n,
            forall|i: int, a: int| 0 <= i < sccs@.len() && 0 <= a < sccs@[i]@.len() ==> (#[trigger] sccs@[i]@[a]) < n,
            forall|v: int| 0 <= v < n && #[trigger] component_of(sv.take(sid as int), v) >= 0
                ==> comp@[v] as int == component_of(sv.take(sid as int), v),
        decreases sccs@.len() - sid,
    {
        let ghost c0 = comp@;
        let mut a: usize = 0;
        while a < sccs[sid].len()
            invariant
                sid < sccs@.len(),
                a <= sccs@[sid as int]@.len(),
                comp@.len() == n,
                c0.len() == n,
                forall|i: int, a: int| 0 <= i < sccs@.len() && 0 <= a < sccs@[i]@.len() ==> (#[trigger] sccs@[i]@[a]) < n,
                forall|v: int| 0 <= v < n && sccs@[sid as int]@.take(a as int).contains(v as usize) ==> #[trigger] comp@[v] == sid,
                forall|v: int| 0 <= v < n && !sccs@[sid as int]@.take(a as int).contains(v as usize) ==> #[trigger] comp@[v] == c0[v],
            decreases sccs@[sid as int]@.len() - a,
        {
            let x = sccs[sid][a];
            proof {
                assert(sccs@[sid as int]@[a as int] == x);
            }
            comp.set(x, sid);
            proof {
                let t1 = sccs@[sid as int]@.take(a + 1);
                let t0 = sccs@[sid as int]@.take(a as int);
                assert forall|v: int| 0 <= v < n && t1.contains(v as usize) implies #[trigger] comp@[v] == sid by {
                    if v != x as int {
                        let j = choose|j: int| 0 <= j < t1.len() && t1[j] == v as usize;
                        assert(j < a);
                        assert(t0[j] == v as usize);
                    }
                }
                assert forall|v: int| 0 <= v < n && !t1.contains(v as usize) implies #[trigger] comp@[v] == c0[v] by {
                    assert(t1[a as int] == x);
                    if t0.contains(v as usize) {
                        let j = choose|j: int| 0 <= j < t0.len() && t0[j] == v as usize;
                        assert(t1[j] == v as usize);
                    }
                }
            }
            a = a + 1;
        }
        proof {
            let t = sv.take(sid + 1);
            let cs = sccs@[sid as int]@;
            assert(t.drop_last() =~= sv.take(sid as int));
            assert(t.last() == cs);
            assert(cs.take(cs.len() as int) =~= cs);
            assert forall|v: int| 0 <= v < n && #[trigger] component_of(t, v) >= 0 implies comp@[v] as int == component_of(t, v) by {
                if cs.contains(v as usize) {
                    assert(component_of(t, v) == sid);
                } else {
                    assert(component_of(t, v) == component_of(sv.take(sid as int), v));
                    assert(comp@[v] == c0[v]);
                }
            }
        }
        sid = sid + 1;
    }
    proof {
        assert(sv.take(sccs@.len() as int) =~= sv);
    }
    comp
}

/// Layers by longest path between strongly connected components.
///
/// With at most one component this is [`assign_layers_legacy`]. Otherwise
/// every node lies on the layer of its component: Kahn's algorithm over the
/// components, counting the edges between two components that are not
/// feedback arcs, gives each component one more than the highest layer of
/// the components with such an edge into it, i.e. the length of the
/// longest path between components ending in it.
///
/// The components must partition the nodes, as the strongly connected
/// components do, and the feedback arcs must leave no cycle among them;
/// with at most one component, [`assign_layers_legacy`] asks that its
/// search come to an end. `n² + 2n` must fit in `usize`. The result is indexed by node.
pub fn assign_layers_longest_path(
    graph: &DiGraph<String, ()>,
    feedback_arcs: &Vec<(usize, usize)>,
    sccs: &Vec<Vec<usize>>,
) -> (layers: Vec<usize>)
    requires
        sgraph_nodes(*graph).len() * sgraph_nodes(*graph).len() + 2 * sgraph_nodes(*graph).len() <= usize::MAX,
        sccs@.len() < usize::MAX,
        sccs@.len() <= 1 ==> legacy_ends(sgraph_edges(*graph), feedback_arcs@, sgraph_nodes(*graph).len() as int),
        sccs@.len() > 1 ==> partitions(comps(sccs@), sgraph_nodes(*graph).len() as int),
        sccs@.len() > 1 ==> exists|fin: Seq<int>|
            acyclic_by(
                condensed_edges(sgraph_edges(*graph), comps(sccs@)),
                condensed_flags(sgraph_edges(*graph), feedback_arcs@, comps(sccs@)),
                sccs@.len() as int,
                fin,
            ),
    ensures
        ints(layers@) == spec_component_layers(
            sgraph_edges(*graph),
            feedback_arcs@,
            comps(sccs@),
            sgraph_nodes(*graph).len() as int,
        ),
{
    if sccs.len() <= 1 {
        return assign_layers_legacy(graph, feedback_arcs);
    }
    let n = sgraph_node_count(graph);
    let edges = sgraph_edge_list(graph);
    let ghost es = edges@;
    let ghost nn = n as int;
    let ghost sv = comps(sccs@);
    let m = sccs.len();
    proof {
        assert forall|i: int, a: int| 0 <= i < sccs@.len() && 0 <= a < sccs@[i]@.len() implies (#[trigger] sccs@[i]@[a]) < n by {
            assert(sv[i] == sccs@[i]@);
            assert(sv[i][a] < nn);
        }
    }
    let comp = component_index(n, sccs);
    let flags = feedback_flags_of(&edges, feedback_arcs);
    let mut cedges: Vec<(usize, usize)> = Vec::new();
    let mut cflags: Vec<bool> = Vec::new();
    let mut k: usize = 0;
    while k < edges.len()
        invariant
            k <= edges@.len(),
            es == edges@,
            nn == n,
            m == sccs@.len(),
            sv == comps(sccs@),
            edges_in_range(es, nn),
            flags@ == feedback_flags(es, feedback_arcs@),
            comp@.len() == n,
            forall|v: int| 0 <= v < n ==> (#[trigger] comp@[v]) as int == component_of(sv, v),
            cedges@.len() == k,
            cflags@.len() == k,
            forall|j: int| 0 <= j < k ==> #[trigger] cedges@[j] == condensed_edges(es, sv)[j],
            forall|j: int| 0 <= j < k ==> #[trigger] cflags@[j] == condensed_flags(es, feedback_arcs@, sv)[j],
        decreases edges@.len() - k,
    {
        let (a, b) = edges[k];
        let ca = comp[a];
        let cb = comp[b];
        cedges.push((ca, cb));
        cflags.push(ca == cb || flags[k]);
        k = k + 1;
    }
    proof {
        assert(cedges@ =~= condensed_edges(es, sv));
        assert(cflags@ =~= condensed_flags(es, feedback_arcs@, sv));
        assert forall|j: int| 0 <= j < cedges@.len() implies (#[trigger] cedges@[j]).0 < m && cedges@[j].1 < m by {
            lemma_component_range(sv, es[j].0 as int);
            lemma_component_range(sv, es[j].1 as int);
        }
    }
    let ghost fin = choose|fin: Seq<int>| acyclic_by(cedges@, cflags@, m as int, fin);
    let clayer = longest_path_layers(m, &cedges, &cflags, Ghost(fin));
    let mut layers: Vec<usize> = Vec::new();
    let mut v: usize = 0;
    while v < n
        invariant
            v <= n,
            nn == n,
            m == sccs@.len(),
            sv == comps(sccs@),
            comp@.len() == n,
            forall|x: int| 0 <= x < n ==> (#[trigger] comp@[x]) as int == component_of(sv, x),
            forall|x: int| 0 <= x < n ==> #[trigger] component_of(sv, x) >= 0,
            clayer@.len() == m,
            forall|c: int| 0 <= c < m ==> is_longest(cedges@, cflags@, m as int, c, #[trigger] clayer@[c] as int),
            layers@.len() == v,
            forall|x: int| 0 <= x < v ==> (#[trigger] layers@[x]) as int == longest_layer(cedges@, cflags@, m as int, component_of(sv, x)),
        decreases n - v,
    {
        proof {
            lemma_component_range(sv, v as int);
        }
        let c = comp[v];
        proof {
            lemma_longest_unique(cedges@, cflags@, m as int, c as int, clayer@[c as int] as int);
        }
        layers.push(clayer[c]);
        v = v + 1;
    }
    proof {
        assert(ints(layers@) =~= spec_component_layers(es, feedback_arcs@, sv, nn));
    }
    layers
}

// ---------------------------------------------------------------------------
// Laws
// ---------------------------------------------------------------------------

/// An edge that is not set aside in an acyclic remainder goes down.
proof fn lemma_goes_down(es: Seq<(usize, usize)>, back: Seq<bool>, n: int, fin: Seq<int>, k: int)
    requires
        acyclic_by(es, back, n, fin),
        edges_in_range(es, n),
        0 <= k < es.len(),
        !back[k],
    ensures
        longest_layer(es, back, n, es[k].0 as int) < longest_layer(es, back, n, es[k].1 as int),
{
    let u = es[k].0 as int;
    let v = es[k].1 as int;
    lemma_longest_layer(es, back, n, fin, u);
    lemma_longest_layer(es, back, n, fin, v);
    let lu = longest_layer(es, back, n, u);
    let p = choose|p: Seq<int>| #[trigger] is_path(es, back, n, p) && p.last() == u && p.len() - 1 == lu;
    lemma_path_push(es, back, n, p, k);
    let q = p.push(v);
    assert(q.last() == v);
}

/// Whatever reaches the source of an edge that is not a feedback arc also
/// reaches its target, so the target is pushed at least as often.
proof fn lemma_pushes_follow_edge(
    es: Seq<(usize, usize)>,
    fas: Seq<(usize, usize)>,
    n: int,
    cur: Seq<int>,
    l: int,
    kk: int,
    k: int,
)
    requires
        edges_in_range(es, n),
        0 <= k < es.len(),
        !fas.contains(es[k]),
    ensures
        pushes(es, fas, n, cur, l, kk, es[k].0 as int) <= pushes(es, fas, n, cur, l, kk, es[k].1 as int),
    decreases kk,
{
    if kk > 0 {
        lemma_pushes_follow_edge(es, fas, n, cur, l, kk - 1, k);
        let back = feedback_flags(es, fas);
        let m = kk - 1;
        if reaches(es, fas, n, m, es[k].0 as int) {
            let p = choose|p: Seq<int>| #[trigger] is_path(es, back, n, p) && p[0] == m && p.last() == es[k].0 as int;
            lemma_path_push(es, back, n, p, k);
            let q = p.push(es[k].1 as int);
            assert(q[0] == m && q.last() == es[k].1 as int);
        }
    }
}

proof fn lemma_deepen_keeps_order(
    es: Seq<(usize, usize)>,
    fas: Seq<(usize, usize)>,
    n: int,
    first: Seq<int>,
    cur: Seq<int>,
    l: int,
    hi: int,
    k: int,
)
    requires
        edges_in_range(es, n),
        0 <= k < es.len(),
        !fas.contains(es[k]),
        cur.len() == n,
        cur[es[k].0 as int] < cur[es[k].1 as int],
    ensures
        deepen_from(es, fas, n, first, cur, l, hi).len() == n,
        deepen_from(es, fas, n, first, cur, l, hi)[es[k].0 as int] < deepen_from(es, fas, n, first, cur, l, hi)[es[k].1 as int],
    decreases hi + 1 - l,
{
    if l <= hi {
        let c = if first.contains(l) { deepen_layer(es, fas, n, cur, l) } else { cur };
        if first.contains(l) && mixed_layer(fas, cur, l) {
            lemma_pushes_follow_edge(es, fas, n, cur, l, n, k);
        }
        lemma_deepen_keeps_order(es, fas, n, first, c, l + 1, hi, k);
    }
}

/// Every edge that is not a feedback arc goes down at least one layer, the
/// deepening included: its target lies on a strictly higher layer than its
/// source.
pub proof fn lemma_legacy_edges_go_down(es: Seq<(usize, usize)>, fas: Seq<(usize, usize)>, n: int, k: int)
    requires
        edges_in_range(es, n),
        0 <= n <= usize::MAX,
        exists|fin: Seq<int>| acyclic_by(es, feedback_flags(es, fas), n, fin),
        0 <= k < es.len(),
        !fas.contains(es[k]),
    ensures
        spec_legacy_layers(es, fas, n)[es[k].0 as int] < spec_legacy_layers(es, fas, n)[es[k].1 as int],
{
    let back = feedback_flags(es, fas);
    let fin = choose|fin: Seq<int>| acyclic_by(es, back, n, fin);
    let nf = nf_edges(es, fas);
    lemma_nf_edges_range(es, fas, n);
    // The edges that are not feedback arcs go to lower finishing numbers.
    assert forall|j: int| 0 <= j < nf.len() implies fin[(#[trigger] nf[j]).1 as int] < fin[nf[j].0 as int] by {
        lemma_nf_edges_from(es, fas, j);
        let i = choose|i: int| 0 <= i < es.len() && !fas.contains(es[i]) && #[trigger] es[i] == nf[j];
        assert(!back[i]);
    }
    assert(ordered_by(nf, n, fin));
    // Kahn's algorithm takes every node, so nothing is left to fill in.
    let r = spec_longest_path_ranks(nf, n);
    let reached = kahn_reached(nf, n);
    assert forall|v: int| 0 <= v < n implies #[trigger] reached[v] by {
        lemma_every_node_taken(nf, n, fin, v);
    }
    lemma_fill_done(es, r, reached, n);
    if n > 0 {
        lemma_ordered_has_root(nf, n, fin);
    }
    let first = first_layers(es, fas, n);
    assert(first == r);
    lemma_spec_ranks_len(nf, n);
    lemma_nf_edges_hold(es, fas, k);
    let j = choose|j: int| 0 <= j < nf.len() && nf[j] == es[k];
    lemma_ranks_follow_every_edge(nf, n, fin, j);
    if fas.len() > 0 {
        lemma_deepen_keeps_order(es, fas, n, first, first, 0, max_layer(first), k);
    }
}

/// A node with an incoming edge is the target of some edge.
proof fn lemma_indegree_edge(es: Seq<(usize, usize)>, v: int)
    requires
        indegree_of(es, v) != 0,
    ensures
        exists|j: int| 0 <= j < es.len() && (#[trigger] es[j]).1 as int == v,
    decreases es.len(),
{
    if es.last().1 as int == v {
        assert(es[es.len() - 1].1 as int == v);
    } else {
        let d = es.drop_last();
        lemma_indegree_edge(d, v);
        let j = choose|j: int| 0 <= j < d.len() && (#[trigger] d[j]).1 as int == v;
        assert(es[j] == d[j]);
    }
}

/// A node among `0..m` whose number is highest.
proof fn lemma_highest(fin: Seq<int>, m: int) -> (v: int)
    requires
        0 < m <= fin.len(),
    ensures
        0 <= v < m,
        forall|x: int| 0 <= x < m ==> #[trigger] fin[x] <= fin[v],
    decreases m,
{
    if m == 1 {
        0
    } else {
        let w = lemma_highest(fin, m - 1);
        if fin[m - 1] > fin[w] { m - 1 } else { w }
    }
}

/// When the edges go to lower numbers, the node with the highest number
/// has no edge into it.
proof fn lemma_ordered_has_root(nf: Seq<(usize, usize)>, n: int, fin: Seq<int>)
    requires
        ordered_by(nf, n, fin),
        n > 0,
        forall|j: int| 0 <= j < nf.len() ==> (#[trigger] nf[j]).0 < n && nf[j].1 < n,
    ensures
        has_root(nf, n),
{
    let v = lemma_highest(fin, n);
    if indegree_of(nf, v) != 0 {
        lemma_indegree_edge(nf, v);
        let j = choose|j: int| 0 <= j < nf.len() && (#[trigger] nf[j]).1 as int == v;
        assert(fin[nf[j].0 as int] <= fin[v]);
    }
    assert(indegree_of(nf, v) == 0);
}

/// Filling in changes nothing when every node has a layer.
proof fn lemma_fill_done(es: Seq<(usize, usize)>, lay: Seq<int>, got: Seq<bool>, k: int)
    requires
        forall|v: int| 0 <= v < k ==> #[trigger] got[v],
    ensures
        fill_upto(es, lay, got, k) == (lay, got),
    decreases k,
{
    if k > 0 {
        lemma_fill_done(es, lay, got, k - 1);
    }
}

/// The nodes of one component share a layer, and every edge between two
/// components that is not a feedback arc goes down at least one layer.
pub proof fn lemma_component_layers_follow_edges(
    es: Seq<(usize, usize)>,
    fas: Seq<(usize, usize)>,
    sccs: Seq<Seq<usize>>,
    n: int,
    k: int,
)
    requires
        edges_in_range(es, n),
        0 <= n <= usize::MAX,
        sccs.len() < usize::MAX,
        sccs.len() <= 1 ==> exists|fin: Seq<int>| acyclic_by(es, feedback_flags(es, fas), n, fin),
        sccs.len() > 1 ==> partitions(sccs, n),
        sccs.len() > 1 ==> exists|fin: Seq<int>|
            acyclic_by(condensed_edges(es, sccs), condensed_flags(es, fas, sccs), sccs.len() as int, fin),
        0 <= k < es.len(),
        !fas.contains(es[k]),
        component_of(sccs, es[k].0 as int) != component_of(sccs, es[k].1 as int),
    ensures
        spec_component_layers(es, fas, sccs, n)[es[k].0 as int] < spec_component_layers(es, fas, sccs, n)[es[k].1 as int],
        sccs.len() > 1 ==> forall|u: int, v: int|
            0 <= u < n && 0 <= v < n && component_of(sccs, u) == component_of(sccs, v)
                ==> #[trigger] spec_component_layers(es, fas, sccs, n)[u] == #[trigger] spec_component_layers(es, fas, sccs, n)[v],
{
    if sccs.len() <= 1 {
        lemma_legacy_edges_go_down(es, fas, n, k);
    } else {
        let ce = condensed_edges(es, sccs);
        let cf = condensed_flags(es, fas, sccs);
        let m = sccs.len() as int;
        let fin = choose|fin: Seq<int>| acyclic_by(ce, cf, m, fin);
        assert forall|j: int| 0 <= j < ce.len() implies (#[trigger] ce[j]).0 < m && ce[j].1 < m by {
            lemma_component_range(sccs, es[j].0 as int);
            lemma_component_range(sccs, es[j].1 as int);
            assert(component_of(sccs, es[j].0 as int) >= 0);
            assert(component_of(sccs, es[j].1 as int) >= 0);
        }
        lemma_goes_down(ce, cf, m, fin, k);
        let u = es[k].0 as int;
        let v = es[k].1 as int;
        assert(partitions(sccs, n));
        assert(component_of(sccs, u) >= 0 && component_of(sccs, v) >= 0);
        lemma_component_range(sccs, u);
        lemma_component_range(sccs, v);
        assert(ce[k] == (component_of(sccs, u) as usize, component_of(sccs, v) as usize));
        assert(spec_component_layers(es, fas, sccs, n)[u] == longest_layer(ce, cf, m, component_of(sccs, u)));
        assert(spec_component_layers(es, fas, sccs, n)[v] == longest_layer(ce, cf, m, component_of(sccs, v)));
    }
}

// ---------------------------------------------------------------------------
// Feedback arcs
// ---------------------------------------------------------------------------

/// The edges with target `t`, in edge order.
pub open spec fn with_target(es: Seq<(usize, usize)>, t: int) -> Seq<(usize, usize)>
    decreases es.len(),
{
    if es.len() == 0 {
        Seq::empty()
    } else {
        let r = with_target(es.drop_last(), t);
        if es.last().1 as int == t { r.push(es.last()) } else { r }
    }
}

/// The edges with targets below `t`, ordered by target, ties in edge
/// order: each node meets its successors in ascending order.
pub open spec fn by_target(es: Seq<(usize, usize)>, t: int) -> Seq<(usize, usize)>
    decreases t,
{
    if t <= 0 {
        Seq::empty()
    } else {
        by_target(es, t - 1) + with_target(es, t - 1)
    }
}

/// The edges of `s` whose flag is set, in order.
pub open spec fn flagged(s: Seq<(usize, usize)>, f: Seq<bool>) -> Seq<(usize, usize)>
    decreases s.len(),
{
    if s.len() == 0 {
        Seq::empty()
    } else {
        let r = flagged(s.drop_last(), f);
        if f[s.len() - 1] { r.push(s.last()) } else { r }
    }
}

/// The feedback arcs: the back edges of a depth-first search started from
/// each unvisited node in index order, each node taking its successors in
/// ascending order; an edge to a node still on the search path is a back
/// edge.
pub open spec fn spec_feedback_arcs_of(es: Seq<(usize, usize)>, n: int) -> Seq<(usize, usize)> {
    let s = by_target(es, n);
    flagged(s, spec_back_flags(s, n))
}

proof fn lemma_with_target_contains(es: Seq<(usize, usize)>, t: int, x: (usize, usize))
    ensures
        with_target(es, t).contains(x) <==> es.contains(x) && x.1 as int == t,
    decreases es.len(),
{
    if es.len() > 0 {
        let d = es.drop_last();
        lemma_with_target_contains(d, t, x);
        let r = with_target(d, t);
        if es.contains(x) && x.1 as int == t {
            let i = choose|i: int| 0 <= i < es.len() && es[i] == x;
            if i < d.len() {
                assert(d[i] == x);
                assert(d.contains(x));
                if es.last().1 as int == t {
                    let j = choose|j: int| 0 <= j < r.len() && r[j] == x;
                    assert(r.push(es.last())[j] == x);
                }
            } else {
                assert(es.last() == x);
                assert(r.push(es.last())[r.len() as int] == x);
            }
        }
        if with_target(es, t).contains(x) {
            let w = with_target(es, t);
            let j = choose|j: int| 0 <= j < w.len() && w[j] == x;
            if j < r.len() {
                assert(r[j] == x);
                assert(r.contains(x));
                let i = choose|i: int| 0 <= i < d.len() && d[i] == x;
                assert(es[i] == x);
            } else {
                assert(es.last() == x);
                assert(es[es.len() - 1] == x);
            }
        }
    }
}

proof fn lemma_by_target_contains(es: Seq<(usize, usize)>, t: int, x: (usize, usize))
    ensures
        by_target(es, t).contains(x) <==> es.contains(x) && (x.1 as int) < t,
    decreases t,
{
    if t > 0 {
        lemma_by_target_contains(es, t - 1, x);
        lemma_with_target_contains(es, t - 1, x);
        let a = by_target(es, t - 1);
        let b = with_target(es, t - 1);
        let c = a + b;
        if c.contains(x) {
            let j = choose|j: int| 0 <= j < c.len() && c[j] == x;
            if j < a.len() {
                assert(a[j] == x);
            } else {
                assert(b[j - a.len()] == x);
            }
        }
        if a.contains(x) {
            let j = choose|j: int| 0 <= j < a.len() && a[j] == x;
            assert(c[j] == x);
        }
        if b.contains(x) {
            let j = choose|j: int| 0 <= j < b.len() && b[j] == x;
            assert(c[a.len() + j] == x);
        }
    }
}

proof fn lemma_flagged_contains(s: Seq<(usize, usize)>, f: Seq<bool>, x: (usize, usize))
    ensures
        flagged(s, f).contains(x) <==> exists|k: int| 0 <= k < s.len() && f[k] && s[k] == x,
    decreases s.len(),
{
    if s.len() > 0 {
        let d = s.drop_last();
        lemma_flagged_contains(d, f, x);
        let r = flagged(d, f);
        if flagged(s, f).contains(x) {
            let w = flagged(s, f);
            let j = choose|j: int| 0 <= j < w.len() && w[j] == x;
            if j < r.len() {
                assert(r[j] == x);
                assert(r.contains(x));
                let k = choose|k: int| 0 <= k < d.len() && f[k] && d[k] == x;
                assert(s[k] == x);
            } else {
                assert(s[s.len() - 1] == x);
            }
        }
        if exists|k: int| 0 <= k < s.len() && f[k] && s[k] == x {
            let k = choose|k: int| 0 <= k < s.len() && f[k] && s[k] == x;
            if k < d.len() {
                assert(d[k] == x);
                assert(exists|k2: int| 0 <= k2 < d.len() && f[k2] && d[k2] == x);
                let j = choose|j: int| 0 <= j < r.len() && r[j] == x;
                if f[s.len() - 1] {
                    assert(r.push(s.last())[j] == x);
                }
            } else {
                assert(r.push(s.last())[r.len() as int] == x);
            }
        }
    }
}

/// Feedback arcs by depth-first search: started from each unvisited node in
/// index order, each node takes its successors in ascending order, and an
/// edge to a node still on the search path is a feedback arc. Setting them
/// aside leaves no cycle, as the layer assignments above require.
pub fn detect_feedback_arcs(graph: &DiGraph<String, ()>) -> (fas: Vec<(usize, usize)>)
    ensures
        fas@ == spec_feedback_arcs_of(sgraph_edges(*graph), sgraph_nodes(*graph).len() as int),
        exists|fin: Seq<int>|
            acyclic_by(
                sgraph_edges(*graph),
                feedback_flags(sgraph_edges(*graph), fas@),
                sgraph_nodes(*graph).len() as int,
                fin,
            ),
        forall|j: int| 0 <= j < fas@.len() ==> has_path_of_from(
            sgraph_edges(*graph),
            feedback_flags(sgraph_edges(*graph), fas@),
            sgraph_nodes(*graph).len() as int,
            (#[trigger] fas@[j]).1 as int,
            fas@[j].0 as int,
        ),
        forall|j: int| 0 <= j < fas@.len() ==> sgraph_edges(*graph).contains(#[trigger] fas@[j]),
        forall|k: int| 0 <= k < sgraph_edges(*graph).len() && (#[trigger] sgraph_edges(*graph)[k]).0
            == sgraph_edges(*graph)[k].1 ==> fas@.contains(sgraph_edges(*graph)[k]),
        graph_acyclic(sgraph_edges(*graph), sgraph_nodes(*graph).len() as int) ==> fas@.len() == 0,
{
    let n = sgraph_node_count(graph);
    let edges = sgraph_edge_list(graph);
    let ghost es = edges@;
    let ghost nn = n as int;
    let mut sorted: Vec<(usize, usize)> = Vec::new();
    let mut t: usize = 0;
    while t < n
        invariant
            t <= n,
            es == edges@,
            sorted@ == by_target(es, t as int),
        decreases n - t,
    {
        let ghost base = sorted@;
        let mut k: usize = 0;
        while k < edges.len()
            invariant
                k <= edges@.len(),
                es == edges@,
                sorted@ == base + with_target(es.take(k as int), t as int),
            decreases edges@.len() - k,
        {
            proof {
                assert(es.take(k + 1).drop_last() =~= es.take(k as int));
                assert(es.take(k + 1).last() == es[k as int]);
            }
            if edges[k].1 == t {
                sorted.push(edges[k]);
                proof {
                    assert(sorted@ =~= base + with_target(es.take(k + 1), t as int));
                }
            }
            k = k + 1;
        }
        proof {
            assert(es.take(es.len() as int) =~= es);
        }
        t = t + 1;
    }
    let ghost s = sorted@;
    proof {
        assert forall|k: int| 0 <= k < s.len() implies (#[trigger] s[k]).0 < nn && s[k].1 < nn by {
            assert(s.contains(s[k]));
            lemma_by_target_contains(es, nn, s[k]);
            let j = choose|j: int| 0 <= j < es.len() && es[j] == s[k];
        }
    }
    let flags = detect_back_edges(n, &sorted);
    let mut fas: Vec<(usize, usize)> = Vec::new();
    let mut k: usize = 0;
    while k < sorted.len()
        invariant
            k <= sorted@.len(),
            s == sorted@,
            flags@.len() == s.len(),
            fas@ == flagged(s.take(k as int), flags@),
        decreases sorted@.len() - k,
    {
        proof {
            assert(s.take(k + 1).drop_last() =~= s.take(k as int));
            assert(s.take(k + 1).last() == s[k as int]);
        }
        if flags[k] {
            fas.push(sorted[k]);
        }
        k = k + 1;
    }
    proof {
        assert(s.take(s.len() as int) =~= s);
        let ff = feedback_flags(es, fas@);
        let fin = choose|fin: Seq<int>| {
            &&& is_finish_order(fin, nn)
            &&& forall|k: int| 0 <= k < s.len() && !(#[trigger] flags@[k]) ==> fin[s[k].1 as int] < fin[s[k].0 as int]
        };
        assert forall|j: int| 0 <= j < es.len() && !ff[j] implies fin[(#[trigger] es[j]).1 as int] < fin[es[j].0 as int] by {
            assert(es.contains(es[j]));
            lemma_by_target_contains(es, nn, es[j]);
            let k = choose|k: int| 0 <= k < s.len() && s[k] == es[j];
            lemma_flagged_contains(s, flags@, es[j]);
            if flags@[k] {
                assert(fas@.contains(es[j]));
            }
        }
        assert(acyclic_by(es, ff, nn, fin));
        // Each feedback arc closes a path of the other edges.
        assert forall|j: int| 0 <= j < fas@.len() implies has_path_of_from(es, ff, nn, (#[trigger] fas@[j]).1 as int, fas@[j].0 as int) by {
            let x = fas@[j];
            assert(fas@.contains(x));
            lemma_flagged_contains(s, flags@, x);
            let k = choose|k: int| 0 <= k < s.len() && flags@[k] && s[k] == x;
            assert(has_path_of_from(s, flags@, nn, s[k].1 as int, s[k].0 as int));
            let p = choose|p: Seq<int>| #[trigger] is_path(s, flags@, nn, p) && p[0] == s[k].1 as int && p.last() == s[k].0 as int;
            assert forall|i: int| 0 <= i < p.len() - 1 implies nb_edge(es, ff, #[trigger] p[i], p[i + 1]) by {
                assert(nb_edge(s, flags@, p[i], p[i + 1]));
                let m = choose|m: int| 0 <= m < s.len() && !flags@[m] && (#[trigger] s[m]).0 == p[i] && s[m].1 == p[i + 1];
                assert(s.contains(s[m]));
                lemma_by_target_contains(es, nn, s[m]);
                let e = choose|e: int| 0 <= e < es.len() && es[e] == s[m];
                lemma_flagged_contains(s, flags@, s[m]);
                if fas@.contains(s[m]) {
                    let k2 = choose|k2: int| 0 <= k2 < s.len() && flags@[k2] && s[k2] == s[m];
                    assert(flags@[k2] == flags@[m]);
                }
                assert(!ff[e]);
                assert(es[e].0 == p[i] && es[e].1 == p[i + 1]);
            }
            assert(is_path(es, ff, nn, p));
        }
        assert forall|j: int| 0 <= j < fas@.len() implies es.contains(#[trigger] fas@[j]) by {
            let x = fas@[j];
            assert(fas@.contains(x));
            lemma_flagged_contains(s, flags@, x);
            let k = choose|k: int| 0 <= k < s.len() && flags@[k] && s[k] == x;
            assert(s.contains(s[k]));
            lemma_by_target_contains(es, nn, s[k]);
        }
        assert forall|k: int| 0 <= k < es.len() && (#[trigger] es[k]).0 == es[k].1 implies fas@.contains(es[k]) by {
            if !ff[k] {
                assert(fin[es[k].1 as int] < fin[es[k].0 as int]);
            }
        }
        if graph_acyclic(es, nn) && fas@.len() > 0 {
            let r = choose|r: Seq<int>| acyclic_by(es, no_flags(es.len() as int), nn, r);
            assert forall|k: int| 0 <= k < es.len() && #[trigger] ff[k] implies
                has_path_of_from(es, ff, nn, es[k].1 as int, es[k].0 as int) by {
                let j = choose|j: int| 0 <= j < fas@.len() && fas@[j] == es[k];
                assert(has_path_of_from(es, ff, nn, fas@[j].1 as int, fas@[j].0 as int));
            }
            lemma_acyclic_closes_nothing(es, ff, nn, r);
            assert(es.contains(fas@[0]));
            let e = choose|e: int| 0 <= e < es.len() && es[e] == fas@[0];
            assert(fas@.contains(es[e]));
            assert(ff[e]);
        }
    }
    fas
}

} // verus!
