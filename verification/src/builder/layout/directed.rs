//! Layering of a directed graph (Sugiyama style) followed by crossing
//! reduction.
//!
//! Cycles are broken by a depth-first search: an edge that points to a node
//! still on the search stack is a back edge and is ignored when layering.
//! The remaining edges form an acyclic graph, and every node is placed on the
//! layer given by the longest path of such edges that ends in it. Layers are
//! then reordered by [`minimize_crossings`]; for the `BT` and `RL`
//! directions the order of the layers is reversed. Where ids repeat, the
//! search and the layering run over the distinct ids.

use vstd::prelude::*;
use vstd::multiset::Multiset;

use crate::ast::Direction;
use crate::builder::ir::unigraph::{UGEdge, UGNode, Unigraph};

use super::crossing::{
    lemma_minimize_crossings_identity, lemma_minimize_keeps_members,
    edges_view, last_pos, layer_view, layers_view, minimize_crossings, spec_minimize_crossings,
    LayerEdge, NodeId,
};
use super::engine::lemma_ids_on_above;
use super::graph_names::{
    graph_names, id_name_count, identity_ids, lemma_graph_names, lemma_id_names, lemma_names_of_wf_graph, name_edges,
    name_ids, number_names,
};

verus! {

// ---------------------------------------------------------------------------
// Depth-first search model
// ---------------------------------------------------------------------------

/// State of the search: colours (0 unvisited, 1 on the stack, 2 finished),
/// the next edge position to scan for each node, the stack, the back edges
/// found, and the next start node.
pub struct DfsState {
    pub color: Seq<u8>,
    pub idx: Seq<usize>,
    pub stack: Seq<usize>,
    pub back: Seq<(usize, usize)>,
    pub s: int,
}

/// Position of the first edge from `u` at or after `from` (the edge count
/// when there is none).
pub open spec fn next_edge(es: Seq<(usize, usize)>, u: usize, from: int) -> int
    decreases es.len() - from,
{
    if from >= es.len() {
        es.len() as int
    } else if es[from].0 == u {
        from
    } else {
        next_edge(es, u, from + 1)
    }
}

/// The search is over: nothing on the stack and no start node left.
pub open spec fn dfs_done(st: DfsState, n: int) -> bool {
    st.stack.len() == 0 && st.s >= n
}

/// One step of the search. With an empty stack, the next start node is
/// pushed if unvisited, else skipped. Otherwise the top node scans its
/// next edge: a target on the stack makes a back edge, an unvisited
/// target is pushed; with no edge left the node is finished and popped.
pub open spec fn dfs_step(es: Seq<(usize, usize)>, n: int, st: DfsState) -> DfsState {
    if st.stack.len() == 0 {
        if st.s < n && st.color[st.s] == 0 {
            DfsState { color: st.color.update(st.s, 1), stack: seq![st.s as usize], s: st.s + 1, ..st }
        } else {
            DfsState { s: st.s + 1, ..st }
        }
    } else {
        let u = st.stack.last();
        let k = next_edge(es, u, st.idx[u as int] as int);
        if k >= es.len() {
            DfsState {
                color: st.color.update(u as int, 2),
                idx: st.idx.update(u as int, es.len() as usize),
                stack: st.stack.drop_last(),
                ..st
            }
        } else {
            let v = es[k].1;
            let st1 = DfsState { idx: st.idx.update(u as int, (k + 1) as usize), ..st };
            if st.color[v as int] == 1 {
                DfsState { back: st.back.push((u, v)), ..st1 }
            } else if st.color[v as int] == 0 {
                DfsState { color: st.color.update(v as int, 1), stack: st.stack.push(v), ..st1 }
            } else {
                st1
            }
        }
    }
}

/// At most `fuel` steps of the search, stopping when it is over.
pub open spec fn dfs_run(es: Seq<(usize, usize)>, n: int, st: DfsState, fuel: nat) -> DfsState
    decreases fuel,
{
    if fuel == 0 || dfs_done(st, n) {
        st
    } else {
        dfs_run(es, n, dfs_step(es, n, st), (fuel - 1) as nat)
    }
}

/// Before the search: all nodes unvisited.
pub open spec fn dfs_start(n: int) -> DfsState {
    DfsState {
        color: Seq::new(n as nat, |i: int| 0u8),
        idx: Seq::new(n as nat, |i: int| 0usize),
        stack: Seq::empty(),
        back: Seq::empty(),
        s: 0,
    }
}

/// More steps than the search takes.
pub open spec fn dfs_bound(n: int, e: int) -> nat {
    (n * (e + 3)) as nat
}

/// The back edges of the search over nodes `0..n`, started from each node
/// in order, each node scanning its edges in list order.
pub open spec fn spec_back_edges(es: Seq<(usize, usize)>, n: int) -> Seq<(usize, usize)> {
    dfs_run(es, n, dfs_start(n), dfs_bound(n, es.len() as int)).back
}

/// For every edge, whether its pair of ends is a back edge of the search.
pub open spec fn spec_back_flags(es: Seq<(usize, usize)>, n: int) -> Seq<bool> {
    Seq::new(es.len(), |i: int| spec_back_edges(es, n).contains(es[i]))
}

/// The back edges of the search over nodes `0..n` started only from the
/// nodes `0..m`, in order.
pub open spec fn spec_back_edges_from(es: Seq<(usize, usize)>, n: int, m: int) -> Seq<(usize, usize)> {
    dfs_run(es, m, dfs_start(n), dfs_bound(n, es.len() as int)).back
}

/// For every edge, whether its pair of ends is a back edge of the search
/// started only from the nodes `0..m`.
pub open spec fn spec_back_flags_from(es: Seq<(usize, usize)>, n: int, m: int) -> Seq<bool> {
    Seq::new(es.len(), |i: int| spec_back_edges_from(es, n, m).contains(es[i]))
}

proof fn lemma_run_snoc(es: Seq<(usize, usize)>, n: int, st: DfsState, f: nat)
    requires
        !dfs_done(dfs_run(es, n, st, f), n),
    ensures
        dfs_run(es, n, st, f + 1) == dfs_step(es, n, dfs_run(es, n, st, f)),
    decreases f,
{
    if f == 0 {
        assert(dfs_run(es, n, st, 0) == st);
        assert(dfs_run(es, n, st, 1) == dfs_run(es, n, dfs_step(es, n, st), 0));
    } else {
        assert(!dfs_done(st, n));
        assert(dfs_run(es, n, st, f) == dfs_run(es, n, dfs_step(es, n, st), (f - 1) as nat));
        lemma_run_snoc(es, n, dfs_step(es, n, st), (f - 1) as nat);
        assert(dfs_run(es, n, st, f + 1) == dfs_run(es, n, dfs_step(es, n, st), f));
    }
}

proof fn lemma_run_stable(es: Seq<(usize, usize)>, n: int, st: DfsState, f1: nat, f2: nat)
    requires
        dfs_done(dfs_run(es, n, st, f1), n),
        f1 <= f2,
    ensures
        dfs_run(es, n, st, f2) == dfs_run(es, n, st, f1),
    decreases f1,
{
    if f1 > 0 && !dfs_done(st, n) {
        lemma_run_stable(es, n, dfs_step(es, n, st), (f1 - 1) as nat, (f2 - 1) as nat);
    }
}

proof fn lemma_next_edge(es: Seq<(usize, usize)>, u: usize, from: int, k: int)
    requires
        0 <= from <= k <= es.len(),
        forall|j: int| from <= j < k ==> (#[trigger] es[j]).0 != u,
        k == es.len() || es[k].0 == u,
    ensures
        next_edge(es, u, from) == k,
    decreases k - from,
{
    if from < k {
        lemma_next_edge(es, u, from + 1, k);
    }
}

proof fn lemma_rem_start(n: int, e: int)
    requires
        0 <= n,
        0 <= e,
    ensures
        rem(Seq::new(n as nat, |i: int| 0u8), Seq::new(n as nat, |i: int| 0usize), e, n) == n * (e + 2),
    decreases n,
{
    if n > 0 {
        lemma_rem_start(n - 1, e);
        assert(rem(Seq::new(n as nat, |i: int| 0u8), Seq::new(n as nat, |i: int| 0usize), e, n - 1)
            == rem(Seq::new((n - 1) as nat, |i: int| 0u8), Seq::new((n - 1) as nat, |i: int| 0usize), e, n - 1)) by {
            lemma_rem_prefix(Seq::new(n as nat, |i: int| 0u8), Seq::new(n as nat, |i: int| 0usize),
                Seq::new((n - 1) as nat, |i: int| 0u8), Seq::new((n - 1) as nat, |i: int| 0usize), e, n - 1);
        }
        let c = Seq::new(n as nat, |i: int| 0u8);
        let ix = Seq::new(n as nat, |i: int| 0usize);
        assert(rem(c, ix, e, n) == rem(c, ix, e, n - 1) + node_work(c[n - 1], ix[n - 1], e));
        assert(node_work(c[n - 1], ix[n - 1], e) == e + 2);
        assert(n * (e + 2) == (n - 1) * (e + 2) + (e + 2)) by (nonlinear_arith);
    } else {
        assert(n * (e + 2) == 0) by (nonlinear_arith)
            requires
                n == 0,
        ;
    }
}

proof fn lemma_rem_prefix(c1: Seq<u8>, i1: Seq<usize>, c2: Seq<u8>, i2: Seq<usize>, e: int, m: int)
    requires
        0 <= m <= c1.len(),
        m <= c2.len(),
        m <= i1.len(),
        m <= i2.len(),
        forall|x: int| 0 <= x < m ==> c1[x] == c2[x] && i1[x] == i2[x],
    ensures
        rem(c1, i1, e, m) == rem(c2, i2, e, m),
    decreases m,
{
    if m > 0 {
        lemma_rem_prefix(c1, i1, c2, i2, e, m - 1);
    }
}

/// Number of entries of `c` equal to 2 (finished nodes).
pub open spec fn count_black(c: Seq<u8>) -> int
    decreases c.len(),
{
    if c.len() == 0 {
        0
    } else {
        count_black(c.drop_last()) + if c.last() == 2 { 1int } else { 0int }
    }
}

/// Remaining work of one node: unfinished nodes still have edges to scan.
pub open spec fn node_work(c: u8, i: usize, e: int) -> int {
    if c == 2 {
        0
    } else if c == 1 {
        e - i + 1
    } else {
        e + 2
    }
}

/// Remaining work of the first `m` nodes.
pub open spec fn rem(color: Seq<u8>, idx: Seq<usize>, e: int, m: int) -> int
    decreases m,
{
    if m <= 0 {
        0
    } else {
        rem(color, idx, e, m - 1) + node_work(color[m - 1], idx[m - 1], e)
    }
}

/// `v` lies above `u` on the stack.
pub open spec fn above(stack: Seq<usize>, u: int, v: int) -> bool {
    exists|a: int, b: int| 0 <= a < b < stack.len() && stack[a] == u && stack[b] == v
}

/// A finishing order: every node gets a distinct number in `0..n`.
pub open spec fn is_finish_order(fin: Seq<int>, n: int) -> bool {
    &&& fin.len() == n
    &&& forall|x: int| 0 <= x < n ==> 0 <= #[trigger] fin[x] < n
    &&& forall|x: int, y: int| 0 <= x < n && 0 <= y < n && #[trigger] fin[x] == #[trigger] fin[y] ==> x == y
}

/// All edge ends are nodes of a graph with `n` nodes.
pub open spec fn edges_in_range(es: Seq<(usize, usize)>, n: int) -> bool {
    forall|k: int| 0 <= k < es.len() ==> (#[trigger] es[k]).0 < n && es[k].1 < n
}

/// The stack holds exactly the nodes in progress (colour 1), once each.
pub open spec fn stack_inv(n: int, color: Seq<u8>, stack: Seq<usize>) -> bool {
    &&& color.len() == n
    &&& stack.no_duplicates()
    &&& forall|i: int| 0 <= i < stack.len() ==> #[trigger] stack[i] < n && color[stack[i] as int] == 1
    &&& forall|x: int| 0 <= x < n && #[trigger] color[x] == 1 ==> stack.contains(x as usize)
}

/// Invariant of the iterative depth-first search.
pub open spec fn dfs_inv(
    n: int,
    es: Seq<(usize, usize)>,
    color: Seq<u8>,
    idx: Seq<usize>,
    fin: Seq<int>,
    cnt: int,
    stack: Seq<usize>,
    back: Seq<(usize, usize)>,
) -> bool {
    &&& color.len() == n
    &&& idx.len() == n
    &&& fin.len() == n
    &&& edges_in_range(es, n)
    &&& forall|x: int| 0 <= x < n ==> #[trigger] color[x] <= 2
    &&& forall|x: int| 0 <= x < n ==> #[trigger] idx[x] <= es.len()
    &&& forall|x: int| 0 <= x < n && #[trigger] color[x] == 0 ==> idx[x] == 0
    &&& forall|x: int| 0 <= x < n && #[trigger] color[x] == 2 ==> idx[x] == es.len()
    &&& forall|x: int| 0 <= x < n ==> ((#[trigger] color[x] == 2) == (0 <= fin[x]))
    &&& forall|x: int| 0 <= x < n ==> #[trigger] fin[x] < cnt
    &&& forall|x: int, y: int|
        0 <= x < n && 0 <= y < n && color[x] == 2 && color[y] == 2 && #[trigger] fin[x] == #[trigger] fin[y] ==> x == y
    &&& cnt == count_black(color)
    &&& cnt >= 0
    &&& stack_inv(n, color, stack)
    &&& forall|k: int|
        0 <= k < es.len() && k < idx[(#[trigger] es[k]).0 as int] && !back.contains(es[k]) ==> {
            let u = es[k].0 as int;
            let v = es[k].1 as int;
            ||| color[v] == 2 && (color[u] == 2 ==> fin[v] < fin[u])
            ||| color[v] == 1 && above(stack, u, v)
        }
}

proof fn lemma_count_black_update(c: Seq<u8>, i: int, val: u8)
    requires
        0 <= i < c.len(),
    ensures
        count_black(c.update(i, val)) == count_black(c) - (if c[i] == 2 { 1int } else { 0int }) + (if val == 2 { 1int } else { 0int }),
    decreases c.len(),
{
    let d = c.update(i, val);
    if i == c.len() - 1 {
        assert(d.drop_last() =~= c.drop_last());
    } else {
        assert(d.drop_last() =~= c.drop_last().update(i, val));
        lemma_count_black_update(c.drop_last(), i, val);
    }
}

proof fn lemma_count_zero(c: Seq<u8>)
    requires
        forall|x: int| 0 <= x < c.len() ==> c[x] == 0,
    ensures
        count_black(c) == 0,
    decreases c.len(),
{
    if c.len() > 0 {
        lemma_count_zero(c.drop_last());
    }
}

proof fn lemma_count_black_all(c: Seq<u8>)
    requires
        forall|x: int| 0 <= x < c.len() ==> c[x] == 2,
    ensures
        count_black(c) == c.len(),
    decreases c.len(),
{
    if c.len() > 0 {
        lemma_count_black_all(c.drop_last());
    }
}

proof fn lemma_rem_update(c1: Seq<u8>, i1: Seq<usize>, c2: Seq<u8>, i2: Seq<usize>, e: int, m: int, j: int)
    requires
        0 <= j < m,
        m <= c1.len(),
        m <= c2.len(),
        m <= i1.len(),
        m <= i2.len(),
        forall|x: int| 0 <= x < m && x != j ==> c1[x] == c2[x] && i1[x] == i2[x],
    ensures
        rem(c2, i2, e, m) == rem(c1, i1, e, m) + node_work(c2[j], i2[j], e) - node_work(c1[j], i1[j], e),
    decreases m,
{
    if m - 1 > j {
        lemma_rem_update(c1, i1, c2, i2, e, m - 1, j);
    } else {
        lemma_rem_same(c1, i1, c2, i2, e, m - 1);
    }
}

proof fn lemma_rem_same(c1: Seq<u8>, i1: Seq<usize>, c2: Seq<u8>, i2: Seq<usize>, e: int, m: int)
    requires
        m <= c1.len(),
        m <= c2.len(),
        m <= i1.len(),
        m <= i2.len(),
        forall|x: int| 0 <= x < m ==> c1[x] == c2[x] && i1[x] == i2[x],
    ensures
        rem(c2, i2, e, m) == rem(c1, i1, e, m),
    decreases m,
{
    if m > 0 {
        lemma_rem_same(c1, i1, c2, i2, e, m - 1);
    }
}

proof fn lemma_rem_nonneg(c: Seq<u8>, i: Seq<usize>, e: int, m: int)
    requires
        m <= c.len(),
        m <= i.len(),
        forall|x: int| 0 <= x < m ==> c[x] <= 2 && i[x] <= e,
    ensures
        rem(c, i, e, m) >= 0,
    decreases m,
{
    if m > 0 {
        lemma_rem_nonneg(c, i, e, m - 1);
    }
}

/// Finishing the node `u` on top of the stack keeps the invariant.
proof fn lemma_finish(
    n: int, es: Seq<(usize, usize)>, c0: Seq<u8>, i0: Seq<usize>, fin: Seq<int>, cnt: int,
    st0: Seq<usize>, back: Seq<(usize, usize)>, u: usize,
)
    requires
        dfs_inv(n, es, c0, i0, fin, cnt, st0, back),
        st0.len() > 0,
        st0[st0.len() - 1] == u,
        forall|j: int| i0[u as int] <= j < es.len() ==> (#[trigger] es[j]).0 != u,
        es.len() <= usize::MAX,
        n <= usize::MAX,
    ensures
        dfs_inv(n, es, c0.update(u as int, 2), i0.update(u as int, es.len() as usize), fin.update(u as int, cnt), cnt + 1, st0.drop_last(), back),
{
    let c1 = c0.update(u as int, 2);
    let i1 = i0.update(u as int, es.len() as usize);
    let f1 = fin.update(u as int, cnt);
    let st1 = st0.drop_last();
    lemma_count_black_update(c0, u as int, 2);
    assert(c0[u as int] == 1);
    assert forall|i: int| 0 <= i < st1.len() implies #[trigger] st1[i] < n && c1[st1[i] as int] == 1 by {
        assert(st1[i] == st0[i]);
        assert(st0[i] != u);
    }
    assert forall|x: int| 0 <= x < n && #[trigger] c1[x] == 1 implies st1.contains(x as usize) by {
        assert(x != u as int);
        assert(x as usize as int == x);
        assert(c0[x] == 1);
        assert(st0.contains(x as usize));
        let a = choose|a: int| 0 <= a < st0.len() && st0[a] == x as usize;
        assert(st0[a] as int == x);
        assert(st0[st0.len() - 1] as int == u as int);
        assert(a != st0.len() - 1);
        assert(st1[a] == x as usize);
    }
    assert forall|x: int, y: int|
        0 <= x < n && 0 <= y < n && c1[x] == 2 && c1[y] == 2 && #[trigger] f1[x] == #[trigger] f1[y] implies x == y by {
        if x != u as int && y != u as int {
        } else if x == u as int && y != u as int {
            assert(fin[y] < cnt);
        } else if x != u as int && y == u as int {
            assert(fin[x] < cnt);
        }
    }
    assert forall|k: int|
        0 <= k < es.len() && k < i1[(#[trigger] es[k]).0 as int] && !back.contains(es[k]) implies {
            let uu = es[k].0 as int;
            let vv = es[k].1 as int;
            ||| c1[vv] == 2 && (c1[uu] == 2 ==> f1[vv] < f1[uu])
            ||| c1[vv] == 1 && above(st1, uu, vv)
        } by {
        let uu = es[k].0 as int;
        let vv = es[k].1 as int;
        if uu == u as int {
            assert(k < i0[uu]);
            if c0[vv] == 1 {
                let (a, b) = choose|a: int, b: int| 0 <= a < b < st0.len() && st0[a] == uu && st0[b] == vv;
                assert(st0[st0.len() - 1] == st0[a]);
                assert(a == st0.len() - 1);
            }
        } else {
            assert(k < i0[uu]);
            if c0[vv] == 1 && vv != u as int {
                let (a, b) = choose|a: int, b: int| 0 <= a < b < st0.len() && st0[a] == uu && st0[b] == vv;
                assert(b != st0.len() - 1);
                assert(st1[a] == uu && st1[b] == vv);
            }
        }
    }
    assert(st1.no_duplicates());
}

/// Scanning an edge `u -> v` with `v` on the stack records a back edge.
proof fn lemma_scan_gray(
    n: int, es: Seq<(usize, usize)>, c0: Seq<u8>, i0: Seq<usize>, fin: Seq<int>, cnt: int,
    st0: Seq<usize>, back: Seq<(usize, usize)>, u: usize, k: int,
)
    requires
        dfs_inv(n, es, c0, i0, fin, cnt, st0, back),
        st0.len() > 0,
        st0[st0.len() - 1] == u,
        i0[u as int] <= k < es.len(),
        es[k].0 == u,
        c0[es[k].1 as int] == 1,
        forall|j: int| i0[u as int] <= j < k ==> (#[trigger] es[j]).0 != u,
    ensures
        dfs_inv(n, es, c0, i0.update(u as int, (k + 1) as usize), fin, cnt, st0, back.push(es[k])),
{
    let i1 = i0.update(u as int, (k + 1) as usize);
    let b1 = back.push(es[k]);
    assert(b1[b1.len() - 1] == es[k]);
    assert forall|k2: int|
        0 <= k2 < es.len() && k2 < i1[(#[trigger] es[k2]).0 as int] && !b1.contains(es[k2]) implies {
            let uu = es[k2].0 as int;
            let vv = es[k2].1 as int;
            ||| c0[vv] == 2 && (c0[uu] == 2 ==> fin[vv] < fin[uu])
            ||| c0[vv] == 1 && above(st0, uu, vv)
        } by {
        if back.contains(es[k2]) {
            let q = choose|q: int| 0 <= q < back.len() && back[q] == es[k2];
            assert(b1[q] == es[k2]);
        }
        assert(k2 != k);
        assert(k2 < i0[es[k2].0 as int]);
    }
}

/// Scanning an edge `u -> v` with `v` finished changes nothing else.
proof fn lemma_scan_black(
    n: int, es: Seq<(usize, usize)>, c0: Seq<u8>, i0: Seq<usize>, fin: Seq<int>, cnt: int,
    st0: Seq<usize>, back: Seq<(usize, usize)>, u: usize, k: int,
)
    requires
        dfs_inv(n, es, c0, i0, fin, cnt, st0, back),
        st0.len() > 0,
        st0[st0.len() - 1] == u,
        i0[u as int] <= k < es.len(),
        es[k].0 == u,
        c0[es[k].1 as int] == 2,
        forall|j: int| i0[u as int] <= j < k ==> (#[trigger] es[j]).0 != u,
    ensures
        dfs_inv(n, es, c0, i0.update(u as int, (k + 1) as usize), fin, cnt, st0, back),
{
    let i1 = i0.update(u as int, (k + 1) as usize);
    assert(c0[u as int] == 1);
    assert forall|k2: int|
        0 <= k2 < es.len() && k2 < i1[(#[trigger] es[k2]).0 as int] && !back.contains(es[k2]) implies {
            let uu = es[k2].0 as int;
            let vv = es[k2].1 as int;
            ||| c0[vv] == 2 && (c0[uu] == 2 ==> fin[vv] < fin[uu])
            ||| c0[vv] == 1 && above(st0, uu, vv)
        } by {
        if k2 != k {
            assert(k2 < i0[es[k2].0 as int]);
        }
    }
}

/// Scanning an edge `u -> v` with `v` unvisited pushes `v`.
proof fn lemma_scan_white(
    n: int, es: Seq<(usize, usize)>, c0: Seq<u8>, i0: Seq<usize>, fin: Seq<int>, cnt: int,
    st0: Seq<usize>, back: Seq<(usize, usize)>, u: usize, k: int,
)
    requires
        dfs_inv(n, es, c0, i0, fin, cnt, st0, back),
        st0.len() > 0,
        st0[st0.len() - 1] == u,
        i0[u as int] <= k < es.len(),
        es[k].0 == u,
        c0[es[k].1 as int] == 0,
        forall|j: int| i0[u as int] <= j < k ==> (#[trigger] es[j]).0 != u,
    ensures
        dfs_inv(n, es, c0.update(es[k].1 as int, 1), i0.update(u as int, (k + 1) as usize), fin, cnt, st0.push(es[k].1), back),
{
    let v = es[k].1;
    let c1 = c0.update(v as int, 1);
    let i1 = i0.update(u as int, (k + 1) as usize);
    let st1 = st0.push(v);
    lemma_count_black_update(c0, v as int, 1);
    assert(c0[u as int] == 1);
    assert(v != u);
    assert(!st0.contains(v)) by {
        if st0.contains(v) {
            let a = choose|a: int| 0 <= a < st0.len() && st0[a] == v;
            assert(c0[st0[a] as int] == 1);
        }
    }
    assert(st1.no_duplicates());
    assert forall|i: int| 0 <= i < st1.len() implies #[trigger] st1[i] < n && c1[st1[i] as int] == 1 by {
        if i < st0.len() {
            assert(st1[i] == st0[i]);
        }
    }
    assert forall|x: int| 0 <= x < n && #[trigger] c1[x] == 1 implies st1.contains(x as usize) by {
        if x == v as int {
            assert(st1[st0.len() as int] == v);
        } else {
            let a = choose|a: int| 0 <= a < st0.len() && st0[a] == x as usize;
            assert(st1[a] == x as usize);
        }
    }
    assert forall|k2: int|
        0 <= k2 < es.len() && k2 < i1[(#[trigger] es[k2]).0 as int] && !back.contains(es[k2]) implies {
            let uu = es[k2].0 as int;
            let vv = es[k2].1 as int;
            ||| c1[vv] == 2 && (c1[uu] == 2 ==> fin[vv] < fin[uu])
            ||| c1[vv] == 1 && above(st1, uu, vv)
        } by {
        let uu = es[k2].0 as int;
        let vv = es[k2].1 as int;
        if k2 == k {
            assert(st1[st0.len() - 1] == u && st1[st0.len() as int] == v);
        } else {
            assert(k2 < i0[uu]);
            if uu == v as int {
                assert(i0[uu] == 0);
            }
            if c0[vv] == 1 {
                let (a, b) = choose|a: int, b: int| 0 <= a < b < st0.len() && st0[a] == uu && st0[b] == vv;
                assert(st1[a] == uu && st1[b] == vv);
            }
            assert(c0[vv] != 0);
        }
    }
}

/// Consecutive entries `i`, `i + 1` of `p` are joined by a tree edge.
pub open spec fn linked(tree: Seq<(usize, usize)>, p: Seq<usize>, i: int) -> bool {
    tree.contains((p[i], p[i + 1]))
}

/// `p` is a walk from `a` to `b` along tree edges.
pub open spec fn tree_walk(tree: Seq<(usize, usize)>, p: Seq<usize>, a: usize, b: usize) -> bool {
    &&& p.len() >= 1
    &&& p[0] == a
    &&& p.last() == b
    &&& forall|i: int| 0 <= i < p.len() - 1 ==> #[trigger] linked(tree, p, i)
}

/// Invariant about the search tree: tree edges are edges of the graph, never
/// back edges, consecutive stack entries are joined by tree edges, and every
/// back edge `u -> v` is closed by a tree walk from `v` to `u`.
pub open spec fn tree_inv(
    n: int,
    es: Seq<(usize, usize)>,
    color: Seq<u8>,
    stack: Seq<usize>,
    back: Seq<(usize, usize)>,
    tree: Seq<(usize, usize)>,
) -> bool {
    &&& forall|j: int| 0 <= j < tree.len() ==> es.contains(#[trigger] tree[j])
    &&& forall|j: int| 0 <= j < tree.len() ==> !back.contains(#[trigger] tree[j])
    &&& forall|j: int| 0 <= j < tree.len() ==> (#[trigger] tree[j]).1 < n && color[tree[j].1 as int] != 0
    &&& forall|j: int| 0 <= j < tree.len() && color[(#[trigger] tree[j]).1 as int] == 1 ==> above(stack, tree[j].0 as int, tree[j].1 as int)
    &&& forall|i: int| 0 <= i < stack.len() - 1 ==> #[trigger] linked(tree, stack, i)
    &&& forall|q: int| 0 <= q < back.len() ==> color[(#[trigger] back[q]).1 as int] != 0
        && back[q].1 < n
        && exists|p: Seq<usize>| #[trigger] tree_walk(tree, p, back[q].1, back[q].0)
}

/// Starting a search from an unvisited node keeps the tree invariant.
proof fn lemma_tree_root(
    n: int, es: Seq<(usize, usize)>, c0: Seq<u8>, i0: Seq<usize>, fin: Seq<int>, cnt: int,
    back: Seq<(usize, usize)>, tree: Seq<(usize, usize)>, s: usize,
)
    requires
        stack_inv(n, c0, Seq::empty()),
        tree_inv(n, es, c0, Seq::empty(), back, tree),
        s < n,
        c0[s as int] == 0,
    ensures
        tree_inv(n, es, c0.update(s as int, 1), seq![s], back, tree),
{
    let c1 = c0.update(s as int, 1);
    assert forall|j: int| 0 <= j < tree.len() && c1[(#[trigger] tree[j]).1 as int] == 1 implies above(seq![s], tree[j].0 as int, tree[j].1 as int) by {
        assert(tree[j].1 != s);
        assert(c0[tree[j].1 as int] == 1);
        assert(Seq::<usize>::empty().contains(tree[j].1));
    }
}

/// Finishing the top node keeps the tree invariant.
#[verifier::rlimit(50)]
proof fn lemma_tree_finish(
    n: int, es: Seq<(usize, usize)>, c0: Seq<u8>, i0: Seq<usize>, fin: Seq<int>, cnt: int,
    st0: Seq<usize>, back: Seq<(usize, usize)>, tree: Seq<(usize, usize)>, u: usize,
)
    requires
        stack_inv(n, c0, st0),
        tree_inv(n, es, c0, st0, back, tree),
        st0.len() > 0,
        st0[st0.len() - 1] == u,
    ensures
        tree_inv(n, es, c0.update(u as int, 2), st0.drop_last(), back, tree),
{
    let c1 = c0.update(u as int, 2);
    let st1 = st0.drop_last();
    assert forall|j: int| 0 <= j < tree.len() && c1[(#[trigger] tree[j]).1 as int] == 1 implies above(st1, tree[j].0 as int, tree[j].1 as int) by {
        let y = tree[j].1;
        assert(y != u);
        assert(c0[y as int] == 1);
        let (a, b) = choose|a: int, b: int| 0 <= a < b < st0.len() && st0[a] == tree[j].0 as int && st0[b] == y as int;
        assert(b != st0.len() - 1);
        assert(st1[a] == st0[a] && st1[b] == st0[b]);
    }
    assert forall|i: int| 0 <= i < st1.len() - 1 implies #[trigger] linked(tree, st1, i) by {
        assert(st1[i] == st0[i] && st1[i + 1] == st0[i + 1]);
        assert(linked(tree, st0, i));
    }
    assert forall|q: int| 0 <= q < back.len() implies c1[(#[trigger] back[q]).1 as int] != 0
        && back[q].1 < n
        && exists|p: Seq<usize>| #[trigger] tree_walk(tree, p, back[q].1, back[q].0) by {
        assert(c0[back[q].1 as int] != 0);
    }
}

/// Recording a back edge `u -> v` (with `v` on the stack) keeps the tree
/// invariant: the stack from `v` up to `u` is a tree walk.
#[verifier::rlimit(50)]
proof fn lemma_tree_scan_gray(
    n: int, es: Seq<(usize, usize)>, c0: Seq<u8>, i0: Seq<usize>, fin: Seq<int>, cnt: int,
    st0: Seq<usize>, back: Seq<(usize, usize)>, tree: Seq<(usize, usize)>, u: usize, k: int,
)
    requires
        stack_inv(n, c0, st0),
        tree_inv(n, es, c0, st0, back, tree),
        st0.len() > 0,
        st0[st0.len() - 1] == u,
        0 <= k < es.len(),
        es[k].0 == u,
        es[k].1 < n,
        c0[es[k].1 as int] == 1,
    ensures
        tree_inv(n, es, c0, st0, back.push(es[k]), tree),
{
    let v = es[k].1;
    let b1 = back.push(es[k]);
    // The pair is not a tree edge: its head would lie above the top of the stack.
    assert(!tree.contains(es[k])) by {
        if tree.contains(es[k]) {
            let j = choose|j: int| 0 <= j < tree.len() && tree[j] == es[k];
            assert(c0[tree[j].1 as int] == 1);
            let (a, b) = choose|a: int, b: int| 0 <= a < b < st0.len() && st0[a] == u as int && st0[b] == v as int;
            assert(st0[a] == st0[st0.len() - 1]);
            assert(a == st0.len() - 1);
        }
    }
    assert forall|j: int| 0 <= j < tree.len() implies !b1.contains(#[trigger] tree[j]) by {
        assert(!back.contains(tree[j]));
        if b1.contains(tree[j]) {
            let q = choose|q: int| 0 <= q < b1.len() && b1[q] == tree[j];
            if q < back.len() {
                assert(back[q] == tree[j]);
            } else {
                assert(tree[j] == es[k]);
            }
        }
    }
    // The walk: the stack from the position of `v` to the top.
    assert(st0.contains(v));
    let b = choose|b: int| 0 <= b < st0.len() && st0[b] == v;
    let p = st0.subrange(b, st0.len() as int);
    assert forall|i: int| 0 <= i < p.len() - 1 implies #[trigger] linked(tree, p, i) by {
        assert(p[i] == st0[b + i] && p[i + 1] == st0[b + i + 1]);
        assert(linked(tree, st0, b + i));
    }
    assert(tree_walk(tree, p, v, u));
    assert forall|q: int| 0 <= q < b1.len() implies c0[(#[trigger] b1[q]).1 as int] != 0
        && b1[q].1 < n
        && exists|p: Seq<usize>| #[trigger] tree_walk(tree, p, b1[q].1, b1[q].0) by {
        if q < back.len() {
            assert(b1[q] == back[q]);
        } else {
            assert(b1[q] == es[k]);
            assert(tree_walk(tree, p, b1[q].1, b1[q].0));
        }
    }
}

/// Pushing an unvisited node `v` reached by `u -> v` adds a tree edge.
#[verifier::rlimit(50)]
proof fn lemma_tree_scan_white(
    n: int, es: Seq<(usize, usize)>, c0: Seq<u8>, i0: Seq<usize>, fin: Seq<int>, cnt: int,
    st0: Seq<usize>, back: Seq<(usize, usize)>, tree: Seq<(usize, usize)>, u: usize, k: int,
)
    requires
        stack_inv(n, c0, st0),
        tree_inv(n, es, c0, st0, back, tree),
        st0.len() > 0,
        st0[st0.len() - 1] == u,
        0 <= k < es.len(),
        es[k].0 == u,
        es[k].1 < n,
        c0[es[k].1 as int] == 0,
    ensures
        tree_inv(n, es, c0.update(es[k].1 as int, 1), st0.push(es[k].1), back, tree.push(es[k])),
{
    let v = es[k].1;
    let c1 = c0.update(v as int, 1);
    let st1 = st0.push(v);
    let t1 = tree.push(es[k]);
    assert(es.contains(es[k]));
    assert(!back.contains(es[k])) by {
        if back.contains(es[k]) {
            let q = choose|q: int| 0 <= q < back.len() && back[q] == es[k];
            assert(c0[back[q].1 as int] != 0);
        }
    }
    assert forall|j: int| 0 <= j < t1.len() implies es.contains(#[trigger] t1[j]) && !back.contains(t1[j]) by {
        if j < tree.len() {
            assert(t1[j] == tree[j]);
        }
    }
    assert forall|j: int| 0 <= j < t1.len() implies (#[trigger] t1[j]).1 < n && c1[t1[j].1 as int] != 0 by {
        if j < tree.len() {
            assert(t1[j] == tree[j]);
        }
    }
    assert forall|j: int| 0 <= j < t1.len() && c1[(#[trigger] t1[j]).1 as int] == 1 implies above(st1, t1[j].0 as int, t1[j].1 as int) by {
        if j < tree.len() {
            assert(t1[j] == tree[j]);
            let y = tree[j].1;
            assert(y != v);
            let (a, b) = choose|a: int, b: int| 0 <= a < b < st0.len() && st0[a] == tree[j].0 as int && st0[b] == y as int;
            assert(st1[a] == st0[a] && st1[b] == st0[b]);
        } else {
            assert(st1[st0.len() - 1] == u && st1[st0.len() as int] == v);
        }
    }
    assert forall|i: int| 0 <= i < st1.len() - 1 implies #[trigger] linked(t1, st1, i) by {
        if i < st0.len() - 1 {
            assert(st1[i] == st0[i] && st1[i + 1] == st0[i + 1]);
            assert(linked(tree, st0, i));
            let j = choose|j: int| 0 <= j < tree.len() && tree[j] == (st0[i], st0[i + 1]);
            assert(t1[j] == tree[j]);
        } else {
            assert(st1[i] == u && st1[i + 1] == v);
            assert(t1[tree.len() as int] == es[k]);
        }
    }
    assert forall|q: int| 0 <= q < back.len() implies c1[(#[trigger] back[q]).1 as int] != 0
        && back[q].1 < n
        && exists|p: Seq<usize>| #[trigger] tree_walk(t1, p, back[q].1, back[q].0) by {
        let p = choose|p: Seq<usize>| #[trigger] tree_walk(tree, p, back[q].1, back[q].0);
        assert forall|i: int| 0 <= i < p.len() - 1 implies #[trigger] linked(t1, p, i) by {
            assert(linked(tree, p, i));
            let j = choose|j: int| 0 <= j < tree.len() && tree[j] == (p[i], p[i + 1]);
            assert(t1[j] == tree[j]);
        }
        assert(tree_walk(t1, p, back[q].1, back[q].0));
    }
}

/// Some path goes from `a` to `b` along edges that are not back edges.
pub open spec fn has_path_of_from(es: Seq<(usize, usize)>, back: Seq<bool>, n: int, a: int, b: int) -> bool {
    exists|p: Seq<int>| #[trigger] is_path(es, back, n, p) && p[0] == a && p.last() == b
}

/// A tree walk is a path along edges that are not back edges.
proof fn lemma_walk_is_path(
    n: int, es: Seq<(usize, usize)>, back: Seq<(usize, usize)>, flags: Seq<bool>,
    tree: Seq<(usize, usize)>, p: Seq<usize>, a: usize, b: usize,
)
    requires
        flags.len() == es.len(),
        forall|j: int| 0 <= j < es.len() ==> #[trigger] flags[j] == back.contains(es[j]),
        forall|j: int| 0 <= j < tree.len() ==> es.contains(#[trigger] tree[j]),
        forall|j: int| 0 <= j < tree.len() ==> !back.contains(#[trigger] tree[j]),
        forall|j: int| 0 <= j < tree.len() ==> (#[trigger] tree[j]).1 < n,
        a < n,
        tree_walk(tree, p, a, b),
    ensures
        has_path_of_from(es, flags, n, a as int, b as int),
{
    let pi = p.map_values(|x: usize| x as int);
    assert forall|i: int| 0 <= i < pi.len() implies 0 <= #[trigger] pi[i] < n by {
        if i > 0 {
            assert(linked(tree, p, i - 1));
            let j = choose|j: int| 0 <= j < tree.len() && tree[j] == (p[i - 1], p[i]);
            assert(tree[j].1 < n);
        }
    }
    assert forall|i: int| 0 <= i < pi.len() - 1 implies nb_edge(es, flags, #[trigger] pi[i], pi[i + 1]) by {
        assert(linked(tree, p, i));
        let j = choose|j: int| 0 <= j < tree.len() && tree[j] == (p[i], p[i + 1]);
        assert(es.contains(tree[j]));
        let k = choose|k: int| 0 <= k < es.len() && es[k] == tree[j];
        assert(!back.contains(es[k]));
        assert(!flags[k]);
    }
    assert(is_path(es, flags, n, pi));
}

/// Depth-first search over nodes `0..n`, started from each of the nodes
/// `0..m` in order (edges scanned in list order). Returns, for every edge,
/// whether its pair of ends is a back edge of the search.
pub(crate) fn detect_back_edges_from(n: usize, m: usize, edges: &Vec<(usize, usize)>) -> (flags: Vec<bool>)
    requires
        edges_in_range(edges@, n as int),
        m <= n,
    ensures
        flags.len() == edges.len(),
        forall|i: int, j: int| 0 <= i < edges.len() && 0 <= j < edges.len() && edges@[i] == edges@[j] ==> flags@[i] == flags@[j],
        flags@ == spec_back_flags_from(edges@, n as int, m as int),
        m == n ==> exists|fin: Seq<int>| {
            &&& is_finish_order(fin, n as int)
            &&& forall|k: int| 0 <= k < edges.len() && !(#[trigger] flags@[k]) ==> fin[edges@[k].1 as int] < fin[edges@[k].0 as int]
        },
        m == n ==> forall|k: int| 0 <= k < edges.len() && #[trigger] flags@[k] ==>
            has_path_of_from(edges@, flags@, n as int, edges@[k].1 as int, edges@[k].0 as int),
        m == n ==> forall|k: int| 0 <= k < edges.len() && (#[trigger] edges@[k]).0 == edges@[k].1 ==> flags@[k],
        m == n ==> (graph_acyclic(edges@, n as int) ==> forall|k: int| 0 <= k < edges.len() ==> !#[trigger] flags@[k]),
{
    let ghost es = edges@;
    let e_len = edges.len();
    let mut color: Vec<u8> = Vec::new();
    let mut idx: Vec<usize> = Vec::new();
    let mut x: usize = 0;
    while x < n
        invariant
            x <= n,
            color.len() == x,
            idx.len() == x,
            forall|y: int| 0 <= y < x ==> color@[y] == 0 && idx@[y] == 0,
        decreases n - x,
    {
        color.push(0);
        idx.push(0);
        x = x + 1;
    }
    let ghost mut fin: Seq<int> = Seq::new(n as nat, |i: int| -1int);
    let ghost mut cnt: int = 0;
    let mut stack: Vec<usize> = Vec::new();
    let mut back: Vec<(usize, usize)> = Vec::new();
    let ghost mut tree: Seq<(usize, usize)> = Seq::empty();
    let ghost mut steps: nat = 0;
    let ghost bound = dfs_bound(n as int, e_len as int);
    proof {
        assert forall|x: int| 0 <= x < n implies #[trigger] color@[x] == 0 by {}
        lemma_count_zero(color@);
        assert(color@ =~= Seq::new(n as nat, |i: int| 0u8));
        assert(idx@ =~= Seq::new(n as nat, |i: int| 0usize));
        assert(stack@ =~= Seq::<usize>::empty());
        assert(back@ =~= Seq::<(usize, usize)>::empty());
        lemma_rem_start(n as int, e_len as int);
        assert(n * (e_len + 2) + n == n * (e_len + 3)) by (nonlinear_arith);
    }

    let mut s: usize = 0;
    while s < m
        invariant
            s <= m,
            m <= n,
            e_len == es.len(),
            es == edges@,
            dfs_inv(n as int, es, color@, idx@, fin, cnt, stack@, back@),
            tree_inv(n as int, es, color@, stack@, back@, tree),
            stack@.len() == 0,
            forall|x: int| 0 <= x < s ==> #[trigger] color@[x] == 2,
            bound == dfs_bound(n as int, e_len as int),
            (DfsState { color: color@, idx: idx@, stack: stack@, back: back@, s: s as int })
                == dfs_run(es, m as int, dfs_start(n as int), steps),
            steps + rem(color@, idx@, e_len as int, n as int) + (m - s) <= bound,
        decreases n - s,
    {
        let ghost m0 = DfsState { color: color@, idx: idx@, stack: stack@, back: back@, s: s as int };
        proof {
            lemma_run_snoc(es, m as int, dfs_start(n as int), steps);
        }
        if color[s] == 0 {
            proof {
                lemma_count_black_update(color@, s as int, 1);
                lemma_tree_root(n as int, es, color@, idx@, fin, cnt, back@, tree, s);
            }
            let ghost r0 = rem(color@, idx@, e_len as int, n as int);
            let ghost c_before = color@;
            color.set(s, 1);
            stack.push(s);
            assert(stack@ =~= seq![s]);
            proof {
                lemma_rem_update(c_before, idx@, color@, idx@, e_len as int, n as int, s as int);
                let m1 = DfsState { color: color@, idx: idx@, stack: stack@, back: back@, s: s + 1 };
                assert(m1.color =~= dfs_step(es, m as int, m0).color);
                assert(m1 == dfs_step(es, m as int, m0));
                steps = steps + 1;
            }
            proof {
                assert(stack@[0] == s);
                assert forall|k: int|
                    0 <= k < es.len() && k < idx@[(#[trigger] es[k]).0 as int] && !back@.contains(es[k]) implies {
                        let u = es[k].0 as int;
                        let v = es[k].1 as int;
                        ||| color@[v] == 2 && (color@[u] == 2 ==> fin[v] < fin[u])
                        ||| color@[v] == 1 && above(stack@, u, v)
                    } by {
                    assert(es[k].1 as int != s as int);
                }
            }
            while stack.len() > 0
                invariant
                    s < m,
                    m <= n,
                    e_len == es.len(),
                    es == edges@,
                    dfs_inv(n as int, es, color@, idx@, fin, cnt, stack@, back@),
                    tree_inv(n as int, es, color@, stack@, back@, tree),
                    forall|x: int| 0 <= x < s ==> #[trigger] color@[x] == 2,
                    color@[s as int] != 0,
                    bound == dfs_bound(n as int, e_len as int),
                    (DfsState { color: color@, idx: idx@, stack: stack@, back: back@, s: s + 1 })
                        == dfs_run(es, m as int, dfs_start(n as int), steps),
                    steps + rem(color@, idx@, e_len as int, n as int) + (m - (s + 1)) <= bound,
                decreases rem(color@, idx@, e_len as int, n as int),
            {
                let ghost mb = DfsState { color: color@, idx: idx@, stack: stack@, back: back@, s: s + 1 };
                proof {
                    lemma_run_snoc(es, m as int, dfs_start(n as int), steps);
                }
                let u = stack[stack.len() - 1];
                let mut k = idx[u];
                while k < e_len && edges[k].0 != u
                    invariant
                        u < n,
                        idx@.len() == n,
                        idx@[u as int] <= k <= e_len,
                        e_len == es.len(),
                        es == edges@,
                        forall|j: int| idx@[u as int] <= j < k ==> (#[trigger] es[j]).0 != u,
                    decreases e_len - k,
                {
                    k = k + 1;
                }
                let ghost c0 = color@;
                let ghost i0 = idx@;
                let ghost st0 = stack@;
                let ghost b0 = back@;
                proof {
                    lemma_rem_nonneg(c0, i0, e_len as int, n as int);
                    assert(st0[st0.len() - 1] == u);
                    assert(c0[u as int] == 1);
                    lemma_next_edge(es, u, i0[u as int] as int, k as int);
                }
                if k == e_len {
                    // All edges of `u` are scanned: finish it.
                    proof {
                        lemma_finish(n as int, es, c0, i0, fin, cnt, st0, b0, u);
                        lemma_tree_finish(n as int, es, c0, i0, fin, cnt, st0, b0, tree, u);
                        lemma_count_black_update(color@, u as int, 2);
                    }
                    color.set(u, 2);
                    idx.set(u, e_len);
                    proof {
                        fin = fin.update(u as int, cnt);
                        cnt = cnt + 1;
                    }
                    stack.pop();
                    proof {
                        lemma_rem_update(c0, i0, color@, idx@, e_len as int, n as int, u as int);
                        assert(stack@ =~= st0.drop_last());
                    }
                } else {
                    let v = edges[k].1;
                    idx.set(u, k + 1);
                    let ghost i1 = idx@;
                    proof {
                        lemma_rem_update(c0, i0, c0, i1, e_len as int, n as int, u as int);
                    }
                    if color[v] == 1 {
                        proof {
                            lemma_scan_gray(n as int, es, c0, i0, fin, cnt, st0, b0, u, k as int);
                            lemma_tree_scan_gray(n as int, es, c0, i0, fin, cnt, st0, b0, tree, u, k as int);
                        }
                        back.push((u, v));
                    } else if color[v] == 0 {
                        proof {
                            lemma_scan_white(n as int, es, c0, i0, fin, cnt, st0, b0, u, k as int);
                            lemma_tree_scan_white(n as int, es, c0, i0, fin, cnt, st0, b0, tree, u, k as int);
                            tree = tree.push(es[k as int]);
                            lemma_count_black_update(color@, v as int, 1);
                        }
                        color.set(v, 1);
                        stack.push(v);
                        proof {
                            lemma_rem_update(c0, i1, color@, idx@, e_len as int, n as int, v as int);
                        }
                    } else {
                        proof {
                            lemma_scan_black(n as int, es, c0, i0, fin, cnt, st0, b0, u, k as int);
                        }
                    }
                }
                proof {
                    lemma_rem_nonneg(color@, idx@, e_len as int, n as int);
                    assert(rem(color@, idx@, e_len as int, n as int) < rem(c0, i0, e_len as int, n as int));
                    let ma = DfsState { color: color@, idx: idx@, stack: stack@, back: back@, s: s + 1 };
                    let want = dfs_step(es, m as int, mb);
                    assert(ma.color =~= want.color);
                    assert(ma.idx =~= want.idx);
                    assert(ma.stack =~= want.stack);
                    assert(ma.back =~= want.back);
                    assert(ma == want);
                    steps = steps + 1;
                }
            }
        } else {
            proof {
                assert((DfsState { color: color@, idx: idx@, stack: stack@, back: back@, s: s + 1 }) == dfs_step(es, m as int, m0));
                steps = steps + 1;
            }
        }
        s = s + 1;
    }
    proof {
        lemma_rem_nonneg(color@, idx@, e_len as int, n as int);
        lemma_run_stable(es, m as int, dfs_start(n as int), steps, bound);
        assert(back@ == spec_back_edges_from(es, n as int, m as int));
    }
    // With every node a start, every node is finished.
    proof {
        if m == n {
            lemma_count_black_all(color@);
        }
    }
    let mut flags: Vec<bool> = Vec::new();
    let mut i: usize = 0;
    while i < e_len
        invariant
            i <= e_len,
            e_len == es.len(),
            es == edges@,
            flags.len() == i,
            forall|j: int| 0 <= j < i ==> #[trigger] flags@[j] == back@.contains(es[j]),
            back@ == spec_back_edges_from(es, n as int, m as int),
        decreases e_len - i,
    {
        let mut found = false;
        let mut j: usize = 0;
        while j < back.len()
            invariant
                j <= back.len(),
                i < e_len,
                e_len == es.len(),
                es == edges@,
                found == (exists|q: int| 0 <= q < j && back@[q] == es[i as int]),
            decreases back.len() - j,
        {
            if back[j].0 == edges[i].0 && back[j].1 == edges[i].1 {
                found = true;
            }
            j = j + 1;
        }
        flags.push(found);
        i = i + 1;
    }
    assert(flags@ =~= spec_back_flags_from(es, n as int, m as int));
    if m < n {
        return flags;
    }
    proof {
        assert(color@.len() == n);
        assert(cnt == n);
        assert forall|x: int| 0 <= x < n implies 0 <= #[trigger] fin[x] < n by {
            assert(color@[x] == 2);
        }
        assert(is_finish_order(fin, n as int));
        assert forall|k: int| 0 <= k < edges.len() && #[trigger] flags@[k] implies
            has_path_of_from(edges@, flags@, n as int, edges@[k].1 as int, edges@[k].0 as int) by {
            let q = choose|q: int| 0 <= q < back@.len() && back@[q] == es[k];
            assert(back@[q] == es[k]);
            let p = choose|p: Seq<usize>| #[trigger] tree_walk(tree, p, back@[q].1, back@[q].0);
            lemma_walk_is_path(n as int, es, back@, flags@, tree, p, es[k].1, es[k].0);
        }
        assert forall|k: int| 0 <= k < edges.len() && !(#[trigger] flags@[k]) implies fin[edges@[k].1 as int] < fin[edges@[k].0 as int] by {
            assert(color@[es[k].0 as int] == 2);
            assert(k < idx@[es[k].0 as int]);
        }
        assert forall|k: int| 0 <= k < edges.len() && (#[trigger] edges@[k]).0 == edges@[k].1 implies flags@[k] by {
            if !flags@[k] {
                assert(fin[edges@[k].1 as int] < fin[edges@[k].0 as int]);
            }
        }
        if graph_acyclic(edges@, n as int) {
            let r = choose|r: Seq<int>| acyclic_by(edges@, no_flags(edges@.len() as int), n as int, r);
            lemma_acyclic_closes_nothing(edges@, flags@, n as int, r);
        }
    }
    flags
}

/// Depth-first search over nodes `0..n`, started from each node in order
/// (edges scanned in list order). Returns, for every edge, whether its pair
/// of ends is a back edge of the search.
pub(crate) fn detect_back_edges(n: usize, edges: &Vec<(usize, usize)>) -> (flags: Vec<bool>)
    requires
        edges_in_range(edges@, n as int),
    ensures
        flags.len() == edges.len(),
        forall|i: int, j: int| 0 <= i < edges.len() && 0 <= j < edges.len() && edges@[i] == edges@[j] ==> flags@[i] == flags@[j],
        exists|fin: Seq<int>| {
            &&& is_finish_order(fin, n as int)
            &&& forall|k: int| 0 <= k < edges.len() && !(#[trigger] flags@[k]) ==> fin[edges@[k].1 as int] < fin[edges@[k].0 as int]
        },
        forall|k: int| 0 <= k < edges.len() && #[trigger] flags@[k] ==>
            has_path_of_from(edges@, flags@, n as int, edges@[k].1 as int, edges@[k].0 as int),
        flags@ == spec_back_flags(edges@, n as int),
        forall|k: int| 0 <= k < edges.len() && (#[trigger] edges@[k]).0 == edges@[k].1 ==> flags@[k],
        graph_acyclic(edges@, n as int) ==> forall|k: int| 0 <= k < edges.len() ==> !#[trigger] flags@[k],
{
    detect_back_edges_from(n, n, edges)
}

// ---------------------------------------------------------------------------
// Longest-path layering
// ---------------------------------------------------------------------------

/// `u -> v` is an edge that is not a back edge.
pub open spec fn nb_edge(es: Seq<(usize, usize)>, back: Seq<bool>, u: int, v: int) -> bool {
    exists|k: int| 0 <= k < es.len() && !back[k] && (#[trigger] es[k]).0 == u && es[k].1 == v
}

/// `p` is a path of nodes `0..n` along edges that are not back edges.
pub open spec fn is_path(es: Seq<(usize, usize)>, back: Seq<bool>, n: int, p: Seq<int>) -> bool {
    &&& p.len() >= 1
    &&& forall|i: int| 0 <= i < p.len() ==> 0 <= #[trigger] p[i] < n
    &&& forall|i: int| 0 <= i < p.len() - 1 ==> nb_edge(es, back, #[trigger] p[i], p[i + 1])
}

/// Some path of length `len` ends in `v`.
pub open spec fn has_path_of(es: Seq<(usize, usize)>, back: Seq<bool>, n: int, v: int, len: int) -> bool {
    exists|p: Seq<int>| #[trigger] is_path(es, back, n, p) && p.last() == v && p.len() - 1 == len
}

/// `len` is the length of a longest path that ends in `v`.
pub open spec fn is_longest(es: Seq<(usize, usize)>, back: Seq<bool>, n: int, v: int, len: int) -> bool {
    &&& has_path_of(es, back, n, v, len)
    &&& forall|p: Seq<int>| #[trigger] is_path(es, back, n, p) && p.last() == v ==> p.len() - 1 <= len
}

/// The layer of node `v`: the length of the longest path ending in it.
pub open spec fn longest_layer(es: Seq<(usize, usize)>, back: Seq<bool>, n: int, v: int) -> int {
    choose|len: int| is_longest(es, back, n, v, len)
}

/// The back-edge flags leave an acyclic graph, witnessed by a finishing order.
pub open spec fn acyclic_by(es: Seq<(usize, usize)>, back: Seq<bool>, n: int, fin: Seq<int>) -> bool {
    &&& is_finish_order(fin, n)
    &&& back.len() == es.len()
    &&& forall|k: int| 0 <= k < es.len() && !back[k] ==> fin[(#[trigger] es[k]).1 as int] < fin[es[k].0 as int]
}

/// Along a path the finishing number drops by at least one per edge.
pub(crate) proof fn lemma_path_fin(es: Seq<(usize, usize)>, back: Seq<bool>, n: int, fin: Seq<int>, p: Seq<int>)
    requires
        acyclic_by(es, back, n, fin),
        is_path(es, back, n, p),
    ensures
        fin[p[0]] >= fin[p.last()] + p.len() - 1,
        p.len() - 1 <= n - 1 - fin[p.last()],
    decreases p.len(),
{
    if p.len() > 1 {
        let q = p.drop_last();
        assert forall|i: int| 0 <= i < q.len() - 1 implies nb_edge(es, back, #[trigger] q[i], q[i + 1]) by {
            assert(q[i] == p[i] && q[i + 1] == p[i + 1]);
            assert(nb_edge(es, back, p[i], p[i + 1]));
        }
        assert(is_path(es, back, n, q));
        lemma_path_fin(es, back, n, fin, q);
        assert(nb_edge(es, back, p[p.len() - 2], p[p.len() - 1]));
        let k = choose|k: int| 0 <= k < es.len() && !back[k] && (#[trigger] es[k]).0 == p[p.len() - 2] && es[k].1 == p[p.len() - 1];
        assert(fin[es[k].1 as int] < fin[es[k].0 as int]);
    }
    assert(0 <= fin[p[0]] < n);
}

/// No edge is set aside.
pub open spec fn no_flags(len: int) -> Seq<bool> {
    Seq::new(len as nat, |k: int| false)
}

/// The graph on nodes `0..n` with edges `es` has no cycle: some numbering of
/// the nodes drops along every edge.
pub open spec fn graph_acyclic(es: Seq<(usize, usize)>, n: int) -> bool {
    exists|fin: Seq<int>| acyclic_by(es, no_flags(es.len() as int), n, fin)
}

/// On an acyclic graph, a path that avoids some edges never runs against the
/// numbering, so no edge can close a cycle with it: every edge that is said to
/// close a path of the other edges is unflagged.
pub proof fn lemma_acyclic_closes_nothing(
    es: Seq<(usize, usize)>,
    flags: Seq<bool>,
    n: int,
    fin: Seq<int>,
)
    requires
        flags.len() == es.len(),
        acyclic_by(es, no_flags(es.len() as int), n, fin),
        forall|k: int| 0 <= k < es.len() && #[trigger] flags[k] ==>
            has_path_of_from(es, flags, n, es[k].1 as int, es[k].0 as int),
    ensures
        forall|k: int| 0 <= k < es.len() ==> !#[trigger] flags[k],
{
    let none = no_flags(es.len() as int);
    assert forall|k: int| 0 <= k < es.len() implies !#[trigger] flags[k] by {
        if flags[k] {
            let p = choose|p: Seq<int>| #[trigger] is_path(es, flags, n, p) && p[0] == es[k].1 as int && p.last() == es[k].0 as int;
            assert forall|i: int| 0 <= i < p.len() - 1 implies nb_edge(es, none, #[trigger] p[i], p[i + 1]) by {
                assert(nb_edge(es, flags, p[i], p[i + 1]));
                let m = choose|m: int| 0 <= m < es.len() && !flags[m] && (#[trigger] es[m]).0 == p[i] && es[m].1 == p[i + 1];
                assert(!none[m]);
            }
            assert(is_path(es, none, n, p));
            lemma_path_fin(es, none, n, fin, p);
            assert(!none[k]);
            assert(fin[es[k].1 as int] < fin[es[k].0 as int]);
        }
    }
}

/// A path extended by one more edge.
pub(crate) proof fn lemma_path_push(es: Seq<(usize, usize)>, back: Seq<bool>, n: int, p: Seq<int>, k: int)
    requires
        is_path(es, back, n, p),
        0 <= k < es.len(),
        !back[k],
        es[k].0 == p.last(),
        es[k].1 < n,
    ensures
        is_path(es, back, n, p.push(es[k].1 as int)),
{
    let q = p.push(es[k].1 as int);
    assert forall|i: int| 0 <= i < q.len() - 1 implies nb_edge(es, back, #[trigger] q[i], q[i + 1]) by {
        if i < p.len() - 1 {
            assert(q[i] == p[i] && q[i + 1] == p[i + 1]);
            assert(nb_edge(es, back, p[i], p[i + 1]));
        } else {
            assert(q[i] == p.last());
            assert(q[i + 1] == es[k].1 as int);
        }
    }
}

/// The prefix of a path is a path.
proof fn lemma_path_prefix(es: Seq<(usize, usize)>, back: Seq<bool>, n: int, p: Seq<int>)
    requires
        is_path(es, back, n, p),
        p.len() >= 2,
    ensures
        is_path(es, back, n, p.drop_last()),
        nb_edge(es, back, p[p.len() - 2], p.last()),
{
    let q = p.drop_last();
    assert forall|i: int| 0 <= i < q.len() - 1 implies nb_edge(es, back, #[trigger] q[i], q[i + 1]) by {
        assert(q[i] == p[i] && q[i + 1] == p[i + 1]);
        assert(nb_edge(es, back, p[i], p[i + 1]));
    }
    assert(nb_edge(es, back, p[p.len() - 2], p[p.len() - 1]));
}

/// When every edge rises by at least one layer, a path ends at least as
/// high as its length.
proof fn lemma_fixpoint_bound(es: Seq<(usize, usize)>, back: Seq<bool>, n: int, layer: Seq<usize>, p: Seq<int>)
    requires
        is_path(es, back, n, p),
        layer.len() == n,
        forall|k: int| 0 <= k < es.len() && !back[k] ==> layer[(#[trigger] es[k]).1 as int] > layer[es[k].0 as int],
    ensures
        layer[p.last()] >= p.len() - 1,
    decreases p.len(),
{
    if p.len() > 1 {
        lemma_path_prefix(es, back, n, p);
        lemma_fixpoint_bound(es, back, n, layer, p.drop_last());
        let k = choose|k: int| 0 <= k < es.len() && !back[k] && (#[trigger] es[k]).0 == p[p.len() - 2] && es[k].1 == p.last();
        assert(layer[es[k].1 as int] > layer[es[k].0 as int]);
    }
}

/// Longest-path layering by repeated relaxation over the edges that are not
/// back edges; layers are capped at `max(n - 1, 1)` (a cap that an acyclic
/// graph never reaches).
#[verifier::spinoff_prover]
#[verifier::rlimit(40)]
pub(crate) fn longest_path_layers(n: usize, edges: &Vec<(usize, usize)>, back: &Vec<bool>, Ghost(fin): Ghost<Seq<int>>) -> (layer: Vec<usize>)
    requires
        n < usize::MAX,
        edges_in_range(edges@, n as int),
        acyclic_by(edges@, back@, n as int, fin),
    ensures
        layer.len() == n,
        forall|v: int| 0 <= v < n ==> is_longest(edges@, back@, n as int, v, #[trigger] layer@[v] as int),
        forall|v: int| 0 <= v < n ==> #[trigger] layer@[v] < n,
{
    let ghost es = edges@;
    let ghost bk = back@;
    let e_len = edges.len();
    let max_allowed: usize = if n >= 2 { n - 1 } else { 1 };
    let mut layer: Vec<usize> = Vec::new();
    let mut x: usize = 0;
    while x < n
        invariant
            x <= n,
            layer.len() == x,
            forall|y: int| 0 <= y < x ==> layer@[y] == 0,
        decreases n - x,
    {
        layer.push(0);
        x = x + 1;
    }
    proof {
        assert forall|v: int| 0 <= v < n implies #[trigger] has_path_of(es, bk, n as int, v, layer@[v] as int) by {
            let p = seq![v];
            assert(is_path(es, bk, n as int, p));
            assert(p.last() == v && p.len() - 1 == layer@[v]);
        }
    }
    let mut changed = true;
    let mut guard: usize = 0;
    while changed && guard <= n
        invariant
            layer.len() == n,
            n < usize::MAX,
            guard <= n + 1,
            e_len == es.len(),
            es == edges@,
            bk == back@,
            edges_in_range(es, n as int),
            acyclic_by(es, bk, n as int, fin),
            max_allowed == (if n >= 2 { n - 1 } else { 1 }),
            forall|v: int| 0 <= v < n ==> #[trigger] has_path_of(es, bk, n as int, v, layer@[v] as int),
            forall|p: Seq<int>| #[trigger] is_path(es, bk, n as int, p) && p.len() - 1 <= guard ==>
                p.len() - 1 <= layer@[p.last()],
            !changed ==> forall|k: int| 0 <= k < es.len() && !bk[k] ==>
                layer@[(#[trigger] es[k]).1 as int] > layer@[es[k].0 as int],
        decreases n + 1 - guard,
    {
        changed = false;
        guard = guard + 1;
        let mut k: usize = 0;
        while k < e_len
            invariant
                layer.len() == n,
                1 <= guard <= n + 1,
                k <= e_len,
                e_len == es.len(),
                es == edges@,
                bk == back@,
                edges_in_range(es, n as int),
                acyclic_by(es, bk, n as int, fin),
                max_allowed == (if n >= 2 { n - 1 } else { 1 }),
                forall|v: int| 0 <= v < n ==> #[trigger] has_path_of(es, bk, n as int, v, layer@[v] as int),
                forall|p: Seq<int>| #[trigger] is_path(es, bk, n as int, p) && p.len() - 1 <= guard - 1 ==>
                    p.len() - 1 <= layer@[p.last()],
                forall|p: Seq<int>| #[trigger] is_path(es, bk, n as int, p) && 2 <= p.len() && p.len() - 1 <= guard
                    && (exists|j: int| 0 <= j < k && !bk[j] && (#[trigger] es[j]).0 == p[p.len() - 2] && es[j].1 == p.last())
                    ==> p.len() - 1 <= layer@[p.last()],
                !changed ==> forall|j: int| 0 <= j < k && !bk[j] ==>
                    layer@[(#[trigger] es[j]).1 as int] > layer@[es[j].0 as int],
            decreases e_len - k,
        {
            if !back[k] {
                let (s, t) = edges[k];
                let sl = layer[s];
                let tl = layer[t];
                let ghost l0 = layer@;
                proof {
                    assert(es[k as int] == (s, t));
                    assert(has_path_of(es, bk, n as int, s as int, l0[s as int] as int));
                    let ps = choose|p: Seq<int>| #[trigger] is_path(es, bk, n as int, p) && p.last() == s as int && p.len() - 1 == l0[s as int];
                    lemma_path_fin(es, bk, n as int, fin, ps);
                    assert(fin[t as int] < fin[s as int]);
                    assert(0 <= fin[t as int]);
                    assert(sl + 1 <= max_allowed);
                }
                if tl <= sl {
                    let new_tl = if sl + 1 < max_allowed { sl + 1 } else { max_allowed };
                    if new_tl > tl {
                        layer.set(t, new_tl);
                        changed = true;
                        proof {
                            assert(has_path_of(es, bk, n as int, s as int, l0[s as int] as int));
                            let ps = choose|p: Seq<int>| #[trigger] is_path(es, bk, n as int, p) && p.last() == s as int && p.len() - 1 == l0[s as int];
                            lemma_path_push(es, bk, n as int, ps, k as int);
                            let pt = ps.push(t as int);
                            assert(is_path(es, bk, n as int, pt) && pt.last() == t as int && pt.len() - 1 == layer@[t as int]);
                            assert forall|v: int| 0 <= v < n implies #[trigger] has_path_of(es, bk, n as int, v, layer@[v] as int) by {
                                if v != t as int {
                                    assert(layer@[v] == l0[v]);
                                    assert(has_path_of(es, bk, n as int, v, l0[v] as int));
                                }
                            }
                        }
                    }
                }
                proof {
                    assert(layer@[t as int] > layer@[s as int] || changed);
                    assert forall|v: int| 0 <= v < n implies layer@[v] >= l0[v] by {}
                    assert forall|p: Seq<int>| #[trigger] is_path(es, bk, n as int, p) && 2 <= p.len() && p.len() - 1 <= guard
                        && (exists|j: int| 0 <= j < k + 1 && !bk[j] && (#[trigger] es[j]).0 == p[p.len() - 2] && es[j].1 == p.last())
                        implies p.len() - 1 <= layer@[p.last()] by {
                        let j = choose|j: int| 0 <= j < k + 1 && !bk[j] && (#[trigger] es[j]).0 == p[p.len() - 2] && es[j].1 == p.last();
                        if j < k {
                            assert(p.len() - 1 <= l0[p.last()]);
                        } else {
                            lemma_path_prefix(es, bk, n as int, p);
                            let q = p.drop_last();
                            assert(q.last() == s as int);
                            assert(q.len() - 1 <= l0[s as int]);
                        }
                    }
                    assert forall|p: Seq<int>| #[trigger] is_path(es, bk, n as int, p) && p.len() - 1 <= guard - 1 implies
                        p.len() - 1 <= layer@[p.last()] by {
                        assert(p.len() - 1 <= l0[p.last()]);
                    }
                }
            } else {
                proof {
                    assert forall|p: Seq<int>| #[trigger] is_path(es, bk, n as int, p) && 2 <= p.len() && p.len() - 1 <= guard
                        && (exists|j: int| 0 <= j < k + 1 && !bk[j] && (#[trigger] es[j]).0 == p[p.len() - 2] && es[j].1 == p.last())
                        implies p.len() - 1 <= layer@[p.last()] by {
                        let j = choose|j: int| 0 <= j < k + 1 && !bk[j] && (#[trigger] es[j]).0 == p[p.len() - 2] && es[j].1 == p.last();
                        assert(j != k);
                    }
                }
            }
            k = k + 1;
        }
        proof {
            assert forall|p: Seq<int>| #[trigger] is_path(es, bk, n as int, p) && p.len() - 1 <= guard implies
                p.len() - 1 <= layer@[p.last()] by {
                if p.len() >= 2 {
                    lemma_path_prefix(es, bk, n as int, p);
                    let j = choose|j: int| 0 <= j < es.len() && !bk[j] && (#[trigger] es[j]).0 == p[p.len() - 2] && es[j].1 == p.last();
                    assert(0 <= j < e_len);
                }
            }
        }
    }
    proof {
        assert forall|v: int| 0 <= v < n implies is_longest(es, bk, n as int, v, #[trigger] layer@[v] as int) by {
            assert forall|p: Seq<int>| #[trigger] is_path(es, bk, n as int, p) && p.last() == v implies p.len() - 1 <= layer@[v] by {
                if changed {
                    lemma_path_fin(es, bk, n as int, fin, p);
                    assert(0 <= fin[p.last()]);
                } else {
                    lemma_fixpoint_bound(es, bk, n as int, layer@, p);
                }
            }
        }
        assert forall|v: int| 0 <= v < n implies #[trigger] layer@[v] < n by {
            assert(has_path_of(es, bk, n as int, v, layer@[v] as int));
            let p = choose|p: Seq<int>| #[trigger] is_path(es, bk, n as int, p) && p.last() == v && p.len() - 1 == layer@[v];
            lemma_path_fin(es, bk, n as int, fin, p);
            assert(0 <= fin[v]);
        }
    }
    layer
}

// ---------------------------------------------------------------------------
// Layering of a unified graph
// ---------------------------------------------------------------------------

/// The node ids of a graph, in order.
pub open spec fn ug_ids(ug: Unigraph) -> Seq<Seq<char>> {
    ug.nodes@.map_values(|n: UGNode| n.id@)
}

/// The edges of a graph, as pairs of ids.
pub open spec fn ug_edges(ug: Unigraph) -> Seq<(Seq<char>, Seq<char>)> {
    ug.edges@.map_values(|e: UGEdge| (e.source@, e.target@))
}

/// Node ids are distinct and every edge joins two nodes of the graph.
pub open spec fn ug_wf(ug: Unigraph) -> bool {
    &&& ug_ids(ug).no_duplicates()
    &&& forall|k: int| 0 <= k < ug.edges@.len() ==>
        ug_ids(ug).contains(#[trigger] ug_edges(ug)[k].0) && ug_ids(ug).contains(ug_edges(ug)[k].1)
}

/// The edges of a graph as pairs of node indices.
pub open spec fn ug_index_edges(ug: Unigraph) -> Seq<(usize, usize)> {
    ug_edges(ug).map_values(|e: (Seq<char>, Seq<char>)|
        (last_pos(ug_ids(ug), e.0) as usize, last_pos(ug_ids(ug), e.1) as usize))
}

/// What the depth-first search guarantees of its back-edge flags: the
/// other edges form an acyclic graph, every back edge closes a cycle of
/// other edges, and parallel edges are flagged alike.
pub open spec fn valid_back_edges(es: Seq<(usize, usize)>, back: Seq<bool>, n: int) -> bool {
    &&& back.len() == es.len()
    &&& exists|fin: Seq<int>| acyclic_by(es, back, n, fin)
    &&& forall|i: int, j: int| 0 <= i < es.len() && 0 <= j < es.len() && es[i] == es[j] ==> back[i] == back[j]
    &&& forall|k: int| 0 <= k < es.len() && #[trigger] back[k] ==> has_path_of_from(es, back, n, es[k].1 as int, es[k].0 as int)
}

/// Layer of every node.
pub open spec fn longest_layers(es: Seq<(usize, usize)>, back: Seq<bool>, n: int) -> Seq<int> {
    Seq::new(n as nat, |v: int| longest_layer(es, back, n, v))
}

/// The highest layer (0 when there is none).
pub open spec fn max_layer(lay: Seq<int>) -> int
    decreases lay.len(),
{
    if lay.len() == 0 {
        0
    } else {
        let m = max_layer(lay.drop_last());
        if lay.last() > m { lay.last() } else { m }
    }
}

/// The ids, in order, whose layer is `l`.
pub open spec fn ids_on(ids: Seq<Seq<char>>, lay: Seq<int>, l: int) -> Seq<Seq<char>>
    decreases ids.len(),
{
    if ids.len() == 0 {
        Seq::empty()
    } else {
        let r = ids_on(ids.drop_last(), lay, l);
        if lay[ids.len() - 1] == l { r.push(ids.last()) } else { r }
    }
}

/// Layers `0..=max`, each holding its ids in node order (empty layers kept).
pub open spec fn bucket_layers(ids: Seq<Seq<char>>, lay: Seq<int>) -> Seq<Seq<Seq<char>>> {
    Seq::new((max_layer(lay) + 1) as nat, |l: int| ids_on(ids, lay, l))
}

/// The edges, in order, that go from one layer to the next.
pub open spec fn adjacent_pairs(
    named: Seq<(Seq<char>, Seq<char>)>,
    es: Seq<(usize, usize)>,
    lay: Seq<int>,
) -> Seq<(Seq<char>, Seq<char>)>
    decreases named.len(),
{
    if named.len() == 0 {
        Seq::empty()
    } else {
        let k = named.len() - 1;
        let r = adjacent_pairs(named.drop_last(), es, lay);
        if lay[es[k].0 as int] + 1 == lay[es[k].1 as int] { r.push(named[k]) } else { r }
    }
}

/// Layers in main-axis order: reversed for the `BT` and `RL` directions.
pub open spec fn oriented<T>(ls: Seq<T>, dir: Direction) -> Seq<T> {
    match dir {
        Direction::BT | Direction::RL => ls.reverse(),
        _ => ls,
    }
}

/// The layers after crossing reduction and orientation, for a given choice
/// of back edges.
pub open spec fn spec_sugiyama_layers(ug: Unigraph, back: Seq<bool>) -> Seq<Seq<Seq<char>>> {
    let n = ug.nodes@.len() as int;
    let es = ug_index_edges(ug);
    let lay = longest_layers(es, back, n);
    oriented(
        spec_minimize_crossings(bucket_layers(ug_ids(ug), lay), adjacent_pairs(ug_edges(ug), es, lay)),
        ug.direction,
    )
}

/// Every edge end is the id of some node; ids may repeat.
pub open spec fn ug_ends_known(ug: Unigraph) -> bool {
    forall|k: int| 0 <= k < ug.edges@.len() ==>
        ug_ids(ug).contains(#[trigger] ug_edges(ug)[k].0) && ug_ids(ug).contains(ug_edges(ug)[k].1)
}

/// The layer of each node, read off the layers of the names.
pub open spec fn layers_of_ids(l: Seq<usize>, lay: Seq<int>) -> Seq<int> {
    l.map_values(|v: usize| lay[v as int])
}

/// The layers of [`sugiyama_layers`] for a graph whose ids may repeat: the
/// search and the layering run over the distinct ids, numbered in order of
/// first appearance, and every node stands on the layer of its id.
pub open spec fn spec_sugiyama_named(ug: Unigraph) -> Seq<Seq<Seq<char>>> {
    oriented(named_layering(ug), ug.direction)
}

/// [`spec_sugiyama_named`] before the layers are put in main-axis order.
pub open spec fn named_layering(ug: Unigraph) -> Seq<Seq<Seq<char>>> {
    let m = graph_names(ug).len() as int;
    let es = name_edges(ug);
    let lay = longest_layers(es, spec_back_flags(es, m), m);
    spec_minimize_crossings(
        bucket_layers(ug_ids(ug), layers_of_ids(name_ids(ug), lay)),
        adjacent_pairs(ug_edges(ug), es, lay),
    )
}

/// One pass of the relaxation over the first `k` edges: an edge that is no
/// back edge and whose target is not below its source lifts the target to
/// one more than the source, but not above `cap`; the flag tells whether a
/// target was lifted.
pub open spec fn relax_upto(es: Seq<(usize, usize)>, back: Seq<bool>, lay: Seq<int>, cap: int, k: int) -> (Seq<int>, bool)
    decreases k,
{
    if k <= 0 {
        (lay, false)
    } else {
        let r = relax_upto(es, back, lay, cap, k - 1);
        let u = es[k - 1].0 as int;
        let v = es[k - 1].1 as int;
        let l = r.0;
        let nt = if l[u] + 1 < cap { l[u] + 1 } else { cap };
        if !back[k - 1] && l[v] <= l[u] && nt > l[v] { (l.update(v, nt), true) } else { r }
    }
}

/// Passes of the relaxation until one lifts nothing, at most `g` of them.
pub open spec fn relax_rounds(es: Seq<(usize, usize)>, back: Seq<bool>, lay: Seq<int>, cap: int, g: nat) -> Seq<int>
    decreases g,
{
    if g == 0 {
        lay
    } else {
        let r = relax_upto(es, back, lay, cap, es.len() as int);
        if r.1 { relax_rounds(es, back, r.0, cap, (g - 1) as nat) } else { r.0 }
    }
}

/// The highest layer the relaxation gives for a graph of `n` nodes: one
/// below the node count, at least 1.
pub open spec fn layer_cap(n: int) -> int {
    if n >= 2 { n - 1 } else { 1 }
}

/// The edges, in order, between two ids (names numbered below `s`) whose
/// layers follow each other.
pub open spec fn adjacent_known(
    named: Seq<(Seq<char>, Seq<char>)>,
    es: Seq<(usize, usize)>,
    lay: Seq<int>,
    s: int,
) -> Seq<(Seq<char>, Seq<char>)>
    decreases named.len(),
{
    if named.len() == 0 {
        Seq::empty()
    } else {
        let k = named.len() - 1;
        let r = adjacent_known(named.drop_last(), es, lay, s);
        if es[k].0 < s && es[k].1 < s && lay[es[k].0 as int] + 1 == lay[es[k].1 as int] { r.push(named[k]) } else { r }
    }
}

/// The layers of a graph with an edge end that is no node, before they are
/// put in main-axis order. The search starts only from the ids, but runs
/// over every name; every name starts on layer 0, and at most `n + 1`
/// passes over the edges lift targets, never above [`layer_cap`] of the
/// node count `n`. The layers run up to the highest layer of any name, each
/// listing its ids in node order, and only edges between two ids drive the
/// crossing reduction.
pub open spec fn unknown_end_layering(ug: Unigraph) -> Seq<Seq<Seq<char>>> {
    let m = graph_names(ug).len() as int;
    let s = id_name_count(ug);
    let es = name_edges(ug);
    let n = ug.nodes@.len() as int;
    let lay = relax_rounds(es, spec_back_flags_from(es, m, s), Seq::new(m as nat, |i: int| 0int), layer_cap(n), (n + 1) as nat);
    spec_minimize_crossings(
        Seq::new((max_layer(lay) + 1) as nat, |k: int| ids_on(ug_ids(ug), layers_of_ids(name_ids(ug), lay), k)),
        adjacent_known(ug_edges(ug), es, lay, s),
    )
}

/// The layers of [`sugiyama_layers`] for any graph.
pub open spec fn spec_sugiyama_any(ug: Unigraph) -> Seq<Seq<Seq<char>>> {
    if ug_ends_known(ug) {
        spec_sugiyama_named(ug)
    } else {
        oriented(unknown_end_layering(ug), ug.direction)
    }
}

/// With distinct ids, [`spec_sugiyama_named`] is [`spec_sugiyama_layers`]
/// over the back edges of the search over the node indices.
proof fn lemma_named_wf(ug: Unigraph)
    requires
        ug_wf(ug),
        ug.nodes@.len() <= usize::MAX,
    ensures
        spec_sugiyama_named(ug) == spec_sugiyama_layers(ug, spec_back_flags(ug_index_edges(ug), ug.nodes@.len() as int)),
{
    lemma_names_of_wf_graph(ug);
    let n = ug.nodes@.len() as int;
    let es = ug_index_edges(ug);
    let lay = longest_layers(es, spec_back_flags(es, n), n);
    assert(ug_ids(ug).len() == n);
    assert(layers_of_ids(identity_ids(n), lay) =~= lay);
}

pub(crate) proof fn lemma_longest_unique(es: Seq<(usize, usize)>, back: Seq<bool>, n: int, v: int, len: int)
    requires
        is_longest(es, back, n, v, len),
    ensures
        longest_layer(es, back, n, v) == len,
{
    let other = longest_layer(es, back, n, v);
    assert(is_longest(es, back, n, v, other));
    let p1 = choose|p: Seq<int>| #[trigger] is_path(es, back, n, p) && p.last() == v && p.len() - 1 == len;
    let p2 = choose|p: Seq<int>| #[trigger] is_path(es, back, n, p) && p.last() == v && p.len() - 1 == other;
    assert(p1.len() - 1 <= other);
    assert(p2.len() - 1 <= len);
}

proof fn lemma_last_pos_facts(s: Seq<Seq<char>>, id: Seq<char>)
    ensures
        -1 <= last_pos(s, id) < s.len(),
        last_pos(s, id) >= 0 ==> s[last_pos(s, id)] == id,
        last_pos(s, id) < 0 ==> !s.contains(id),
    decreases s.len(),
{
    if s.len() > 0 {
        lemma_last_pos_facts(s.drop_last(), id);
        if last_pos(s, id) < 0 {
            assert forall|i: int| 0 <= i < s.len() implies s[i] != id by {
                if i < s.len() - 1 {
                    assert(s.drop_last()[i] == s[i]);
                }
            }
        }
    }
}

/// Groups the node ids by layer: layer `l` holds, in node order, the ids of
/// the nodes with `layer[v] == l`; layers `0..=max` are all present.
pub(crate) fn bucket_ids(nodes: &Vec<UGNode>, layer: &Vec<usize>) -> (r: Vec<Vec<NodeId>>)
    requires
        layer.len() == nodes.len(),
        forall|v: int| 0 <= v < layer.len() ==> #[trigger] layer@[v] < usize::MAX,
    ensures
        layers_view(r@) == bucket_layers(
            nodes@.map_values(|n: UGNode| n.id@),
            layer@.map_values(|x: usize| x as int),
        ),
{
    let ghost ids = nodes@.map_values(|n: UGNode| n.id@);
    let ghost lay = layer@.map_values(|x: usize| x as int);
    let n = nodes.len();
    let mut maxl: usize = 0;
    let mut i: usize = 0;
    assert(lay.take(0) =~= Seq::<int>::empty());
    while i < n
        invariant
            i <= n,
            n == layer.len(),
            lay == layer@.map_values(|x: usize| x as int),
            maxl == max_layer(lay.take(i as int)),
        decreases n - i,
    {
        assert(lay.take(i + 1).drop_last() =~= lay.take(i as int));
        if layer[i] > maxl {
            maxl = layer[i];
        }
        i = i + 1;
    }
    assert(lay.take(n as int) =~= lay);
    proof {
        lemma_max_layer_bound(lay, usize::MAX as int);
    }
    let mut r: Vec<Vec<NodeId>> = Vec::new();
    let mut l: usize = 0;
    while l <= maxl
        invariant
            l <= maxl + 1,
            maxl == max_layer(lay),
            maxl < usize::MAX,
            n == layer.len(),
            n == nodes.len(),
            lay == layer@.map_values(|x: usize| x as int),
            ids == nodes@.map_values(|n: UGNode| n.id@),
            r@.len() == l,
            forall|q: int| 0 <= q < l ==> #[trigger] layer_view(r@[q]@) == ids_on(ids, lay, q),
        decreases maxl + 1 - l,
    {
        let mut cur: Vec<NodeId> = Vec::new();
        let mut j: usize = 0;
        assert(ids.take(0) =~= Seq::<Seq<char>>::empty());
        assert(layer_view(cur@) =~= ids_on(ids.take(0), lay, l as int));
        while j < n
            invariant
                j <= n,
                n == layer.len(),
                n == nodes.len(),
                lay == layer@.map_values(|x: usize| x as int),
                ids == nodes@.map_values(|n: UGNode| n.id@),
                layer_view(cur@) == ids_on(ids.take(j as int), lay, l as int),
            decreases n - j,
        {
            let ghost t = ids.take(j + 1);
            assert(t.drop_last() =~= ids.take(j as int));
            assert(t.last() == nodes@[j as int].id@);
            if layer[j] == l {
                cur.push(nodes[j].id.clone());
                assert(layer_view(cur@) =~= ids_on(ids.take(j as int), lay, l as int).push(t.last()));
            }
            j = j + 1;
        }
        assert(ids.take(n as int) =~= ids);
        r.push(cur);
        l = l + 1;
    }
    assert(layers_view(r@) =~= bucket_layers(ids, lay));
    r
}

/// The graph edges that go from one layer to the next, in edge order.
fn adjacent_layer_edges(ug: &Unigraph, es: &Vec<(usize, usize)>, layer: &Vec<usize>) -> (r: Vec<LayerEdge>)
    requires
        es@.len() == ug.edges@.len(),
        edges_in_range(es@, layer.len() as int),
    ensures
        edges_view(r@) == adjacent_pairs(ug_edges(*ug), es@, layer@.map_values(|x: usize| x as int)),
        r@.len() <= ug.edges@.len(),
{
    let ghost named = ug_edges(*ug);
    let ghost lay = layer@.map_values(|x: usize| x as int);
    let mut r: Vec<LayerEdge> = Vec::new();
    let mut k: usize = 0;
    assert(named.take(0) =~= Seq::<(Seq<char>, Seq<char>)>::empty());
    assert(edges_view(r@) =~= adjacent_pairs(named.take(0), es@, lay));
    while k < es.len()
        invariant
            k <= es@.len(),
            es@.len() == ug.edges@.len(),
            edges_in_range(es@, layer.len() as int),
            named == ug_edges(*ug),
            lay == layer@.map_values(|x: usize| x as int),
            edges_view(r@) == adjacent_pairs(named.take(k as int), es@, lay),
            r@.len() <= k,
        decreases es@.len() - k,
    {
        let ghost t = named.take(k + 1);
        assert(t.drop_last() =~= named.take(k as int));
        assert(t[k as int] == (ug.edges@[k as int].source@, ug.edges@[k as int].target@));
        let (s, tt) = es[k];
        assert(es@[k as int] == (s, tt));
        if layer[s] < layer[tt] && layer[s] + 1 == layer[tt] {
            let e = LayerEdge { source: ug.edges[k].source.clone(), target: ug.edges[k].target.clone() };
            r.push(e);
            assert(edges_view(r@) =~= adjacent_pairs(named.take(k as int), es@, lay).push(t[k as int]));
        }
        k = k + 1;
    }
    assert(named.take(es@.len() as int) =~= named);
    r
}

/// The layer of every node, read off the layers of the names.
fn name_layers(l: &Vec<usize>, layer: &Vec<usize>) -> (r: Vec<usize>)
    requires
        forall|i: int| 0 <= i < l@.len() ==> #[trigger] l@[i] < layer@.len(),
    ensures
        r@.len() == l@.len(),
        r@.map_values(|x: usize| x as int) == layers_of_ids(l@, layer@.map_values(|x: usize| x as int)),
        forall|i: int| 0 <= i < r@.len() ==> #[trigger] r@[i] == layer@[l@[i] as int],
{
    let mut r: Vec<usize> = Vec::new();
    let mut i: usize = 0;
    while i < l.len()
        invariant
            i <= l@.len(),
            forall|j: int| 0 <= j < l@.len() ==> #[trigger] l@[j] < layer@.len(),
            r@.len() == i,
            forall|j: int| 0 <= j < i ==> #[trigger] r@[j] == layer@[l@[j] as int],
        decreases l@.len() - i,
    {
        r.push(layer[l[i]]);
        i = i + 1;
    }
    assert(r@.map_values(|x: usize| x as int) =~= layers_of_ids(l@, layer@.map_values(|x: usize| x as int)));
    r
}

/// The relaxation from every one of the `m` names on layer 0 (see
/// [`relax_rounds`]).
fn relax_layers(m: usize, edges: &Vec<(usize, usize)>, back: &Vec<bool>, cap: usize, g: usize) -> (layer: Vec<usize>)
    requires
        edges_in_range(edges@, m as int),
        back@.len() == edges@.len(),
        cap < usize::MAX,
    ensures
        layer@.len() == m,
        layer@.map_values(|x: usize| x as int)
            == relax_rounds(edges@, back@, Seq::new(m as nat, |i: int| 0int), cap as int, g as nat),
        forall|v: int| 0 <= v < m ==> #[trigger] layer@[v] <= cap,
{
    let ghost es = edges@;
    let mut layer: Vec<usize> = Vec::new();
    let mut i: usize = 0;
    while i < m
        invariant
            i <= m,
            layer@.len() == i,
            forall|v: int| 0 <= v < i ==> #[trigger] layer@[v] == 0,
        decreases m - i,
    {
        layer.push(0);
        i = i + 1;
    }
    assert(layer@.map_values(|x: usize| x as int) =~= Seq::new(m as nat, |i: int| 0int));
    let ghost target = relax_rounds(es, back@, Seq::new(m as nat, |i: int| 0int), cap as int, g as nat);
    let mut left: usize = g;
    let mut going = true;
    while going && left > 0
        invariant
            layer@.len() == m,
            es == edges@,
            edges_in_range(es, m as int),
            back@.len() == es.len(),
            cap < usize::MAX,
            forall|v: int| 0 <= v < m ==> #[trigger] layer@[v] <= cap,
            target == if going {
                relax_rounds(es, back@, layer@.map_values(|x: usize| x as int), cap as int, left as nat)
            } else {
                layer@.map_values(|x: usize| x as int)
            },
        decreases left,
    {
        let ghost l0 = layer@.map_values(|x: usize| x as int);
        let mut changed = false;
        let mut k: usize = 0;
        while k < edges.len()
            invariant
                k <= es.len(),
                layer@.len() == m,
                es == edges@,
                edges_in_range(es, m as int),
                back@.len() == es.len(),
                cap < usize::MAX,
                forall|v: int| 0 <= v < m ==> #[trigger] layer@[v] <= cap,
                (layer@.map_values(|x: usize| x as int), changed) == relax_upto(es, back@, l0, cap as int, k as int),
            decreases es.len() - k,
        {
            let (u, v) = edges[k];
            let ghost lk = layer@.map_values(|x: usize| x as int);
            let sl = layer[u];
            let tl = layer[v];
            let nt = if sl + 1 < cap { sl + 1 } else { cap };
            if !back[k] && tl <= sl && nt > tl {
                layer.set(v, nt);
                changed = true;
                assert(layer@.map_values(|x: usize| x as int) =~= lk.update(v as int, nt as int));
            }
            k = k + 1;
        }
        left = left - 1;
        if !changed {
            going = false;
        }
    }
    layer
}

/// The highest layer (0 when there is none).
fn highest_layer(layer: &Vec<usize>) -> (h: usize)
    ensures
        h as int == max_layer(layer@.map_values(|x: usize| x as int)),
{
    let ghost lay = layer@.map_values(|x: usize| x as int);
    let mut h: usize = 0;
    let mut i: usize = 0;
    assert(lay.take(0) =~= Seq::<int>::empty());
    while i < layer.len()
        invariant
            i <= layer@.len(),
            lay == layer@.map_values(|x: usize| x as int),
            h as int == max_layer(lay.take(i as int)),
        decreases layer@.len() - i,
    {
        assert(lay.take(i + 1).drop_last() =~= lay.take(i as int));
        if layer[i] > h {
            h = layer[i];
        }
        i = i + 1;
    }
    assert(lay.take(layer@.len() as int) =~= lay);
    h
}

/// The graph edges between two ids (names numbered below `s`) that go from
/// one layer to the next, in edge order.
fn adjacent_known_edges(ug: &Unigraph, es: &Vec<(usize, usize)>, layer: &Vec<usize>, s: usize) -> (r: Vec<LayerEdge>)
    requires
        es@.len() == ug.edges@.len(),
        edges_in_range(es@, layer.len() as int),
    ensures
        edges_view(r@) == adjacent_known(ug_edges(*ug), es@, layer@.map_values(|x: usize| x as int), s as int),
        r@.len() <= ug.edges@.len(),
{
    let ghost named = ug_edges(*ug);
    let ghost lay = layer@.map_values(|x: usize| x as int);
    let mut r: Vec<LayerEdge> = Vec::new();
    let mut k: usize = 0;
    assert(named.take(0) =~= Seq::<(Seq<char>, Seq<char>)>::empty());
    assert(edges_view(r@) =~= adjacent_known(named.take(0), es@, lay, s as int));
    while k < es.len()
        invariant
            k <= es@.len(),
            es@.len() == ug.edges@.len(),
            edges_in_range(es@, layer.len() as int),
            named == ug_edges(*ug),
            lay == layer@.map_values(|x: usize| x as int),
            edges_view(r@) == adjacent_known(named.take(k as int), es@, lay, s as int),
            r@.len() <= k,
        decreases es@.len() - k,
    {
        let ghost t = named.take(k + 1);
        assert(t.drop_last() =~= named.take(k as int));
        assert(t[k as int] == (ug.edges@[k as int].source@, ug.edges@[k as int].target@));
        let (a, b) = es[k];
        assert(es@[k as int] == (a, b));
        if a < s && b < s && layer[a] < layer[b] && layer[a] + 1 == layer[b] {
            let e = LayerEdge { source: ug.edges[k].source.clone(), target: ug.edges[k].target.clone() };
            r.push(e);
            assert(edges_view(r@) =~= adjacent_known(named.take(k as int), es@, lay, s as int).push(t[k as int]));
        }
        k = k + 1;
    }
    assert(named.take(es@.len() as int) =~= named);
    r
}

/// [`named_layering`], for a graph whose edge ends are all ids.
fn layering_known(ug: &Unigraph, nid: &Vec<usize>, ne: &Vec<(usize, usize)>, m: usize) -> (r: Vec<Vec<NodeId>>)
    requires
        m as int == graph_names(*ug).len(),
        nid@ == name_ids(*ug),
        ne@ == name_edges(*ug),
        forall|i: int| 0 <= i < nid@.len() ==> #[trigger] nid@[i] < m,
        edges_in_range(ne@, m as int),
        m < usize::MAX,
        ug.edges@.len() <= usize::MAX / 2,
    ensures
        layers_view(r@) == named_layering(*ug),
        flat_multiset(layers_view(r@)) == ug_ids(*ug).to_multiset(),
        ug_wf(*ug) ==> valid_back_edges(
            ug_index_edges(*ug),
            spec_back_flags(ug_index_edges(*ug), ug.nodes@.len() as int),
            ug.nodes@.len() as int,
        ),
{
    let ghost mm = m as int;
    let ghost es = ne@;
    let back = detect_back_edges(m, ne);
    let ghost fin = choose|fin: Seq<int>| {
        &&& is_finish_order(fin, mm)
        &&& forall|k: int| 0 <= k < es.len() && !(#[trigger] back@[k]) ==> fin[es[k].1 as int] < fin[es[k].0 as int]
    };
    assert(acyclic_by(es, back@, mm, fin));
    let layer = longest_path_layers(m, ne, &back, Ghost(fin));
    let ghost lay = layer@.map_values(|x: usize| x as int);
    proof {
        assert forall|v: int| 0 <= v < m implies longest_layer(es, back@, mm, v) == layer@[v] as int by {
            lemma_longest_unique(es, back@, mm, v, layer@[v] as int);
        }
        assert(lay =~= longest_layers(es, back@, mm));
    }
    let idl = name_layers(nid, &layer);
    let ghost il = idl@.map_values(|x: usize| x as int);
    proof {
        assert forall|i: int| 0 <= i < idl@.len() implies #[trigger] idl@[i] < usize::MAX by {
            assert(idl@[i] == layer@[nid@[i] as int]);
        }
        assert(ug.nodes@.map_values(|n: UGNode| n.id@) == ug_ids(*ug));
    }
    let layers = bucket_ids(&ug.nodes, &idl);
    let layer_edges = adjacent_layer_edges(ug, ne, &layer);
    let optimized = minimize_crossings(&layers, &layer_edges);
    let ghost opt = layers_view(optimized@);
    proof {
        assert forall|v: int| 0 <= v < il.len() implies 0 <= #[trigger] il[v] by {
            assert(il[v] == idl@[v] as int);
        }
        lemma_layers_partition_nodes(ug_ids(*ug), il);
        lemma_flat_congruent(opt, layers_view(layers@));
        assert(layers_view(layers@) == bucket_layers(ug_ids(*ug), il));
        assert(il == layers_of_ids(name_ids(*ug), lay));
        if ug_wf(*ug) {
            lemma_names_of_wf_graph(*ug);
            assert(valid_back_edges(es, back@, mm));
        }
    }
    optimized
}

/// [`unknown_end_layering`], for a graph with an edge end that is no id.
fn layering_unknown(ug: &Unigraph, nid: &Vec<usize>, ne: &Vec<(usize, usize)>, m: usize, s: usize) -> (r: Vec<Vec<NodeId>>)
    requires
        m as int == graph_names(*ug).len(),
        s as int == id_name_count(*ug),
        s <= m,
        nid@ == name_ids(*ug),
        ne@ == name_edges(*ug),
        forall|i: int| 0 <= i < nid@.len() ==> #[trigger] nid@[i] < m,
        edges_in_range(ne@, m as int),
        ug.nodes@.len() < usize::MAX,
        ug.edges@.len() <= usize::MAX / 2,
    ensures
        layers_view(r@) == unknown_end_layering(*ug),
        flat_multiset(layers_view(r@)) == ug_ids(*ug).to_multiset(),
{
    let ghost es = ne@;
    let back = detect_back_edges_from(m, s, ne);
    let n = ug.nodes.len();
    let cap: usize = if n >= 2 { n - 1 } else { 1 };
    let layer = relax_layers(m, ne, &back, cap, n + 1);
    let ghost lay = layer@.map_values(|x: usize| x as int);
    assert(lay == relax_rounds(es, spec_back_flags_from(es, m as int, s as int), Seq::new(m as nat, |i: int| 0int), layer_cap(n as int), (n + 1) as nat));
    let maxl = highest_layer(&layer);
    let idl = name_layers(nid, &layer);
    let ghost il = idl@.map_values(|x: usize| x as int);
    let ghost ids = ug_ids(*ug);
    proof {
        assert forall|i: int| 0 <= i < idl@.len() implies #[trigger] idl@[i] < usize::MAX by {
            assert(idl@[i] == layer@[nid@[i] as int]);
        }
        assert(ug.nodes@.map_values(|n: UGNode| n.id@) == ids);
        assert forall|v: int| 0 <= v < lay.len() implies 0 <= #[trigger] lay[v] < cap + 1 by {
            assert(lay[v] == layer@[v] as int);
        }
        lemma_max_layer_bound(lay, cap + 1);
        assert forall|v: int| 0 <= v < il.len() implies 0 <= #[trigger] il[v] <= maxl by {
            assert(il[v] == idl@[v] as int);
            assert(idl@[v] == layer@[nid@[v] as int]);
            lemma_max_layer_ge(lay, nid@[v] as int);
        }
        assert forall|v: int| 0 <= v < il.len() implies 0 <= #[trigger] il[v] < maxl + 1 by {}
        lemma_max_layer_bound(il, maxl + 1);
        assert(il == layers_of_ids(name_ids(*ug), lay));
    }
    let mut layers = bucket_ids(&ug.nodes, &idl);
    let ghost full = Seq::new((maxl + 1) as nat, |k: int| ids_on(ids, il, k));
    proof {
        assert(layers_view(layers@).len() == layers@.len());
        assert(layers@.len() == max_layer(il) + 1);
        assert forall|k: int| 0 <= k < layers@.len() implies #[trigger] layers_view(layers@)[k] == full[k] by {
            assert(layers_view(layers@)[k] == bucket_layers(ids, il)[k]);
        }
        assert forall|v: int| 0 <= v < il.len() implies #[trigger] il[v] <= max_layer(il) by {
            lemma_max_layer_ge(il, v);
        }
    }
    while layers.len() <= maxl
        invariant
            max_layer(il) <= maxl,
            maxl < usize::MAX,
            layers@.len() >= max_layer(il) + 1,
            layers@.len() <= maxl + 1,
            full.len() == maxl + 1,
            forall|k: int| 0 <= k < layers@.len() ==> #[trigger] layers_view(layers@)[k] == full[k],
            forall|k: int| 0 <= k < full.len() ==> #[trigger] full[k] == ids_on(ids, il, k),
            forall|v: int| 0 <= v < il.len() ==> #[trigger] il[v] <= max_layer(il),
            il.len() == ids.len(),
        decreases maxl + 1 - layers@.len(),
    {
        let k = layers.len();
        proof {
            assert forall|v: int| 0 <= v < il.len() implies #[trigger] il[v] < k by {}
            lemma_ids_on_above(ids, il, k as int);
        }
        let ghost before = layers@;
        layers.push(Vec::new());
        proof {
            assert(layer_view(layers@[k as int]@) =~= Seq::<Seq<char>>::empty());
            assert forall|j: int| 0 <= j < layers@.len() implies #[trigger] layers_view(layers@)[j] == full[j] by {
                if j < k {
                    assert(layers@[j] == before[j]);
                    assert(layers_view(before)[j] == full[j]);
                } else {
                    assert(full[j] == ids_on(ids, il, j));
                }
            }
        }
    }
    assert(layers_view(layers@) =~= full);
    let layer_edges = adjacent_known_edges(ug, ne, &layer, s);
    let optimized = minimize_crossings(&layers, &layer_edges);
    proof {
        assert forall|v: int| 0 <= v < il.len() implies 0 <= #[trigger] il[v] < maxl + 1 by {}
        lemma_layers_flat(ids, il, maxl + 1);
        lemma_flat_congruent(layers_view(optimized@), layers_view(layers@));
    }
    optimized
}

/// Sugiyama layering followed by crossing reduction.
///
/// Nodes are layered by the longest path of non-back edges ending in them
/// (back edges found by a depth-first search from each node in order); the
/// edges between consecutive layers drive [`minimize_crossings`]; for the
/// `BT` and `RL` directions the layers come out in reverse order.
///
/// Ids may repeat: the search and the layering then run over the distinct
/// ids, and each node stands on the layer of its id. Where an edge end is
/// no id, the layering is the relaxation of [`unknown_end_layering`]: the
/// edges then need not leave the graph acyclic, and a layer is capped.
pub fn sugiyama_layers(ug: &Unigraph) -> (r: Vec<Vec<NodeId>>)
    requires
        ug.nodes@.len() + 2 * ug.edges@.len() < usize::MAX,
        ug.edges@.len() <= usize::MAX / 2,
    ensures
        layers_view(r@) == spec_sugiyama_any(*ug),
        ug_ends_known(*ug) ==> layers_view(r@) == spec_sugiyama_named(*ug),
        flat_multiset(layers_view(r@)) == ug_ids(*ug).to_multiset(),
        ug.nodes@.len() == 0 && ug.edges@.len() == 0 ==> layers_view(r@) == seq![Seq::<Seq<char>>::empty()],
        ug_wf(*ug) ==> layers_view(r@) == spec_sugiyama_layers(
            *ug,
            spec_back_flags(ug_index_edges(*ug), ug.nodes@.len() as int),
        ),
        ug_wf(*ug) ==> valid_back_edges(
            ug_index_edges(*ug),
            spec_back_flags(ug_index_edges(*ug), ug.nodes@.len() as int),
            ug.nodes@.len() as int,
        ),
        ug_wf(*ug) ==> kept_edges_go_down(
            oriented(layers_view(r@), ug.direction),
            *ug,
            spec_back_flags(ug_index_edges(*ug), ug.nodes@.len() as int),
        ),
        ug_wf(*ug) ==> fed_from_before(
            oriented(layers_view(r@), ug.direction),
            *ug,
            spec_back_flags(ug_index_edges(*ug), ug.nodes@.len() as int),
        ),
{
    proof {
        lemma_graph_names(*ug);
        lemma_id_names(*ug);
        if ug.nodes@.len() == 0 && ug.edges@.len() == 0 {
            assert(ug_ids(*ug).len() == 0);
            assert(ug_wf(*ug));
        }
    }
    let (names, nid, ne, id_count) = number_names(ug);
    let m = names.len();
    proof {
        assert(layer_view(names@).len() == names@.len());
        assert(edges_in_range(ne@, m as int));
    }
    let known = m == id_count;
    proof {
        assert(graph_names(*ug).len() == m);
        assert(id_name_count(*ug) == id_count);
        assert(known == ug_ends_known(*ug));
    }
    let ghost unor = if ug_ends_known(*ug) { named_layering(*ug) } else { unknown_end_layering(*ug) };
    let mut optimized = if known {
        layering_known(ug, &nid, &ne, m)
    } else {
        layering_unknown(ug, &nid, &ne, m, id_count)
    };
    let ghost opt = layers_view(optimized@);
    assert(opt == unor);
    proof {
        lemma_flat_reverse(opt);
        if ug_wf(*ug) {
            lemma_named_wf(*ug);
            lemma_sugiyama_layering(*ug, spec_back_flags(ug_index_edges(*ug), ug.nodes@.len() as int));
        }
    }
    match ug.direction {
        Direction::BT | Direction::RL => {
            let mut rev: Vec<Vec<NodeId>> = Vec::new();
            let ghost total = optimized@.len();
            while optimized.len() > 0
                invariant
                    optimized@.len() + rev@.len() == total,
                    total == opt.len(),
                    forall|q: int| 0 <= q < optimized@.len() ==> #[trigger] layer_view(optimized@[q]@) == opt[q],
                    forall|q: int| 0 <= q < rev@.len() ==> #[trigger] layer_view(rev@[q]@) == opt[total - 1 - q],
                decreases optimized@.len(),
            {
                let l = optimized.pop().unwrap();
                rev.push(l);
            }
            assert(layers_view(rev@) =~= opt.reverse());
            assert(layers_view(rev@) == spec_sugiyama_any(*ug));
            rev
        }
        _ => {
            assert(layers_view(optimized@) == spec_sugiyama_any(*ug));
            optimized
        }
    }
}

pub(crate) proof fn lemma_max_layer_bound(lay: Seq<int>, b: int)
    requires
        forall|v: int| 0 <= v < lay.len() ==> 0 <= #[trigger] lay[v] < b,
    ensures
        lay.len() == 0 ==> max_layer(lay) == 0,
        lay.len() > 0 ==> max_layer(lay) < b,
        max_layer(lay) >= 0,
    decreases lay.len(),
{
    if lay.len() > 0 {
        lemma_max_layer_bound(lay.drop_last(), b);
        assert(0 <= lay[lay.len() - 1] < b);
    }
}

// ---------------------------------------------------------------------------
// Laws of the layering
// ---------------------------------------------------------------------------

/// Paths into `v` are bounded by `k`: then some path into `v` is a longest one.
proof fn lemma_longest_from_bound(es: Seq<(usize, usize)>, back: Seq<bool>, n: int, v: int, k: int)
    requires
        0 <= v < n,
        0 <= k,
        forall|p: Seq<int>| #[trigger] is_path(es, back, n, p) && p.last() == v ==> p.len() - 1 <= k,
    ensures
        exists|len: int| is_longest(es, back, n, v, len),
    decreases k,
{
    if has_path_of(es, back, n, v, k) {
        assert(is_longest(es, back, n, v, k));
    } else if k == 0 {
        let p = seq![v];
        assert(is_path(es, back, n, p));
        assert(p.last() == v && p.len() - 1 == 0);
        assert(has_path_of(es, back, n, v, 0));
    } else {
        assert forall|p: Seq<int>| #[trigger] is_path(es, back, n, p) && p.last() == v implies p.len() - 1 <= k - 1 by {
            if p.len() - 1 == k {
                assert(has_path_of(es, back, n, v, k));
            }
        }
        lemma_longest_from_bound(es, back, n, v, k - 1);
    }
}

/// With the back edges set aside the graph is acyclic, so every node has a
/// longest path ending in it, and its layer is that path's length.
pub(crate) proof fn lemma_longest_layer(es: Seq<(usize, usize)>, back: Seq<bool>, n: int, fin: Seq<int>, v: int)
    requires
        acyclic_by(es, back, n, fin),
        0 <= v < n,
    ensures
        is_longest(es, back, n, v, longest_layer(es, back, n, v)),
        0 <= longest_layer(es, back, n, v) < n,
{
    assert forall|p: Seq<int>| #[trigger] is_path(es, back, n, p) && p.last() == v implies p.len() - 1 <= n - 1 by {
        lemma_path_fin(es, back, n, fin, p);
    }
    lemma_longest_from_bound(es, back, n, v, n - 1);
    let len = longest_layer(es, back, n, v);
    let p = choose|p: Seq<int>| #[trigger] is_path(es, back, n, p) && p.last() == v && p.len() - 1 == len;
    lemma_path_fin(es, back, n, fin, p);
}

/// Every edge that is not a back edge goes down at least one layer: its
/// target lies on a strictly higher layer than its source.
pub proof fn lemma_edges_go_down(es: Seq<(usize, usize)>, back: Seq<bool>, n: int, k: int)
    requires
        valid_back_edges(es, back, n),
        edges_in_range(es, n),
        0 <= k < es.len(),
        !back[k],
    ensures
        longest_layer(es, back, n, es[k].0 as int) < longest_layer(es, back, n, es[k].1 as int),
{
    let fin = choose|fin: Seq<int>| acyclic_by(es, back, n, fin);
    let u = es[k].0 as int;
    let v = es[k].1 as int;
    lemma_longest_layer(es, back, n, fin, u);
    lemma_longest_layer(es, back, n, fin, v);
    let lu = longest_layer(es, back, n, u);
    let p = choose|p: Seq<int>| #[trigger] is_path(es, back, n, p) && p.last() == u && p.len() - 1 == lu;
    lemma_path_push(es, back, n, p, k);
    let q = p.push(v);
    assert(q.last() == v);
}

/// Layers follow longest paths: a node above layer 0 has a kept edge from a
/// node on the layer directly above it.
pub proof fn lemma_layer_fed_from_above(es: Seq<(usize, usize)>, back: Seq<bool>, n: int, v: int)
    requires
        valid_back_edges(es, back, n),
        edges_in_range(es, n),
        0 <= v < n,
        longest_layer(es, back, n, v) > 0,
    ensures
        exists|k: int| 0 <= k < es.len() && !back[k] && (#[trigger] es[k]).1 as int == v
            && longest_layer(es, back, n, es[k].0 as int) == longest_layer(es, back, n, v) - 1,
{
    let fin = choose|fin: Seq<int>| acyclic_by(es, back, n, fin);
    lemma_longest_layer(es, back, n, fin, v);
    let len = longest_layer(es, back, n, v);
    let p = choose|p: Seq<int>| #[trigger] is_path(es, back, n, p) && p.last() == v && p.len() - 1 == len;
    assert(nb_edge(es, back, p[len - 1], p[len]));
    let k = choose|k: int| 0 <= k < es.len() && !back[k] && (#[trigger] es[k]).0 == p[len - 1] && es[k].1 == p[len];
    let u = es[k].0 as int;
    let q = p.take(len);
    assert forall|i: int| 0 <= i < q.len() - 1 implies nb_edge(es, back, #[trigger] q[i], q[i + 1]) by {
        assert(q[i] == p[i] && q[i + 1] == p[i + 1]);
        assert(nb_edge(es, back, p[i], p[i + 1]));
    }
    assert(is_path(es, back, n, q));
    assert(q.last() == u);
    lemma_longest_layer(es, back, n, fin, u);
    assert(q.len() - 1 <= longest_layer(es, back, n, u));
    lemma_edges_go_down(es, back, n, k);
    assert(es[k].1 as int == v);
}

pub(crate) proof fn lemma_ids_on_member(ids: Seq<Seq<char>>, lay: Seq<int>, l: int, x: Seq<char>)
    requires
        ids_on(ids, lay, l).contains(x),
    ensures
        exists|v: int| 0 <= v < ids.len() && ids[v] == x && lay[v] == l,
    decreases ids.len(),
{
    let d = ids.drop_last();
    let r = ids_on(d, lay, l);
    if r.contains(x) {
        lemma_ids_on_member(d, lay, l, x);
        let v = choose|v: int| 0 <= v < d.len() && d[v] == x && lay[v] == l;
        assert(ids[v] == x);
    } else {
        let w = ids_on(ids, lay, l);
        let j = choose|j: int| 0 <= j < w.len() && w[j] == x;
        assert(lay[ids.len() - 1] == l);
        assert(ids[ids.len() - 1] == x);
    }
}

/// The layers before orientation: crossing reduction over the longest-path
/// buckets.
pub open spec fn sugiyama_unoriented(ug: Unigraph, back: Seq<bool>) -> Seq<Seq<Seq<char>>> {
    let n = ug.nodes@.len() as int;
    let es = ug_index_edges(ug);
    let lay = longest_layers(es, back, n);
    spec_minimize_crossings(bucket_layers(ug_ids(ug), lay), adjacent_pairs(ug_edges(ug), es, lay))
}

/// Every edge that is no back edge goes from a layer to a later one.
pub open spec fn kept_edges_go_down(res: Seq<Seq<Seq<char>>>, ug: Unigraph, back: Seq<bool>) -> bool {
    forall|j: int, k1: int, k2: int|
        #![trigger res[k1].contains(ug_edges(ug)[j].0), res[k2].contains(ug_edges(ug)[j].1)]
        0 <= j < ug.edges@.len() && !back[j] && 0 <= k1 < res.len() && 0 <= k2 < res.len()
            && res[k1].contains(ug_edges(ug)[j].0) && res[k2].contains(ug_edges(ug)[j].1) ==> k1 < k2
}

/// Every node on a layer after the first has an edge that is no back edge
/// from a node on the layer directly before it.
pub open spec fn fed_from_before(res: Seq<Seq<Seq<char>>>, ug: Unigraph, back: Seq<bool>) -> bool {
    forall|k: int, x: Seq<char>| 0 < k < res.len() && #[trigger] res[k].contains(x) ==> exists|j: int|
        0 <= j < ug.edges@.len() && !back[j] && (#[trigger] ug_edges(ug)[j]).1 == x && res[k - 1].contains(ug_edges(ug)[j].0)
}

/// The node of a graph without repeated ids that an id on some layer
/// names, and the layer it lies on.
proof fn lemma_unoriented_member(ug: Unigraph, back: Seq<bool>, k: int, x: Seq<char>) -> (v: int)
    requires
        ug_wf(ug),
        valid_back_edges(ug_index_edges(ug), back, ug.nodes@.len() as int),
        0 <= k < sugiyama_unoriented(ug, back).len(),
        sugiyama_unoriented(ug, back)[k].contains(x),
    ensures
        0 <= v < ug.nodes@.len(),
        ug_ids(ug)[v] == x,
        longest_layers(ug_index_edges(ug), back, ug.nodes@.len() as int)[v] == k,
{
    let n = ug.nodes@.len() as int;
    let ids = ug_ids(ug);
    let es = ug_index_edges(ug);
    let lay = longest_layers(es, back, n);
    let b = bucket_layers(ids, lay);
    lemma_minimize_keeps_members(b, adjacent_pairs(ug_edges(ug), es, lay));
    assert(b[k].contains(x));
    lemma_ids_on_member(ids, lay, k, x);
    choose|v: int| 0 <= v < ids.len() && ids[v] == x && lay[v] == k
}

/// The index edge of edge `j` of a graph without repeated ids and with
/// every edge end a node.
pub(crate) proof fn lemma_index_edge(ug: Unigraph, j: int)
    requires
        ug_wf(ug),
        ug.nodes@.len() <= usize::MAX,
        0 <= j < ug.edges@.len(),
    ensures
        (ug_index_edges(ug)[j].0 as int) < ug.nodes@.len(),
        (ug_index_edges(ug)[j].1 as int) < ug.nodes@.len(),
        ug_ids(ug)[ug_index_edges(ug)[j].0 as int] == ug_edges(ug)[j].0,
        ug_ids(ug)[ug_index_edges(ug)[j].1 as int] == ug_edges(ug)[j].1,
        forall|v: int| 0 <= v < ug.nodes@.len() && ug_ids(ug)[v] == ug_edges(ug)[j].0 ==> v == ug_index_edges(ug)[j].0 as int,
        forall|v: int| 0 <= v < ug.nodes@.len() && ug_ids(ug)[v] == ug_edges(ug)[j].1 ==> v == ug_index_edges(ug)[j].1 as int,
{
    let ids = ug_ids(ug);
    let es = ug_index_edges(ug);
    let e = ug_edges(ug)[j];
    lemma_last_pos_facts(ids, e.0);
    lemma_last_pos_facts(ids, e.1);
    assert(ids.contains(e.0) && ids.contains(e.1));
    let p0 = last_pos(ids, e.0);
    let p1 = last_pos(ids, e.1);
    assert(ids.len() == ug.nodes@.len());
    assert(es[j] == (p0 as usize, p1 as usize));
    assert(es[j].0 as int == p0 && es[j].1 as int == p1);
}

proof fn lemma_unoriented_laws(ug: Unigraph, back: Seq<bool>)
    requires
        ug_wf(ug),
        ug.nodes@.len() <= usize::MAX,
        valid_back_edges(ug_index_edges(ug), back, ug.nodes@.len() as int),
    ensures
        kept_edges_go_down(sugiyama_unoriented(ug, back), ug, back),
        fed_from_before(sugiyama_unoriented(ug, back), ug, back),
{
    let n = ug.nodes@.len() as int;
    let ids = ug_ids(ug);
    let es = ug_index_edges(ug);
    let lay = longest_layers(es, back, n);
    let b = bucket_layers(ids, lay);
    let m = sugiyama_unoriented(ug, back);
    assert forall|j: int| 0 <= j < es.len() implies (#[trigger] es[j]).0 < n && es[j].1 < n by {
        lemma_index_edge(ug, j);
    }
    assert(edges_in_range(es, n));
    assert forall|j: int, k1: int, k2: int|
        0 <= j < ug.edges@.len() && !back[j] && 0 <= k1 < m.len() && 0 <= k2 < m.len()
            && m[k1].contains(ug_edges(ug)[j].0) && m[k2].contains(ug_edges(ug)[j].1) implies k1 < k2 by {
        let v1 = lemma_unoriented_member(ug, back, k1, ug_edges(ug)[j].0);
        let v2 = lemma_unoriented_member(ug, back, k2, ug_edges(ug)[j].1);
        lemma_index_edge(ug, j);
        lemma_edges_go_down(es, back, n, j);
    }
    assert forall|k: int, x: Seq<char>| 0 < k < m.len() && #[trigger] m[k].contains(x) implies exists|j: int|
        0 <= j < ug.edges@.len() && !back[j] && (#[trigger] ug_edges(ug)[j]).1 == x && m[k - 1].contains(ug_edges(ug)[j].0) by {
        let v = lemma_unoriented_member(ug, back, k, x);
        lemma_layer_fed_from_above(es, back, n, v);
        let j = choose|j: int| 0 <= j < es.len() && !back[j] && (#[trigger] es[j]).1 as int == v
            && longest_layer(es, back, n, es[j].0 as int) == longest_layer(es, back, n, v) - 1;
        lemma_index_edge(ug, j);
        let u = es[j].0 as int;
        assert(lay[u] == k - 1);
        lemma_ids_on_contains(ids, lay, u);
        lemma_minimize_keeps_members(b, adjacent_pairs(ug_edges(ug), es, lay));
        assert(b[k - 1].contains(ug_edges(ug)[j].0));
        assert(m[k - 1].contains(ug_edges(ug)[j].0));
    }
}

/// The layering of [`sugiyama_layers`], read in top-to-bottom order (so
/// reversed for `BT` and `RL`), follows longest paths: every edge that is no
/// back edge goes to a later layer, and every node on a layer after the first
/// has such an edge from the layer directly before it. A graph without
/// nodes has one empty layer.
pub proof fn lemma_sugiyama_layering(ug: Unigraph, back: Seq<bool>)
    requires
        ug_wf(ug),
        ug.nodes@.len() <= usize::MAX,
        valid_back_edges(ug_index_edges(ug), back, ug.nodes@.len() as int),
    ensures
        oriented(spec_sugiyama_layers(ug, back), ug.direction) == sugiyama_unoriented(ug, back),
        kept_edges_go_down(oriented(spec_sugiyama_layers(ug, back), ug.direction), ug, back),
        fed_from_before(oriented(spec_sugiyama_layers(ug, back), ug.direction), ug, back),
        ug.nodes@.len() == 0 ==> spec_sugiyama_layers(ug, back) == seq![Seq::<Seq<char>>::empty()],
{
    let m = sugiyama_unoriented(ug, back);
    assert(m.reverse().reverse() =~= m);
    lemma_unoriented_laws(ug, back);
    if ug.nodes@.len() == 0 {
        let n = ug.nodes@.len() as int;
        let ids = ug_ids(ug);
        let es = ug_index_edges(ug);
        let lay = longest_layers(es, back, n);
        let b = bucket_layers(ids, lay);
        assert(lay.len() == 0);
        assert(max_layer(lay) == 0);
        assert(b =~= seq![Seq::<Seq<char>>::empty()]);
        lemma_minimize_crossings_identity(b, adjacent_pairs(ug_edges(ug), es, lay));
        assert(seq![Seq::<Seq<char>>::empty()].reverse() =~= seq![Seq::<Seq<char>>::empty()]);
    }
}

/// Two graphs with the same nodes and edges, one drawn top to bottom (or
/// left to right) and one bottom to top (or right to left), get the same
/// layers in opposite order: the first layer of one is the last of the
/// other, and each layer lists the same ids in the same order.
pub proof fn lemma_sugiyama_direction_reverses(ug1: Unigraph, ug2: Unigraph)
    requires
        ug1.nodes@ == ug2.nodes@,
        ug1.edges@ == ug2.edges@,
        !(ug1.direction is BT || ug1.direction is RL),
        ug2.direction is BT || ug2.direction is RL,
    ensures
        spec_sugiyama_any(ug2) == spec_sugiyama_any(ug1).reverse(),
{
    assert(ug_ids(ug1) == ug_ids(ug2));
    assert(ug_edges(ug1) == ug_edges(ug2));
    assert(ug_ends_known(ug1) == ug_ends_known(ug2));
    assert(id_name_count(ug1) == id_name_count(ug2));
    assert(graph_names(ug1) == graph_names(ug2));
    assert(name_ids(ug1) == name_ids(ug2));
    assert(name_edges(ug1) == name_edges(ug2));
}

/// The layers of [`sugiyama_layers`] follow longest paths (directions other
/// than `BT` and `RL`, whose layers come reversed): every node on a layer
/// after the first has an edge that is no back edge from a node on the layer
/// directly before it.
pub proof fn lemma_sugiyama_fed_from_above(ug: Unigraph, back: Seq<bool>, k: int, x: Seq<char>)
    requires
        ug_wf(ug),
        ug.nodes@.len() <= usize::MAX,
        valid_back_edges(ug_index_edges(ug), back, ug.nodes@.len() as int),
        !(ug.direction is BT || ug.direction is RL),
        0 < k < spec_sugiyama_layers(ug, back).len(),
        spec_sugiyama_layers(ug, back)[k].contains(x),
    ensures
        exists|j: int| 0 <= j < ug.edges@.len() && !back[j] && (#[trigger] ug_edges(ug)[j]).1 == x
            && spec_sugiyama_layers(ug, back)[k - 1].contains(ug_edges(ug)[j].0),
{
    lemma_sugiyama_layering(ug, back);
}

/// Bucketing by layer loses and adds nothing: every node lies on the layer
/// of its own number, and all layers together hold exactly the nodes, each
/// as often as it occurs among them.
pub proof fn lemma_layers_partition_nodes(ids: Seq<Seq<char>>, lay: Seq<int>)
    requires
        lay.len() == ids.len(),
        forall|v: int| 0 <= v < lay.len() ==> 0 <= #[trigger] lay[v],
    ensures
        forall|v: int| 0 <= v < ids.len() ==> (#[trigger] bucket_layers(ids, lay)[lay[v]]).contains(ids[v]),
        ids.to_multiset() =~= flat_multiset(bucket_layers(ids, lay)),
{
    let b = bucket_layers(ids, lay);
    lemma_bucket_flat(ids, lay, max_layer(lay) + 1);
    assert forall|v: int| 0 <= v < ids.len() implies (#[trigger] b[lay[v]]).contains(ids[v]) by {
        lemma_max_layer_ge(lay, v);
        lemma_ids_on_contains(ids, lay, v);
    }
}

/// The multiset of all the ids on all layers.
pub open spec fn flat_multiset(ls: Seq<Seq<Seq<char>>>) -> Multiset<Seq<char>>
    decreases ls.len(),
{
    if ls.len() == 0 {
        Multiset::empty()
    } else {
        flat_multiset(ls.drop_last()).add(ls.last().to_multiset())
    }
}

pub(crate) proof fn lemma_flat_congruent(a: Seq<Seq<Seq<char>>>, b: Seq<Seq<Seq<char>>>)
    requires
        a.len() == b.len(),
        forall|i: int| 0 <= i < a.len() ==> (#[trigger] a[i]).to_multiset() == b[i].to_multiset(),
    ensures
        flat_multiset(a) == flat_multiset(b),
    decreases a.len(),
{
    if a.len() > 0 {
        lemma_flat_congruent(a.drop_last(), b.drop_last());
        assert(a.last().to_multiset() == b.last().to_multiset());
    }
}

proof fn lemma_flat_push_front(x: Seq<Seq<char>>, a: Seq<Seq<Seq<char>>>)
    ensures
        flat_multiset(seq![x] + a) =~= x.to_multiset().add(flat_multiset(a)),
    decreases a.len(),
{
    let e = Seq::<Seq<Seq<char>>>::empty();
    assert(flat_multiset(e) == Multiset::<Seq<char>>::empty());
    if a.len() == 0 {
        assert(seq![x] + a =~= seq![x]);
        assert(seq![x].drop_last() =~= e);
        assert(flat_multiset(seq![x]) == flat_multiset(e).add(x.to_multiset()));
        assert(flat_multiset(a) == Multiset::<Seq<char>>::empty());
    } else {
        lemma_flat_push_front(x, a.drop_last());
        assert((seq![x] + a).drop_last() =~= seq![x] + a.drop_last());
        assert((seq![x] + a).last() == a.last());
        assert(flat_multiset(seq![x] + a) == flat_multiset(seq![x] + a.drop_last()).add(a.last().to_multiset()));
    }
}

proof fn lemma_flat_reverse(a: Seq<Seq<Seq<char>>>)
    ensures
        flat_multiset(a.reverse()) =~= flat_multiset(a),
    decreases a.len(),
{
    if a.len() > 0 {
        lemma_flat_reverse(a.drop_last());
        assert(a.reverse() =~= seq![a.last()] + a.drop_last().reverse());
        lemma_flat_push_front(a.last(), a.drop_last().reverse());
    }
}

pub(crate) proof fn lemma_max_layer_ge(lay: Seq<int>, v: int)
    requires
        0 <= v < lay.len(),
    ensures
        lay[v] <= max_layer(lay),
    decreases lay.len(),
{
    if v < lay.len() - 1 {
        lemma_max_layer_ge(lay.drop_last(), v);
    }
}

pub(crate) proof fn lemma_ids_on_contains(ids: Seq<Seq<char>>, lay: Seq<int>, v: int)
    requires
        0 <= v < ids.len(),
        ids.len() <= lay.len(),
    ensures
        ids_on(ids, lay, lay[v]).contains(ids[v]),
    decreases ids.len(),
{
    let r = ids_on(ids.drop_last(), lay, lay[v]);
    if v == ids.len() - 1 {
        assert(ids_on(ids, lay, lay[v]) == r.push(ids.last()));
        assert(r.push(ids.last())[r.len() as int] == ids[v]);
    } else {
        lemma_ids_on_contains(ids.drop_last(), lay, v);
        let j = choose|j: int| 0 <= j < r.len() && r[j] == ids.drop_last()[v];
        if lay[ids.len() - 1] == lay[v] {
            assert(r.push(ids.last())[j] == ids[v]);
        } else {
            assert(r[j] == ids[v]);
        }
    }
}

/// The ids on layers `0..m`, all together.
pub open spec fn ids_below(ids: Seq<Seq<char>>, lay: Seq<int>, m: int) -> Multiset<Seq<char>>
    decreases m,
{
    if m <= 0 {
        Multiset::empty()
    } else {
        ids_below(ids, lay, m - 1).add(ids_on(ids, lay, m - 1).to_multiset())
    }
}

proof fn lemma_ids_below_step(ids: Seq<Seq<char>>, lay: Seq<int>, m: int)
    requires
        ids.len() > 0,
        m >= 0,
        ids.len() <= lay.len(),
    ensures
        ids_below(ids, lay, m) =~= ids_below(ids.drop_last(), lay, m).add(
            if 0 <= lay[ids.len() - 1] < m { Multiset::singleton(ids.last()) } else { Multiset::empty() }),
    decreases m,
{
    if m > 0 {
        lemma_ids_below_step(ids, lay, m - 1);
        let r = ids_on(ids.drop_last(), lay, m - 1);
        if lay[ids.len() - 1] == m - 1 {
            assert(ids_on(ids, lay, m - 1) == r.push(ids.last()));
            assert(r.push(ids.last()).to_multiset() =~= r.to_multiset().insert(ids.last())) by {
                r.to_multiset_ensures();
            }
        }
    }
}

proof fn lemma_ids_below_all(ids: Seq<Seq<char>>, lay: Seq<int>, m: int)
    requires
        ids.len() <= lay.len(),
        forall|v: int| 0 <= v < ids.len() ==> 0 <= #[trigger] lay[v] < m,
    ensures
        ids_below(ids, lay, m) =~= ids.to_multiset(),
    decreases ids.len(),
{
    if ids.len() == 0 {
        lemma_ids_below_empty(ids, lay, m);
        ids.to_multiset_ensures();
        assert forall|x: Seq<char>| ids.to_multiset().count(x) == 0 by {
            assert(!ids.contains(x));
        }
    } else {
        lemma_ids_below_all(ids.drop_last(), lay, m);
        assert(0 <= lay[ids.len() - 1] < m);
        lemma_ids_below_step(ids, lay, m);
        assert(ids =~= ids.drop_last().push(ids.last()));
        ids.drop_last().to_multiset_ensures();
        assert(ids.drop_last().push(ids.last()).to_multiset() =~= ids.drop_last().to_multiset().insert(ids.last()));
        assert(ids.drop_last().to_multiset().insert(ids.last()) =~= ids.drop_last().to_multiset().add(Multiset::singleton(ids.last())));
    }
}

proof fn lemma_ids_below_empty(ids: Seq<Seq<char>>, lay: Seq<int>, m: int)
    requires
        ids.len() == 0,
    ensures
        ids_below(ids, lay, m) =~= Multiset::empty(),
    decreases m,
{
    if m > 0 {
        lemma_ids_below_empty(ids, lay, m - 1);
        let r = ids_on(ids, lay, m - 1);
        assert(r =~= Seq::<Seq<char>>::empty());
        r.to_multiset_ensures();
        assert forall|x: Seq<char>| r.to_multiset().count(x) == 0 by {
            assert(!r.contains(x));
        }
        assert(r.to_multiset() =~= Multiset::empty());
    }
}

proof fn lemma_bucket_flat(ids: Seq<Seq<char>>, lay: Seq<int>, m: int)
    requires
        lay.len() == ids.len(),
        forall|v: int| 0 <= v < lay.len() ==> 0 <= #[trigger] lay[v],
        m == max_layer(lay) + 1,
    ensures
        ids.to_multiset() =~= flat_multiset(bucket_layers(ids, lay)),
{
    let b = bucket_layers(ids, lay);
    assert forall|v: int| 0 <= v < ids.len() implies 0 <= #[trigger] lay[v] < m by {
        lemma_max_layer_ge(lay, v);
    }
    lemma_ids_below_all(ids, lay, m);
    lemma_flat_prefix(ids, lay, m);
    assert(b.take(m) =~= b);
}

proof fn lemma_flat_prefix(ids: Seq<Seq<char>>, lay: Seq<int>, k: int)
    requires
        0 <= k <= max_layer(lay) + 1,
        max_layer(lay) >= 0,
    ensures
        flat_multiset(bucket_layers(ids, lay).take(k)) =~= ids_below(ids, lay, k),
    decreases k,
{
    let b = bucket_layers(ids, lay);
    if k > 0 {
        lemma_flat_prefix(ids, lay, k - 1);
        assert(b.take(k).drop_last() =~= b.take(k - 1));
        assert(b.take(k).last() == ids_on(ids, lay, k - 1));
    } else {
        assert(b.take(0) =~= Seq::<Seq<Seq<char>>>::empty());
    }
}

/// Layers `0..c` that each list, in order, the ids on them hold every id
/// once, when every layer given lies below `c`.
pub(crate) proof fn lemma_layers_flat(ids: Seq<Seq<char>>, lay: Seq<int>, c: int)
    requires
        lay.len() == ids.len(),
        c >= 0,
        forall|v: int| 0 <= v < lay.len() ==> 0 <= #[trigger] lay[v] < c,
    ensures
        flat_multiset(Seq::new(c as nat, |l: int| ids_on(ids, lay, l))) =~= ids.to_multiset(),
{
    let b = Seq::new(c as nat, |l: int| ids_on(ids, lay, l));
    lemma_ids_below_all(ids, lay, c);
    lemma_flat_prefix_of(ids, lay, c, c);
    assert(b.take(c) =~= b);
}

proof fn lemma_flat_prefix_of(ids: Seq<Seq<char>>, lay: Seq<int>, c: int, k: int)
    requires
        0 <= k <= c,
    ensures
        flat_multiset(Seq::new(c as nat, |l: int| ids_on(ids, lay, l)).take(k)) =~= ids_below(ids, lay, k),
    decreases k,
{
    let b = Seq::new(c as nat, |l: int| ids_on(ids, lay, l));
    if k > 0 {
        lemma_flat_prefix_of(ids, lay, c, k - 1);
        assert(b.take(k).drop_last() =~= b.take(k - 1));
        assert(b.take(k).last() == ids_on(ids, lay, k - 1));
    } else {
        assert(b.take(0) =~= Seq::<Seq<Seq<char>>>::empty());
    }
}

} // verus!
