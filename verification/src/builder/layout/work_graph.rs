//! The working graph of the layered layout: the graph's nodes, and every
//! edge that spans two or more layers split into a chain of dummy nodes,
//! one per layer in between, so that every working edge joins adjacent
//! layers.

use vstd::prelude::*;
use vstd::string::StringExecFns;

use petgraph::graph::{DiGraph, NodeIndex};
use petgraph::visit::EdgeRef;

use super::analyze::identity;
use super::solver::directed::{sgraph_add_edge, sgraph_add_node, sgraph_edges, sgraph_nodes, sgraph_with_capacity};

verus! {

/// The id of a dummy node.
pub open spec fn dummy_id() -> Seq<char> {
    "__dummy__"@
}

/// The working graph as mathematical values: node ids, edges, and for each
/// split edge its dummy nodes in order.
pub struct WorkV {
    pub ids: Seq<Seq<char>>,
    pub edges: Seq<(usize, usize)>,
    pub chains: Seq<((usize, usize), Seq<usize>)>,
}

/// How many layers the edge from `u` to `v` goes down (0 when it goes up
/// or stays).
pub open spec fn span(layers: Seq<usize>, u: usize, v: usize) -> int {
    if layers[v as int] > layers[u as int] { layers[v as int] - layers[u as int] } else { 0 }
}

/// The `k` dummy nodes numbered from `d0`.
pub open spec fn dummy_run(d0: int, k: int) -> Seq<usize> {
    Seq::new(k as nat, |i: int| (d0 + i) as usize)
}

/// The chain from `u` through dummies `d0 .. d0 + k` to `v`.
pub open spec fn chain_edges(u: usize, v: usize, d0: int, k: int) -> Seq<(usize, usize)> {
    Seq::new(
        (k + 1) as nat,
        |i: int| (if i == 0 { u } else { (d0 + i - 1) as usize }, if i == k { v } else { (d0 + i) as usize }),
    )
}

/// Adds one edge: an edge that goes down two or more layers becomes a
/// chain through new dummy nodes, any other edge stays as it is.
pub open spec fn work_step(w: WorkV, layers: Seq<usize>, e: (usize, usize)) -> WorkV {
    let s = span(layers, e.0, e.1);
    if s >= 2 {
        let d0 = w.ids.len() as int;
        WorkV {
            ids: w.ids + Seq::new((s - 1) as nat, |i: int| dummy_id()),
            edges: w.edges + chain_edges(e.0, e.1, d0, s - 1),
            chains: w.chains.push((e, dummy_run(d0, s - 1))),
        }
    } else {
        WorkV { edges: w.edges.push(e), ..w }
    }
}

/// The working graph of a graph with node ids `ids` and edges `es`.
pub open spec fn work_run(ids: Seq<Seq<char>>, layers: Seq<usize>, es: Seq<(usize, usize)>) -> WorkV
    decreases es.len(),
{
    if es.len() == 0 {
        WorkV { ids: ids, edges: Seq::empty(), chains: Seq::empty() }
    } else {
        work_step(work_run(ids, layers, es.drop_last()), layers, es.last())
    }
}

/// The dummy nodes that the edges need.
pub open spec fn dummies_needed(layers: Seq<usize>, es: Seq<(usize, usize)>) -> int
    decreases es.len(),
{
    if es.len() == 0 {
        0
    } else {
        dummies_needed(layers, es.drop_last()) + if span(layers, es.last().0, es.last().1) >= 2 {
            span(layers, es.last().0, es.last().1) - 1
        } else {
            0
        }
    }
}

/// `Graph::node_count` of a graph with string nodes: its number of nodes;
/// every edge joins two of them (`add_edge` panics otherwise).
#[verifier::external_body]
pub(crate) fn sgraph_node_count(g: &DiGraph<String, ()>) -> (b: usize)
    ensures
        b == sgraph_nodes(*g).len(),
        forall|k: int| 0 <= k < sgraph_edges(*g).len() ==>
            ((#[trigger] sgraph_edges(*g)[k]).0 as int) < b && (sgraph_edges(*g)[k].1 as int) < b,
{
    g.node_count()
}

/// A copy of the id of node `i`, read through `Index`.
#[verifier::external_body]
pub(crate) fn sgraph_node_id(g: &DiGraph<String, ()>, i: usize) -> (s: String)
    requires
        i < sgraph_nodes(*g).len(),
    ensures
        s@ == sgraph_nodes(*g)[i as int],
{
    g[NodeIndex::new(i)].clone()
}

/// `Graph::edge_references`, as (source, target) indices: the edges in
/// edge index order.
#[verifier::external_body]
pub(crate) fn sgraph_edge_list(g: &DiGraph<String, ()>) -> (es: Vec<(usize, usize)>)
    ensures
        es@ == sgraph_edges(*g),
{
    g.edge_references().map(|e| (e.source().index(), e.target().index())).collect()
}

proof fn lemma_dummies_step(layers: Seq<usize>, es: Seq<(usize, usize)>, k: int)
    requires
        0 <= k < es.len(),
    ensures
        dummies_needed(layers, es.take(k + 1)) >= dummies_needed(layers, es.take(k)),
        dummies_needed(layers, es.take(k)) >= 0,
    decreases k,
{
    assert(es.take(k + 1).drop_last() =~= es.take(k));
    if k > 0 {
        lemma_dummies_step(layers, es, k - 1);
    } else {
        assert(es.take(0) =~= Seq::<(usize, usize)>::empty());
    }
}

proof fn lemma_dummies_mono(layers: Seq<usize>, es: Seq<(usize, usize)>, k: int)
    requires
        0 <= k <= es.len(),
    ensures
        0 <= dummies_needed(layers, es.take(k)) <= dummies_needed(layers, es),
    decreases es.len() - k,
{
    if k < es.len() {
        lemma_dummies_step(layers, es, k);
        lemma_dummies_mono(layers, es, k + 1);
    } else {
        assert(es.take(k) =~= es);
        if k > 0 {
            lemma_dummies_step(layers, es, k - 1);
        } else {
            assert(es.take(0) =~= Seq::<(usize, usize)>::empty());
        }
    }
}

/// The working graph of `graph` with node layers `layers`: the same nodes
/// (same index, same id), then for each edge, in edge order, either the
/// edge itself or, when it goes down two or more layers, a chain through
/// one new `__dummy__` node per layer in between. Returns the working
/// graph, the working index of each node, and each split edge with its
/// dummy nodes (see [`work_run`]).
pub fn build_work_graph(graph: &DiGraph<String, ()>, layers: &Vec<usize>) -> (r: (
    DiGraph<String, ()>,
    Vec<usize>,
    Vec<((usize, usize), Vec<usize>)>,
))
    requires
        layers@.len() == sgraph_nodes(*graph).len(),
        sgraph_nodes(*graph).len() + sgraph_edges(*graph).len() + 2 * dummies_needed(layers@, sgraph_edges(*graph))
            < 0xffff_ffff,
    ensures
        sgraph_nodes(r.0) == work_run(sgraph_nodes(*graph), layers@, sgraph_edges(*graph)).ids,
        sgraph_edges(r.0) == work_run(sgraph_nodes(*graph), layers@, sgraph_edges(*graph)).edges,
        r.1@ == identity(sgraph_nodes(*graph).len() as int),
        r.2@.map_values(|c: ((usize, usize), Vec<usize>)| (c.0, c.1@)) == work_run(
            sgraph_nodes(*graph),
            layers@,
            sgraph_edges(*graph),
        ).chains,
{
    let n = sgraph_node_count(graph);
    let ghost ids0 = sgraph_nodes(*graph);
    let ghost all = sgraph_edges(*graph);
    proof {
        lemma_dummies_mono(layers@, all, 0);
    }
    let mut work = sgraph_with_capacity(n, n);
    let mut real_to_work: Vec<usize> = Vec::new();
    let mut i: usize = 0;
    while i < n
        invariant
            i <= n,
            n == ids0.len(),
            ids0 == sgraph_nodes(*graph),
            n + all.len() + 2 * dummies_needed(layers@, all) < 0xffff_ffff,
            dummies_needed(layers@, all) >= 0,
            sgraph_nodes(work) == ids0.take(i as int),
            sgraph_edges(work) == Seq::<(usize, usize)>::empty(),
            real_to_work@ == identity(i as int),
        decreases n - i,
    {
        let id = sgraph_node_id(graph, i);
        let w = sgraph_add_node(&mut work, id);
        real_to_work.push(w);
        assert(sgraph_nodes(work) =~= ids0.take(i + 1));
        assert(real_to_work@ =~= identity(i + 1));
        i = i + 1;
    }
    assert(ids0.take(n as int) =~= ids0);
    let es = sgraph_edge_list(graph);
    let mut chains: Vec<((usize, usize), Vec<usize>)> = Vec::new();
    let mut k: usize = 0;
    assert(all.take(0) =~= Seq::<(usize, usize)>::empty());
    assert(chains@.map_values(|c: ((usize, usize), Vec<usize>)| (c.0, c.1@)) =~= Seq::<((usize, usize), Seq<usize>)>::empty());
    while k < es.len()
        invariant
            k <= all.len(),
            es@ == all,
            n == ids0.len(),
            layers@.len() == n,
            forall|j: int| 0 <= j < all.len() ==> ((#[trigger] all[j]).0 as int) < n && (all[j].1 as int) < n,
            n + all.len() + 2 * dummies_needed(layers@, all) < 0xffff_ffff,
            sgraph_nodes(work) == work_run(ids0, layers@, all.take(k as int)).ids,
            sgraph_edges(work) == work_run(ids0, layers@, all.take(k as int)).edges,
            chains@.map_values(|c: ((usize, usize), Vec<usize>)| (c.0, c.1@)) == work_run(ids0, layers@, all.take(k as int)).chains,
            sgraph_nodes(work).len() == n + dummies_needed(layers@, all.take(k as int)),
            sgraph_edges(work).len() == k + dummies_needed(layers@, all.take(k as int)),
        decreases all.len() - k,
    {
        let ghost t = all.take(k + 1);
        assert(t.drop_last() =~= all.take(k as int));
        let (u, v) = es[k];
        assert(t.last() == (u, v));
        assert((u as int) < n && (v as int) < n) by {
            assert(all[k as int] == (u, v));
        }
        let ghost w0 = work_run(ids0, layers@, all.take(k as int));
        proof {
            lemma_dummies_mono(layers@, all, k + 1);
            lemma_dummies_mono(layers@, all, k as int);
        }
        let lu = layers[u];
        let lv = layers[v];
        let sp = if lv > lu { lv - lu } else { 0 };
        if sp >= 2 {
            let ghost d0 = sgraph_nodes(work).len() as int;
            let ghost base_ids = sgraph_nodes(work);
            let ghost base_edges = sgraph_edges(work);
            let mut prev = u;
            let mut chain: Vec<usize> = Vec::new();
            let mut j: usize = 0;
            while j < sp - 1
                invariant
                    sp >= 2,
                    j <= sp - 1,
                    (u as int) < n && (v as int) < n,
                    d0 == base_ids.len(),
                    d0 + 2 * (sp - 1) + base_edges.len() < 0xffff_ffff,
                    sgraph_nodes(work) == base_ids + Seq::new(j as nat, |i: int| dummy_id()),
                    sgraph_edges(work) == base_edges + Seq::new(
                        j as nat,
                        |i: int| (if i == 0 { u } else { (d0 + i - 1) as usize }, (d0 + i) as usize),
                    ),
                    chain@ == dummy_run(d0, j as int),
                    prev as int == if j == 0 { u as int } else { d0 + j - 1 },
                    n <= d0,
                decreases sp - 1 - j,
            {
                let dummy = sgraph_add_node(&mut work, String::from_str("__dummy__"));
                sgraph_add_edge(&mut work, prev, dummy);
                chain.push(dummy);
                prev = dummy;
                assert(sgraph_nodes(work) =~= base_ids + Seq::new((j + 1) as nat, |i: int| dummy_id()));
                assert(sgraph_edges(work) =~= base_edges + Seq::new(
                    (j + 1) as nat,
                    |i: int| (if i == 0 { u } else { (d0 + i - 1) as usize }, (d0 + i) as usize),
                ));
                assert(chain@ =~= dummy_run(d0, j + 1));
                j = j + 1;
            }
            sgraph_add_edge(&mut work, prev, v);
            let ghost want = work_step(w0, layers@, (u, v));
            assert(sgraph_nodes(work) =~= want.ids);
            assert(sgraph_edges(work) =~= want.edges);
            let ghost cb = chains@.map_values(|c: ((usize, usize), Vec<usize>)| (c.0, c.1@));
            chains.push(((u, v), chain));
            assert(chains@.map_values(|c: ((usize, usize), Vec<usize>)| (c.0, c.1@)) =~= want.chains);
        } else {
            sgraph_add_edge(&mut work, u, v);
        }
        k = k + 1;
    }
    assert(all.take(all.len() as int) =~= all);
    (work, real_to_work, chains)
}

// ---------------------------------------------------------------------------
// No working edge skips a layer
// ---------------------------------------------------------------------------

/// The layer of each working node: a node keeps its layer; the dummies of
/// an edge from `u` take the layers after `u`'s, one each.
pub open spec fn work_layers(layers: Seq<usize>, es: Seq<(usize, usize)>) -> Seq<int>
    decreases es.len(),
{
    if es.len() == 0 {
        layers.map_values(|l: usize| l as int)
    } else {
        let wl = work_layers(layers, es.drop_last());
        let e = es.last();
        let s = span(layers, e.0, e.1);
        if s >= 2 {
            wl + Seq::new((s - 1) as nat, |i: int| layers[e.0 as int] + i + 1)
        } else {
            wl
        }
    }
}

/// In the working graph every edge goes down at most one layer: an edge
/// that went down two or more layers is replaced by a chain whose edges
/// each go down exactly one, and every node keeps its layer.
pub proof fn lemma_no_edge_skips_a_layer(ids: Seq<Seq<char>>, layers: Seq<usize>, es: Seq<(usize, usize)>)
    requires
        layers.len() == ids.len(),
        forall|k: int| 0 <= k < es.len() ==> ((#[trigger] es[k]).0 as int) < ids.len() && (es[k].1 as int) < ids.len(),
        work_run(ids, layers, es).ids.len() <= usize::MAX,
    ensures
        work_layers(layers, es).len() == work_run(ids, layers, es).ids.len(),
        work_run(ids, layers, es).ids.len() >= ids.len(),
        forall|i: int| 0 <= i < layers.len() ==> #[trigger] work_layers(layers, es)[i] == layers[i] as int,
        forall|k: int| 0 <= k < work_run(ids, layers, es).edges.len() ==> {
            let e = #[trigger] work_run(ids, layers, es).edges[k];
            &&& (e.0 as int) < work_layers(layers, es).len()
            &&& (e.1 as int) < work_layers(layers, es).len()
            &&& work_layers(layers, es)[e.1 as int] <= work_layers(layers, es)[e.0 as int] + 1
        },
    decreases es.len(),
{
    if es.len() > 0 {
        let es0 = es.drop_last();
        assert forall|k: int| 0 <= k < es0.len() implies ((#[trigger] es0[k]).0 as int) < ids.len() && (es0[k].1 as int) < ids.len() by {
            assert(es0[k] == es[k]);
        }
        lemma_no_edge_skips_a_layer(ids, layers, es0);
        let w0 = work_run(ids, layers, es0);
        let wl0 = work_layers(layers, es0);
        let e = es.last();
        assert(e == es[es.len() - 1]);
        let s = span(layers, e.0, e.1);
        let w = work_run(ids, layers, es);
        let wl = work_layers(layers, es);
        if s >= 2 {
            let d0 = w0.ids.len() as int;
            let ext = Seq::new((s - 1) as nat, |i: int| layers[e.0 as int] + i + 1);
            assert(wl == wl0 + ext);
            assert forall|i: int| 0 <= i < layers.len() implies #[trigger] wl[i] == layers[i] as int by {
                assert(wl[i] == wl0[i]);
            }
            let ce = chain_edges(e.0, e.1, d0, s - 1);
            assert(w.edges == w0.edges + ce);
            assert(wl.len() == d0 + s - 1);
            assert forall|k: int| 0 <= k < w.edges.len() implies {
                let f = #[trigger] w.edges[k];
                &&& (f.0 as int) < wl.len()
                &&& (f.1 as int) < wl.len()
                &&& wl[f.1 as int] <= wl[f.0 as int] + 1
            } by {
                if k < w0.edges.len() {
                    let f = w0.edges[k];
                    assert(w.edges[k] == f);
                    assert(wl[f.0 as int] == wl0[f.0 as int]);
                    assert(wl[f.1 as int] == wl0[f.1 as int]);
                } else {
                    let i = k - w0.edges.len();
                    let f = ce[i];
                    assert(w.edges[k] == f);
                    assert(0 <= i <= s - 1);
                    assert(d0 + s - 1 <= usize::MAX);
                    if i == 0 {
                        assert(wl[e.0 as int] == layers[e.0 as int] as int);
                    } else {
                        assert(wl[d0 + i - 1] == ext[i - 1]);
                    }
                    if i == s - 1 {
                        assert(wl[e.1 as int] == layers[e.1 as int] as int);
                    } else {
                        assert(wl[d0 + i] == ext[i]);
                    }
                }
            }
        } else {
            assert forall|k: int| 0 <= k < w.edges.len() implies {
                let f = #[trigger] w.edges[k];
                &&& (f.0 as int) < wl.len()
                &&& (f.1 as int) < wl.len()
                &&& wl[f.1 as int] <= wl[f.0 as int] + 1
            } by {
                if k < w0.edges.len() {
                    assert(w.edges[k] == w0.edges[k]);
                } else {
                    assert(w.edges[k] == e);
                    assert(wl[e.0 as int] == layers[e.0 as int] as int);
                    assert(wl[e.1 as int] == layers[e.1 as int] as int);
                }
            }
        }
    }
}

} // verus!
