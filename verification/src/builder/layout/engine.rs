//! Layering of the grid family (class and ER diagrams): breadth-first from
//! the roots.
//!
//! Nodes without incoming edges (self-loops left aside) start on layer 0;
//! each round places the nodes of the frontier that are not placed yet on
//! the current layer and gathers their unplaced targets for the next round.
//! When a round gathers nothing while nodes remain (a cycle that no root
//! reaches), the first unplaced node is taken next. Within a layer nodes
//! keep their source order. When every node has an incoming edge, all nodes
//! form a single layer.

use vstd::prelude::*;
use vstd::multiset::Multiset;

use crate::builder::ir::unigraph::{UGNode, Unigraph};

use super::crossing::{layer_view, layers_view};
use super::directed::{
    bucket_ids, bucket_layers, flat_multiset, ids_on, lemma_ids_on_member,
    lemma_index_edge, lemma_layers_flat, lemma_layers_partition_nodes, lemma_max_layer_bound, lemma_max_layer_ge, max_layer, ug_ids, ug_index_edges, ug_wf,
};
use super::graph_names::{
    graph_names, identity_ids, lemma_graph_names, lemma_names_of_wf_graph, name_edges, name_ids, number_names,
};
use super::types::NodeId;

verus! {

// ---------------------------------------------------------------------------
// Model
// ---------------------------------------------------------------------------

/// Targets of the edges leaving `u`, in edge order, self-loops left out.
pub open spec fn out_targets(es: Seq<(usize, usize)>, u: int) -> Seq<usize>
    decreases es.len(),
{
    if es.len() == 0 {
        Seq::empty()
    } else {
        let r = out_targets(es.drop_last(), u);
        let e = es.last();
        if e.0 == u && e.0 != e.1 { r.push(e.1) } else { r }
    }
}

/// Number of edges entering `v`, self-loops left out.
pub open spec fn in_count(es: Seq<(usize, usize)>, v: int) -> int
    decreases es.len(),
{
    if es.len() == 0 {
        0
    } else {
        let e = es.last();
        in_count(es.drop_last(), v) + if e.1 == v && e.0 != e.1 { 1int } else { 0int }
    }
}

/// Adjacency lists of nodes `0..n`.
pub open spec fn grid_adj(es: Seq<(usize, usize)>, n: int) -> Seq<Seq<usize>> {
    Seq::new(n as nat, |u: int| out_targets(es, u))
}

/// The nodes among `0..k` without incoming edges, in order.
pub open spec fn roots(es: Seq<(usize, usize)>, k: int) -> Seq<usize>
    decreases k,
{
    if k <= 0 {
        Seq::empty()
    } else {
        let r = roots(es, k - 1);
        if in_count(es, k - 1) == 0 { r.push((k - 1) as usize) } else { r }
    }
}

/// The targets in `ts` that are not placed in `lay` (a layer of -1 means
/// not placed).
pub open spec fn unplaced_of(ts: Seq<usize>, lay: Seq<int>) -> Seq<usize>
    decreases ts.len(),
{
    if ts.len() == 0 {
        Seq::empty()
    } else {
        let r = unplaced_of(ts.drop_last(), lay);
        if lay[ts.last() as int] < 0 { r.push(ts.last()) } else { r }
    }
}

/// One node of the frontier: placed on layer `d` unless already placed, its
/// unplaced targets then joining the next frontier.
pub open spec fn visit(st: (Seq<int>, Seq<usize>), id: usize, adj: Seq<Seq<usize>>, d: int) -> (Seq<int>, Seq<usize>) {
    if st.0[id as int] >= 0 {
        st
    } else {
        let l2 = st.0.update(id as int, d);
        (l2, st.1 + unplaced_of(adj[id as int], l2))
    }
}

/// The frontier, node by node.
pub open spec fn process(lay: Seq<int>, fr: Seq<usize>, adj: Seq<Seq<usize>>, d: int) -> (Seq<int>, Seq<usize>)
    decreases fr.len(),
{
    if fr.len() == 0 {
        (lay, Seq::empty())
    } else {
        visit(process(lay, fr.drop_last(), adj, d), fr.last(), adj, d)
    }
}

/// Number of placed nodes.
pub open spec fn placed_count(lay: Seq<int>) -> int
    decreases lay.len(),
{
    if lay.len() == 0 {
        0
    } else {
        placed_count(lay.drop_last()) + if lay.last() >= 0 { 1int } else { 0int }
    }
}

/// The first node that is not placed, or -1.
pub open spec fn first_unplaced(lay: Seq<int>) -> int
    decreases lay.len(),
{
    if lay.len() == 0 {
        -1
    } else {
        let r = first_unplaced(lay.drop_last());
        if r >= 0 { r } else if lay.last() < 0 { lay.len() - 1 } else { -1 }
    }
}

/// One round: the frontier on layer `d`; when it gathers nothing while
/// nodes remain, the first unplaced node becomes the next frontier.
pub open spec fn round(lay: Seq<int>, fr: Seq<usize>, adj: Seq<Seq<usize>>, d: int) -> (Seq<int>, Seq<usize>) {
    let r = process(lay, fr, adj, d);
    if r.1.len() == 0 && placed_count(r.0) < lay.len() {
        (r.0, seq![first_unplaced(r.0) as usize])
    } else {
        r
    }
}

/// Rounds from layer `d` on until the frontier is empty (at most `fuel`).
pub open spec fn rounds(lay: Seq<int>, fr: Seq<usize>, adj: Seq<Seq<usize>>, d: int, fuel: nat) -> Seq<int>
    decreases fuel,
{
    if fuel == 0 || fr.len() == 0 {
        lay
    } else {
        let r = round(lay, fr, adj, d);
        rounds(r.0, r.1, adj, d + 1, (fuel - 1) as nat)
    }
}

/// Layer of every node of a graph with `n` nodes, when some node is a root.
pub open spec fn grid_lay(es: Seq<(usize, usize)>, n: int) -> Seq<int> {
    rounds(Seq::new(n as nat, |i: int| -1int), roots(es, n), grid_adj(es, n), 0, (2 * n + 2) as nat)
}

/// The grid layers of a graph.
pub open spec fn spec_grid_layers(ug: Unigraph) -> Seq<Seq<Seq<char>>> {
    let n = ug.nodes@.len() as int;
    let es = ug_index_edges(ug);
    if n == 0 {
        Seq::empty()
    } else if roots(es, n).len() == 0 {
        seq![ug_ids(ug)]
    } else {
        bucket_layers(ug_ids(ug), grid_lay(es, n))
    }
}

// ---------------------------------------------------------------------------
// Any graph: repeated ids and edge ends that are no node
// ---------------------------------------------------------------------------

/// The nodes listed in `l`, in order and with repeats, that have no
/// incoming edge (self-loops aside).
pub open spec fn roots_in(es: Seq<(usize, usize)>, l: Seq<usize>) -> Seq<usize>
    decreases l.len(),
{
    if l.len() == 0 {
        Seq::empty()
    } else {
        let r = roots_in(es, l.drop_last());
        if in_count(es, l.last() as int) == 0 { r.push(l.last()) } else { r }
    }
}

/// The first node listed in `l` that is not placed, or -1.
pub open spec fn first_unplaced_in(l: Seq<usize>, lay: Seq<int>) -> int
    decreases l.len(),
{
    if l.len() == 0 {
        -1
    } else {
        let r = first_unplaced_in(l.drop_last(), lay);
        if r >= 0 { r } else if lay[l.last() as int] < 0 { l.last() as int } else { -1 }
    }
}

/// One round over all names, `l` listing the nodes: when the round gathers
/// nothing while fewer names are placed than `l` has entries, the first node
/// of `l` not placed, if any, is taken next.
pub open spec fn round_in(lay: Seq<int>, fr: Seq<usize>, adj: Seq<Seq<usize>>, d: int, l: Seq<usize>) -> (Seq<int>, Seq<usize>) {
    let r = process(lay, fr, adj, d);
    if r.1.len() == 0 && placed_count(r.0) < l.len() && first_unplaced_in(l, r.0) >= 0 {
        (r.0, seq![first_unplaced_in(l, r.0) as usize])
    } else {
        r
    }
}

/// Rounds from layer `d` on until the frontier is empty (at most `fuel`).
pub open spec fn rounds_in(lay: Seq<int>, fr: Seq<usize>, adj: Seq<Seq<usize>>, d: int, fuel: nat, l: Seq<usize>) -> Seq<int>
    decreases fuel,
{
    if fuel == 0 || fr.len() == 0 {
        lay
    } else {
        let r = round_in(lay, fr, adj, d, l);
        rounds_in(r.0, r.1, adj, d + 1, (fuel - 1) as nat, l)
    }
}

/// Layer of each of the `m` names (-1 when it gets none), the nodes being
/// those listed in `l`.
pub open spec fn grid_lay_in(es: Seq<(usize, usize)>, m: int, l: Seq<usize>) -> Seq<int> {
    rounds_in(Seq::new(m as nat, |i: int| -1int), roots_in(es, l), grid_adj(es, m), 0, (2 * m + 2) as nat, l)
}

/// The layer of each listed node, 0 for one without.
pub open spec fn id_layers(l: Seq<usize>, lay: Seq<int>) -> Seq<int> {
    l.map_values(|v: usize| if lay[v as int] >= 0 { lay[v as int] } else { 0 })
}

/// The grid layers of any graph. Its names (ids and edge ends) are layered
/// breadth-first from the nodes without incoming edges; the layers run up
/// to the highest layer of any name, and each lists, in source order, the
/// ids on it, an id without a layer counting as on layer 0.
pub open spec fn spec_grid_layers_any(ug: Unigraph) -> Seq<Seq<Seq<char>>> {
    let m = graph_names(ug).len() as int;
    let es = name_edges(ug);
    let l = name_ids(ug);
    if ug.nodes@.len() == 0 {
        Seq::empty()
    } else if roots_in(es, l).len() == 0 {
        seq![ug_ids(ug)]
    } else {
        let lay = grid_lay_in(es, m, l);
        Seq::new((max_layer(lay) + 1) as nat, |k: int| ids_on(ug_ids(ug), id_layers(l, lay), k))
    }
}

/// Progress measure of the rounds: twice the unplaced nodes, plus one while
/// the frontier holds no unplaced node; 0 once the frontier is empty.
pub open spec fn measure(lay: Seq<int>, fr: Seq<usize>) -> int {
    if fr.len() == 0 {
        0
    } else {
        2 * (lay.len() - placed_count(lay)) + if exists|j: int| 0 <= j < fr.len() && lay[fr[j] as int] < 0 {
            0int
        } else {
            1int
        }
    }
}

// ---------------------------------------------------------------------------
// Lemmas
// ---------------------------------------------------------------------------

proof fn lemma_placed_count_bounds(lay: Seq<int>)
    ensures
        0 <= placed_count(lay) <= lay.len(),
        placed_count(lay) == lay.len() ==> forall|i: int| 0 <= i < lay.len() ==> #[trigger] lay[i] >= 0,
        (forall|i: int| 0 <= i < lay.len() ==> #[trigger] lay[i] >= 0) ==> placed_count(lay) == lay.len(),
    decreases lay.len(),
{
    if lay.len() > 0 {
        lemma_placed_count_bounds(lay.drop_last());
        if forall|i: int| 0 <= i < lay.len() ==> #[trigger] lay[i] >= 0 {
            assert forall|i: int| 0 <= i < lay.len() - 1 implies #[trigger] lay.drop_last()[i] >= 0 by {
                assert(lay[i] >= 0);
            }
            assert(lay[lay.len() - 1] >= 0);
        }
        assert forall|i: int| 0 <= i < lay.len() && placed_count(lay) == lay.len() implies #[trigger] lay[i] >= 0 by {
            if i < lay.len() - 1 {
                assert(lay.drop_last()[i] == lay[i]);
            }
        }
    }
}

/// Placing more nodes never lowers the count, and placing one more raises it.
proof fn lemma_placed_count_mono(a: Seq<int>, b: Seq<int>)
    requires
        a.len() == b.len(),
        forall|i: int| 0 <= i < a.len() && #[trigger] a[i] >= 0 ==> b[i] >= 0,
    ensures
        placed_count(a) <= placed_count(b),
        (exists|j: int| 0 <= j < a.len() && a[j] < 0 && b[j] >= 0) ==> placed_count(a) < placed_count(b),
    decreases a.len(),
{
    if a.len() > 0 {
        let a2 = a.drop_last();
        let b2 = b.drop_last();
        assert forall|i: int| 0 <= i < a2.len() && #[trigger] a2[i] >= 0 implies b2[i] >= 0 by {
            assert(a[i] >= 0);
        }
        lemma_placed_count_mono(a2, b2);
        if exists|j: int| 0 <= j < a.len() && a[j] < 0 && b[j] >= 0 {
            let j = choose|j: int| 0 <= j < a.len() && a[j] < 0 && b[j] >= 0;
            if j < a.len() - 1 {
                assert(a2[j] < 0 && b2[j] >= 0);
            }
        }
    }
}

proof fn lemma_first_unplaced_shape(lay: Seq<int>)
    ensures
        first_unplaced(lay) >= 0 ==> first_unplaced(lay) < lay.len() && lay[first_unplaced(lay)] < 0,
        first_unplaced(lay) < 0 ==> first_unplaced(lay) == -1 && forall|i: int| 0 <= i < lay.len() ==> #[trigger] lay[i] >= 0,
    decreases lay.len(),
{
    if lay.len() > 0 {
        let t = lay.drop_last();
        lemma_first_unplaced_shape(t);
        if first_unplaced(lay) < 0 {
            assert forall|i: int| 0 <= i < lay.len() implies #[trigger] lay[i] >= 0 by {
                if i < lay.len() - 1 {
                    assert(t[i] >= 0);
                }
            }
        }
    }
}

proof fn lemma_first_unplaced(lay: Seq<int>)
    requires
        placed_count(lay) < lay.len(),
    ensures
        0 <= first_unplaced(lay) < lay.len(),
        lay[first_unplaced(lay)] < 0,
{
    lemma_first_unplaced_shape(lay);
    lemma_placed_count_bounds(lay);
}

proof fn lemma_unplaced_of_range(ts: Seq<usize>, lay: Seq<int>, n: int)
    requires
        forall|i: int| 0 <= i < ts.len() ==> #[trigger] ts[i] < n,
    ensures
        forall|i: int| 0 <= i < unplaced_of(ts, lay).len() ==> #[trigger] unplaced_of(ts, lay)[i] < n,
    decreases ts.len(),
{
    if ts.len() > 0 {
        let t = ts.drop_last();
        assert forall|i: int| 0 <= i < t.len() implies #[trigger] t[i] < n by {
            assert(t[i] == ts[i]);
        }
        lemma_unplaced_of_range(t, lay, n);
        assert(ts.last() == ts[ts.len() - 1]);
        let r = unplaced_of(t, lay);
        if lay[ts.last() as int] < 0 {
            assert forall|i: int| 0 <= i < r.push(ts.last()).len() implies #[trigger] r.push(ts.last())[i] < n by {
                if i < r.len() {
                    assert(r.push(ts.last())[i] == r[i]);
                }
            }
        }
    }
}

/// Well-formed adjacency: `n` lists, targets in `0..n`.
pub open spec fn adj_wf(adj: Seq<Seq<usize>>, n: int) -> bool {
    &&& adj.len() == n
    &&& forall|u: int, i: int| 0 <= u < n && 0 <= i < adj[u].len() ==> #[trigger] adj[u][i] < n
}

/// What a frontier keeps: the layers already given stay, the new ones are
/// `d`, every frontier node ends up placed, and the next frontier lies in
/// `0..n`.
proof fn lemma_process(lay: Seq<int>, fr: Seq<usize>, adj: Seq<Seq<usize>>, d: int)
    requires
        adj_wf(adj, lay.len() as int),
        forall|j: int| 0 <= j < fr.len() ==> #[trigger] fr[j] < lay.len(),
        d >= 0,
    ensures
        process(lay, fr, adj, d).0.len() == lay.len(),
        forall|i: int| 0 <= i < lay.len() && lay[i] >= 0 ==> #[trigger] process(lay, fr, adj, d).0[i] == lay[i],
        forall|i: int| 0 <= i < lay.len() && lay[i] < 0 ==>
            #[trigger] process(lay, fr, adj, d).0[i] < 0 || process(lay, fr, adj, d).0[i] == d,
        forall|j: int| 0 <= j < fr.len() ==> process(lay, fr, adj, d).0[#[trigger] fr[j] as int] >= 0,
        forall|i: int| 0 <= i < process(lay, fr, adj, d).1.len() ==> #[trigger] process(lay, fr, adj, d).1[i] < lay.len(),
    decreases fr.len(),
{
    if fr.len() > 0 {
        let f2 = fr.drop_last();
        assert forall|j: int| 0 <= j < f2.len() implies #[trigger] f2[j] < lay.len() by {
            assert(f2[j] == fr[j]);
        }
        lemma_process(lay, f2, adj, d);
        let st = process(lay, f2, adj, d);
        let id = fr.last();
        assert(id == fr[fr.len() - 1]);
        if st.0[id as int] < 0 {
            let l2 = st.0.update(id as int, d);
            assert forall|i: int| 0 <= i < adj[id as int].len() implies #[trigger] adj[id as int][i] < lay.len() by {}
            lemma_unplaced_of_range(adj[id as int], l2, lay.len() as int);
            let nx = st.1 + unplaced_of(adj[id as int], l2);
            assert forall|i: int| 0 <= i < nx.len() implies #[trigger] nx[i] < lay.len() by {
                if i < st.1.len() {
                    assert(nx[i] == st.1[i]);
                } else {
                    assert(nx[i] == unplaced_of(adj[id as int], l2)[i - st.1.len()]);
                }
            }
        }
        let r = process(lay, fr, adj, d);
        assert forall|j: int| 0 <= j < fr.len() implies r.0[#[trigger] fr[j] as int] >= 0 by {
            if j < fr.len() - 1 {
                assert(f2[j] == fr[j]);
                assert(st.0[f2[j] as int] >= 0);
            }
        }
    }
}

/// Each round with a non-empty frontier lowers the measure.
proof fn lemma_round_progress(lay: Seq<int>, fr: Seq<usize>, adj: Seq<Seq<usize>>, d: int)
    requires
        adj_wf(adj, lay.len() as int),
        forall|j: int| 0 <= j < fr.len() ==> #[trigger] fr[j] < lay.len(),
        fr.len() > 0,
        d >= 0,
        lay.len() <= usize::MAX,
    ensures
        round(lay, fr, adj, d).0.len() == lay.len(),
        measure(round(lay, fr, adj, d).0, round(lay, fr, adj, d).1) < measure(lay, fr),
        forall|j: int| 0 <= j < round(lay, fr, adj, d).1.len() ==> #[trigger] round(lay, fr, adj, d).1[j] < lay.len(),
        round(lay, fr, adj, d).1.len() == 0 ==> placed_count(round(lay, fr, adj, d).0) == lay.len(),
        forall|i: int| 0 <= i < lay.len() && lay[i] >= 0 ==> #[trigger] round(lay, fr, adj, d).0[i] == lay[i],
        forall|i: int| 0 <= i < lay.len() && lay[i] < 0 ==>
            #[trigger] round(lay, fr, adj, d).0[i] < 0 || round(lay, fr, adj, d).0[i] == d,
{
    lemma_process(lay, fr, adj, d);
    let p = process(lay, fr, adj, d);
    let r = round(lay, fr, adj, d);
    lemma_placed_count_bounds(lay);
    lemma_placed_count_bounds(p.0);
    assert forall|i: int| 0 <= i < lay.len() && #[trigger] lay[i] >= 0 implies p.0[i] >= 0 by {}
    lemma_placed_count_mono(lay, p.0);
    if p.1.len() == 0 && placed_count(p.0) < lay.len() {
        lemma_first_unplaced(p.0);
        assert(r.1[0] == first_unplaced(p.0) as usize);
        assert(p.0[r.1[0] as int] < 0);
    }
    if exists|j: int| 0 <= j < fr.len() && lay[fr[j] as int] < 0 {
        let j = choose|j: int| 0 <= j < fr.len() && lay[fr[j] as int] < 0;
        assert(p.0[fr[j] as int] >= 0);
        assert(placed_count(lay) < placed_count(p.0));
    } else {
        assert(lay.len() > 0) by {
            assert(fr[0] < lay.len());
        }
        lemma_no_new_placement(lay, fr, adj, d, 0);
    }
}

/// When every frontier node is already placed, a round places nothing.
proof fn lemma_no_new_placement(lay: Seq<int>, fr: Seq<usize>, adj: Seq<Seq<usize>>, d: int, i: int)
    requires
        forall|j: int| 0 <= j < fr.len() ==> lay[#[trigger] fr[j] as int] >= 0,
        0 <= i < lay.len(),
    ensures
        process(lay, fr, adj, d).0 == lay,
        process(lay, fr, adj, d).1.len() == 0,
    decreases fr.len(),
{
    if fr.len() > 0 {
        let f2 = fr.drop_last();
        assert forall|j: int| 0 <= j < f2.len() implies lay[#[trigger] f2[j] as int] >= 0 by {
            assert(f2[j] == fr[j]);
        }
        lemma_no_new_placement(lay, f2, adj, d, i);
        assert(lay[fr[fr.len() - 1] as int] >= 0);
    }
}

// ---------------------------------------------------------------------------
// Executable code
// ---------------------------------------------------------------------------

/// Layer of a node as an integer: -1 when not placed.
pub open spec fn lay_of(o: Option<usize>) -> int {
    match o {
        Some(x) => x as int,
        None => -1,
    }
}

/// Layers of all nodes as integers.
pub open spec fn lay_view(v: Seq<Option<usize>>) -> Seq<int> {
    v.map_values(|o: Option<usize>| lay_of(o))
}

/// The adjacency lists as sequences.
pub open spec fn adj_view(adj: Seq<Vec<usize>>) -> Seq<Seq<usize>> {
    adj.map_values(|a: Vec<usize>| a@)
}

proof fn lemma_in_count_le(es: Seq<(usize, usize)>, v: int)
    ensures
        0 <= in_count(es, v) <= es.len(),
    decreases es.len(),
{
    if es.len() > 0 {
        lemma_in_count_le(es.drop_last(), v);
    }
}

/// In-degrees and adjacency lists of nodes `0..n`, self-loops left out.
fn degrees_and_adjacency(n: usize, es: &Vec<(usize, usize)>) -> (r: (Vec<usize>, Vec<Vec<usize>>))
    requires
        forall|k: int| 0 <= k < es@.len() ==> (#[trigger] es@[k]).0 < n && es@[k].1 < n,
    ensures
        r.0@.len() == n,
        forall|v: int| 0 <= v < n ==> #[trigger] r.0@[v] as int == in_count(es@, v),
        adj_view(r.1@) == grid_adj(es@, n as int),
{
    let mut indeg: Vec<usize> = Vec::new();
    let mut adj: Vec<Vec<usize>> = Vec::new();
    let mut i: usize = 0;
    while i < n
        invariant
            i <= n,
            indeg@.len() == i,
            adj@.len() == i,
            forall|v: int| 0 <= v < i ==> #[trigger] indeg@[v] == 0,
            forall|v: int| 0 <= v < i ==> (#[trigger] adj@[v])@ == Seq::<usize>::empty(),
        decreases n - i,
    {
        indeg.push(0);
        adj.push(Vec::new());
        i = i + 1;
    }
    let mut k: usize = 0;
    assert(es@.take(0) =~= Seq::<(usize, usize)>::empty());
    while k < es.len()
        invariant
            k <= es@.len(),
            indeg@.len() == n,
            adj@.len() == n,
            forall|j: int| 0 <= j < es@.len() ==> (#[trigger] es@[j]).0 < n && es@[j].1 < n,
            forall|v: int| 0 <= v < n ==> #[trigger] indeg@[v] as int == in_count(es@.take(k as int), v),
            forall|v: int| 0 <= v < n ==> (#[trigger] adj@[v])@ == out_targets(es@.take(k as int), v),
        decreases es@.len() - k,
    {
        let ghost t = es@.take(k + 1);
        assert(t.drop_last() =~= es@.take(k as int));
        let (u, v) = es[k];
        assert(t.last() == (u, v));
        if u != v {
            proof {
                lemma_in_count_le(es@.take(k as int), v as int);
            }
            let d = indeg[v];
            indeg.set(v, d + 1);
            let mut row = adj[u].clone();
            row.push(v);
            adj.set(u, row);
        }
        k = k + 1;
    }
    assert(es@.take(es@.len() as int) =~= es@);
    assert(adj_view(adj@) =~= grid_adj(es@, n as int));
    (indeg, adj)
}

/// The nodes listed in `l` without incoming edges, in order.
fn roots_in_exec(indeg: &Vec<usize>, l: &Vec<usize>, Ghost(es): Ghost<Seq<(usize, usize)>>) -> (r: Vec<usize>)
    requires
        forall|v: int| 0 <= v < indeg@.len() ==> #[trigger] indeg@[v] as int == in_count(es, v),
        forall|i: int| 0 <= i < l@.len() ==> #[trigger] l@[i] < indeg@.len(),
    ensures
        r@ == roots_in(es, l@),
{
    let mut r: Vec<usize> = Vec::new();
    let mut i: usize = 0;
    assert(l@.take(0) =~= Seq::<usize>::empty());
    while i < l.len()
        invariant
            i <= l@.len(),
            forall|v: int| 0 <= v < indeg@.len() ==> #[trigger] indeg@[v] as int == in_count(es, v),
            forall|j: int| 0 <= j < l@.len() ==> #[trigger] l@[j] < indeg@.len(),
            r@ == roots_in(es, l@.take(i as int)),
        decreases l@.len() - i,
    {
        assert(l@.take(i + 1).drop_last() =~= l@.take(i as int));
        assert(l@.take(i + 1).last() == l@[i as int]);
        if indeg[l[i]] == 0 {
            r.push(l[i]);
        }
        i = i + 1;
    }
    assert(l@.take(l@.len() as int) =~= l@);
    r
}

proof fn lemma_first_unplaced_in(l: Seq<usize>, lay: Seq<int>)
    requires
        forall|i: int| 0 <= i < l.len() ==> #[trigger] l[i] < lay.len(),
    ensures
        first_unplaced_in(l, lay) >= 0 ==> first_unplaced_in(l, lay) < lay.len() && lay[first_unplaced_in(l, lay)] < 0,
        first_unplaced_in(l, lay) < 0 ==> first_unplaced_in(l, lay) == -1
            && forall|i: int| 0 <= i < l.len() ==> lay[#[trigger] l[i] as int] >= 0,
    decreases l.len(),
{
    if l.len() > 0 {
        let d = l.drop_last();
        assert forall|i: int| 0 <= i < d.len() implies #[trigger] d[i] < lay.len() by {
            assert(d[i] == l[i]);
        }
        lemma_first_unplaced_in(d, lay);
        assert(l[l.len() - 1] == l.last());
        if first_unplaced_in(l, lay) < 0 {
            assert forall|i: int| 0 <= i < l.len() implies lay[#[trigger] l[i] as int] >= 0 by {
                if i < l.len() - 1 {
                    assert(d[i] == l[i]);
                }
            }
        }
    }
}

/// The first node listed in `l` that is not placed.
fn first_unplaced_in_exec(l: &Vec<usize>, layer_of: &Vec<Option<usize>>) -> (r: Option<usize>)
    requires
        forall|i: int| 0 <= i < l@.len() ==> #[trigger] l@[i] < layer_of@.len(),
    ensures
        match r {
            Some(v) => v as int == first_unplaced_in(l@, lay_view(layer_of@)),
            None => first_unplaced_in(l@, lay_view(layer_of@)) == -1,
        },
{
    let ghost lv = lay_view(layer_of@);
    let mut i: usize = 0;
    assert(l@.take(0) =~= Seq::<usize>::empty());
    while i < l.len()
        invariant
            i <= l@.len(),
            lv == lay_view(layer_of@),
            forall|j: int| 0 <= j < l@.len() ==> #[trigger] l@[j] < layer_of@.len(),
            first_unplaced_in(l@.take(i as int), lv) == -1,
        decreases l@.len() - i,
    {
        let ghost t = l@.take(i + 1);
        assert(t.drop_last() =~= l@.take(i as int));
        assert(t.last() == l@[i as int]);
        let v = l[i];
        if layer_of[v].is_none() {
            assert(first_unplaced_in(t, lv) == v as int);
            proof {
                lemma_first_unplaced_in_prefix(l@, lv, i + 1);
            }
            return Some(v);
        }
        i = i + 1;
    }
    assert(l@.take(l@.len() as int) =~= l@);
    None
}

proof fn lemma_first_unplaced_in_prefix(l: Seq<usize>, lay: Seq<int>, k: int)
    requires
        0 <= k <= l.len(),
        first_unplaced_in(l.take(k), lay) >= 0,
    ensures
        first_unplaced_in(l, lay) == first_unplaced_in(l.take(k), lay),
    decreases l.len(),
{
    if k == l.len() {
        assert(l.take(k) =~= l);
    } else {
        assert(l.drop_last().take(k) =~= l.take(k));
        lemma_first_unplaced_in_prefix(l.drop_last(), lay, k);
    }
}

/// Each round with a non-empty frontier lowers the measure.
proof fn lemma_round_in_progress(lay: Seq<int>, fr: Seq<usize>, adj: Seq<Seq<usize>>, d: int, l: Seq<usize>)
    requires
        adj_wf(adj, lay.len() as int),
        forall|j: int| 0 <= j < fr.len() ==> #[trigger] fr[j] < lay.len(),
        forall|i: int| 0 <= i < l.len() ==> #[trigger] l[i] < lay.len(),
        fr.len() > 0,
        d >= 0,
        lay.len() <= usize::MAX,
    ensures
        round_in(lay, fr, adj, d, l).0 == round(lay, fr, adj, d).0,
        measure(round_in(lay, fr, adj, d, l).0, round_in(lay, fr, adj, d, l).1) < measure(lay, fr),
        forall|j: int| 0 <= j < round_in(lay, fr, adj, d, l).1.len() ==> #[trigger] round_in(lay, fr, adj, d, l).1[j] < lay.len(),
{
    lemma_round_progress(lay, fr, adj, d);
    lemma_process(lay, fr, adj, d);
    let p = process(lay, fr, adj, d);
    let r = round(lay, fr, adj, d);
    let q = round_in(lay, fr, adj, d, l);
    lemma_placed_count_bounds(lay);
    lemma_placed_count_bounds(p.0);
    lemma_first_unplaced_in(l, p.0);
    if p.1.len() == 0 {
        if placed_count(p.0) < l.len() && first_unplaced_in(l, p.0) >= 0 {
            let f = first_unplaced_in(l, p.0);
            assert(p.0[f] < 0);
            assert(placed_count(p.0) < p.0.len());
            lemma_first_unplaced(p.0);
            assert(r.1 == seq![first_unplaced(p.0) as usize]);
            assert(q.1 == seq![f as usize]);
            assert(p.0[q.1[0] as int] < 0);
            assert(p.0[r.1[0] as int] < 0);
            assert(measure(q.0, q.1) == measure(r.0, r.1));
        } else {
            assert(q.1.len() == 0);
            if placed_count(lay) == lay.len() {
                assert(lay[fr[0] as int] >= 0);
                assert(measure(lay, fr) >= 1);
            }
        }
    }
}

proof fn lemma_max_layer_nonneg(lay: Seq<int>)
    ensures
        max_layer(lay) >= 0,
    decreases lay.len(),
{
    if lay.len() > 0 {
        lemma_max_layer_nonneg(lay.drop_last());
    }
}

/// The layer of every listed node and the highest layer of any name, by
/// rounds from the roots.
fn bfs_layers(
    adj: &Vec<Vec<usize>>,
    frontier0: Vec<usize>,
    l: &Vec<usize>,
    Ghost(es): Ghost<Seq<(usize, usize)>>,
) -> (r: (Vec<usize>, usize))
    requires
        adj@.len() < usize::MAX / 2,
        adj_view(adj@) == grid_adj(es, adj@.len() as int),
        adj_wf(adj_view(adj@), adj@.len() as int),
        frontier0@ == roots_in(es, l@),
        forall|j: int| 0 <= j < frontier0@.len() ==> #[trigger] frontier0@[j] < adj@.len(),
        forall|i: int| 0 <= i < l@.len() ==> #[trigger] l@[i] < adj@.len(),
    ensures
        r.0@.len() == l@.len(),
        r.0@.map_values(|x: usize| x as int) == id_layers(l@, grid_lay_in(es, adj@.len() as int, l@)),
        r.1 as int == max_layer(grid_lay_in(es, adj@.len() as int, l@)),
        r.1 < usize::MAX,
        forall|i: int| 0 <= i < r.0@.len() ==> #[trigger] r.0@[i] <= r.1,
{
    let n = adj.len();
    let ghost av = adj_view(adj@);
    let ghost fuel: int = 2 * n + 2;
    let mut layer_of: Vec<Option<usize>> = Vec::new();
    let mut i: usize = 0;
    while i < n
        invariant
            i <= n,
            layer_of@.len() == i,
            forall|v: int| 0 <= v < i ==> #[trigger] layer_of@[v] is None,
        decreases n - i,
    {
        layer_of.push(None);
        i = i + 1;
    }
    assert(lay_view(layer_of@) =~= Seq::new(n as nat, |i: int| -1int));
    proof {
        lemma_placed_count_bounds(lay_view(layer_of@));
        assert(placed_count(lay_view(layer_of@)) == 0) by {
            lemma_placed_none(lay_view(layer_of@));
        }
        if frontier0@.len() > 0 {
            assert(measure(lay_view(layer_of@), frontier0@) <= 2 * n + 1) by {
                assert(lay_view(layer_of@)[frontier0@[0] as int] < 0);
            }
        }
    }
    let mut placed: usize = 0;
    let mut frontier = frontier0;
    let mut depth: usize = 0;
    while frontier.len() > 0
        invariant
            n == adj@.len(),
            n < usize::MAX / 2,
            av == adj_view(adj@),
            av == grid_adj(es, n as int),
            adj_wf(av, n as int),
            layer_of@.len() == n,
            placed as int == placed_count(lay_view(layer_of@)),
            forall|j: int| 0 <= j < frontier@.len() ==> #[trigger] frontier@[j] < n,
            forall|q: int| 0 <= q < l@.len() ==> #[trigger] l@[q] < n,
            forall|v: int| 0 <= v < n ==> #[trigger] lay_view(layer_of@)[v] < depth,
            depth + measure(lay_view(layer_of@), frontier@) <= fuel,
            fuel == 2 * n + 2,
            grid_lay_in(es, n as int, l@) == rounds_in(lay_view(layer_of@), frontier@, av, depth as int, (fuel - depth) as nat, l@),
        decreases measure(lay_view(layer_of@), frontier@),
    {
        let ghost lay0 = lay_view(layer_of@);
        let ghost fr0 = frontier@;
        proof {
            lemma_placed_count_bounds(lay0);
            lemma_round_in_progress(lay0, fr0, av, depth as int, l@);
            lemma_process(lay0, fr0, av, depth as int);
        }
        let mut next: Vec<usize> = Vec::new();
        let mut j: usize = 0;
        assert(fr0.take(0) =~= Seq::<usize>::empty());
        while j < frontier.len()
            invariant
                n == adj@.len(),
                av == adj_view(adj@),
                adj_wf(av, n as int),
                layer_of@.len() == n,
                fr0 == frontier@,
                j <= frontier@.len(),
                forall|q: int| 0 <= q < frontier@.len() ==> #[trigger] frontier@[q] < n,
                (lay_view(layer_of@), next@) == process(lay0, fr0.take(j as int), av, depth as int),
                placed as int == placed_count(lay_view(layer_of@)),
                placed <= n,
            decreases frontier@.len() - j,
        {
            let ghost t = fr0.take(j + 1);
            assert(t.drop_last() =~= fr0.take(j as int));
            let id = frontier[j];
            assert(t.last() == id);
            if layer_of[id].is_none() {
                let ghost before = lay_view(layer_of@);
                layer_of.set(id, Some(depth));
                let ghost l2 = lay_view(layer_of@);
                assert(l2 =~= before.update(id as int, depth as int));
                proof {
                    lemma_placed_count_update(before, id as int, depth as int);
                    lemma_placed_count_bounds(l2);
                }
                placed = placed + 1;
                let outs = &adj[id];
                assert(outs@ == av[id as int]);
                let ghost next_before = next@;
                let mut k: usize = 0;
                assert(outs@.take(0) =~= Seq::<usize>::empty());
                while k < outs.len()
                    invariant
                        k <= outs@.len(),
                        n == adj@.len(),
                        layer_of@.len() == n,
                        l2 == lay_view(layer_of@),
                        forall|q: int| 0 <= q < outs@.len() ==> #[trigger] outs@[q] < n,
                        next@ == next_before + unplaced_of(outs@.take(k as int), l2),
                    decreases outs@.len() - k,
                {
                    let ghost tt = outs@.take(k + 1);
                    assert(tt.drop_last() =~= outs@.take(k as int));
                    let tgt = outs[k];
                    assert(tt.last() == tgt);
                    if layer_of[tgt].is_none() {
                        next.push(tgt);
                    }
                    assert(next@ =~= next_before + unplaced_of(tt, l2));
                    k = k + 1;
                }
                assert(outs@.take(outs@.len() as int) =~= outs@);
            }
            j = j + 1;
        }
        assert(fr0.take(fr0.len() as int) =~= fr0);
        if next.len() == 0 && placed < l.len() {
            match first_unplaced_in_exec(l, &layer_of) {
                Some(f) => {
                    next.push(f);
                },
                None => {},
            }
        }
        proof {
            let r = round_in(lay0, fr0, av, depth as int, l@);
            assert(lay_view(layer_of@) == r.0);
            assert(next@ =~= r.1);
            assert forall|v: int| 0 <= v < n implies #[trigger] lay_view(layer_of@)[v] < depth + 1 by {
                assert(lay0[v] < depth);
                lemma_round_progress(lay0, fr0, av, depth as int);
            }
        }
        depth = depth + 1;
        frontier = next;
    }
    let ghost lv = lay_view(layer_of@);
    assert(lv == grid_lay_in(es, n as int, l@));
    proof {
        lemma_placed_count_bounds(lv);
    }
    let mut maxl: usize = 0;
    let mut v: usize = 0;
    assert(lv.take(0) =~= Seq::<int>::empty());
    while v < n
        invariant
            v <= n,
            layer_of@.len() == n,
            lv == lay_view(layer_of@),
            forall|q: int| 0 <= q < n ==> #[trigger] lv[q] < depth,
            depth <= 2 * n + 2,
            n < usize::MAX / 2,
            maxl as int == max_layer(lv.take(v as int)),
            maxl <= depth,
        decreases n - v,
    {
        assert(lv.take(v + 1).drop_last() =~= lv.take(v as int));
        assert(lv.take(v + 1).last() == lv[v as int]);
        proof {
            lemma_max_layer_nonneg(lv.take(v as int));
        }
        match layer_of[v] {
            Some(x) => {
                if x > maxl {
                    maxl = x;
                }
            },
            None => {},
        }
        v = v + 1;
    }
    assert(lv.take(n as int) =~= lv);
    proof {
        lemma_max_layer_nonneg(lv);
    }
    let mut layer: Vec<usize> = Vec::new();
    let mut q: usize = 0;
    while q < l.len()
        invariant
            q <= l@.len(),
            layer_of@.len() == n,
            lv == lay_view(layer_of@),
            forall|p: int| 0 <= p < l@.len() ==> #[trigger] l@[p] < n,
            maxl as int == max_layer(lv),
            maxl <= depth,
            depth <= 2 * n + 2,
            n < usize::MAX / 2,
            layer@.len() == q,
            forall|p: int| 0 <= p < q ==> #[trigger] layer@[p] as int == id_layers(l@, lv)[p],
            forall|p: int| 0 <= p < q ==> #[trigger] layer@[p] <= maxl,
        decreases l@.len() - q,
    {
        let w = l[q];
        let x: usize = match layer_of[w] {
            Some(x) => x,
            None => 0,
        };
        proof {
            if lv[w as int] >= 0 {
                lemma_max_layer_ge(lv, w as int);
            }
        }
        layer.push(x);
        q = q + 1;
    }
    assert(layer@.map_values(|x: usize| x as int) =~= id_layers(l@, lv));
    (layer, maxl)
}

proof fn lemma_placed_none(lay: Seq<int>)
    requires
        forall|i: int| 0 <= i < lay.len() ==> #[trigger] lay[i] < 0,
    ensures
        placed_count(lay) == 0,
    decreases lay.len(),
{
    if lay.len() > 0 {
        assert forall|i: int| 0 <= i < lay.len() - 1 implies #[trigger] lay.drop_last()[i] < 0 by {
            assert(lay[i] < 0);
        }
        lemma_placed_none(lay.drop_last());
        assert(lay[lay.len() - 1] < 0);
    }
}

proof fn lemma_placed_count_update(lay: Seq<int>, i: int, d: int)
    requires
        0 <= i < lay.len(),
        lay[i] < 0,
        d >= 0,
    ensures
        placed_count(lay.update(i, d)) == placed_count(lay) + 1,
    decreases lay.len(),
{
    let u = lay.update(i, d);
    if i < lay.len() - 1 {
        assert(u.drop_last() =~= lay.drop_last().update(i, d));
        lemma_placed_count_update(lay.drop_last(), i, d);
    } else {
        assert(u.drop_last() =~= lay.drop_last());
    }
}

/// Breadth-first layering of a class or ER graph: nodes without incoming
/// edges (self-loops aside) on layer 0, then round by round the unplaced
/// targets of the last round's nodes; a cycle that no root reaches starts
/// from its first node once nothing else is left. Layers keep the source
/// order of their nodes, and empty layers between used ones are kept. With
/// no node free of incoming edges the result is one layer holding every
/// node; with no node at all it is empty.
///
/// The graph may repeat an id or have edge ends that are no node: the
/// search then runs over every name the graph speaks of, starting from the
/// listed nodes, and a fresh start is taken only while fewer names are
/// placed than nodes are listed. The layers run up to the highest layer of
/// any name, and an id that no round placed stands on layer 0. With
/// distinct ids and every edge end a node, this is [`spec_grid_layers`].
pub fn grid_layers(ug: &Unigraph) -> (r: Vec<Vec<NodeId>>)
    requires
        ug.nodes@.len() + 2 * ug.edges@.len() < usize::MAX / 2,
    ensures
        layers_view(r@) == spec_grid_layers_any(*ug),
        flat_multiset(layers_view(r@)) == ug_ids(*ug).to_multiset(),
        ug.nodes@.len() == 0 ==> layers_view(r@) == Seq::<Seq<Seq<char>>>::empty(),
        ug.nodes@.len() > 0 && roots_in(name_edges(*ug), name_ids(*ug)).len() == 0 ==> layers_view(r@) == seq![ug_ids(*ug)],
        ug_wf(*ug) ==> layers_view(r@) == spec_grid_layers(*ug),
        ug_wf(*ug) && ug.nodes@.len() > 0 && roots(ug_index_edges(*ug), ug.nodes@.len() as int).len() == 0
            ==> layers_view(r@) == seq![ug_ids(*ug)],
        ug_wf(*ug) && ug.nodes@.len() > 0 && roots(ug_index_edges(*ug), ug.nodes@.len() as int).len() > 0 ==> {
            &&& flat_multiset(layers_view(r@)) == ug_ids(*ug).to_multiset()
            &&& layers_view(r@)[0] == roots(ug_index_edges(*ug), ug.nodes@.len() as int).map_values(
                |v: usize| ug_ids(*ug)[v as int],
            )
            &&& forall|k: int| 0 <= k < layers_view(r@).len() ==> #[trigger] layers_view(r@)[k] == ids_on(
                ug_ids(*ug),
                grid_lay(ug_index_edges(*ug), ug.nodes@.len() as int),
                k,
            )
            &&& all_reached(ug_index_edges(*ug), ug.nodes@.len() as int) ==> forall|k: int, x: Seq<char>|
                0 <= k < layers_view(r@).len() && #[trigger] layers_view(r@)[k].contains(x) ==> exists|v: int|
                    0 <= v < ug.nodes@.len() && ug_ids(*ug)[v] == x && is_depth(
                    ug_index_edges(*ug),
                    ug.nodes@.len() as int,
                    v,
                    k,
                )
        },
{
    proof {
        if ug_wf(*ug) {
            lemma_grid_layers_any_wf(*ug);
            lemma_grid_layering(*ug);
        }
        lemma_graph_names(*ug);
    }
    let n = ug.nodes.len();
    if n == 0 {
        let r: Vec<Vec<NodeId>> = Vec::new();
        assert(layers_view(r@) =~= Seq::<Seq<Seq<char>>>::empty());
        proof {
            assert(ug_ids(*ug) =~= Seq::<Seq<char>>::empty());
            ug_ids(*ug).to_multiset_ensures();
            assert(ug_ids(*ug).to_multiset() =~= Multiset::<Seq<char>>::empty());
        }
        return r;
    }
    let (names, nid, ne, _) = number_names(ug);
    let m = names.len();
    proof {
        assert(layer_view(names@).len() == names@.len());
    }
    let (indeg, adj) = degrees_and_adjacency(m, &ne);
    assert(adj@.len() == adj_view(adj@).len());
    let frontier = roots_in_exec(&indeg, &nid, Ghost(ne@));
    proof {
        assert forall|u: int, i: int| 0 <= u < m && 0 <= i < adj_view(adj@)[u].len() implies
            #[trigger] adj_view(adj@)[u][i] < m by {
            lemma_out_targets_range(ne@, u, m as int);
        }
        lemma_roots_in_range(ne@, nid@, m as int);
    }
    if frontier.len() == 0 {
        let mut ids: Vec<NodeId> = Vec::new();
        let mut i: usize = 0;
        while i < n
            invariant
                i <= n,
                n == ug.nodes@.len(),
                layer_view(ids@) == ug_ids(*ug).take(i as int),
            decreases n - i,
        {
            let id = ug.nodes[i].id.clone();
            let ghost before = ids@;
            ids.push(id);
            assert(ug_ids(*ug)[i as int] == ug.nodes@[i as int].id@);
            assert(layer_view(ids@) =~= layer_view(before).push(ug.nodes@[i as int].id@));
            assert(layer_view(ids@) =~= ug_ids(*ug).take(i + 1));
            i = i + 1;
        }
        assert(ug_ids(*ug).take(n as int) =~= ug_ids(*ug));
        let mut r: Vec<Vec<NodeId>> = Vec::new();
        r.push(ids);
        assert(layers_view(r@) =~= seq![ug_ids(*ug)]);
        proof {
            let one = seq![ug_ids(*ug)];
            assert(one.drop_last() =~= Seq::<Seq<Seq<char>>>::empty());
            assert(one.last() == ug_ids(*ug));
            assert(flat_multiset(one.drop_last()) == Multiset::<Seq<char>>::empty());
            assert(flat_multiset(one) == Multiset::<Seq<char>>::empty().add(ug_ids(*ug).to_multiset()));
            assert(Multiset::<Seq<char>>::empty().add(ug_ids(*ug).to_multiset()) =~= ug_ids(*ug).to_multiset());
            assert(flat_multiset(layers_view(r@)) == ug_ids(*ug).to_multiset());
        }
        return r;
    }
    let (layer, maxl) = bfs_layers(&adj, frontier, &nid, Ghost(ne@));
    let ghost lay = grid_lay_in(ne@, m as int, nid@);
    let ghost li = layer@.map_values(|x: usize| x as int);
    proof {
        assert(layer@.len() == nid@.len());
        assert forall|v: int| 0 <= v < li.len() implies 0 <= #[trigger] li[v] < maxl + 1 by {
            assert(li[v] == layer@[v] as int);
        }
        lemma_max_layer_bound(li, maxl + 1);
    }
    let mut r = bucket_ids(&ug.nodes, &layer);
    let ghost target = spec_grid_layers_any(*ug);
    let ghost ids = ug_ids(*ug);
    proof {
        assert(ug.nodes@.map_values(|n: UGNode| n.id@) == ids);
        assert(id_layers(nid@, lay) == li);
        assert(target.len() == maxl + 1);
        assert(layers_view(r@).len() == r@.len());
        assert(r@.len() == max_layer(li) + 1);
        assert forall|k: int| 0 <= k < r@.len() implies #[trigger] layers_view(r@)[k] == target[k] by {
            assert(layers_view(r@)[k] == bucket_layers(ids, li)[k]);
        }
    }
    proof {
        assert forall|v: int| 0 <= v < li.len() implies #[trigger] li[v] <= max_layer(li) by {
            lemma_max_layer_ge(li, v);
        }
    }
    while r.len() <= maxl
        invariant
            max_layer(li) <= maxl,
            maxl < usize::MAX,
            r@.len() >= max_layer(li) + 1,
            r@.len() <= maxl + 1,
            target.len() == maxl + 1,
            forall|k: int| 0 <= k < r@.len() ==> #[trigger] layers_view(r@)[k] == target[k],
            forall|k: int| 0 <= k < target.len() ==> #[trigger] target[k] == ids_on(ids, li, k),
            forall|v: int| 0 <= v < li.len() ==> #[trigger] li[v] <= max_layer(li),
            li.len() == ids.len(),
        decreases maxl + 1 - r@.len(),
    {
        let k = r.len();
        proof {
            assert forall|v: int| 0 <= v < li.len() implies #[trigger] li[v] < k by {}
            lemma_ids_on_above(ids, li, k as int);
        }
        let ghost before = r@;
        r.push(Vec::new());
        proof {
            assert(layer_view(r@[k as int]@) =~= Seq::<Seq<char>>::empty());
            assert forall|j: int| 0 <= j < r@.len() implies #[trigger] layers_view(r@)[j] == target[j] by {
                if j < k {
                    assert(r@[j] == before[j]);
                    assert(layers_view(before)[j] == target[j]);
                } else {
                    assert(target[j] == ids_on(ids, li, j));
                }
            }
        }
    }
    assert(layers_view(r@) =~= target);
    proof {
        assert forall|v: int| 0 <= v < li.len() implies 0 <= #[trigger] li[v] < maxl + 1 by {}
        lemma_layers_flat(ids, li, maxl + 1);
        assert(target =~= Seq::new((maxl + 1) as nat, |k: int| ids_on(ids, li, k)));
    }
    r
}

proof fn lemma_out_targets_range(es: Seq<(usize, usize)>, u: int, n: int)
    requires
        forall|k: int| 0 <= k < es.len() ==> (#[trigger] es[k]).0 < n && es[k].1 < n,
    ensures
        forall|i: int| 0 <= i < out_targets(es, u).len() ==> #[trigger] out_targets(es, u)[i] < n,
    decreases es.len(),
{
    if es.len() > 0 {
        let t = es.drop_last();
        assert forall|k: int| 0 <= k < t.len() implies (#[trigger] t[k]).0 < n && t[k].1 < n by {
            assert(t[k] == es[k]);
        }
        lemma_out_targets_range(t, u, n);
        assert(es.last() == es[es.len() - 1]);
        let r = out_targets(t, u);
        let x = es.last().1;
        assert forall|i: int| 0 <= i < r.push(x).len() implies #[trigger] r.push(x)[i] < n by {
            if i < r.len() {
                assert(r.push(x)[i] == r[i]);
            }
        }
    }
}

proof fn lemma_roots_in_range(es: Seq<(usize, usize)>, l: Seq<usize>, m: int)
    requires
        forall|i: int| 0 <= i < l.len() ==> #[trigger] l[i] < m,
    ensures
        forall|j: int| 0 <= j < roots_in(es, l).len() ==> #[trigger] roots_in(es, l)[j] < m,
    decreases l.len(),
{
    if l.len() > 0 {
        let d = l.drop_last();
        assert forall|i: int| 0 <= i < d.len() implies #[trigger] d[i] < m by {
            assert(d[i] == l[i]);
        }
        lemma_roots_in_range(es, d, m);
        let r = roots_in(es, d);
        let x = l.last();
        assert(l[l.len() - 1] == x);
        assert forall|j: int| 0 <= j < r.push(x).len() implies #[trigger] r.push(x)[j] < m by {
            if j < r.len() {
                assert(r.push(x)[j] == r[j]);
            }
        }
    }
}

/// No id stands on a layer above all layers given.
pub(crate) proof fn lemma_ids_on_above(ids: Seq<Seq<char>>, lay: Seq<int>, k: int)
    requires
        ids.len() <= lay.len(),
        forall|v: int| 0 <= v < lay.len() ==> #[trigger] lay[v] < k,
    ensures
        ids_on(ids, lay, k) == Seq::<Seq<char>>::empty(),
    decreases ids.len(),
{
    if ids.len() > 0 {
        lemma_ids_on_above(ids.drop_last(), lay, k);
        assert(lay[ids.len() - 1] < k);
    }
}

proof fn lemma_roots_range(es: Seq<(usize, usize)>, k: int)
    ensures
        forall|j: int| 0 <= j < roots(es, k).len() ==> #[trigger] roots(es, k)[j] < k,
    decreases k,
{
    if k > 0 {
        lemma_roots_range(es, k - 1);
        let r = roots(es, k - 1);
        let x = (k - 1) as usize;
        assert forall|j: int| 0 <= j < r.push(x).len() implies #[trigger] r.push(x)[j] < k by {
            if j < r.len() {
                assert(r.push(x)[j] == r[j]);
            }
        }
    }
}

// ---------------------------------------------------------------------------
// Laws
// ---------------------------------------------------------------------------

proof fn lemma_rounds_keep(lay: Seq<int>, fr: Seq<usize>, adj: Seq<Seq<usize>>, d: int, fuel: nat, i: int)
    requires
        adj_wf(adj, lay.len() as int),
        forall|j: int| 0 <= j < fr.len() ==> #[trigger] fr[j] < lay.len(),
        lay.len() <= usize::MAX,
        d >= 0,
        0 <= i < lay.len(),
        lay[i] >= 0,
    ensures
        rounds(lay, fr, adj, d, fuel).len() == lay.len(),
        rounds(lay, fr, adj, d, fuel)[i] == lay[i],
    decreases fuel,
{
    if fuel > 0 && fr.len() > 0 {
        lemma_round_progress(lay, fr, adj, d);
        let r = round(lay, fr, adj, d);
        lemma_rounds_keep(r.0, r.1, adj, d + 1, (fuel - 1) as nat, i);
    }
}

proof fn lemma_rounds_complete(lay: Seq<int>, fr: Seq<usize>, adj: Seq<Seq<usize>>, d: int, fuel: nat)
    requires
        adj_wf(adj, lay.len() as int),
        forall|j: int| 0 <= j < fr.len() ==> #[trigger] fr[j] < lay.len(),
        lay.len() <= usize::MAX,
        d >= 0,
        measure(lay, fr) <= fuel,
        fr.len() == 0 ==> placed_count(lay) == lay.len(),
    ensures
        rounds(lay, fr, adj, d, fuel).len() == lay.len(),
        forall|v: int| 0 <= v < lay.len() ==> #[trigger] rounds(lay, fr, adj, d, fuel)[v] >= 0,
    decreases fuel,
{
    if fr.len() == 0 {
        lemma_placed_count_bounds(lay);
    } else {
        lemma_placed_count_bounds(lay);
        assert(fuel > 0);
        lemma_round_progress(lay, fr, adj, d);
        let r = round(lay, fr, adj, d);
        lemma_rounds_complete(r.0, r.1, adj, d + 1, (fuel - 1) as nat);
    }
}

proof fn lemma_grid_start(es: Seq<(usize, usize)>, n: int)
    requires
        forall|k: int| 0 <= k < es.len() ==> (#[trigger] es[k]).0 < n && es[k].1 < n,
        0 < n <= usize::MAX,
        roots(es, n).len() > 0,
    ensures
        adj_wf(grid_adj(es, n), n),
        forall|j: int| 0 <= j < roots(es, n).len() ==> #[trigger] roots(es, n)[j] < n,
        measure(Seq::new(n as nat, |i: int| -1int), roots(es, n)) <= 2 * n + 2,
{
    let lay = Seq::new(n as nat, |i: int| -1int);
    assert forall|u: int, i: int| 0 <= u < n && 0 <= i < grid_adj(es, n)[u].len() implies
        #[trigger] grid_adj(es, n)[u][i] < n by {
        lemma_out_targets_range(es, u, n);
    }
    lemma_roots_range(es, n);
    lemma_placed_count_bounds(lay);
}

/// Nodes without incoming edges (self-loops aside) stand on layer 0.
pub proof fn lemma_roots_on_layer_zero(es: Seq<(usize, usize)>, n: int, j: int)
    requires
        forall|k: int| 0 <= k < es.len() ==> (#[trigger] es[k]).0 < n && es[k].1 < n,
        0 < n <= usize::MAX,
        0 <= j < roots(es, n).len(),
    ensures
        grid_lay(es, n)[roots(es, n)[j] as int] == 0,
{
    lemma_grid_start(es, n);
    let lay = Seq::new(n as nat, |i: int| -1int);
    let fr = roots(es, n);
    let adj = grid_adj(es, n);
    lemma_round_progress(lay, fr, adj, 0);
    lemma_process(lay, fr, adj, 0);
    let r = round(lay, fr, adj, 0);
    let v = fr[j] as int;
    assert(r.0[v] >= 0);
    lemma_rounds_keep(r.0, r.1, adj, 1, (2 * n + 1) as nat, v);
}

/// Every node gets a layer: breadth-first rounds, with a fresh start from
/// the first unplaced node whenever a round gathers nothing, reach all
/// nodes before they run out.
pub proof fn lemma_every_node_layered(es: Seq<(usize, usize)>, n: int, v: int)
    requires
        forall|k: int| 0 <= k < es.len() ==> (#[trigger] es[k]).0 < n && es[k].1 < n,
        0 < n <= usize::MAX,
        roots(es, n).len() > 0,
        0 <= v < n,
    ensures
        grid_lay(es, n).len() == n,
        grid_lay(es, n)[v] >= 0,
{
    lemma_grid_start(es, n);
    lemma_rounds_complete(Seq::new(n as nat, |i: int| -1int), roots(es, n), grid_adj(es, n), 0, (2 * n + 2) as nat);
}

// ---------------------------------------------------------------------------
// Depth from the roots
// ---------------------------------------------------------------------------

/// `p` is a walk along the adjacency lists.
pub open spec fn grid_walk(adj: Seq<Seq<usize>>, p: Seq<usize>) -> bool {
    &&& p.len() >= 1
    &&& forall|i: int| 0 <= i < p.len() ==> (#[trigger] p[i] as int) < adj.len()
    &&& forall|i: int| 0 <= i < p.len() - 1 ==> adj[#[trigger] p[i] as int].contains(p[i + 1])
}

/// Some walk of `d` edges (self-loops aside) leads from a root to `v`.
pub open spec fn reached_at(es: Seq<(usize, usize)>, n: int, v: int, d: int) -> bool {
    exists|p: Seq<usize>| #[trigger] grid_walk(grid_adj(es, n), p) && roots(es, n).contains(p[0])
        && p.last() as int == v && p.len() - 1 == d
}

/// `v` is reached from a root.
pub open spec fn reachable(es: Seq<(usize, usize)>, n: int, v: int) -> bool {
    exists|d: int| 0 <= d && #[trigger] reached_at(es, n, v, d)
}

/// `d` is the length of a shortest walk from a root to `v`.
pub open spec fn is_depth(es: Seq<(usize, usize)>, n: int, v: int, d: int) -> bool {
    &&& reached_at(es, n, v, d)
    &&& forall|d2: int| 0 <= d2 < d ==> !#[trigger] reached_at(es, n, v, d2)
}

/// The depth of `v` from the roots.
pub open spec fn depth(es: Seq<(usize, usize)>, n: int, v: int) -> int {
    choose|d: int| is_depth(es, n, v, d)
}

/// Every node is reached from a root.
pub open spec fn all_reached(es: Seq<(usize, usize)>, n: int) -> bool {
    forall|v: int| 0 <= v < n ==> #[trigger] reachable(es, n, v)
}

proof fn lemma_depth_min(es: Seq<(usize, usize)>, n: int, v: int, d: int)
    requires
        0 <= d,
        reached_at(es, n, v, d),
    ensures
        exists|d2: int| 0 <= d2 <= d && is_depth(es, n, v, d2),
    decreases d,
{
    if exists|d2: int| 0 <= d2 < d && #[trigger] reached_at(es, n, v, d2) {
        let d2 = choose|d2: int| 0 <= d2 < d && #[trigger] reached_at(es, n, v, d2);
        lemma_depth_min(es, n, v, d2);
    } else {
        assert(is_depth(es, n, v, d));
    }
}

proof fn lemma_depth(es: Seq<(usize, usize)>, n: int, v: int)
    requires
        reachable(es, n, v),
    ensures
        is_depth(es, n, v, depth(es, n, v)),
        depth(es, n, v) >= 0,
        forall|d: int| #[trigger] is_depth(es, n, v, d) ==> d == depth(es, n, v),
{
    let d0 = choose|d: int| 0 <= d && #[trigger] reached_at(es, n, v, d);
    lemma_depth_min(es, n, v, d0);
    let d1 = depth(es, n, v);
    assert(is_depth(es, n, v, d1));
    assert forall|d: int| #[trigger] is_depth(es, n, v, d) implies d == d1 by {
        if d < d1 {
            assert(!reached_at(es, n, v, d));
        } else if d1 < d {
            assert(!reached_at(es, n, v, d1));
        }
    }
}

/// Joining a walk to `p[i]` with the rest of `p` gives a walk.
proof fn lemma_walk_join(adj: Seq<Seq<usize>>, q: Seq<usize>, p: Seq<usize>, i: int)
    requires
        grid_walk(adj, q),
        grid_walk(adj, p),
        0 <= i < p.len(),
        q.last() == p[i],
    ensures
        grid_walk(adj, q + p.subrange(i + 1, p.len() as int)),
        (q + p.subrange(i + 1, p.len() as int))[0] == q[0],
        (q + p.subrange(i + 1, p.len() as int)).last() == p.last(),
        (q + p.subrange(i + 1, p.len() as int)).len() == q.len() + p.len() - i - 1,
{
    let w = q + p.subrange(i + 1, p.len() as int);
    assert forall|k: int| 0 <= k < w.len() implies (#[trigger] w[k] as int) < adj.len() by {
        if k >= q.len() {
            assert(w[k] == p[k - q.len() + i + 1]);
        }
    }
    assert forall|k: int| 0 <= k < w.len() - 1 implies adj[#[trigger] w[k] as int].contains(w[k + 1]) by {
        if k < q.len() - 1 {
            assert(w[k] == q[k] && w[k + 1] == q[k + 1]);
        } else if k == q.len() - 1 {
            assert(w[k] == p[i] && w[k + 1] == p[i + 1]);
            assert(adj[p[i] as int].contains(p[i + 1]));
        } else {
            let m = k - q.len() + i + 1;
            assert(w[k] == p[m] && w[k + 1] == p[m + 1]);
            assert(adj[p[m] as int].contains(p[m + 1]));
        }
    }
    if p.len() > i + 1 {
        assert(w.last() == p[p.len() - 1]);
    } else {
        assert(w =~= q);
    }
}

/// Along a shortest walk every node stands at its own depth.
proof fn lemma_depth_prefix(es: Seq<(usize, usize)>, n: int, p: Seq<usize>, i: int)
    requires
        grid_walk(grid_adj(es, n), p),
        roots(es, n).contains(p[0]),
        is_depth(es, n, p.last() as int, p.len() - 1),
        0 <= i < p.len(),
    ensures
        is_depth(es, n, p[i] as int, i),
{
    let adj = grid_adj(es, n);
    let q = p.take(i + 1);
    assert forall|k: int| 0 <= k < q.len() - 1 implies adj[#[trigger] q[k] as int].contains(q[k + 1]) by {
        assert(q[k] == p[k] && q[k + 1] == p[k + 1]);
        assert(adj[p[k] as int].contains(p[k + 1]));
    }
    assert(grid_walk(adj, q));
    assert(q.last() == p[i]);
    assert(reached_at(es, n, p[i] as int, i));
    assert forall|j: int| 0 <= j < i implies !#[trigger] reached_at(es, n, p[i] as int, j) by {
        if reached_at(es, n, p[i] as int, j) {
            let r = choose|r: Seq<usize>| #[trigger] grid_walk(adj, r) && roots(es, n).contains(r[0])
                && r.last() as int == p[i] as int && r.len() - 1 == j;
            lemma_walk_join(adj, r, p, i);
            let w = r + p.subrange(i + 1, p.len() as int);
            assert(reached_at(es, n, p.last() as int, w.len() - 1));
        }
    }
}

/// `x` is a target of some node of `fr`.
pub open spec fn target_of_some(fr: Seq<usize>, adj: Seq<Seq<usize>>, x: usize) -> bool {
    exists|j: int| 0 <= j < fr.len() && #[trigger] adj[fr[j] as int].contains(x)
}

proof fn lemma_unplaced_of_members(ts: Seq<usize>, lay: Seq<int>, t: usize)
    ensures
        unplaced_of(ts, lay).contains(t) ==> ts.contains(t),
        ts.contains(t) && lay[t as int] < 0 ==> unplaced_of(ts, lay).contains(t),
    decreases ts.len(),
{
    if ts.len() > 0 {
        let d = ts.drop_last();
        lemma_unplaced_of_members(d, lay, t);
        let r = unplaced_of(d, lay);
        let u = unplaced_of(ts, lay);
        if u.contains(t) {
            let j = choose|j: int| 0 <= j < u.len() && u[j] == t;
            if j < r.len() {
                assert(r[j] == t);
                let i = choose|i: int| 0 <= i < d.len() && d[i] == t;
                assert(ts[i] == t);
            } else {
                assert(ts[ts.len() - 1] == t);
            }
        }
        if ts.contains(t) && lay[t as int] < 0 {
            let i = choose|i: int| 0 <= i < ts.len() && ts[i] == t;
            if i < d.len() {
                assert(d[i] == t);
                let j = choose|j: int| 0 <= j < r.len() && r[j] == t;
                if lay[ts.last() as int] < 0 {
                    assert(r.push(ts.last())[j] == t);
                }
            } else {
                assert(r.push(ts.last())[r.len() as int] == t);
            }
        }
    }
}

/// What a frontier does beyond placing its own nodes: nothing else gets
/// placed, the next frontier holds targets of frontier nodes, and it holds
/// every unplaced target outside the frontier of a frontier node that was
/// not placed before.
proof fn lemma_process_frontier(lay: Seq<int>, fr: Seq<usize>, adj: Seq<Seq<usize>>, d: int)
    requires
        adj_wf(adj, lay.len() as int),
        forall|j: int| 0 <= j < fr.len() ==> #[trigger] fr[j] < lay.len(),
        d >= 0,
    ensures
        forall|i: usize| (i as int) < lay.len() && lay[i as int] < 0 && !fr.contains(i)
            ==> #[trigger] process(lay, fr, adj, d).0[i as int] == lay[i as int],
        forall|i: int| 0 <= i < process(lay, fr, adj, d).1.len() ==> #[trigger] target_of_some(fr, adj, process(lay, fr, adj, d).1[i]),
        forall|u: usize, t: usize| #[trigger] fr.contains(u) && lay[u as int] < 0 && #[trigger] adj[u as int].contains(t)
            && !fr.contains(t) && lay[t as int] < 0 ==> process(lay, fr, adj, d).1.contains(t),
    decreases fr.len(),
{
    if fr.len() > 0 {
        let f2 = fr.drop_last();
        assert forall|j: int| 0 <= j < f2.len() implies #[trigger] f2[j] < lay.len() by {
            assert(f2[j] == fr[j]);
        }
        lemma_process_frontier(lay, f2, adj, d);
        lemma_process(lay, f2, adj, d);
        let st = process(lay, f2, adj, d);
        let id = fr.last();
        assert(id == fr[fr.len() - 1]);
        let r = process(lay, fr, adj, d);
        assert forall|x: usize| #[trigger] f2.contains(x) implies fr.contains(x) by {
            let j = choose|j: int| 0 <= j < f2.len() && f2[j] == x;
            assert(fr[j] == x);
        }
        assert forall|x: usize| #[trigger] fr.contains(x) && x != id implies f2.contains(x) by {
            let j = choose|j: int| 0 <= j < fr.len() && fr[j] == x;
            assert(f2[j] == x);
        }
        assert forall|i: usize| (i as int) < lay.len() && lay[i as int] < 0 && !fr.contains(i)
            implies #[trigger] r.0[i as int] == lay[i as int] by {
            assert(!f2.contains(i));
            assert(i != id);
        }
        assert forall|i: int| 0 <= i < r.1.len() implies #[trigger] target_of_some(fr, adj, r.1[i]) by {
            if i < st.1.len() {
                assert(r.1[i] == st.1[i]);
                assert(target_of_some(f2, adj, st.1[i]));
                let j = choose|j: int| 0 <= j < f2.len() && #[trigger] adj[f2[j] as int].contains(st.1[i]);
                assert(fr[j] == f2[j]);
            } else {
                let l2 = st.0.update(id as int, d);
                let x = r.1[i];
                assert(r.1 == st.1 + unplaced_of(adj[id as int], l2));
                assert(x == unplaced_of(adj[id as int], l2)[i - st.1.len()]);
                lemma_unplaced_of_members(adj[id as int], l2, x);
                assert(adj[fr[fr.len() - 1] as int].contains(x));
            }
        }
        assert forall|u: usize, t: usize| #[trigger] fr.contains(u) && lay[u as int] < 0 && #[trigger] adj[u as int].contains(t)
            && !fr.contains(t) && lay[t as int] < 0 implies r.1.contains(t) by {
            assert(!f2.contains(t));
            if f2.contains(u) {
                assert(st.1.contains(t));
                let j = choose|j: int| 0 <= j < st.1.len() && st.1[j] == t;
                if st.0[id as int] < 0 {
                    let l2 = st.0.update(id as int, d);
                    assert((st.1 + unplaced_of(adj[id as int], l2))[j] == t);
                }
            } else {
                assert(u == id);
                assert((u as int) < lay.len());
                assert(st.0[u as int] == lay[u as int]);
                let l2 = st.0.update(id as int, d);
                assert(t != u);
                assert((t as int) < lay.len());
                assert(st.0[t as int] == lay[t as int]);
                assert(l2[t as int] < 0);
                lemma_unplaced_of_members(adj[id as int], l2, t);
                let un = unplaced_of(adj[id as int], l2);
                let j = choose|j: int| 0 <= j < un.len() && un[j] == t;
                assert((st.1 + un)[st.1.len() + j] == t);
            }
        }
    }
}

/// Breadth-first invariant at layer `d`: exactly the nodes of depth below
/// `d` are placed, each on its depth; the frontier holds nodes of depth at
/// most `d`, among them every node of depth `d`.
pub open spec fn bfs_inv(es: Seq<(usize, usize)>, n: int, lay: Seq<int>, fr: Seq<usize>, d: int) -> bool {
    &&& lay.len() == n
    &&& forall|v: int| 0 <= v < n ==> (#[trigger] lay[v] >= 0 <==> depth(es, n, v) < d)
    &&& forall|v: int| 0 <= v < n && #[trigger] lay[v] >= 0 ==> lay[v] == depth(es, n, v)
    &&& forall|j: int| 0 <= j < fr.len() ==> (#[trigger] fr[j] as int) < n && depth(es, n, fr[j] as int) <= d
    &&& forall|v: int| 0 <= v < n && #[trigger] depth(es, n, v) == d ==> fr.contains(v as usize)
}

proof fn lemma_walk_push(adj: Seq<Seq<usize>>, p: Seq<usize>, x: usize)
    requires
        grid_walk(adj, p),
        adj[p.last() as int].contains(x),
        (x as int) < adj.len(),
    ensures
        grid_walk(adj, p.push(x)),
{
    let q = p.push(x);
    assert forall|k: int| 0 <= k < q.len() implies (#[trigger] q[k] as int) < adj.len() by {
        if k < p.len() {
            assert(q[k] == p[k]);
        }
    }
    assert forall|k: int| 0 <= k < q.len() - 1 implies adj[#[trigger] q[k] as int].contains(q[k + 1]) by {
        if k < p.len() - 1 {
            assert(q[k] == p[k] && q[k + 1] == p[k + 1]);
        } else {
            assert(q[k] == p.last());
        }
    }
}

proof fn lemma_depth_step(es: Seq<(usize, usize)>, n: int, u: int, x: usize)
    requires
        adj_wf(grid_adj(es, n), n),
        all_reached(es, n),
        0 <= u < n,
        grid_adj(es, n)[u].contains(x),
    ensures
        depth(es, n, x as int) <= depth(es, n, u) + 1,
{
    let adj = grid_adj(es, n);
    lemma_depth(es, n, u);
    let du = depth(es, n, u);
    let p = choose|p: Seq<usize>| #[trigger] grid_walk(adj, p) && roots(es, n).contains(p[0])
        && p.last() as int == u && p.len() - 1 == du;
    let i = choose|i: int| 0 <= i < adj[u].len() && adj[u][i] == x;
    assert((x as int) < n);
    lemma_walk_push(adj, p, x);
    assert(p.push(x)[0] == p[0]);
    assert(reached_at(es, n, x as int, du + 1));
    lemma_depth(es, n, x as int);
    if depth(es, n, x as int) > du + 1 {
        assert(!reached_at(es, n, x as int, du + 1));
    }
}

proof fn lemma_bfs_round(es: Seq<(usize, usize)>, n: int, lay: Seq<int>, fr: Seq<usize>, d: int)
    requires
        adj_wf(grid_adj(es, n), n),
        0 < n <= usize::MAX,
        all_reached(es, n),
        bfs_inv(es, n, lay, fr, d),
        fr.len() > 0,
        d >= 0,
    ensures
        bfs_inv(es, n, round(lay, fr, grid_adj(es, n), d).0, round(lay, fr, grid_adj(es, n), d).1, d + 1),
{
    let adj = grid_adj(es, n);
    assert forall|j: int| 0 <= j < fr.len() implies #[trigger] fr[j] < lay.len() by {}
    lemma_process(lay, fr, adj, d);
    lemma_process_frontier(lay, fr, adj, d);
    let p = process(lay, fr, adj, d);
    assert forall|v: int| 0 <= v < n implies is_depth(es, n, v, #[trigger] depth(es, n, v)) && depth(es, n, v) >= 0 by {
        assert(reachable(es, n, v));
        lemma_depth(es, n, v);
    }
    // Placement after the frontier: depth at most `d`, each on its depth.
    assert forall|v: int| 0 <= v < n implies (#[trigger] p.0[v] >= 0 <==> depth(es, n, v) < d + 1)
        && (p.0[v] >= 0 ==> p.0[v] == depth(es, n, v)) by {
        if lay[v] >= 0 {
        } else if depth(es, n, v) == d {
            assert(fr.contains(v as usize));
            let j = choose|j: int| 0 <= j < fr.len() && fr[j] == v as usize;
            assert(p.0[fr[j] as int] >= 0);
        } else {
            if fr.contains(v as usize) {
                let j = choose|j: int| 0 <= j < fr.len() && fr[j] == v as usize;
                assert(depth(es, n, fr[j] as int) <= d);
            }
            assert(p.0[(v as usize) as int] == lay[(v as usize) as int]);
        }
    }
    // The next frontier holds nodes of depth at most `d + 1`.
    assert forall|j: int| 0 <= j < p.1.len() implies (#[trigger] p.1[j] as int) < n && depth(es, n, p.1[j] as int) <= d + 1 by {
        assert(target_of_some(fr, adj, p.1[j]));
        let k = choose|k: int| 0 <= k < fr.len() && #[trigger] adj[fr[k] as int].contains(p.1[j]);
        lemma_depth_step(es, n, fr[k] as int, p.1[j]);
    }
    // Every node of depth `d + 1` follows a node of depth `d` on the frontier.
    assert forall|v: int| 0 <= v < n && #[trigger] depth(es, n, v) == d + 1 implies p.1.contains(v as usize) by {
        let w = choose|w: Seq<usize>| #[trigger] grid_walk(adj, w) && roots(es, n).contains(w[0])
            && w.last() as int == v && w.len() - 1 == d + 1;
        lemma_depth_prefix(es, n, w, d);
        let u = w[d];
        lemma_depth(es, n, u as int);
        assert(depth(es, n, u as int) == d);
        assert(fr.contains(u));
        assert(adj[w[d] as int].contains(w[d + 1]));
        assert(w[d + 1] == v as usize);
        if fr.contains(v as usize) {
            let j = choose|j: int| 0 <= j < fr.len() && fr[j] == v as usize;
            assert(depth(es, n, fr[j] as int) <= d);
        }
        assert(lay[u as int] < 0);
        assert(lay[v] < 0);
    }
    if p.1.len() == 0 {
        // No node is deeper than `d`: all are placed.
        assert forall|v: int| 0 <= v < n implies #[trigger] p.0[v] >= 0 by {
            if depth(es, n, v) > d {
                let w = choose|w: Seq<usize>| #[trigger] grid_walk(adj, w) && roots(es, n).contains(w[0])
                    && w.last() as int == v && w.len() - 1 == depth(es, n, v);
                lemma_depth_prefix(es, n, w, d + 1);
                lemma_depth(es, n, w[d + 1] as int);
                assert(depth(es, n, w[d + 1] as int) == d + 1);
                assert(p.1.contains(w[d + 1]));
            }
        }
        lemma_placed_count_bounds(p.0);
    }
    assert(round(lay, fr, adj, d) == p);
}

proof fn lemma_bfs_rounds(es: Seq<(usize, usize)>, n: int, lay: Seq<int>, fr: Seq<usize>, d: int, fuel: nat)
    requires
        adj_wf(grid_adj(es, n), n),
        0 < n <= usize::MAX,
        all_reached(es, n),
        bfs_inv(es, n, lay, fr, d),
        d >= 0,
    ensures
        forall|v: int| 0 <= v < n && #[trigger] rounds(lay, fr, grid_adj(es, n), d, fuel)[v] >= 0
            ==> rounds(lay, fr, grid_adj(es, n), d, fuel)[v] == depth(es, n, v),
    decreases fuel,
{
    let adj = grid_adj(es, n);
    if fuel > 0 && fr.len() > 0 {
        lemma_bfs_round(es, n, lay, fr, d);
        let r = round(lay, fr, adj, d);
        lemma_bfs_rounds(es, n, r.0, r.1, d + 1, (fuel - 1) as nat);
        assert(rounds(lay, fr, adj, d, fuel) == rounds(r.0, r.1, adj, d + 1, (fuel - 1) as nat));
    } else {
        assert(rounds(lay, fr, adj, d, fuel) == lay);
        assert forall|v: int| 0 <= v < n && #[trigger] rounds(lay, fr, adj, d, fuel)[v] >= 0
            implies rounds(lay, fr, adj, d, fuel)[v] == depth(es, n, v) by {
            assert(lay[v] >= 0);
        }
    }
}

/// When every node is reached from a root, the grid layer of a node is its
/// depth: the length of a shortest walk to it from a node without incoming
/// edges (self-loops aside). So the roots, and only they, are on layer 0.
pub proof fn lemma_grid_layer_is_depth(es: Seq<(usize, usize)>, n: int, v: int)
    requires
        forall|k: int| 0 <= k < es.len() ==> (#[trigger] es[k]).0 < n && es[k].1 < n,
        0 < n <= usize::MAX,
        all_reached(es, n),
        0 <= v < n,
    ensures
        is_depth(es, n, v, grid_lay(es, n)[v]),
        grid_lay(es, n)[v] == 0 <==> roots(es, n).contains(v as usize),
{
    let adj = grid_adj(es, n);
    assert(reachable(es, n, v));
    let d0 = choose|d: int| 0 <= d && #[trigger] reached_at(es, n, v, d);
    let w = choose|w: Seq<usize>| #[trigger] grid_walk(adj, w) && roots(es, n).contains(w[0])
        && w.last() as int == v && w.len() - 1 == d0;
    assert(roots(es, n).len() > 0);
    lemma_grid_start(es, n);
    let lay = Seq::new(n as nat, |i: int| -1int);
    let fr = roots(es, n);
    assert forall|x: int| 0 <= x < n implies is_depth(es, n, x, #[trigger] depth(es, n, x)) && depth(es, n, x) >= 0 by {
        assert(reachable(es, n, x));
        lemma_depth(es, n, x);
    }
    assert forall|x: int| 0 <= x < n && #[trigger] depth(es, n, x) == 0 implies fr.contains(x as usize) by {
        let q = choose|q: Seq<usize>| #[trigger] grid_walk(adj, q) && roots(es, n).contains(q[0])
            && q.last() as int == x && q.len() - 1 == 0;
        assert(q[0] == q.last());
    }
    assert forall|j: int| 0 <= j < fr.len() implies (#[trigger] fr[j] as int) < n && depth(es, n, fr[j] as int) <= 0 by {
        let q = seq![fr[j]];
        assert(grid_walk(adj, q));
        assert(fr.contains(q[0]));
        assert(reached_at(es, n, fr[j] as int, 0));
        lemma_depth(es, n, fr[j] as int);
    }
    assert(bfs_inv(es, n, lay, fr, 0));
    lemma_bfs_rounds(es, n, lay, fr, 0, (2 * n + 2) as nat);
    lemma_every_node_layered(es, n, v);
    lemma_depth(es, n, v);
    if roots(es, n).contains(v as usize) {
        let q = seq![v as usize];
        assert(grid_walk(adj, q));
        assert(reached_at(es, n, v, 0));
    }
}

proof fn lemma_rounds_late(lay: Seq<int>, fr: Seq<usize>, adj: Seq<Seq<usize>>, d: int, fuel: nat, i: int)
    requires
        adj_wf(adj, lay.len() as int),
        forall|j: int| 0 <= j < fr.len() ==> #[trigger] fr[j] < lay.len(),
        lay.len() <= usize::MAX,
        d >= 0,
        0 <= i < lay.len(),
        lay[i] < 0,
    ensures
        rounds(lay, fr, adj, d, fuel)[i] < 0 || rounds(lay, fr, adj, d, fuel)[i] >= d,
    decreases fuel,
{
    if fuel > 0 && fr.len() > 0 {
        lemma_round_progress(lay, fr, adj, d);
        let r = round(lay, fr, adj, d);
        if r.0[i] >= 0 {
            lemma_rounds_keep(r.0, r.1, adj, d + 1, (fuel - 1) as nat, i);
        } else {
            lemma_rounds_late(r.0, r.1, adj, d + 1, (fuel - 1) as nat, i);
        }
    }
}

/// Exactly the roots stand on layer 0.
proof fn lemma_layer_zero_roots(es: Seq<(usize, usize)>, n: int, v: int)
    requires
        forall|k: int| 0 <= k < es.len() ==> (#[trigger] es[k]).0 < n && es[k].1 < n,
        0 < n <= usize::MAX,
        roots(es, n).len() > 0,
        0 <= v < n,
    ensures
        grid_lay(es, n)[v] == 0 <==> in_count(es, v) == 0,
{
    lemma_grid_start(es, n);
    lemma_roots_range(es, n);
    lemma_roots_members(es, n, v);
    lemma_every_node_layered(es, n, v);
    let lay = Seq::new(n as nat, |i: int| -1int);
    let fr = roots(es, n);
    let adj = grid_adj(es, n);
    if in_count(es, v) == 0 {
        let j = choose|j: int| 0 <= j < fr.len() && fr[j] == v as usize;
        lemma_roots_on_layer_zero(es, n, j);
    } else {
        lemma_process_frontier(lay, fr, adj, 0);
        lemma_round_progress(lay, fr, adj, 0);
        let r = round(lay, fr, adj, 0);
        assert(!fr.contains(v as usize));
        assert(r.0[(v as usize) as int] == lay[(v as usize) as int]);
        lemma_rounds_late(r.0, r.1, adj, 1, (2 * n + 1) as nat, v);
        assert(grid_lay(es, n) == rounds(r.0, r.1, adj, 1, (2 * n + 1) as nat));
    }
}

proof fn lemma_roots_members(es: Seq<(usize, usize)>, k: int, v: int)
    requires
        0 <= v < k,
        k <= usize::MAX,
    ensures
        roots(es, k).contains(v as usize) <==> in_count(es, v) == 0,
    decreases k,
{
    let r = roots(es, k - 1);
    lemma_roots_range(es, k - 1);
    if v < k - 1 {
        lemma_roots_members(es, k - 1, v);
        if r.contains(v as usize) {
            let j = choose|j: int| 0 <= j < r.len() && r[j] == v as usize;
            if in_count(es, k - 1) == 0 {
                assert(r.push((k - 1) as usize)[j] == v as usize);
            }
        }
        if roots(es, k).contains(v as usize) {
            let j = choose|j: int| 0 <= j < roots(es, k).len() && roots(es, k)[j] == v as usize;
            if j == r.len() {
                assert(roots(es, k)[j] == (k - 1) as usize);
            } else {
                assert(r[j] == v as usize);
            }
        }
    } else {
        if r.contains(v as usize) {
            let j = choose|j: int| 0 <= j < r.len() && r[j] == v as usize;
            assert((r[j] as int) < k - 1);
        }
        if in_count(es, v) == 0 {
            assert(roots(es, k)[r.len() as int] == v as usize);
        }
    }
}

/// The ids on layer 0 are the roots', in node order.
proof fn lemma_first_layer_roots(ids: Seq<Seq<char>>, lay: Seq<int>, es: Seq<(usize, usize)>, k: int)
    requires
        0 <= k <= ids.len(),
        ids.len() <= usize::MAX,
        lay.len() == ids.len(),
        forall|v: int| 0 <= v < ids.len() ==> (#[trigger] lay[v] == 0 <==> in_count(es, v) == 0),
    ensures
        ids_on(ids.take(k), lay, 0) == roots(es, k).map_values(|v: usize| ids[v as int]),
    decreases k,
{
    if k == 0 {
        assert(ids.take(0) =~= Seq::<Seq<char>>::empty());
        assert(roots(es, 0).map_values(|v: usize| ids[v as int]) =~= Seq::<Seq<char>>::empty());
    } else {
        lemma_first_layer_roots(ids, lay, es, k - 1);
        assert(ids.take(k).drop_last() =~= ids.take(k - 1));
        assert(ids.take(k).last() == ids[k - 1]);
        let r = roots(es, k - 1);
        if in_count(es, k - 1) == 0 {
            assert(r.push((k - 1) as usize).map_values(|v: usize| ids[v as int])
                =~= r.map_values(|v: usize| ids[v as int]).push(ids[k - 1]));
        }
    }
}

/// The whole layering of [`grid_layers`]: no layer for no node; one layer of
/// all ids, in source order, when every node has an incoming edge (self-loops
/// aside); otherwise every id exactly once, each layer in source order, the
/// roots (and only they) on the first layer, and, when every node is reached
/// from a root, every node on the layer of its depth.
pub proof fn lemma_grid_layering(ug: Unigraph)
    requires
        ug_wf(ug),
        ug.nodes@.len() <= usize::MAX,
    ensures
        ({
            let n = ug.nodes@.len() as int;
            let es = ug_index_edges(ug);
            let ids = ug_ids(ug);
            let res = spec_grid_layers(ug);
            &&& n == 0 ==> res == Seq::<Seq<Seq<char>>>::empty()
            &&& n > 0 && roots(es, n).len() == 0 ==> res == seq![ids]
            &&& n > 0 && roots(es, n).len() > 0 ==> {
                &&& flat_multiset(res) == ids.to_multiset()
                &&& res[0] == roots(es, n).map_values(|v: usize| ids[v as int])
                &&& forall|k: int| 0 <= k < res.len() ==> #[trigger] res[k] == ids_on(ids, grid_lay(es, n), k)
                &&& all_reached(es, n) ==> forall|k: int, x: Seq<char>| 0 <= k < res.len() && #[trigger] res[k].contains(x)
                    ==> exists|v: int| 0 <= v < n && ids[v] == x && is_depth(es, n, v, k)
            }
        }),
{
    let n = ug.nodes@.len() as int;
    let es = ug_index_edges(ug);
    let ids = ug_ids(ug);
    let res = spec_grid_layers(ug);
    if n > 0 && roots(es, n).len() > 0 {
        assert forall|k: int| 0 <= k < es.len() implies (#[trigger] es[k]).0 < n && es[k].1 < n by {
            lemma_index_edge(ug, k);
        }
        let lay = grid_lay(es, n);
        lemma_every_node_layered(es, n, 0);
        assert forall|v: int| 0 <= v < lay.len() implies 0 <= #[trigger] lay[v] by {
            lemma_every_node_layered(es, n, v);
        }
        lemma_layers_partition_nodes(ids, lay);
        assert forall|v: int| 0 <= v < ids.len() implies (#[trigger] lay[v] == 0 <==> in_count(es, v) == 0) by {
            lemma_layer_zero_roots(es, n, v);
        }
        lemma_first_layer_roots(ids, lay, es, n);
        assert(ids.take(n) =~= ids);
        if all_reached(es, n) {
            assert forall|k: int, x: Seq<char>| 0 <= k < res.len() && #[trigger] res[k].contains(x)
                implies exists|v: int| 0 <= v < n && ids[v] == x && is_depth(es, n, v, k) by {
                lemma_ids_on_member(ids, lay, k, x);
                let v = choose|v: int| 0 <= v < ids.len() && ids[v] == x && lay[v] == k;
                lemma_grid_layer_is_depth(es, n, v);
            }
        }
    }
}

proof fn lemma_roots_identity(es: Seq<(usize, usize)>, k: int)
    requires
        0 <= k <= usize::MAX,
    ensures
        roots_in(es, identity_ids(k)) == roots(es, k),
    decreases k,
{
    if k > 0 {
        assert(identity_ids(k).drop_last() =~= identity_ids(k - 1));
        lemma_roots_identity(es, k - 1);
        assert(identity_ids(k).last() == (k - 1) as usize);
    }
}

proof fn lemma_first_unplaced_identity(lay: Seq<int>, k: int)
    requires
        0 <= k <= lay.len(),
        lay.len() <= usize::MAX,
    ensures
        first_unplaced_in(identity_ids(k), lay) == first_unplaced(lay.take(k)),
    decreases k,
{
    if k > 0 {
        assert(identity_ids(k).drop_last() =~= identity_ids(k - 1));
        assert(lay.take(k).drop_last() =~= lay.take(k - 1));
        assert(identity_ids(k).last() == (k - 1) as usize);
        assert(lay.take(k).last() == lay[k - 1]);
        lemma_first_unplaced_identity(lay, k - 1);
    } else {
        assert(lay.take(0) =~= Seq::<int>::empty());
    }
}

proof fn lemma_rounds_identity(lay: Seq<int>, fr: Seq<usize>, adj: Seq<Seq<usize>>, d: int, fuel: nat)
    requires
        adj_wf(adj, lay.len() as int),
        forall|j: int| 0 <= j < fr.len() ==> #[trigger] fr[j] < lay.len(),
        d >= 0,
        lay.len() <= usize::MAX,
    ensures
        rounds_in(lay, fr, adj, d, fuel, identity_ids(lay.len() as int)) == rounds(lay, fr, adj, d, fuel),
    decreases fuel,
{
    if fuel > 0 && fr.len() > 0 {
        let n = lay.len() as int;
        lemma_process(lay, fr, adj, d);
        let p = process(lay, fr, adj, d);
        lemma_first_unplaced_identity(p.0, n);
        assert(p.0.take(n) =~= p.0);
        if p.1.len() == 0 && placed_count(p.0) < n {
            lemma_first_unplaced(p.0);
        }
        assert(round_in(lay, fr, adj, d, identity_ids(n)) == round(lay, fr, adj, d));
        lemma_round_progress(lay, fr, adj, d);
        let r = round(lay, fr, adj, d);
        lemma_rounds_identity(r.0, r.1, adj, d + 1, (fuel - 1) as nat);
    }
}

/// With distinct ids and every edge end a node, [`spec_grid_layers_any`]
/// is [`spec_grid_layers`].
proof fn lemma_grid_layers_any_wf(ug: Unigraph)
    requires
        ug_wf(ug),
        ug.nodes@.len() <= usize::MAX,
    ensures
        spec_grid_layers_any(ug) == spec_grid_layers(ug),
{
    lemma_names_of_wf_graph(ug);
    let n = ug.nodes@.len() as int;
    let es = ug_index_edges(ug);
    let ids = ug_ids(ug);
    lemma_roots_identity(es, n);
    assert(ids.len() == n);
    if n > 0 && roots(es, n).len() > 0 {
        assert forall|k: int| 0 <= k < es.len() implies (#[trigger] es[k]).0 < n && es[k].1 < n by {
            lemma_index_edge(ug, k);
        }
        lemma_grid_start(es, n);
        let lay0 = Seq::new(n as nat, |i: int| -1int);
        lemma_rounds_identity(lay0, roots(es, n), grid_adj(es, n), 0, (2 * n + 2) as nat);
        let lay = grid_lay(es, n);
        assert(grid_lay_in(es, n, identity_ids(n)) == lay);
        lemma_every_node_layered(es, n, 0);
        assert forall|v: int| 0 <= v < n implies #[trigger] id_layers(identity_ids(n), lay)[v] == lay[v] by {
            lemma_every_node_layered(es, n, v);
        }
        assert(id_layers(identity_ids(n), lay) =~= lay);
        assert(spec_grid_layers_any(ug) =~= bucket_layers(ids, lay));
    }
}

} // verus!
