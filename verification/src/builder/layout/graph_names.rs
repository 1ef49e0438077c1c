//! The names a graph speaks of: the ids of its nodes and the ends of its
//! edges, each once, numbered in order of first appearance, node ids first.
//! A graph may repeat an id or have an edge end that is no node; numbering
//! the names lets the layering work on indices all the same.

use vstd::prelude::*;

use crate::builder::ir::unigraph::Unigraph;

use super::crossing::{last_pos, layer_view};
use super::directed::{ug_edges, ug_ids, ug_index_edges, ug_wf};
use super::types::NodeId;

verus! {

// ---------------------------------------------------------------------------
// Model
// ---------------------------------------------------------------------------

/// The ends of the edges, in order: source, then target, edge by edge.
pub open spec fn edge_ends(es: Seq<(Seq<char>, Seq<char>)>) -> Seq<Seq<char>>
    decreases es.len(),
{
    if es.len() == 0 {
        Seq::empty()
    } else {
        edge_ends(es.drop_last()).push(es.last().0).push(es.last().1)
    }
}

/// `ns` followed by the names of `xs` that are new, each once, in order.
pub open spec fn add_names(ns: Seq<Seq<char>>, xs: Seq<Seq<char>>) -> Seq<Seq<char>>
    decreases xs.len(),
{
    if xs.len() == 0 {
        ns
    } else {
        let r = add_names(ns, xs.drop_last());
        if r.contains(xs.last()) { r } else { r.push(xs.last()) }
    }
}

/// The names of a graph: node ids, then edge ends, each once.
pub open spec fn graph_names(ug: Unigraph) -> Seq<Seq<char>> {
    add_names(Seq::empty(), ug_ids(ug) + edge_ends(ug_edges(ug)))
}

/// How many names the node ids make: the names numbered below it are
/// exactly the ids.
pub open spec fn id_name_count(ug: Unigraph) -> int {
    add_names(Seq::empty(), ug_ids(ug)).len() as int
}

/// The number of each node's name.
pub open spec fn name_ids(ug: Unigraph) -> Seq<usize> {
    ug_ids(ug).map_values(|x: Seq<char>| last_pos(graph_names(ug), x) as usize)
}

/// The edges as pairs of name numbers.
pub open spec fn name_edges(ug: Unigraph) -> Seq<(usize, usize)> {
    ug_edges(ug).map_values(|e: (Seq<char>, Seq<char>)|
        (last_pos(graph_names(ug), e.0) as usize, last_pos(graph_names(ug), e.1) as usize))
}

/// The numbers `0..n` in order.
pub open spec fn identity_ids(n: int) -> Seq<usize> {
    Seq::new(n as nat, |i: int| i as usize)
}

// ---------------------------------------------------------------------------
// Lemmas
// ---------------------------------------------------------------------------

pub(crate) proof fn lemma_add_names(ns: Seq<Seq<char>>, xs: Seq<Seq<char>>)
    requires
        ns.no_duplicates(),
    ensures
        add_names(ns, xs).no_duplicates(),
        add_names(ns, xs).len() >= ns.len(),
        add_names(ns, xs).len() <= ns.len() + xs.len(),
        forall|i: int| 0 <= i < ns.len() ==> #[trigger] add_names(ns, xs)[i] == ns[i],
        forall|x: Seq<char>| #[trigger] add_names(ns, xs).contains(x) <==> (ns.contains(x) || xs.contains(x)),
    decreases xs.len(),
{
    if xs.len() > 0 {
        let d = xs.drop_last();
        lemma_add_names(ns, d);
        let r = add_names(ns, d);
        let x = xs.last();
        assert(xs[xs.len() - 1] == x);
        assert forall|y: Seq<char>| xs.contains(y) <==> (d.contains(y) || y == x) by {
            if xs.contains(y) && y != x {
                let j = choose|j: int| 0 <= j < xs.len() && xs[j] == y;
                assert(d[j] == y);
            }
            if d.contains(y) {
                let j = choose|j: int| 0 <= j < d.len() && d[j] == y;
                assert(xs[j] == y);
            }
        }
        if !r.contains(x) {
            let r2 = r.push(x);
            assert forall|i: int, j: int| 0 <= i < r2.len() && 0 <= j < r2.len() && i != j implies r2[i] != r2[j] by {
                if i < r.len() && j < r.len() {
                } else if i < r.len() {
                    assert(r2[i] == r[i]);
                } else {
                    assert(r2[j] == r[j]);
                }
            }
            assert forall|y: Seq<char>| #[trigger] r2.contains(y) <==> (r.contains(y) || y == x) by {
                if r2.contains(y) && y != x {
                    let j = choose|j: int| 0 <= j < r2.len() && r2[j] == y;
                    assert(r[j] == y);
                }
                if r.contains(y) {
                    let j = choose|j: int| 0 <= j < r.len() && r[j] == y;
                    assert(r2[j] == y);
                }
                if y == x {
                    assert(r2[r.len() as int] == x);
                }
            }
        }
    }
}

pub(crate) proof fn lemma_add_names_known(ns: Seq<Seq<char>>, xs: Seq<Seq<char>>)
    requires
        forall|j: int| 0 <= j < xs.len() ==> ns.contains(#[trigger] xs[j]),
    ensures
        add_names(ns, xs) == ns,
    decreases xs.len(),
{
    if xs.len() > 0 {
        let d = xs.drop_last();
        assert forall|j: int| 0 <= j < d.len() implies ns.contains(#[trigger] d[j]) by {
            assert(d[j] == xs[j]);
        }
        lemma_add_names_known(ns, d);
        assert(ns.contains(xs[xs.len() - 1]));
    }
}

pub(crate) proof fn lemma_add_names_concat(ns: Seq<Seq<char>>, a: Seq<Seq<char>>, b: Seq<Seq<char>>)
    ensures
        add_names(ns, a + b) == add_names(add_names(ns, a), b),
    decreases b.len(),
{
    if b.len() == 0 {
        assert(a + b =~= a);
    } else {
        assert((a + b).drop_last() =~= a + b.drop_last());
        assert((a + b).last() == b.last());
        lemma_add_names_concat(ns, a, b.drop_last());
    }
}

proof fn lemma_add_names_distinct(xs: Seq<Seq<char>>)
    requires
        xs.no_duplicates(),
    ensures
        add_names(Seq::empty(), xs) == xs,
    decreases xs.len(),
{
    if xs.len() > 0 {
        let d = xs.drop_last();
        assert(d.no_duplicates()) by {
            assert forall|i: int, j: int| 0 <= i < d.len() && 0 <= j < d.len() && i != j implies d[i] != d[j] by {
                assert(d[i] == xs[i] && d[j] == xs[j]);
            }
        }
        lemma_add_names_distinct(d);
        if d.contains(xs.last()) {
            let j = choose|j: int| 0 <= j < d.len() && d[j] == xs.last();
            assert(xs[j] == xs[xs.len() - 1]);
        }
        assert(d.push(xs.last()) =~= xs);
    }
}

proof fn lemma_edge_ends(es: Seq<(Seq<char>, Seq<char>)>, j: int)
    requires
        0 <= j < edge_ends(es).len(),
    ensures
        edge_ends(es).len() == 2 * es.len(),
        exists|k: int| 0 <= k < es.len() && (edge_ends(es)[j] == (#[trigger] es[k]).0 || edge_ends(es)[j] == es[k].1),
    decreases es.len(),
{
    lemma_edge_ends_len(es);
    let d = es.drop_last();
    lemma_edge_ends_len(d);
    let k0 = es.len() - 1;
    assert(es[k0] == es.last());
    if j < edge_ends(d).len() {
        lemma_edge_ends(d, j);
        let k = choose|k: int| 0 <= k < d.len() && (edge_ends(d)[j] == (#[trigger] d[k]).0 || edge_ends(d)[j] == d[k].1);
        assert(es[k] == d[k]);
        assert(edge_ends(es)[j] == edge_ends(d)[j]);
    } else if j == edge_ends(d).len() {
        assert(edge_ends(es)[j] == es[k0].0);
    } else {
        assert(edge_ends(es)[j] == es[k0].1);
    }
}

proof fn lemma_edge_ends_len(es: Seq<(Seq<char>, Seq<char>)>)
    ensures
        edge_ends(es).len() == 2 * es.len(),
    decreases es.len(),
{
    if es.len() > 0 {
        lemma_edge_ends_len(es.drop_last());
    }
}

/// In a sequence without repeats, an element's last position is its only one.
pub(crate) proof fn lemma_last_pos_distinct(s: Seq<Seq<char>>, i: int)
    requires
        s.no_duplicates(),
        0 <= i < s.len(),
    ensures
        last_pos(s, s[i]) == i,
    decreases s.len(),
{
    if i < s.len() - 1 {
        let d = s.drop_last();
        assert(d.no_duplicates()) by {
            assert forall|a: int, b: int| 0 <= a < d.len() && 0 <= b < d.len() && a != b implies d[a] != d[b] by {
                assert(d[a] == s[a] && d[b] == s[b]);
            }
        }
        assert(s[s.len() - 1] != s[i]);
        assert(d[i] == s[i]);
        lemma_last_pos_distinct(d, i);
    }
}

pub(crate) proof fn lemma_last_pos_found(s: Seq<Seq<char>>, x: Seq<char>)
    requires
        s.contains(x),
    ensures
        0 <= last_pos(s, x) < s.len(),
        s[last_pos(s, x)] == x,
    decreases s.len(),
{
    if s.last() != x {
        let d = s.drop_last();
        let j = choose|j: int| 0 <= j < s.len() && s[j] == x;
        assert(j < s.len() - 1);
        assert(d[j] == x);
        lemma_last_pos_found(d, x);
    }
}

/// The names are distinct, and they are exactly the ids and the edge ends;
/// every id and every edge end gets the number of its name.
pub(crate) proof fn lemma_graph_names(ug: Unigraph)
    requires
        ug.nodes@.len() + 2 * ug.edges@.len() <= usize::MAX,
    ensures
        graph_names(ug).no_duplicates(),
        graph_names(ug).len() <= ug.nodes@.len() + 2 * ug.edges@.len(),
        name_ids(ug).len() == ug.nodes@.len(),
        name_edges(ug).len() == ug.edges@.len(),
        forall|i: int| 0 <= i < ug.nodes@.len() ==> (#[trigger] name_ids(ug)[i]) < graph_names(ug).len(),
        forall|i: int| 0 <= i < ug.nodes@.len() ==> graph_names(ug)[#[trigger] name_ids(ug)[i] as int] == ug_ids(ug)[i],
        forall|k: int| 0 <= k < ug.edges@.len() ==> (#[trigger] name_edges(ug)[k]).0 < graph_names(ug).len()
            && name_edges(ug)[k].1 < graph_names(ug).len()
            && graph_names(ug)[name_edges(ug)[k].0 as int] == ug_edges(ug)[k].0
            && graph_names(ug)[name_edges(ug)[k].1 as int] == ug_edges(ug)[k].1,
{
    let ids = ug_ids(ug);
    let named = ug_edges(ug);
    let xs = ids + edge_ends(named);
    let ns = graph_names(ug);
    lemma_edge_ends_len(named);
    lemma_add_names(Seq::empty(), xs);
    assert forall|i: int| 0 <= i < ids.len() implies ns.contains(#[trigger] ids[i]) by {
        assert(xs[i] == ids[i]);
    }
    assert forall|i: int| 0 <= i < ug.nodes@.len() implies (#[trigger] name_ids(ug)[i]) < ns.len()
        && ns[name_ids(ug)[i] as int] == ids[i] by {
        assert(ns.contains(ids[i]));
        lemma_last_pos_found(ns, ids[i]);
    }
    assert forall|k: int| 0 <= k < ug.edges@.len() implies (#[trigger] name_edges(ug)[k]).0 < ns.len()
        && name_edges(ug)[k].1 < ns.len() && ns[name_edges(ug)[k].0 as int] == named[k].0
        && ns[name_edges(ug)[k].1 as int] == named[k].1 by {
        let e = named[k];
        lemma_edge_ends_len(named.take(k + 1));
        assert(named.take(k + 1).drop_last() =~= named.take(k));
        lemma_edge_ends_prefix(named, k + 1);
        let p = edge_ends(named.take(k + 1));
        lemma_edge_ends_len(named.take(k));
        assert(p[2 * k] == e.0 && p[2 * k + 1] == e.1);
        assert(edge_ends(named)[2 * k] == e.0);
        assert(edge_ends(named)[2 * k + 1] == e.1);
        assert(xs[ids.len() + 2 * k] == e.0);
        assert(xs[ids.len() + 2 * k + 1] == e.1);
        assert(ns.contains(e.0));
        assert(ns.contains(e.1));
        lemma_last_pos_found(ns, e.0);
        lemma_last_pos_found(ns, e.1);
    }
}

proof fn lemma_edge_ends_prefix(es: Seq<(Seq<char>, Seq<char>)>, k: int)
    requires
        0 <= k <= es.len(),
    ensures
        edge_ends(es.take(k)).len() == 2 * k,
        forall|j: int| 0 <= j < 2 * k ==> #[trigger] edge_ends(es)[j] == edge_ends(es.take(k))[j],
    decreases es.len() - k,
{
    lemma_edge_ends_len(es.take(k));
    if k == es.len() {
        assert(es.take(k) =~= es);
    } else {
        lemma_edge_ends_prefix(es, k + 1);
        assert(es.take(k + 1).drop_last() =~= es.take(k));
    }
}

/// With distinct ids and every edge end a node, the names are the ids, the
/// nodes are numbered by position, and the edges by the positions of their
/// ends.
pub proof fn lemma_names_of_wf_graph(ug: Unigraph)
    requires
        ug_wf(ug),
    ensures
        graph_names(ug) == ug_ids(ug),
        name_ids(ug) == identity_ids(ug.nodes@.len() as int),
        name_edges(ug) == ug_index_edges(ug),
{
    let ids = ug_ids(ug);
    let named = ug_edges(ug);
    lemma_add_names_concat(Seq::empty(), ids, edge_ends(named));
    lemma_add_names_distinct(ids);
    assert forall|j: int| 0 <= j < edge_ends(named).len() implies ids.contains(#[trigger] edge_ends(named)[j]) by {
        lemma_edge_ends(named, j);
        let k = choose|k: int| 0 <= k < named.len() && (edge_ends(named)[j] == (#[trigger] named[k]).0 || edge_ends(named)[j] == named[k].1);
        assert(named[k] == ug_edges(ug)[k]);
    }
    lemma_add_names_known(ids, edge_ends(named));
    assert forall|i: int| 0 <= i < ids.len() implies #[trigger] name_ids(ug)[i] == identity_ids(ids.len() as int)[i] by {
        lemma_last_pos_distinct(ids, i);
    }
    assert(name_ids(ug) =~= identity_ids(ids.len() as int));
    assert(name_edges(ug) =~= ug_index_edges(ug));
}

/// The names numbered below [`id_name_count`] are the ids, the others are
/// not; every edge end is an id exactly when there are no other names.
pub proof fn lemma_id_names(ug: Unigraph)
    ensures
        id_name_count(ug) <= graph_names(ug).len(),
        forall|i: int| 0 <= i < graph_names(ug).len() ==>
            (i < id_name_count(ug) <==> ug_ids(ug).contains(#[trigger] graph_names(ug)[i])),
        (graph_names(ug).len() == id_name_count(ug)) <==> (forall|k: int| 0 <= k < ug.edges@.len() ==>
            ug_ids(ug).contains(#[trigger] ug_edges(ug)[k].0) && ug_ids(ug).contains(ug_edges(ug)[k].1)),
{
    let ids = ug_ids(ug);
    let named = ug_edges(ug);
    let ends = edge_ends(named);
    let pre = add_names(Seq::empty(), ids);
    let ns = graph_names(ug);
    lemma_add_names_concat(Seq::empty(), ids, ends);
    lemma_add_names(Seq::empty(), ids);
    lemma_add_names(pre, ends);
    assert(ns == add_names(pre, ends));
    assert forall|x: Seq<char>| pre.contains(x) <==> ids.contains(x) by {}
    assert forall|i: int| 0 <= i < ns.len() implies (i < id_name_count(ug) <==> ids.contains(#[trigger] ns[i])) by {
        if i < pre.len() {
            assert(ns[i] == pre[i]);
            assert(pre.contains(pre[i]));
        } else {
            if ids.contains(ns[i]) {
                assert(pre.contains(ns[i]));
                let j = choose|j: int| 0 <= j < pre.len() && pre[j] == ns[i];
                assert(ns[j] == pre[j]);
            }
        }
    }
    lemma_edge_ends_len(named);
    assert((forall|k: int| 0 <= k < ug.edges@.len() ==> ids.contains(#[trigger] named[k].0) && ids.contains(named[k].1))
        ==> ns.len() == pre.len()) by {
    if forall|k: int| 0 <= k < ug.edges@.len() ==> ids.contains(#[trigger] named[k].0) && ids.contains(named[k].1) {
        assert forall|j: int| 0 <= j < ends.len() implies pre.contains(#[trigger] ends[j]) by {
            lemma_edge_ends(named, j);
            let k = choose|k: int| 0 <= k < named.len() && (ends[j] == (#[trigger] named[k]).0 || ends[j] == named[k].1);
            assert(ids.contains(named[k].0) && ids.contains(named[k].1));
            assert(ids.contains(ends[j]));
            assert(pre.contains(ends[j]));
        }
        lemma_add_names_known(pre, ends);
        assert(ns.len() == pre.len());
    }
    }
    assert(ns.len() == pre.len() ==> (forall|k: int| 0 <= k < ug.edges@.len() ==> ids.contains(#[trigger] named[k].0) && ids.contains(named[k].1))) by {
    if ns.len() == pre.len() {
        assert forall|k: int| 0 <= k < ug.edges@.len() implies ids.contains(#[trigger] named[k].0) && ids.contains(named[k].1) by {
            lemma_edge_ends_prefix(named, k + 1);
            lemma_edge_ends_len(named.take(k + 1));
            lemma_edge_ends_len(named.take(k));
            assert(named.take(k + 1).drop_last() =~= named.take(k));
            let p = edge_ends(named.take(k + 1));
            assert(p[2 * k] == named[k].0);
            assert(p[2 * k + 1] == named[k].1);
            assert(ends[2 * k] == p[2 * k]);
            assert(ends[2 * k + 1] == p[2 * k + 1]);
            assert(ends.contains(named[k].0));
            assert(ends.contains(named[k].1));
            assert(ns.contains(named[k].0));
            assert(ns.contains(named[k].1));
            let a = choose|a: int| 0 <= a < ns.len() && ns[a] == named[k].0;
            let b = choose|b: int| 0 <= b < ns.len() && ns[b] == named[k].1;
            assert(ids.contains(ns[a]));
            assert(ids.contains(ns[b]));
        }
    }
    }
    assert(ns.len() == id_name_count(ug) ==> ns.len() == pre.len());
    assert(ns.len() == pre.len() ==> ns.len() == id_name_count(ug));
}

// ---------------------------------------------------------------------------
// Executable code
// ---------------------------------------------------------------------------

/// The last position of `x` in `ns`.
fn find_name(ns: &Vec<NodeId>, x: &NodeId) -> (r: usize)
    requires
        layer_view(ns@).contains(x@),
    ensures
        r as int == last_pos(layer_view(ns@), x@),
{
    let ghost s = layer_view(ns@);
    proof {
        lemma_last_pos_found(s, x@);
    }
    let mut i = ns.len();
    assert(s.take(i as int) =~= s);
    while i > 0
        invariant
            i <= ns@.len(),
            s == layer_view(ns@),
            last_pos(s, x@) == last_pos(s.take(i as int), x@),
            0 <= last_pos(s, x@) < s.len(),
        decreases i,
    {
        let ghost v = s.take(i as int);
        assert(v.drop_last() =~= s.take(i - 1));
        assert(v.last() == ns@[i - 1]@);
        if ns[i - 1] == *x {
            return i - 1;
        }
        i = i - 1;
    }
    assert(s.take(0) =~= Seq::<Seq<char>>::empty());
    0
}

/// Whether `x` occurs in `ns`.
fn has_name(ns: &Vec<NodeId>, x: &NodeId) -> (b: bool)
    ensures
        b == layer_view(ns@).contains(x@),
{
    let ghost s = layer_view(ns@);
    let mut i: usize = 0;
    while i < ns.len()
        invariant
            i <= ns@.len(),
            s == layer_view(ns@),
            forall|j: int| 0 <= j < i ==> s[j] != x@,
        decreases ns@.len() - i,
    {
        if ns[i] == *x {
            assert(s[i as int] == x@);
            return true;
        }
        i = i + 1;
    }
    false
}

/// Appends `x` unless it is there already.
fn push_name(ns: &mut Vec<NodeId>, x: &NodeId)
    ensures
        layer_view(final(ns)@) == if layer_view(old(ns)@).contains(x@) {
            layer_view(old(ns)@)
        } else {
            layer_view(old(ns)@).push(x@)
        },
{
    if !has_name(ns, x) {
        let ghost before = layer_view(ns@);
        ns.push(x.clone());
        assert(layer_view(ns@) =~= before.push(x@));
    }
}

/// The names of a graph, the number of each node's name and the edges as
/// pairs of name numbers.
pub(crate) fn number_names(ug: &Unigraph) -> (r: (Vec<NodeId>, Vec<usize>, Vec<(usize, usize)>, usize))
    requires
        ug.nodes@.len() + 2 * ug.edges@.len() <= usize::MAX,
    ensures
        layer_view(r.0@) == graph_names(*ug),
        r.1@ == name_ids(*ug),
        r.2@ == name_edges(*ug),
        r.3 as int == id_name_count(*ug),
{
    let ghost ids = ug_ids(*ug);
    let ghost named = ug_edges(*ug);
    let ghost xs = ids + edge_ends(named);
    let mut ns: Vec<NodeId> = Vec::new();
    let mut i: usize = 0;
    assert(xs.take(0) =~= Seq::<Seq<char>>::empty());
    while i < ug.nodes.len()
        invariant
            i <= ug.nodes@.len(),
            ids == ug_ids(*ug),
            xs == ids + edge_ends(named),
            layer_view(ns@) == add_names(Seq::empty(), xs.take(i as int)),
        decreases ug.nodes@.len() - i,
    {
        assert(xs.take(i + 1).drop_last() =~= xs.take(i as int));
        assert(ids[i as int] == ug.nodes@[i as int].id@);
        assert(xs[i as int] == ids[i as int]);
        assert(xs.take(i + 1).last() == ug.nodes@[i as int].id@);
        push_name(&mut ns, &ug.nodes[i].id);
        i = i + 1;
    }
    proof {
        lemma_edge_ends_len(named);
        assert(xs.take(ug.nodes@.len() as int) =~= ids);
    }
    let id_count = ns.len();
    let mut k: usize = 0;
    while k < ug.edges.len()
        invariant
            k <= ug.edges@.len(),
            ids == ug_ids(*ug),
            named == ug_edges(*ug),
            ids.len() == ug.nodes@.len(),
            xs == ids + edge_ends(named),
            edge_ends(named).len() == 2 * named.len(),
            layer_view(ns@) == add_names(Seq::empty(), xs.take(ids.len() + 2 * k)),
        decreases ug.edges@.len() - k,
    {
        proof {
            lemma_edge_ends_prefix(named, k + 1);
            lemma_edge_ends_len(named.take(k as int));
            assert(named.take(k + 1).drop_last() =~= named.take(k as int));
            assert(named[k as int] == (ug.edges@[k as int].source@, ug.edges@[k as int].target@));
            let p = edge_ends(named.take(k + 1));
            assert(p[2 * k] == named[k as int].0);
            assert(p[2 * k + 1] == named[k as int].1);
            assert(edge_ends(named)[2 * k] == p[2 * k]);
            assert(edge_ends(named)[2 * k + 1] == p[2 * k + 1]);
            let m = ids.len() + 2 * k;
            assert(xs[m] == edge_ends(named)[2 * k]);
            assert(xs[m + 1] == edge_ends(named)[2 * k + 1]);
            assert(xs.take(m + 1).last() == xs[m]);
            assert(xs.take(m + 2).last() == xs[m + 1]);
            assert(xs[m] == ug.edges@[k as int].source@);
            assert(xs[m + 1] == ug.edges@[k as int].target@);
            assert(xs.take(m + 1).drop_last() =~= xs.take(m));
            assert(xs.take(m + 2).drop_last() =~= xs.take(m + 1));
        }
        let ghost m = ids.len() + 2 * k;
        push_name(&mut ns, &ug.edges[k].source);
        assert(layer_view(ns@) == add_names(Seq::empty(), xs.take(m + 1)));
        push_name(&mut ns, &ug.edges[k].target);
        assert(layer_view(ns@) == add_names(Seq::empty(), xs.take(m + 2)));
        k = k + 1;
    }
    assert(xs.take(xs.len() as int) =~= xs);
    proof {
        lemma_graph_names(*ug);
    }
    let ghost names = graph_names(*ug);
    proof {
        assert forall|q: int| 0 <= q < ids.len() implies names.contains(#[trigger] ids[q]) by {
            assert(names[name_ids(*ug)[q] as int] == ids[q]);
        }
        assert forall|k: int| 0 <= k < named.len() implies names.contains((#[trigger] named[k]).0) && names.contains(named[k].1) by {
            assert(names[name_edges(*ug)[k].0 as int] == named[k].0);
            assert(names[name_edges(*ug)[k].1 as int] == named[k].1);
        }
    }
    let mut nid: Vec<usize> = Vec::new();
    let mut j: usize = 0;
    while j < ug.nodes.len()
        invariant
            j <= ug.nodes@.len(),
            ids == ug_ids(*ug),
            names == graph_names(*ug),
            layer_view(ns@) == names,
            forall|q: int| 0 <= q < ids.len() ==> names.contains(#[trigger] ids[q]),
            nid@.len() == j,
            forall|q: int| 0 <= q < j ==> #[trigger] nid@[q] == name_ids(*ug)[q],
        decreases ug.nodes@.len() - j,
    {
        assert(ids[j as int] == ug.nodes@[j as int].id@);
        let p = find_name(&ns, &ug.nodes[j].id);
        nid.push(p);
        j = j + 1;
    }
    assert(nid@ =~= name_ids(*ug));
    let mut ne: Vec<(usize, usize)> = Vec::new();
    let mut q: usize = 0;
    while q < ug.edges.len()
        invariant
            q <= ug.edges@.len(),
            named == ug_edges(*ug),
            names == graph_names(*ug),
            layer_view(ns@) == names,
            forall|k: int| 0 <= k < named.len() ==> names.contains((#[trigger] named[k]).0) && names.contains(named[k].1),
            ne@.len() == q,
            forall|k: int| 0 <= k < q ==> #[trigger] ne@[k] == name_edges(*ug)[k],
        decreases ug.edges@.len() - q,
    {
        assert(named[q as int] == (ug.edges@[q as int].source@, ug.edges@[q as int].target@));
        let a = find_name(&ns, &ug.edges[q].source);
        let b = find_name(&ns, &ug.edges[q].target);
        ne.push((a, b));
        q = q + 1;
    }
    assert(ne@ =~= name_edges(*ug));
    (ns, nid, ne, id_count)
}

} // verus!
