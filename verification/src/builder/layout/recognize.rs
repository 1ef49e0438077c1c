//! Collecting the nodes of a flowchart that take part in layout.

use vstd::prelude::*;

use crate::ast::{Flowchart, Node, NodeShape, Subgraph};

verus! {

/// A node as plain values: id, text, shape.
pub type NodeV = (Seq<char>, Option<Seq<char>>, Option<NodeShape>);

/// The plain value of an optional string.
pub open spec fn opt_view(s: Option<String>) -> Option<Seq<char>> {
    match s {
        Some(t) => Some(t@),
        None => None,
    }
}

/// The plain value of a node.
pub open spec fn node_view(n: Node) -> NodeV {
    (n.id@, opt_view(n.text), n.shape)
}

/// The plain values of a sequence of nodes.
pub open spec fn nodes_view(ns: Seq<Node>) -> Seq<NodeV> {
    ns.map_values(|n: Node| node_view(n))
}

/// Some node of `s` has the id `id`.
pub open spec fn has_id(s: Seq<NodeV>, id: Seq<char>) -> bool {
    exists|i: int| 0 <= i < s.len() && (#[trigger] s[i]).0 == id
}

/// The ids of `s` are pairwise distinct.
pub open spec fn ids_distinct(s: Seq<NodeV>) -> bool {
    forall|i: int, j: int| 0 <= i < s.len() && 0 <= j < s.len() && i != j ==> (#[trigger] s[i]).0 != (#[trigger] s[j]).0
}

/// `old` filled in from `new`: a missing shape or text is taken from `new`.
pub open spec fn fill_in(old: NodeV, new: NodeV) -> NodeV {
    (
        old.0,
        if old.1 is None && new.1 is Some { new.1 } else { old.1 },
        if old.2 is None && new.2 is Some { new.2 } else { old.2 },
    )
}

/// Merges one subgraph node: the node with the same id is filled in from
/// it, or it is appended when no node has its id.
pub open spec fn merge_node(out: Seq<NodeV>, n: NodeV) -> Seq<NodeV> {
    if has_id(out, n.0) {
        let i = choose|i: int| 0 <= i < out.len() && (#[trigger] out[i]).0 == n.0;
        out.update(i, fill_in(out[i], n))
    } else {
        out.push(n)
    }
}

/// Merges the nodes of one subgraph, in order.
pub open spec fn merge_nodes(out: Seq<NodeV>, ns: Seq<NodeV>) -> Seq<NodeV>
    decreases ns.len(),
{
    if ns.len() == 0 {
        out
    } else {
        merge_node(merge_nodes(out, ns.drop_last()), ns.last())
    }
}

/// The nodes of the subgraphs, one subgraph after the other.
pub open spec fn subgraph_inputs(sgs: Seq<Subgraph>) -> Seq<NodeV>
    decreases sgs.len(),
{
    if sgs.len() == 0 {
        Seq::empty()
    } else {
        subgraph_inputs(sgs.drop_last()) + nodes_view(sgs.last().nodes@)
    }
}

/// All nodes of a flowchart as they come: the top-level nodes, then the
/// nodes of each subgraph in order.
pub open spec fn flow_inputs(fc: Flowchart) -> Seq<NodeV> {
    nodes_view(fc.nodes@) + subgraph_inputs(fc.subgraphs@)
}

/// The nodes of a flowchart that take part in layout: one node per id, in
/// the order ids first appear (top level first, then subgraphs); a node
/// that comes again with the same id fills in a missing shape or text.
pub open spec fn spec_all_flowchart_nodes(fc: Flowchart) -> Seq<NodeV> {
    merge_nodes(Seq::empty(), flow_inputs(fc))
}

proof fn lemma_merge_node_distinct(out: Seq<NodeV>, n: NodeV)
    requires
        ids_distinct(out),
    ensures
        ids_distinct(merge_node(out, n)),
        forall|id: Seq<char>| has_id(merge_node(out, n), id) <==> (has_id(out, id) || id == n.0),
{
    let r = merge_node(out, n);
    if has_id(out, n.0) {
        let i = choose|i: int| 0 <= i < out.len() && (#[trigger] out[i]).0 == n.0;
        assert forall|j: int| 0 <= j < r.len() implies (#[trigger] r[j]).0 == out[j].0 by {}
        assert forall|id: Seq<char>| has_id(r, id) <==> (has_id(out, id) || id == n.0) by {
            if has_id(out, id) {
                let j = choose|j: int| 0 <= j < out.len() && (#[trigger] out[j]).0 == id;
                assert(r[j].0 == id);
            }
            if has_id(r, id) {
                let j = choose|j: int| 0 <= j < r.len() && (#[trigger] r[j]).0 == id;
                assert(out[j].0 == id);
            }
        }
    } else {
        assert forall|id: Seq<char>| has_id(r, id) <==> (has_id(out, id) || id == n.0) by {
            if has_id(out, id) {
                let j = choose|j: int| 0 <= j < out.len() && (#[trigger] out[j]).0 == id;
                assert(r[j].0 == id);
            }
            if id == n.0 {
                assert(r[out.len() as int].0 == id);
            }
            if has_id(r, id) {
                let j = choose|j: int| 0 <= j < r.len() && (#[trigger] r[j]).0 == id;
                if j < out.len() {
                    assert(out[j].0 == id);
                }
            }
        }
    }
}

proof fn lemma_merge_nodes_distinct(out: Seq<NodeV>, ns: Seq<NodeV>)
    requires
        ids_distinct(out),
    ensures
        ids_distinct(merge_nodes(out, ns)),
    decreases ns.len(),
{
    if ns.len() > 0 {
        lemma_merge_nodes_distinct(out, ns.drop_last());
        lemma_merge_node_distinct(merge_nodes(out, ns.drop_last()), ns.last());
    }
}

/// Copy of an optional string.
fn copy_opt(s: &Option<String>) -> (r: Option<String>)
    ensures
        opt_view(r) == opt_view(*s),
{
    match s {
        Some(t) => Some(t.clone()),
        None => None,
    }
}

/// Copy of a node.
fn copy_node(n: &Node) -> (r: Node)
    ensures
        node_view(r) == node_view(*n),
{
    Node { id: n.id.clone(), text: copy_opt(&n.text), shape: n.shape }
}

/// Index of the first node of `out` with the id `id`.
fn position_of(out: &Vec<Node>, id: &String) -> (r: Option<usize>)
    ensures
        match r {
            Some(i) => i < out@.len() && out@[i as int].id@ == id@
                && forall|j: int| 0 <= j < i ==> (#[trigger] out@[j]).id@ != id@,
            None => !has_id(nodes_view(out@), id@),
        },
{
    let mut i: usize = 0;
    while i < out.len()
        invariant
            i <= out@.len(),
            forall|j: int| 0 <= j < i ==> (#[trigger] out@[j]).id@ != id@,
        decreases out@.len() - i,
    {
        if out[i].id == *id {
            return Some(i);
        }
        i = i + 1;
    }
    proof {
        let s = nodes_view(out@);
        if has_id(s, id@) {
            let j = choose|j: int| 0 <= j < s.len() && (#[trigger] s[j]).0 == id@;
            assert(out@[j].id@ == id@);
        }
    }
    None
}

/// Merges `node` into `out` as [`merge_node`] says.
fn merge_into(out: &mut Vec<Node>, node: &Node)
    requires
        ids_distinct(nodes_view(old(out)@)),
    ensures
        nodes_view(final(out)@) == merge_node(nodes_view(old(out)@), node_view(*node)),
        ids_distinct(nodes_view(final(out)@)),
{
    let ghost s = nodes_view(out@);
    proof {
        lemma_merge_node_distinct(s, node_view(*node));
    }
    match position_of(out, &node.id) {
        Some(i) => {
            proof {
                assert(s[i as int].0 == node.id@);
                let c = choose|c: int| 0 <= c < s.len() && (#[trigger] s[c]).0 == node.id@;
                assert(c == i);
            }
            let shape = if out[i].shape.is_none() && node.shape.is_some() {
                node.shape
            } else {
                out[i].shape
            };
            let text = if out[i].text.is_none() && node.text.is_some() {
                copy_opt(&node.text)
            } else {
                copy_opt(&out[i].text)
            };
            let merged = Node { id: out[i].id.clone(), text, shape };
            out.set(i, merged);
            assert(nodes_view(out@) =~= s.update(i as int, fill_in(s[i as int], node_view(*node))));
        },
        None => {
            out.push(copy_node(node));
            assert(nodes_view(out@) =~= s.push(node_view(*node)));
        },
    }
}

/// Collects the nodes of a flowchart that take part in layout: the
/// top-level nodes, then the nodes of each subgraph, in order, one node per
/// id. A node whose id is already present fills in the missing shape and
/// text of that node (an empty shell, as an edge leaves it, takes the
/// content of a later declaration); any other node is appended.
pub fn all_flowchart_nodes(fc: &Flowchart) -> (out: Vec<Node>)
    ensures
        nodes_view(out@) == spec_all_flowchart_nodes(*fc),
        ids_distinct(nodes_view(out@)),
        nodes_view(out@).map_values(|v: NodeV| v.0) == first_ids(flow_inputs(*fc)),
        forall|x: Seq<char>| has_id(nodes_view(out@), x) <==> has_id(flow_inputs(*fc), x),
        forall|j: int| 0 <= j < out@.len() ==> {
            &&& (#[trigger] nodes_view(out@)[j]).2 == first_shape(flow_inputs(*fc), nodes_view(out@)[j].0)
            &&& nodes_view(out@)[j].1 == first_text(flow_inputs(*fc), nodes_view(out@)[j].0)
        },
{
    let mut out: Vec<Node> = Vec::new();
    let ghost tops = nodes_view(fc.nodes@);
    let mut i: usize = 0;
    assert(tops.take(0) =~= Seq::<NodeV>::empty());
    assert(nodes_view(out@) =~= Seq::<NodeV>::empty());
    while i < fc.nodes.len()
        invariant
            i <= fc.nodes@.len(),
            tops == nodes_view(fc.nodes@),
            nodes_view(out@) == merge_nodes(Seq::empty(), tops.take(i as int)),
            ids_distinct(nodes_view(out@)),
        decreases fc.nodes@.len() - i,
    {
        let ghost t = tops.take(i + 1);
        assert(t.drop_last() =~= tops.take(i as int));
        assert(t.last() == node_view(fc.nodes@[i as int]));
        merge_into(&mut out, &fc.nodes[i]);
        i = i + 1;
    }
    assert(tops.take(tops.len() as int) =~= tops);
    let mut g: usize = 0;
    assert(tops + subgraph_inputs(fc.subgraphs@.take(0)) =~= tops);
    while g < fc.subgraphs.len()
        invariant
            g <= fc.subgraphs@.len(),
            tops == nodes_view(fc.nodes@),
            nodes_view(out@) == merge_nodes(Seq::empty(), tops + subgraph_inputs(fc.subgraphs@.take(g as int))),
            ids_distinct(nodes_view(out@)),
        decreases fc.subgraphs@.len() - g,
    {
        let sg = &fc.subgraphs[g];
        let ghost sgv = nodes_view(sg.nodes@);
        let ghost prefix = tops + subgraph_inputs(fc.subgraphs@.take(g as int));
        let mut k: usize = 0;
        assert(prefix + sgv.take(0) =~= prefix);
        while k < sg.nodes.len()
            invariant
                k <= sg.nodes@.len(),
                sgv == nodes_view(sg.nodes@),
                nodes_view(out@) == merge_nodes(Seq::empty(), prefix + sgv.take(k as int)),
                ids_distinct(nodes_view(out@)),
            decreases sg.nodes@.len() - k,
        {
            let ghost t = prefix + sgv.take(k + 1);
            assert(t.drop_last() =~= prefix + sgv.take(k as int));
            assert(t.last() == node_view(sg.nodes@[k as int]));
            merge_into(&mut out, &sg.nodes[k]);
            k = k + 1;
        }
        assert(sgv.take(sgv.len() as int) =~= sgv);
        let ghost gs = fc.subgraphs@.take(g + 1);
        assert(gs.drop_last() =~= fc.subgraphs@.take(g as int));
        assert(gs.last() == fc.subgraphs@[g as int]);
        assert(prefix + sgv =~= tops + subgraph_inputs(gs));
        g = g + 1;
    }
    assert(fc.subgraphs@.take(fc.subgraphs@.len() as int) =~= fc.subgraphs@);
    proof {
        lemma_all_flowchart_nodes_merge(*fc);
    }
    out
}

// ---------------------------------------------------------------------------
// Laws
// ---------------------------------------------------------------------------

/// The ids of `s` in the order they first appear, each once.
pub open spec fn first_ids(s: Seq<NodeV>) -> Seq<Seq<char>>
    decreases s.len(),
{
    if s.len() == 0 {
        Seq::empty()
    } else {
        let r = first_ids(s.drop_last());
        if r.contains(s.last().0) { r } else { r.push(s.last().0) }
    }
}

/// The first shape that a node with id `x` has in `s`.
pub open spec fn first_shape(s: Seq<NodeV>, x: Seq<char>) -> Option<NodeShape>
    decreases s.len(),
{
    if s.len() == 0 {
        None
    } else {
        let r = first_shape(s.drop_last(), x);
        if r is Some { r } else if s.last().0 == x { s.last().2 } else { None }
    }
}

/// The first text that a node with id `x` has in `s`.
pub open spec fn first_text(s: Seq<NodeV>, x: Seq<char>) -> Option<Seq<char>>
    decreases s.len(),
{
    if s.len() == 0 {
        None
    } else {
        let r = first_text(s.drop_last(), x);
        if r is Some { r } else if s.last().0 == x { s.last().1 } else { None }
    }
}

proof fn lemma_absent_id(s: Seq<NodeV>, x: Seq<char>)
    requires
        !has_id(s, x),
    ensures
        first_shape(s, x) is None,
        first_text(s, x) is None,
        !first_ids(s).contains(x),
    decreases s.len(),
{
    if s.len() > 0 {
        let d = s.drop_last();
        assert(!has_id(d, x)) by {
            if has_id(d, x) {
                let i = choose|i: int| 0 <= i < d.len() && (#[trigger] d[i]).0 == x;
                assert(s[i].0 == x);
            }
        }
        lemma_absent_id(d, x);
        assert(s.last().0 != x) by {
            if s.last().0 == x {
                assert(s[s.len() - 1].0 == x);
            }
        }
        let r = first_ids(d);
        if !r.contains(s.last().0) {
            if r.push(s.last().0).contains(x) {
                let i = choose|i: int| 0 <= i < r.push(s.last().0).len() && r.push(s.last().0)[i] == x;
                assert(r[i] == x);
            }
        }
    }
}

proof fn lemma_merge_law(ns: Seq<NodeV>)
    ensures
        ids_distinct(merge_nodes(Seq::empty(), ns)),
        merge_nodes(Seq::empty(), ns).map_values(|v: NodeV| v.0) == first_ids(ns),
        forall|x: Seq<char>| has_id(merge_nodes(Seq::empty(), ns), x) <==> has_id(ns, x),
        forall|j: int| 0 <= j < merge_nodes(Seq::empty(), ns).len() ==> {
            &&& (#[trigger] merge_nodes(Seq::empty(), ns)[j]).2 == first_shape(ns, merge_nodes(Seq::empty(), ns)[j].0)
            &&& merge_nodes(Seq::empty(), ns)[j].1 == first_text(ns, merge_nodes(Seq::empty(), ns)[j].0)
        },
    decreases ns.len(),
{
    let e = Seq::<NodeV>::empty();
    if ns.len() == 0 {
        assert(merge_nodes(e, ns).map_values(|v: NodeV| v.0) =~= first_ids(ns));
    } else {
        let p = ns.drop_last();
        let n = ns.last();
        lemma_merge_law(p);
        let mp = merge_nodes(e, p);
        let m = merge_nodes(e, ns);
        assert(m == merge_node(mp, n));
        lemma_merge_node_distinct(mp, n);
        assert forall|x: Seq<char>| has_id(m, x) <==> has_id(ns, x) by {
            assert(has_id(mp, x) <==> has_id(p, x));
            if has_id(p, x) {
                let i = choose|i: int| 0 <= i < p.len() && (#[trigger] p[i]).0 == x;
                assert(ns[i].0 == x);
            }
            if x == n.0 {
                assert(ns[ns.len() - 1].0 == x);
            }
            if has_id(ns, x) && x != n.0 {
                let i = choose|i: int| 0 <= i < ns.len() && (#[trigger] ns[i]).0 == x;
                assert(i != ns.len() - 1);
                assert(p[i].0 == x);
            }
        }
        let fp = first_ids(p);
        if has_id(mp, n.0) {
            let i = choose|i: int| 0 <= i < mp.len() && (#[trigger] mp[i]).0 == n.0;
            assert(mp.map_values(|v: NodeV| v.0)[i] == n.0);
            assert(fp.contains(n.0));
            assert(m.map_values(|v: NodeV| v.0) =~= mp.map_values(|v: NodeV| v.0));
            assert forall|j: int| 0 <= j < m.len() implies {
                &&& (#[trigger] m[j]).2 == first_shape(ns, m[j].0)
                &&& m[j].1 == first_text(ns, m[j].0)
            } by {
                if j != i {
                    assert(m[j] == mp[j]);
                    assert(mp[j].0 != n.0);
                } else {
                    assert(m[j] == fill_in(mp[i], n));
                }
            }
        } else {
            assert(!has_id(p, n.0));
            lemma_absent_id(p, n.0);
            assert(m.map_values(|v: NodeV| v.0) =~= mp.map_values(|v: NodeV| v.0).push(n.0));
            assert forall|j: int| 0 <= j < m.len() implies {
                &&& (#[trigger] m[j]).2 == first_shape(ns, m[j].0)
                &&& m[j].1 == first_text(ns, m[j].0)
            } by {
                if j < mp.len() {
                    assert(m[j] == mp[j]);
                    assert(mp[j].0 != n.0) by {
                        if mp[j].0 == n.0 {
                            assert(has_id(mp, n.0));
                        }
                    }
                } else {
                    assert(m[j] == n);
                }
            }
        }
    }
}

/// What collecting the nodes of a flowchart promises: every id of the
/// flowchart (top level or inside a subgraph) comes out exactly once, in
/// the order ids first appear, top level first; and each node carries the
/// first shape and the first text given to its id, so an empty shell is
/// filled from a later node with content and content already there is
/// never overwritten.
pub proof fn lemma_all_flowchart_nodes_merge(fc: Flowchart)
    ensures
        ids_distinct(spec_all_flowchart_nodes(fc)),
        spec_all_flowchart_nodes(fc).map_values(|v: NodeV| v.0) == first_ids(flow_inputs(fc)),
        forall|x: Seq<char>| has_id(spec_all_flowchart_nodes(fc), x) <==> has_id(flow_inputs(fc), x),
        forall|j: int| 0 <= j < spec_all_flowchart_nodes(fc).len() ==> {
            &&& (#[trigger] spec_all_flowchart_nodes(fc)[j]).2 == first_shape(
                flow_inputs(fc),
                spec_all_flowchart_nodes(fc)[j].0,
            )
            &&& spec_all_flowchart_nodes(fc)[j].1 == first_text(flow_inputs(fc), spec_all_flowchart_nodes(fc)[j].0)
        },
{
    lemma_merge_law(flow_inputs(fc));
}


} // verus!
