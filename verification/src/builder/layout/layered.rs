//! The combinatorial phases of the layered layout with its default ranker:
//! feedback arcs, network-simplex ranks, the layer index and crossing
//! reduction. Coordinates and routes, which follow, work on floating point.

use vstd::prelude::*;

use std::collections::HashMap;

use petgraph::graph::DiGraph;

use super::crossing::layer_view;
use super::directed::{acyclic_by, has_path_of_from};
use super::layer_index::{build_layer_index, layer_nodes, layer_used, lemma_layer_nodes_contains, lemma_node_leq_total, node_leq};
use super::layer_sweep::{layers_of, lemma_rounds_same, reduce_crossings, same_nodes, spec_order_layers, spec_reduce_crossings, top_of};
use super::longest_path::{detect_feedback_arcs, feedback_flags, ints, spec_feedback_arcs_of};
use super::simplex::{assign_layers_network_simplex, simplex_edges};
use super::solver::directed::{sgraph_edges, sgraph_nodes};
use super::sugiyama::spec_longest_path_ranks;
use super::work_graph::{sgraph_node_count, sgraph_node_id};

verus! {

broadcast use vstd::std_specs::hash::group_hash_axioms;

/// The layer index of the ranks: each layer that holds a node lists its
/// nodes in ascending order of id.
pub open spec fn index_of(ranks: Seq<usize>, ids: Seq<Seq<char>>) -> Map<usize, Seq<usize>> {
    Map::new(
        |l: usize| layer_used(ranks, l, ranks.len() as int),
        |l: usize| layer_nodes(ranks, l, ranks.len() as int).sort_by(node_leq(ids)),
    )
}

/// The ids of the nodes, by index.
fn node_ids(graph: &DiGraph<String, ()>) -> (ids: Vec<String>)
    ensures
        layer_view(ids@) == sgraph_nodes(*graph),
{
    let n = sgraph_node_count(graph);
    let mut ids: Vec<String> = Vec::new();
    let mut i: usize = 0;
    while i < n
        invariant
            i <= n,
            n == sgraph_nodes(*graph).len(),
            ids@.len() == i,
            forall|j: int| 0 <= j < i ==> #[trigger] ids@[j]@ == sgraph_nodes(*graph)[j],
        decreases n - i,
    {
        ids.push(sgraph_node_id(graph, i));
        i = i + 1;
    }
    assert(layer_view(ids@) =~= sgraph_nodes(*graph));
    ids
}

/// Feedback arcs by depth-first search, network-simplex ranks with those
/// arcs reversed, the nodes of each rank in ascending order of id, and
/// `crossing_iterations` rounds of crossing reduction over those layers.
/// Returns the feedback arcs, the rank of each node, and the ordered
/// layers by rank.
pub fn layered_order(graph: &DiGraph<String, ()>, crossing_iterations: usize) -> (r: (
    Vec<(usize, usize)>,
    Vec<usize>,
    HashMap<usize, Vec<usize>>,
))
    requires
        sgraph_nodes(*graph).len() < usize::MAX,
        sgraph_nodes(*graph).len() < 0x4000_0000_0000_0000,
    ensures
        r.0@ == spec_feedback_arcs_of(sgraph_edges(*graph), sgraph_nodes(*graph).len() as int),
        exists|fin: Seq<int>|
            acyclic_by(
                sgraph_edges(*graph),
                feedback_flags(sgraph_edges(*graph), r.0@),
                sgraph_nodes(*graph).len() as int,
                fin,
            ),
        forall|j: int| 0 <= j < r.0@.len() ==> has_path_of_from(
            sgraph_edges(*graph),
            feedback_flags(sgraph_edges(*graph), r.0@),
            sgraph_nodes(*graph).len() as int,
            (#[trigger] r.0@[j]).1 as int,
            r.0@[j].0 as int,
        ),
        ints(r.1@) == spec_longest_path_ranks(
            simplex_edges(sgraph_edges(*graph), r.0@),
            sgraph_nodes(*graph).len() as int,
        ),
        layers_of(r.2@) == spec_order_layers(
            sgraph_edges(*graph),
            r.0@,
            index_of(r.1@, sgraph_nodes(*graph)),
            crossing_iterations as nat,
        ),
{
    let fas = detect_feedback_arcs(graph);
    let ranks = assign_layers_network_simplex(graph, &fas);
    let ids = node_ids(graph);
    let ghost ids_v = sgraph_nodes(*graph);
    proof {
        assert(ints(ranks@).len() == ids_v.len());
    }
    let index = build_layer_index(&ranks, &ids);
    let ghost im = index_of(ranks@, ids_v);
    proof {
        assert(layers_of(index@) =~= im);
    }
    let ordered = reduce_crossings(graph, &index, &fas, crossing_iterations);
    proof {
        assert(spec_reduce_crossings(sgraph_edges(*graph), fas@, index@, crossing_iterations as nat)
            == spec_order_layers(sgraph_edges(*graph), fas@, im, crossing_iterations as nat));
    }
    (fas, ranks, ordered)
}

/// Every node lies on the layer of its rank, once ordering is done: the
/// layers are exactly the ranks that occur, and layer `l` holds exactly
/// the nodes of rank `l`.
pub proof fn lemma_layered_places_every_node(
    es: Seq<(usize, usize)>,
    fas: Seq<(usize, usize)>,
    ranks: Seq<usize>,
    ids: Seq<Seq<char>>,
    iterations: nat,
)
    requires
        ranks.len() == ids.len(),
        ranks.len() <= usize::MAX,
    ensures
        forall|v: int| 0 <= v < ranks.len() ==> #[trigger] spec_order_layers(es, fas, index_of(ranks, ids), iterations).contains_key(
            ranks[v],
        ),
        forall|l: usize, v: usize| #[trigger] spec_order_layers(es, fas, index_of(ranks, ids), iterations).contains_key(l) ==> (
        #[trigger] spec_order_layers(es, fas, index_of(ranks, ids), iterations)[l].contains(v) <==> ((v as int) < ranks.len()
            && ranks[v as int] == l)),
{
    broadcast use vstd::seq_lib::group_to_multiset_ensures;
    let im = index_of(ranks, ids);
    let res = spec_order_layers(es, fas, im, iterations);
    let n = ranks.len() as int;
    lemma_rounds_same(im, es, fas, top_of(im.dom()), iterations);
    assert(same_nodes(res, im));
    lemma_node_leq_total(ids);
    assert forall|v: int| 0 <= v < n implies #[trigger] res.contains_key(ranks[v]) by {
        assert(layer_used(ranks, ranks[v], n));
        assert(im.contains_key(ranks[v]));
    }
    assert forall|l: usize, v: usize| #[trigger] res.contains_key(l) implies (#[trigger] res[l].contains(v) <==> ((v as int) < n
        && ranks[v as int] == l)) by {
        assert(im.contains_key(l));
        assert(res[l].contains(v) <==> im[l].contains(v));
        let ln = layer_nodes(ranks, l, n);
        ln.lemma_sort_by_ensures(node_leq(ids));
        assert(im[l] == ln.sort_by(node_leq(ids)));
        assert(ln.to_multiset().count(v) == im[l].to_multiset().count(v));
        lemma_layer_nodes_contains(ranks, l, n, v);
    }
}

} // verus!
