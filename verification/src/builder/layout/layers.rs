//! Layer assignment over the recognised group structure of a flowchart.
//!
//! A chain puts its items on consecutive layers; a branch puts its source on
//! the start layer, every arm from the next layer on and the sink below the
//! deepest arm; a cycle keeps its body beside the condition and puts the
//! exit on the next layer. A node keeps the first layer it is given. Ends of
//! orphan edges not placed by the groups come last: a missing source on
//! layer 0, a missing target one layer below its source.

use vstd::prelude::*;
use vstd::hash_map::StringHashMap;

use super::types::{BranchArm, ChainItem, LayoutTree, LogicalGroup, NodeId, OrphanEdge};

verus! {

/// Layer map of a walk: ids to layers.
pub type LayerMap = Map<Seq<char>, int>;

/// Gives `id` the layer `l` unless it already has one.
pub open spec fn place(m: LayerMap, id: Seq<char>, l: int) -> LayerMap {
    if m.contains_key(id) { m } else { m.insert(id, l) }
}

/// Layers of a group placed from layer `start`, and the first layer after it.
pub open spec fn group_spec(g: LogicalGroup, start: int, m: LayerMap) -> (LayerMap, int)
    decreases g,
{
    match g {
        LogicalGroup::Leaf { node_id } => (place(m, node_id@, start), start + 1),
        LogicalGroup::Chain { items } => items_spec(items@, start, m),
        LogicalGroup::Branch { source, arms, sink } => {
            let m1 = place(m, source@, start);
            let r = arms_spec(arms@, start + 1, m1);
            match sink {
                Some(s) => (place(r.0, s@, r.1), r.1 + 1),
                None => r,
            }
        },
        LogicalGroup::Cycle { condition, body, exit } => {
            let m1 = place(m, condition@, start);
            let r = group_spec(*body, start, m1);
            match exit {
                Some(x) => (place(r.0, x@, start + 1), start + 2),
                None => r,
            }
        },
    }
}

/// Chain items placed one after another from layer `start`.
pub open spec fn items_spec(items: Seq<ChainItem>, start: int, m: LayerMap) -> (LayerMap, int)
    decreases items,
{
    if items.len() == 0 {
        (m, start)
    } else {
        let r = items_spec(items.drop_last(), start, m);
        let item = items.last();
        match item.node_id {
            Some(id) => (place(r.0, id@, r.1), r.1 + 1),
            None => match item.sub_group {
                Some(sub) => group_spec(*sub, r.1, r.0),
                None => (r.0, r.1 + 1),
            },
        }
    }
}

/// Branch arms, each placed from layer `start`; the second component is the
/// deepest end (at least `start`).
pub open spec fn arms_spec(arms: Seq<BranchArm>, start: int, m: LayerMap) -> (LayerMap, int)
    decreases arms,
{
    if arms.len() == 0 {
        (m, start)
    } else {
        let r = arms_spec(arms.drop_last(), start, m);
        let a = group_spec(arms.last().body, start, r.0);
        (a.0, if a.1 > r.1 { a.1 } else { r.1 })
    }
}

/// Orphan edges: a missing source goes to layer 0, a missing target one
/// layer below its source.
pub open spec fn orphans_spec(es: Seq<OrphanEdge>, m: LayerMap) -> LayerMap
    decreases es.len(),
{
    if es.len() == 0 {
        m
    } else {
        let m1 = orphans_spec(es.drop_last(), m);
        let e = es.last();
        let m2 = place(m1, e.from@, 0);
        place(m2, e.to@, m2[e.from@] + 1)
    }
}

/// The layer of every node of the tree and of every orphan edge end.
pub open spec fn spec_assign_layers(tree: LayoutTree) -> LayerMap {
    orphans_spec(tree.orphan_edges@, group_spec(tree.root, 0, Map::empty()).0)
}

// ---------------------------------------------------------------------------
// Sizes and bounds
// ---------------------------------------------------------------------------

/// Upper bound on the number of layers a group spans.
pub open spec fn group_weight(g: LogicalGroup) -> int
    decreases g,
{
    match g {
        LogicalGroup::Leaf { .. } => 1,
        LogicalGroup::Chain { items } => items_weight(items@),
        LogicalGroup::Branch { arms, .. } => 2 + arms_weight(arms@),
        LogicalGroup::Cycle { body, .. } => 2 + group_weight(*body),
    }
}

/// Upper bound on the number of layers a sequence of chain items spans.
pub open spec fn items_weight(items: Seq<ChainItem>) -> int
    decreases items,
{
    if items.len() == 0 {
        0
    } else {
        let item = items.last();
        items_weight(items.drop_last()) + match item.node_id {
            Some(_) => 1,
            None => match item.sub_group {
                Some(sub) => group_weight(*sub),
                None => 1,
            },
        }
    }
}

/// Sum of the weights of the arms.
pub open spec fn arms_weight(arms: Seq<BranchArm>) -> int
    decreases arms,
{
    if arms.len() == 0 {
        0
    } else {
        arms_weight(arms.drop_last()) + group_weight(arms.last().body)
    }
}

/// `m2` extends `m1`, and its new entries lie in `lo..hi`.
pub open spec fn extends_within(m1: LayerMap, m2: LayerMap, lo: int, hi: int) -> bool {
    &&& forall|k: Seq<char>| #[trigger] m1.contains_key(k) ==> m2.contains_key(k) && m2[k] == m1[k]
    &&& forall|k: Seq<char>| #[trigger] m2.contains_key(k) && !m1.contains_key(k) ==> lo <= m2[k] < hi
}

proof fn lemma_place(m: LayerMap, id: Seq<char>, l: int, lo: int, hi: int)
    requires
        lo <= l < hi,
    ensures
        extends_within(m, place(m, id, l), lo, hi),
{
}

proof fn lemma_extends_trans(m1: LayerMap, m2: LayerMap, m3: LayerMap, lo: int, hi: int)
    requires
        extends_within(m1, m2, lo, hi),
        extends_within(m2, m3, lo, hi),
    ensures
        extends_within(m1, m3, lo, hi),
{
    assert forall|k: Seq<char>| m3.contains_key(k) && !m1.contains_key(k) implies lo <= m3[k] < hi by {
        if m2.contains_key(k) {
            assert(m3[k] == m2[k]);
        }
    }
}

proof fn lemma_extends_widen(m1: LayerMap, m2: LayerMap, lo: int, hi: int, lo2: int, hi2: int)
    requires
        extends_within(m1, m2, lo, hi),
        lo2 <= lo,
        hi <= hi2,
    ensures
        extends_within(m1, m2, lo2, hi2),
{
    assert forall|k: Seq<char>| m2.contains_key(k) && !m1.contains_key(k) implies lo2 <= m2[k] < hi2 by {
        assert(lo <= m2[k] < hi);
    }
}

/// A group placed from `start` ends between `start` and `start + weight`,
/// and only adds entries in that range.
proof fn lemma_group_bound(g: LogicalGroup, start: int, m: LayerMap)
    ensures
        group_weight(g) >= 0,
        start <= group_spec(g, start, m).1 <= start + group_weight(g),
        extends_within(m, group_spec(g, start, m).0, start, start + group_weight(g)),
    decreases g,
{
    match g {
        LogicalGroup::Leaf { node_id } => {
            lemma_place(m, node_id@, start, start, start + 1);
        },
        LogicalGroup::Chain { items } => {
            lemma_items_bound(items@, start, m);
        },
        LogicalGroup::Branch { source, arms, sink } => {
            let w = group_weight(g);
            let m1 = place(m, source@, start);
            lemma_arms_bound(arms@, start + 1, m1);
            lemma_place(m, source@, start, start, start + w);
            lemma_arms_bound(arms@, start + 1, m1);
            let r = arms_spec(arms@, start + 1, m1);
            lemma_extends_widen(m1, r.0, start + 1, start + 1 + arms_weight(arms@), start, start + w);
            lemma_extends_trans(m, m1, r.0, start, start + w);
            match sink {
                Some(sk) => {
                    lemma_place(r.0, sk@, r.1, start, start + w);
                    lemma_extends_trans(m, r.0, place(r.0, sk@, r.1), start, start + w);
                },
                None => {},
            }
        },
        LogicalGroup::Cycle { condition, body, exit } => {
            let w = group_weight(g);
            let m1 = place(m, condition@, start);
            lemma_group_bound(*body, start, m1);
            lemma_place(m, condition@, start, start, start + w);
            lemma_group_bound(*body, start, m1);
            let r = group_spec(*body, start, m1);
            lemma_extends_widen(m1, r.0, start, start + group_weight(*body), start, start + w);
            lemma_extends_trans(m, m1, r.0, start, start + w);
            match exit {
                Some(x) => {
                    lemma_place(r.0, x@, start + 1, start, start + w);
                    lemma_extends_trans(m, r.0, place(r.0, x@, start + 1), start, start + w);
                },
                None => {},
            }
        },
    }
}

proof fn lemma_items_bound(items: Seq<ChainItem>, start: int, m: LayerMap)
    ensures
        items_weight(items) >= 0,
        start <= items_spec(items, start, m).1 <= start + items_weight(items),
        extends_within(m, items_spec(items, start, m).0, start, start + items_weight(items)),
    decreases items,
{
    if items.len() > 0 {
        let w = items_weight(items);
        lemma_items_bound(items.drop_last(), start, m);
        let r = items_spec(items.drop_last(), start, m);
        let item = items.last();
        match item.node_id {
            Some(id) => {
                lemma_extends_widen(m, r.0, start, start + items_weight(items.drop_last()), start, start + w);
                lemma_place(r.0, id@, r.1, start, start + w);
                lemma_extends_trans(m, r.0, place(r.0, id@, r.1), start, start + w);
            },
            None => match item.sub_group {
                Some(sub) => {
                    lemma_group_bound(*sub, r.1, r.0);
                    lemma_extends_widen(m, r.0, start, start + items_weight(items.drop_last()), start, start + w);
                    lemma_extends_widen(r.0, group_spec(*sub, r.1, r.0).0, r.1, r.1 + group_weight(*sub), start, start + w);
                    lemma_extends_trans(m, r.0, group_spec(*sub, r.1, r.0).0, start, start + w);
                },
                None => {
                    lemma_extends_widen(m, r.0, start, start + items_weight(items.drop_last()), start, start + w);
                },
            },
        }
    }
}

proof fn lemma_arms_bound(arms: Seq<BranchArm>, start: int, m: LayerMap)
    ensures
        arms_weight(arms) >= 0,
        start <= arms_spec(arms, start, m).1 <= start + arms_weight(arms),
        extends_within(m, arms_spec(arms, start, m).0, start, start + arms_weight(arms)),
    decreases arms,
{
    if arms.len() > 0 {
        let w = arms_weight(arms);
        lemma_arms_bound(arms.drop_last(), start, m);
        let r = arms_spec(arms.drop_last(), start, m);
        let body = arms.last().body;
        lemma_group_bound(body, start, r.0);
        lemma_extends_widen(m, r.0, start, start + arms_weight(arms.drop_last()), start, start + w);
        lemma_extends_widen(r.0, group_spec(body, start, r.0).0, start, start + group_weight(body), start, start + w);
        lemma_extends_trans(m, r.0, group_spec(body, start, r.0).0, start, start + w);
    }
}

proof fn lemma_items_weight_prefix(items: Seq<ChainItem>, k: int)
    requires
        0 <= k <= items.len(),
    ensures
        items_weight(items.take(k)) <= items_weight(items),
    decreases items.len() - k,
{
    if k < items.len() {
        lemma_items_weight_prefix(items, k + 1);
        let t = items.take(k + 1);
        assert(t.drop_last() =~= items.take(k));
        let item = t.last();
        match item.node_id {
            Some(_) => {},
            None => match item.sub_group {
                Some(sub) => { lemma_group_bound(*sub, 0, Map::empty()); },
                None => {},
            },
        }
    } else {
        assert(items.take(k) =~= items);
    }
}

proof fn lemma_arms_weight_prefix(arms: Seq<BranchArm>, k: int)
    requires
        0 <= k <= arms.len(),
    ensures
        arms_weight(arms.take(k)) <= arms_weight(arms),
        forall|j: int| 0 <= j < k ==> group_weight(#[trigger] arms[j].body) <= arms_weight(arms),
    decreases arms.len() - k,
{
    if k < arms.len() {
        lemma_arms_weight_prefix(arms, k + 1);
        let t = arms.take(k + 1);
        assert(t.drop_last() =~= arms.take(k));
        lemma_group_bound(t.last().body, 0, Map::empty());
    } else {
        assert(arms.take(k) =~= arms);
        lemma_arms_each(arms);
    }
}

proof fn lemma_arms_each(arms: Seq<BranchArm>)
    ensures
        forall|j: int| 0 <= j < arms.len() ==> group_weight(#[trigger] arms[j].body) <= arms_weight(arms),
        arms_weight(arms) >= 0,
    decreases arms.len(),
{
    if arms.len() > 0 {
        lemma_arms_each(arms.drop_last());
        lemma_group_bound(arms.last().body, 0, Map::empty());
        assert forall|j: int| 0 <= j < arms.len() implies group_weight(#[trigger] arms[j].body) <= arms_weight(arms) by {
            if j < arms.len() - 1 {
                assert(arms.drop_last()[j] == arms[j]);
            }
        }
    }
}

// ---------------------------------------------------------------------------
// Executable code
// ---------------------------------------------------------------------------

/// The map `em` holds exactly the entries of `sm`.
pub open spec fn same_map(em: Map<Seq<char>, usize>, sm: LayerMap) -> bool {
    &&& forall|k: Seq<char>| em.contains_key(k) <==> sm.contains_key(k)
    &&& forall|k: Seq<char>| #[trigger] em.contains_key(k) ==> em[k] as int == sm[k]
}

/// Gives `id` the layer `l` unless it already has one.
fn place_exec(layers: &mut StringHashMap<usize>, id: &NodeId, l: usize, Ghost(sm): Ghost<LayerMap>)
    requires
        same_map(old(layers)@, sm),
    ensures
        same_map(final(layers)@, place(sm, id@, l as int)),
{
    if !layers.contains_key(id.as_str()) {
        layers.insert(id.clone(), l);
    }
}

/// Places a group from layer `start`; returns the first layer after it.
fn assign_group_layers(group: &LogicalGroup, start: usize, layers: &mut StringHashMap<usize>, Ghost(sm): Ghost<LayerMap>) -> (end: usize)
    requires
        same_map(old(layers)@, sm),
        start + group_weight(*group) < usize::MAX,
    ensures
        same_map(final(layers)@, group_spec(*group, start as int, sm).0),
        end == group_spec(*group, start as int, sm).1,
    decreases group,
{
    proof {
        lemma_group_bound(*group, start as int, sm);
    }
    match group {
        LogicalGroup::Chain { items } => {
            let mut layer = start;
            let mut k: usize = 0;
            let ghost mut cur = sm;
            assert(items@.take(0) =~= Seq::<ChainItem>::empty());
            while k < items.len()
                invariant
                    k <= items@.len(),
                    *group == (LogicalGroup::Chain { items: *items }),
                    start + items_weight(items@) < usize::MAX,
                    cur == items_spec(items@.take(k as int), start as int, sm).0,
                    layer == items_spec(items@.take(k as int), start as int, sm).1,
                    same_map(layers@, cur),
                decreases items@.len() - k,
            {
                let ghost t = items@.take(k + 1);
                assert(t.drop_last() =~= items@.take(k as int));
                assert(t.last() == items@[k as int]);
                proof {
                    lemma_items_bound(items@.take(k as int), start as int, sm);
                    lemma_items_weight_prefix(items@, k + 1);
                }
                let item = &items[k];
                match &item.node_id {
                    Some(id) => {
                        place_exec(layers, id, layer, Ghost(cur));
                        proof { cur = place(cur, id@, layer as int); }
                        layer = layer + 1;
                    },
                    None => match &item.sub_group {
                        Some(sub) => {
                            let ghost before = cur;
                            proof {
                                assert(decreases_to!(*group => (*group)->items));
                                assert(decreases_to!((*group)->items => items@));
                                assert(decreases_to!(items@ => items@[k as int]));
                                assert(decreases_to!(items@[k as int] => items@[k as int].sub_group));
                                assert(decreases_to!(items@[k as int].sub_group => **sub));
                            }
                            layer = assign_group_layers(sub, layer, layers, Ghost(cur));
                            proof { cur = group_spec(**sub, items_spec(items@.take(k as int), start as int, sm).1, before).0; }
                        },
                        None => {
                            layer = layer + 1;
                        },
                    },
                }
                k = k + 1;
            }
            assert(items@.take(items@.len() as int) =~= items@);
            layer
        },
        LogicalGroup::Branch { source, arms, sink } => {
            place_exec(layers, source, start, Ghost(sm));
            let ghost m1 = place(sm, source@, start as int);
            let branch_layer = start + 1;
            let mut max_end = branch_layer;
            let ghost mut cur = m1;
            let mut k: usize = 0;
            assert(arms@.take(0) =~= Seq::<BranchArm>::empty());
            proof {
                lemma_arms_weight_prefix(arms@, arms@.len() as int);
            }
            while k < arms.len()
                invariant
                    k <= arms@.len(),
                    *group == (LogicalGroup::Branch { source: *source, arms: *arms, sink: *sink }),
                    branch_layer == start + 1,
                    start + 2 + arms_weight(arms@) < usize::MAX,
                    forall|j: int| 0 <= j < arms@.len() ==> group_weight(#[trigger] arms@[j].body) <= arms_weight(arms@),
                    cur == arms_spec(arms@.take(k as int), branch_layer as int, m1).0,
                    max_end == arms_spec(arms@.take(k as int), branch_layer as int, m1).1,
                    same_map(layers@, cur),
                decreases arms@.len() - k,
            {
                let ghost t = arms@.take(k + 1);
                assert(t.drop_last() =~= arms@.take(k as int));
                assert(t.last() == arms@[k as int]);
                proof {
                    lemma_arms_bound(arms@.take(k as int), branch_layer as int, m1);
                    lemma_arms_weight_prefix(arms@, k as int);
                    assert(group_weight(arms@[k as int].body) <= arms_weight(arms@));
                }
                let ghost before = cur;
                proof {
                    assert(decreases_to!(*group => (*group)->arms));
                    assert(decreases_to!((*group)->arms => arms@));
                    assert(decreases_to!(arms@ => arms@[k as int]));
                    assert(decreases_to!(arms@[k as int] => arms@[k as int].body));
                }
                let end = assign_group_layers(&arms[k].body, branch_layer, layers, Ghost(cur));
                proof { cur = group_spec(arms@[k as int].body, branch_layer as int, before).0; }
                if end > max_end {
                    max_end = end;
                }
                k = k + 1;
            }
            assert(arms@.take(arms@.len() as int) =~= arms@);
            proof {
                lemma_arms_bound(arms@, branch_layer as int, m1);
            }
            match sink {
                Some(sink_node) => {
                    place_exec(layers, sink_node, max_end, Ghost(cur));
                    max_end + 1
                },
                None => max_end,
            }
        },
        LogicalGroup::Cycle { condition, body, exit } => {
            place_exec(layers, condition, start, Ghost(sm));
            let ghost m1 = place(sm, condition@, start as int);
            let body_end = assign_group_layers(body, start, layers, Ghost(m1));
            let ghost m2 = group_spec(**body, start as int, m1).0;
            match exit {
                Some(exit_node) => {
                    place_exec(layers, exit_node, start + 1, Ghost(m2));
                    start + 2
                },
                None => body_end,
            }
        },
        LogicalGroup::Leaf { node_id } => {
            place_exec(layers, node_id, start, Ghost(sm));
            start + 1
        },
    }
}

/// Layer of every node of `tree`: the groups are placed from layer 0, then
/// the ends of the orphan edges that no group placed.
pub fn assign_layers(tree: &LayoutTree) -> (layers: StringHashMap<usize>)
    requires
        group_weight(tree.root) + tree.orphan_edges@.len() < usize::MAX,
    ensures
        same_map(layers@, spec_assign_layers(*tree)),
        forall|k: Seq<char>| #[trigger] layers@.contains_key(k)
            <==> group_ids(tree.root).union(orphan_ids(tree.orphan_edges@)).contains(k),
{
    let mut layers: StringHashMap<usize> = StringHashMap::new();
    let ghost m0: LayerMap = Map::empty();
    assert(same_map(layers@, m0));
    proof {
        lemma_group_bound(tree.root, 0, m0);
    }
    assign_group_layers(&tree.root, 0, &mut layers, Ghost(m0));
    let ghost w = group_weight(tree.root);
    let ghost base = group_spec(tree.root, 0, m0).0;
    let ghost mut cur = base;
    let edges = &tree.orphan_edges;
    let mut i: usize = 0;
    assert(edges@.take(0) =~= Seq::<OrphanEdge>::empty());
    while i < edges.len()
        invariant
            i <= edges@.len(),
            edges@ == tree.orphan_edges@,
            0 <= w,
            w + edges@.len() < usize::MAX,
            cur == orphans_spec(edges@.take(i as int), base),
            same_map(layers@, cur),
            forall|k: Seq<char>| #[trigger] cur.contains_key(k) ==> 0 <= cur[k] <= w + i,
        decreases edges@.len() - i,
    {
        let edge = &edges[i];
        let ghost t = edges@.take(i + 1);
        assert(t.drop_last() =~= edges@.take(i as int));
        assert(t.last() == edges@[i as int]);
        if !layers.contains_key(edge.from.as_str()) {
            layers.insert(edge.from.clone(), 0);
        }
        let ghost m2 = place(cur, edge.from@, 0);
        assert(same_map(layers@, m2));
        if !layers.contains_key(edge.to.as_str()) {
            let from_layer: usize = match layers.get(edge.from.as_str()) {
                Some(l) => *l,
                None => 0,
            };
            assert(from_layer == m2[edge.from@]);
            layers.insert(edge.to.clone(), from_layer + 1);
        }
        proof {
            assert forall|k: Seq<char>| #[trigger] m2.contains_key(k) implies 0 <= m2[k] <= w + i by {
                if cur.contains_key(k) {
                    assert(cur[k] <= w + i);
                }
            }
            assert(m2.contains_key(edge.from@));
            let m3 = place(m2, edge.to@, m2[edge.from@] + 1);
            assert forall|k: Seq<char>| #[trigger] m3.contains_key(k) implies 0 <= m3[k] <= w + i + 1 by {
                if m2.contains_key(k) {
                    assert(m3[k] == m2[k]);
                }
            }
            cur = m3;
        }
        i = i + 1;
    }
    assert(edges@.take(edges@.len() as int) =~= edges@);
    proof {
        lemma_every_node_placed(*tree);
        assert forall|k: Seq<char>| #[trigger] layers@.contains_key(k)
            <==> group_ids(tree.root).union(orphan_ids(tree.orphan_edges@)).contains(k) by {
            assert(spec_assign_layers(*tree).dom().contains(k) <==> spec_assign_layers(*tree).contains_key(k));
        }
    }
    layers
}

// ---------------------------------------------------------------------------
// Laws
// ---------------------------------------------------------------------------

/// The node ids a group mentions.
pub open spec fn group_ids(g: LogicalGroup) -> Set<Seq<char>>
    decreases g,
{
    match g {
        LogicalGroup::Leaf { node_id } => set![node_id@],
        LogicalGroup::Chain { items } => items_ids(items@),
        LogicalGroup::Branch { source, arms, sink } => {
            let s = set![source@].union(arms_ids(arms@));
            match sink {
                Some(k) => s.insert(k@),
                None => s,
            }
        },
        LogicalGroup::Cycle { condition, body, exit } => {
            let s = set![condition@].union(group_ids(*body));
            match exit {
                Some(x) => s.insert(x@),
                None => s,
            }
        },
    }
}

/// The node ids that chain items mention.
pub open spec fn items_ids(items: Seq<ChainItem>) -> Set<Seq<char>>
    decreases items,
{
    if items.len() == 0 {
        Set::empty()
    } else {
        let item = items.last();
        items_ids(items.drop_last()).union(match item.node_id {
            Some(id) => set![id@],
            None => match item.sub_group {
                Some(sub) => group_ids(*sub),
                None => Set::empty(),
            },
        })
    }
}

/// The node ids that branch arms mention.
pub open spec fn arms_ids(arms: Seq<BranchArm>) -> Set<Seq<char>>
    decreases arms,
{
    if arms.len() == 0 {
        Set::empty()
    } else {
        arms_ids(arms.drop_last()).union(group_ids(arms.last().body))
    }
}

/// The ends of the orphan edges.
pub open spec fn orphan_ids(es: Seq<OrphanEdge>) -> Set<Seq<char>>
    decreases es.len(),
{
    if es.len() == 0 {
        Set::empty()
    } else {
        orphan_ids(es.drop_last()).insert(es.last().from@).insert(es.last().to@)
    }
}

proof fn lemma_group_dom(g: LogicalGroup, start: int, m: LayerMap)
    ensures
        group_spec(g, start, m).0.dom() =~= m.dom().union(group_ids(g)),
    decreases g,
{
    match g {
        LogicalGroup::Leaf { .. } => {},
        LogicalGroup::Chain { items } => {
            lemma_items_dom(items@, start, m);
        },
        LogicalGroup::Branch { source, arms, sink } => {
            let m1 = place(m, source@, start);
            lemma_arms_dom(arms@, start + 1, m1);
        },
        LogicalGroup::Cycle { condition, body, exit } => {
            let m1 = place(m, condition@, start);
            lemma_group_dom(*body, start, m1);
        },
    }
}

proof fn lemma_items_dom(items: Seq<ChainItem>, start: int, m: LayerMap)
    ensures
        items_spec(items, start, m).0.dom() =~= m.dom().union(items_ids(items)),
    decreases items,
{
    if items.len() > 0 {
        lemma_items_dom(items.drop_last(), start, m);
        let r = items_spec(items.drop_last(), start, m);
        let item = items.last();
        match item.node_id {
            Some(_) => {},
            None => match item.sub_group {
                Some(sub) => {
                    lemma_group_dom(*sub, r.1, r.0);
                },
                None => {},
            },
        }
    }
}

proof fn lemma_arms_dom(arms: Seq<BranchArm>, start: int, m: LayerMap)
    ensures
        arms_spec(arms, start, m).0.dom() =~= m.dom().union(arms_ids(arms)),
    decreases arms,
{
    if arms.len() > 0 {
        lemma_arms_dom(arms.drop_last(), start, m);
        let r = arms_spec(arms.drop_last(), start, m);
        lemma_group_dom(arms.last().body, start, r.0);
    }
}

proof fn lemma_orphans_dom(es: Seq<OrphanEdge>, m: LayerMap)
    ensures
        orphans_spec(es, m).dom() =~= m.dom().union(orphan_ids(es)),
    decreases es.len(),
{
    if es.len() > 0 {
        lemma_orphans_dom(es.drop_last(), m);
    }
}

/// Every node that the tree mentions, and every end of an orphan edge, gets
/// a layer, and nothing else does.
pub proof fn lemma_every_node_placed(tree: LayoutTree)
    ensures
        spec_assign_layers(tree).dom() =~= group_ids(tree.root).union(orphan_ids(tree.orphan_edges@)),
{
    let m0: LayerMap = Map::empty();
    lemma_group_dom(tree.root, 0, m0);
    lemma_orphans_dom(tree.orphan_edges@, group_spec(tree.root, 0, m0).0);
}

/// A node keeps the first layer it is given: placing the tree on top of a
/// map that already holds a node leaves that node's layer alone.
pub proof fn lemma_first_layer_kept(g: LogicalGroup, start: int, m: LayerMap, id: Seq<char>)
    requires
        m.contains_key(id),
    ensures
        group_spec(g, start, m).0.contains_key(id),
        group_spec(g, start, m).0[id] == m[id],
{
    lemma_group_bound(g, start, m);
}

proof fn lemma_orphans_keep_prefix(es: Seq<OrphanEdge>, m: LayerMap, k: int, id: Seq<char>)
    requires
        0 <= k <= es.len(),
        orphans_spec(es.take(k), m).contains_key(id),
    ensures
        orphans_spec(es, m).contains_key(id),
        orphans_spec(es, m)[id] == orphans_spec(es.take(k), m)[id],
    decreases es.len() - k,
{
    if k == es.len() {
        assert(es.take(k) =~= es);
    } else {
        let d = es.drop_last();
        assert(d.take(k) =~= es.take(k));
        lemma_orphans_keep_prefix(d, m, k, id);
    }
}

/// Orphan edges never move a node that already has a layer; taking the
/// edges in order, a source that has no layer yet goes to layer 0, and a
/// target that has none yet (its source placed) goes one layer below its
/// source.
pub proof fn lemma_orphan_rule(es: Seq<OrphanEdge>, m: LayerMap, k: int, id: Seq<char>)
    requires
        0 <= k < es.len(),
    ensures
        m.contains_key(id) ==> orphans_spec(es, m)[id] == m[id],
        !orphans_spec(es.take(k), m).contains_key(es[k].from@) ==> orphans_spec(es, m)[es[k].from@] == 0,
        orphans_spec(es.take(k), m).contains_key(es[k].from@)
            ==> orphans_spec(es, m)[es[k].from@] == orphans_spec(es.take(k), m)[es[k].from@],
        !place(orphans_spec(es.take(k), m), es[k].from@, 0).contains_key(es[k].to@)
            ==> orphans_spec(es, m)[es[k].to@] == orphans_spec(es, m)[es[k].from@] + 1,
{
    let mk = orphans_spec(es.take(k), m);
    let t = es.take(k + 1);
    assert(t.drop_last() =~= es.take(k));
    assert(t.last() == es[k]);
    let e = es[k];
    let m2 = place(mk, e.from@, 0);
    assert(orphans_spec(t, m) == place(m2, e.to@, m2[e.from@] + 1));
    lemma_orphans_keep_prefix(es, m, k + 1, e.from@);
    lemma_orphans_keep_prefix(es, m, k + 1, e.to@);
    if m.contains_key(id) {
        assert(es.take(0) =~= Seq::<OrphanEdge>::empty());
        lemma_orphans_keep_prefix(es, m, 0, id);
    }
}

/// The exit of a chain item that is a cycle with an exit.
pub open spec fn cycle_exit(item: ChainItem) -> Option<Seq<char>> {
    match item.node_id {
        Some(_) => None,
        None => match item.sub_group {
            Some(g) => match *g {
                LogicalGroup::Cycle { exit: Some(x), .. } => Some(x@),
                _ => None,
            },
            None => None,
        },
    }
}

/// The ids of the body of a chain item that is a cycle (empty otherwise).
pub open spec fn cycle_body_ids(item: ChainItem) -> Set<Seq<char>> {
    match item.sub_group {
        Some(g) => match *g {
            LogicalGroup::Cycle { body, .. } => group_ids(*body),
            _ => Set::empty(),
        },
        None => Set::empty(),
    }
}

/// Placing a chain is placing a prefix of it, then the rest from the layer
/// where the prefix ends.
proof fn lemma_items_split(items: Seq<ChainItem>, start: int, m: LayerMap, j: int)
    requires
        0 <= j <= items.len(),
    ensures
        items_spec(items, start, m) == items_spec(
            items.skip(j),
            items_spec(items.take(j), start, m).1,
            items_spec(items.take(j), start, m).0,
        ),
    decreases items.len(),
{
    if j == items.len() {
        assert(items.take(j) =~= items);
        assert(items.skip(j) =~= Seq::<ChainItem>::empty());
    } else {
        let d = items.drop_last();
        assert(d.take(j) =~= items.take(j));
        lemma_items_split(d, start, m, j);
        assert(items.skip(j).drop_last() =~= d.skip(j));
        assert(items.skip(j).last() == items.last());
    }
}

/// In a chain, a cycle with an exit ends below its exit: every node that
/// first gets a layer after the cycle lies on a layer strictly greater
/// than the exit's (the exit first placed by the cycle, not in its body).
pub proof fn lemma_chain_after_exit(items: Seq<ChainItem>, start: int, m: LayerMap, k: int, x: Seq<char>, y: Seq<char>)
    requires
        0 <= k < items.len(),
        cycle_exit(items[k]) == Some(x),
        !items_spec(items.take(k), start, m).0.contains_key(x),
        !cycle_body_ids(items[k]).contains(x),
        !items_spec(items.take(k + 1), start, m).0.contains_key(y),
        items_spec(items, start, m).0.contains_key(y),
    ensures
        items_spec(items, start, m).0.contains_key(x),
        items_spec(items, start, m).0[y] > items_spec(items, start, m).0[x],
{
    let pre = items.take(k);
    let upto = items.take(k + 1);
    assert(upto.drop_last() =~= pre);
    assert(upto.last() == items[k]);
    let r = items_spec(pre, start, m);
    let rk = items_spec(upto, start, m);
    lemma_items_bound(pre, start, m);
    let item = items[k];
    let g = *item.sub_group->0;
    assert(rk == group_spec(g, r.1, r.0));
    let s = r.1;
    match g {
        LogicalGroup::Cycle { condition, body, exit } => {
            let m1 = place(r.0, condition@, s);
            lemma_group_bound(*body, s, m1);
            let rb = group_spec(*body, s, m1);
            assert(rk == (place(rb.0, x, s + 1), s + 2));
            if x == condition@ {
                assert(m1.contains_key(x) && m1[x] == s);
                assert(rb.0.contains_key(x) && rb.0[x] == s);
                assert(rk.0[x] == s);
            } else {
                lemma_group_dom(*body, s, m1);
                assert(!rb.0.contains_key(x));
                assert(rk.0[x] == s + 1);
            }
            assert(rk.0.contains_key(x) && rk.0[x] < rk.1);
        },
        _ => {},
    }
    lemma_items_split(items, start, m, k + 1);
    lemma_items_bound(items.skip(k + 1), rk.1, rk.0);
}

/// The same for a whole layout whose root is a chain: a node that first
/// gets a layer after a cycle with an exit lies strictly below the exit.
pub proof fn lemma_layers_after_exit(tree: LayoutTree, k: int, x: Seq<char>, y: Seq<char>)
    requires
        tree.root is Chain,
        0 <= k < tree.root->items@.len(),
        cycle_exit(tree.root->items@[k]) == Some(x),
        !cycle_body_ids(tree.root->items@[k]).contains(x),
        !items_spec(tree.root->items@.take(k), 0, Map::empty()).0.contains_key(x),
        !items_spec(tree.root->items@.take(k + 1), 0, Map::empty()).0.contains_key(y),
        items_spec(tree.root->items@, 0, Map::empty()).0.contains_key(y),
    ensures
        spec_assign_layers(tree)[y] > spec_assign_layers(tree)[x],
{
    let items = tree.root->items@;
    let m0: LayerMap = Map::empty();
    lemma_chain_after_exit(items, 0, m0, k, x, y);
    let g = group_spec(tree.root, 0, m0).0;
    assert(g == items_spec(items, 0, m0).0);
    let es = tree.orphan_edges@;
    assert(es.take(0) =~= Seq::<OrphanEdge>::empty());
    assert(orphans_spec(es.take(0), g) == g);
    lemma_orphans_keep_prefix(es, g, 0, x);
    lemma_orphans_keep_prefix(es, g, 0, y);
}

/// A cycle with an exit, placed from `start`: the condition on `start`, the
/// body beside it from the same layer (nothing above `start`; a single-node
/// body on the condition's layer), the exit one layer below the condition,
/// and what follows the cycle starts right below the exit.
pub proof fn lemma_cycle_layers(condition: NodeId, body: Box<LogicalGroup>, x: NodeId, start: int, m: LayerMap)
    requires
        !m.contains_key(condition@),
        !m.contains_key(x@),
        x@ != condition@,
        !group_ids(*body).contains(x@),
    ensures
        ({
            let r = group_spec(LogicalGroup::Cycle { condition, body, exit: Some(x) }, start, m);
            &&& r.0[condition@] == start
            &&& r.0[x@] == r.0[condition@] + 1
            &&& r.1 == r.0[x@] + 1
            &&& forall|id: Seq<char>| !m.contains_key(id) && #[trigger] r.0.contains_key(id) ==> start <= r.0[id]
            &&& (*body is Leaf && !m.contains_key((*body)->node_id@) && (*body)->node_id@ != condition@)
                ==> r.0[(*body)->node_id@] == r.0[condition@]
        }),
{
    let m1 = place(m, condition@, start);
    lemma_group_bound(*body, start, m1);
    lemma_group_dom(*body, start, m1);
    let rb = group_spec(*body, start, m1);
    assert(m1.contains_key(condition@));
    assert(rb.0[condition@] == start);
    assert(!rb.0.contains_key(x@));
    let r = group_spec(LogicalGroup::Cycle { condition, body, exit: Some(x) }, start, m);
    assert(r == (place(rb.0, x@, start + 1), start + 2));
    assert forall|id: Seq<char>| !m.contains_key(id) && #[trigger] r.0.contains_key(id) implies start <= r.0[id] by {
        if id != x@ && id != condition@ {
            assert(!m1.contains_key(id));
            assert(rb.0.contains_key(id));
        }
    }
}

/// In a chain, two node items in a row stand on consecutive layers (each
/// first placed by its item).
pub proof fn lemma_chain_consecutive(items: Seq<ChainItem>, start: int, m: LayerMap, k: int, a: Seq<char>, b: Seq<char>)
    requires
        0 <= k < items.len() - 1,
        items[k].node_id is Some && items[k].node_id->0@ == a,
        items[k + 1].node_id is Some && items[k + 1].node_id->0@ == b,
        !items_spec(items.take(k), start, m).0.contains_key(a),
        !items_spec(items.take(k + 1), start, m).0.contains_key(b),
    ensures
        items_spec(items, start, m).0.contains_key(a),
        items_spec(items, start, m).0.contains_key(b),
        items_spec(items, start, m).0[b] == items_spec(items, start, m).0[a] + 1,
{
    let t0 = items.take(k);
    let t1 = items.take(k + 1);
    let t2 = items.take(k + 2);
    assert(t1.drop_last() =~= t0);
    assert(t1.last() == items[k]);
    assert(t2.drop_last() =~= t1);
    assert(t2.last() == items[k + 1]);
    let r0 = items_spec(t0, start, m);
    let r1 = items_spec(t1, start, m);
    let r2 = items_spec(t2, start, m);
    assert(r1 == (place(r0.0, a, r0.1), r0.1 + 1));
    assert(r2 == (place(r1.0, b, r1.1), r1.1 + 1));
    assert(r2.0[a] == r0.1);
    assert(r2.0[b] == r0.1 + 1);
    lemma_items_split(items, start, m, k + 2);
    lemma_items_bound(items.skip(k + 2), r2.1, r2.0);
    assert(r2.0.contains_key(a));
    assert(r2.0.contains_key(b));
}

/// The branch arms end no later than [`arms_spec`] says: its second
/// component is at least each arm's own end.
proof fn lemma_arms_end(arms: Seq<BranchArm>, start: int, m: LayerMap, i: int)
    requires
        0 <= i < arms.len(),
    ensures
        group_spec(arms[i].body, start, arms_spec(arms.take(i), start, m).0).1 <= arms_spec(arms, start, m).1,
    decreases arms.len(),
{
    let d = arms.drop_last();
    if i == arms.len() - 1 {
        assert(arms.take(i) =~= d);
    } else {
        assert(d.take(i) =~= arms.take(i));
        assert(d[i] == arms[i]);
        lemma_arms_end(d, start, m, i);
    }
}

/// A branch placed from `start`: the source on `start`, every other node it
/// places strictly below the source, the sink at the end of the deepest arm
/// (no arm ends below it), and what follows the branch right below the sink.
pub proof fn lemma_branch_layers(source: NodeId, arms: Vec<BranchArm>, sink: NodeId, start: int, m: LayerMap)
    requires
        !m.contains_key(source@),
        !m.contains_key(sink@),
        sink@ != source@,
        !arms_ids(arms@).contains(sink@),
    ensures
        ({
            let r = group_spec(LogicalGroup::Branch { source, arms, sink: Some(sink) }, start, m);
            let m1 = place(m, source@, start);
            &&& r.0[source@] == start
            &&& forall|id: Seq<char>| !m.contains_key(id) && id != source@ && #[trigger] r.0.contains_key(id)
                ==> start + 1 <= r.0[id]
            &&& r.0[sink@] >= start + 1
            &&& forall|i: int| 0 <= i < arms@.len() ==> group_spec(
                #[trigger] arms@[i].body,
                start + 1,
                arms_spec(arms@.take(i), start + 1, m1).0,
            ).1 <= r.0[sink@]
            &&& r.1 == r.0[sink@] + 1
        }),
{
    let m1 = place(m, source@, start);
    lemma_arms_bound(arms@, start + 1, m1);
    lemma_arms_dom(arms@, start + 1, m1);
    let ra = arms_spec(arms@, start + 1, m1);
    assert(m1.contains_key(source@));
    assert(!ra.0.contains_key(sink@));
    let r = group_spec(LogicalGroup::Branch { source, arms, sink: Some(sink) }, start, m);
    assert(r == (place(ra.0, sink@, ra.1), ra.1 + 1));
    assert forall|id: Seq<char>| !m.contains_key(id) && id != source@ && #[trigger] r.0.contains_key(id) implies start + 1 <= r.0[id] by {
        if id != sink@ {
            assert(!m1.contains_key(id));
            assert(ra.0.contains_key(id));
        }
    }
    assert forall|i: int| 0 <= i < arms@.len() implies group_spec(
        #[trigger] arms@[i].body,
        start + 1,
        arms_spec(arms@.take(i), start + 1, m1).0,
    ).1 <= r.0[sink@] by {
        lemma_arms_end(arms@, start + 1, m1, i);
    }
}

} // verus!
