//! Groups of a layout graph: which nodes a group holds (through nested
//! groups), which group each node belongs to, and the subgraph of one
//! group that the grouped solver lays out on its own.

use vstd::prelude::*;

use std::collections::HashMap;

use super::super::analyze::sort_ascending;
use super::super::convert::{children_of, groups_view, LayoutTopology};
use super::super::crossing::layer_view;
use super::super::ir::{GroupChild, LEdge, LGroup, ShapeHint};

verus! {

broadcast use vstd::std_specs::hash::group_hash_axioms;

// ---------------------------------------------------------------------------
// Membership
// ---------------------------------------------------------------------------

/// The nodes that the children `cs` hold, looking at most `fuel` levels
/// into nested groups (a group index out of range holds nothing).
pub open spec fn children_members(gs: Seq<Seq<GroupChild>>, cs: Seq<GroupChild>, fuel: nat) -> Set<usize>
    decreases fuel, cs.len(),
{
    if cs.len() == 0 {
        Set::empty()
    } else {
        let rest = children_members(gs, cs.drop_last(), fuel);
        match cs.last() {
            GroupChild::Node(i) => rest.insert(i),
            GroupChild::Group(h) => if fuel > 0 && (h as int) < gs.len() {
                rest.union(children_members(gs, gs[h as int], (fuel - 1) as nat))
            } else {
                rest
            },
        }
    }
}

/// The nodes that group `g` holds within `fuel` levels of nesting.
pub open spec fn members_upto(gs: Seq<Seq<GroupChild>>, g: int, fuel: nat) -> Set<usize> {
    if 0 <= g < gs.len() {
        children_members(gs, gs[g], fuel)
    } else {
        Set::empty()
    }
}

/// The nodes that group `g` holds, directly or through nested groups.
pub open spec fn group_members(gs: Seq<Seq<GroupChild>>, g: int) -> Set<usize> {
    Set::new(|i: usize| exists|f: nat| #[trigger] members_upto(gs, g, f).contains(i))
}

/// `rank` decreases from each group to the groups nested in it.
pub open spec fn well_ranked(gs: Seq<Seq<GroupChild>>, rank: Seq<nat>) -> bool {
    &&& rank.len() == gs.len()
    &&& forall|g: int, c: int| #![trigger gs[g][c]]
        0 <= g < gs.len() && 0 <= c < gs[g].len() ==> match gs[g][c] {
            GroupChild::Group(h) => (h as int) < gs.len() ==> rank[h as int] < rank[g],
            GroupChild::Node(_) => true,
        }
}

/// No group holds itself through nesting.
pub open spec fn nesting_acyclic(gs: Seq<Seq<GroupChild>>) -> bool {
    exists|rank: Seq<nat>| well_ranked(gs, rank)
}

/// The nested groups among `cs` that lie in range have rank below `r`.
pub open spec fn children_below(gs: Seq<Seq<GroupChild>>, rank: Seq<nat>, cs: Seq<GroupChild>, r: nat) -> bool {
    forall|c: int| #![trigger cs[c]]
        0 <= c < cs.len() ==> match cs[c] {
            GroupChild::Group(h) => (h as int) < gs.len() ==> rank[h as int] < r,
            GroupChild::Node(_) => true,
        }
}

proof fn lemma_children_monotone(gs: Seq<Seq<GroupChild>>, cs: Seq<GroupChild>, f1: nat, f2: nat)
    requires
        f1 <= f2,
    ensures
        children_members(gs, cs, f1).subset_of(children_members(gs, cs, f2)),
    decreases f1, cs.len(),
{
    if cs.len() > 0 {
        lemma_children_monotone(gs, cs.drop_last(), f1, f2);
        match cs.last() {
            GroupChild::Node(_) => {},
            GroupChild::Group(h) => {
                if f1 > 0 && (h as int) < gs.len() {
                    lemma_children_monotone(gs, gs[h as int], (f1 - 1) as nat, (f2 - 1) as nat);
                }
            },
        }
    }
}

proof fn lemma_children_stable(gs: Seq<Seq<GroupChild>>, rank: Seq<nat>, cs: Seq<GroupChild>, r: nat, f1: nat, f2: nat)
    requires
        well_ranked(gs, rank),
        children_below(gs, rank, cs, r),
        f1 >= r,
        f2 >= r,
    ensures
        children_members(gs, cs, f1) == children_members(gs, cs, f2),
    decreases r, cs.len(),
{
    if cs.len() > 0 {
        assert(children_below(gs, rank, cs.drop_last(), r)) by {
            assert forall|c: int| 0 <= c < cs.drop_last().len() implies #[trigger] cs.drop_last()[c] == cs[c] by {}
        }
        lemma_children_stable(gs, rank, cs.drop_last(), r, f1, f2);
        let last = cs.last();
        assert(last == cs[cs.len() - 1]);
        match last {
            GroupChild::Node(_) => {},
            GroupChild::Group(h) => {
                if (h as int) < gs.len() {
                    let rh = rank[h as int];
                    assert(rh < r);
                    assert(children_below(gs, rank, gs[h as int], rh)) by {
                        assert forall|c: int| 0 <= c < gs[h as int].len() implies match #[trigger] gs[h as int][c] {
                            GroupChild::Group(k) => (k as int) < gs.len() ==> rank[k as int] < rh,
                            GroupChild::Node(_) => true,
                        } by {}
                    }
                    lemma_children_stable(gs, rank, gs[h as int], rh, (f1 - 1) as nat, (f2 - 1) as nat);
                }
            },
        }
    }
}

proof fn lemma_group_below(gs: Seq<Seq<GroupChild>>, rank: Seq<nat>, g: int)
    requires
        well_ranked(gs, rank),
        0 <= g < gs.len(),
    ensures
        children_below(gs, rank, gs[g], rank[g]),
{
    assert forall|c: int| 0 <= c < gs[g].len() implies match #[trigger] gs[g][c] {
        GroupChild::Group(h) => (h as int) < gs.len() ==> rank[h as int] < rank[g],
        GroupChild::Node(_) => true,
    } by {}
}

/// With acyclic nesting, `rank[g] + 1` levels find every member.
proof fn lemma_members_exact(gs: Seq<Seq<GroupChild>>, rank: Seq<nat>, g: int)
    requires
        well_ranked(gs, rank),
        0 <= g < gs.len(),
    ensures
        group_members(gs, g) == members_upto(gs, g, rank[g] + 1),
{
    let full = members_upto(gs, g, rank[g] + 1);
    lemma_group_below(gs, rank, g);
    assert forall|i: usize| group_members(gs, g).contains(i) implies full.contains(i) by {
        let f = choose|f: nat| #[trigger] members_upto(gs, g, f).contains(i);
        if f <= rank[g] + 1 {
            lemma_children_monotone(gs, gs[g], f, rank[g] + 1);
        } else {
            lemma_children_stable(gs, rank, gs[g], rank[g], f, rank[g] + 1);
        }
    }
    assert forall|i: usize| full.contains(i) implies group_members(gs, g).contains(i) by {
        assert(members_upto(gs, g, rank[g] + 1).contains(i));
    }
    assert(group_members(gs, g) =~= full);
}

// ---------------------------------------------------------------------------
// Collecting members
// ---------------------------------------------------------------------------

fn contains_index(v: &Vec<usize>, x: usize) -> (b: bool)
    ensures
        b == v@.contains(x),
{
    let mut i: usize = 0;
    while i < v.len()
        invariant
            i <= v@.len(),
            forall|j: int| 0 <= j < i ==> v@[j] != x,
        decreases v@.len() - i,
    {
        if v[i] == x {
            return true;
        }
        i = i + 1;
    }
    false
}

/// Adds the members of the children `cs` (of group `gi`) to `out`.
fn collect_children(
    groups: &Vec<LGroup>,
    gi: usize,
    out: &mut Vec<usize>,
    Ghost(rank): Ghost<Seq<nat>>,
)
    requires
        well_ranked(children_of(groups@), rank),
        gi < groups@.len(),
        old(out)@.no_duplicates(),
    ensures
        final(out)@.no_duplicates(),
        forall|i: usize| #[trigger] final(out)@.contains(i) <==> (old(out)@.contains(i)
            || members_upto(children_of(groups@), gi as int, rank[gi as int] + 1).contains(i)),
    decreases rank[gi as int],
{
    let ghost gs = children_of(groups@);
    let cs = &groups[gi].children;
    assert(cs@ == gs[gi as int]);
    let ghost r = rank[gi as int];
    proof {
        lemma_group_below(gs, rank, gi as int);
    }
    let ghost out0 = out@;
    let mut c: usize = 0;
    assert(cs@.take(0) =~= Seq::<GroupChild>::empty());
    while c < cs.len()
        invariant
            c <= cs@.len(),
            gs == children_of(groups@),
            well_ranked(gs, rank),
            cs@ == gs[gi as int],
            r == rank[gi as int],
            children_below(gs, rank, cs@, r),
            out@.no_duplicates(),
            forall|i: usize| #[trigger] out@.contains(i) <==> (out0.contains(i)
                || children_members(gs, cs@.take(c as int), r + 1).contains(i)),
        decreases cs@.len() - c,
    {
        let ghost t = cs@.take(c + 1);
        assert(t.drop_last() =~= cs@.take(c as int));
        assert(t.last() == cs@[c as int]);
        match cs[c] {
            GroupChild::Node(i) => {
                if !contains_index(out, i) {
                    let ghost before = out@;
                    out.push(i);
                    proof {
                        assert forall|x: usize| #[trigger] out@.contains(x) <==> (before.contains(x) || x == i) by {
                            if out@.contains(x) {
                                let k = choose|k: int| 0 <= k < out@.len() && out@[k] == x;
                                if k < before.len() {
                                    assert(before[k] == x);
                                }
                            }
                            if before.contains(x) {
                                let k = choose|k: int| 0 <= k < before.len() && before[k] == x;
                                assert(out@[k] == x);
                            }
                            assert(out@[before.len() as int] == i);
                        }
                        assert forall|a: int, b: int| 0 <= a < b < out@.len() implies out@[a] != out@[b] by {
                            if b == before.len() {
                                assert(before[a] == out@[a]);
                                assert(before.contains(out@[a]));
                            }
                        }
                    }
                }
            },
            GroupChild::Group(h) => {
                if h < groups.len() {
                    assert(rank[h as int] < r);
                    collect_children(groups, h, out, Ghost(rank));
                    proof {
                        lemma_group_below(gs, rank, h as int);
                        lemma_children_stable(gs, rank, gs[h as int], rank[h as int], rank[h as int] + 1, r);
                    }
                }
            },
        }
        c = c + 1;
    }
    assert(cs@.take(cs@.len() as int) =~= cs@);
}

/// Adds to `out` every node that group `gi` holds, directly or through
/// nested groups (nothing for an index out of range); `out` lists each
/// node once.
pub fn collect_member_indices(groups: &Vec<LGroup>, gi: usize, out: &mut Vec<usize>)
    requires
        nesting_acyclic(children_of(groups@)),
        old(out)@.no_duplicates(),
    ensures
        final(out)@.no_duplicates(),
        forall|i: usize| #[trigger] final(out)@.contains(i) <==> (old(out)@.contains(i)
            || group_members(children_of(groups@), gi as int).contains(i)),
{
    if gi < groups.len() {
        let ghost gs = children_of(groups@);
        let ghost rank = choose|rank: Seq<nat>| well_ranked(gs, rank);
        collect_children(groups, gi, out, Ghost(rank));
        proof {
            lemma_members_exact(gs, rank, gi as int);
        }
    } else {
        assert(group_members(children_of(groups@), gi as int) =~= Set::empty());
    }
}

/// Records group `group_idx` for every node that group `gi` holds and that
/// has no group yet.
pub fn collect_members(groups: &Vec<LGroup>, gi: usize, node_in_group: &mut HashMap<usize, usize>, group_idx: usize)
    requires
        nesting_acyclic(children_of(groups@)),
    ensures
        final(node_in_group)@ == old(node_in_group)@.union_prefer_right(
            Map::new(
                |i: usize| group_members(children_of(groups@), gi as int).contains(i)
                    && !old(node_in_group)@.contains_key(i),
                |i: usize| group_idx,
            ),
        ),
{
    let mut found: Vec<usize> = Vec::new();
    collect_member_indices(groups, gi, &mut found);
    let ghost m0 = node_in_group@;
    let ghost ms = group_members(children_of(groups@), gi as int);
    let mut k: usize = 0;
    while k < found.len()
        invariant
            k <= found@.len(),
            forall|i: usize| #[trigger] found@.contains(i) <==> ms.contains(i),
            node_in_group@ == m0.union_prefer_right(
                Map::new(
                    |i: usize| found@.take(k as int).contains(i) && !m0.contains_key(i),
                    |i: usize| group_idx,
                ),
            ),
        decreases found@.len() - k,
    {
        let i = found[k];
        let ghost before = node_in_group@;
        if !node_in_group.contains_key(&i) {
            node_in_group.insert(i, group_idx);
        }
        proof {
            let t0 = found@.take(k as int);
            let t1 = found@.take(k + 1);
            assert forall|x: usize| t1.contains(x) <==> (t0.contains(x) || x == i) by {
                if t1.contains(x) {
                    let j = choose|j: int| 0 <= j < t1.len() && t1[j] == x;
                    if j < k {
                        assert(t0[j] == x);
                    }
                }
                if t0.contains(x) {
                    let j = choose|j: int| 0 <= j < t0.len() && t0[j] == x;
                    assert(t1[j] == x);
                }
                assert(t1[k as int] == i);
            }
            assert(node_in_group@ =~= m0.union_prefer_right(
                Map::new(
                    |x: usize| found@.take(k + 1).contains(x) && !m0.contains_key(x),
                    |x: usize| group_idx,
                ),
            ));
        }
        k = k + 1;
    }
    assert(found@.take(found@.len() as int) =~= found@);
    assert(node_in_group@ =~= m0.union_prefer_right(
        Map::new(|i: usize| ms.contains(i) && !m0.contains_key(i), |i: usize| group_idx),
    ));
}

// ---------------------------------------------------------------------------
// The subgraph of a group
// ---------------------------------------------------------------------------

/// Index of the first `x` in `s` below `k`, or -1.
pub open spec fn first_index(s: Seq<usize>, x: usize, k: int) -> int
    decreases k,
{
    if k <= 0 {
        -1
    } else {
        let p = first_index(s, x, k - 1);
        if p >= 0 {
            p
        } else if s[k - 1] == x {
            k - 1
        } else {
            -1
        }
    }
}

/// Index of `x` in the member list `ml`, or -1.
pub open spec fn sub_index(ml: Seq<usize>, x: usize) -> int {
    first_index(ml, x, ml.len() as int)
}

/// The edges of `es` with both ends in `ml`, renumbered by position in `ml`.
pub open spec fn sub_edges(es: Seq<LEdge>, ml: Seq<usize>) -> Seq<LEdge>
    decreases es.len(),
{
    if es.len() == 0 {
        Seq::empty()
    } else {
        let r = sub_edges(es.drop_last(), ml);
        let e = es.last();
        let s = sub_index(ml, e.source);
        let t = sub_index(ml, e.target);
        if s >= 0 && t >= 0 {
            r.push(LEdge { source: s as usize, target: t as usize, ..e })
        } else {
            r
        }
    }
}

/// The positions below `k` in `ml` whose node lies in `nm`, ascending.
pub open spec fn nested_children(ml: Seq<usize>, nm: Set<usize>, k: nat) -> Seq<GroupChild>
    decreases k,
{
    if k == 0 {
        Seq::empty()
    } else {
        let r = nested_children(ml, nm, (k - 1) as nat);
        if nm.contains(ml[k - 1]) {
            r.push(GroupChild::Node((k - 1) as usize))
        } else {
            r
        }
    }
}

/// For each nested group among `cs`, in order, that holds a node of `ml`:
/// its title and the positions in `ml` of its nodes.
pub open spec fn nested_groups(
    gs: Seq<Seq<GroupChild>>,
    titles: Seq<Option<Seq<char>>>,
    ml: Seq<usize>,
    cs: Seq<GroupChild>,
) -> Seq<(Option<Seq<char>>, Seq<GroupChild>)>
    decreases cs.len(),
{
    if cs.len() == 0 {
        Seq::empty()
    } else {
        let r = nested_groups(gs, titles, ml, cs.drop_last());
        match cs.last() {
            GroupChild::Group(h) => {
                let ch = nested_children(ml, group_members(gs, h as int), ml.len());
                if ch.len() > 0 { r.push((titles[h as int], ch)) } else { r }
            },
            GroupChild::Node(_) => r,
        }
    }
}

/// Position of `x` in `v`.
fn find_index(v: &Vec<usize>, x: usize) -> (r: Option<usize>)
    ensures
        match r {
            Some(p) => p as int == sub_index(v@, x),
            None => sub_index(v@, x) == -1,
        },
{
    let mut i: usize = 0;
    while i < v.len()
        invariant
            i <= v@.len(),
            first_index(v@, x, i as int) == -1,
        decreases v@.len() - i,
    {
        if v[i] == x {
            assert(first_index(v@, x, i + 1) == i);
            proof {
                lemma_first_index_found(v@, x, i + 1, v@.len() as int);
            }
            return Some(i);
        }
        i = i + 1;
    }
    None
}

proof fn lemma_first_index_found(s: Seq<usize>, x: usize, k: int, m: int)
    requires
        0 <= k <= m,
        first_index(s, x, k) >= 0,
    ensures
        first_index(s, x, m) == first_index(s, x, k),
    decreases m - k,
{
    if m > k {
        lemma_first_index_found(s, x, k, m - 1);
    }
}

/// The members of group `gi`, ascending.
fn member_list_of(groups: &Vec<LGroup>, gi: usize) -> (ml: Vec<usize>)
    requires
        nesting_acyclic(children_of(groups@)),
    ensures
        forall|a: int, b: int| 0 <= a < b < ml@.len() ==> ml@[a] < ml@[b],
        forall|i: usize| #[trigger] ml@.contains(i) <==> group_members(children_of(groups@), gi as int).contains(i),
{
    let mut ml: Vec<usize> = Vec::new();
    collect_member_indices(groups, gi, &mut ml);
    let ghost before = ml@;
    sort_ascending(&mut ml);
    proof {
        broadcast use vstd::seq_lib::group_to_multiset_ensures;
        before.lemma_multiset_has_no_duplicates();
        assert forall|x: usize| ml@.to_multiset().contains(x) implies ml@.to_multiset().count(x) == 1 by {}
        ml@.lemma_multiset_has_no_duplicates_conv();
        assert forall|i: usize| #[trigger] ml@.contains(i) <==> before.contains(i) by {
            assert(ml@.to_multiset().count(i) == before.to_multiset().count(i));
        }
        assert forall|a: int, b: int| 0 <= a < b < ml@.len() implies ml@[a] < ml@[b] by {
            assert(ml@[a] <= ml@[b]);
            assert(ml@[a] != ml@[b]);
        }
    }
    ml
}

/// The positions in `ml` of the nodes in `nm`, ascending, as group members.
fn nested_children_exec(ml: &Vec<usize>, nm: &Vec<usize>) -> (ch: Vec<GroupChild>)
    ensures
        forall|i: usize| nm@.contains(i) ==> ch@ == nested_children(ml@, Set::new(|x: usize| nm@.contains(x)), ml@.len()),
        ch@ == nested_children(ml@, Set::new(|x: usize| nm@.contains(x)), ml@.len()),
{
    let ghost set = Set::new(|x: usize| nm@.contains(x));
    let mut ch: Vec<GroupChild> = Vec::new();
    let mut j: usize = 0;
    while j < ml.len()
        invariant
            j <= ml@.len(),
            set == Set::new(|x: usize| nm@.contains(x)),
            ch@ == nested_children(ml@, set, j as nat),
        decreases ml@.len() - j,
    {
        if contains_index(nm, ml[j]) {
            ch.push(GroupChild::Node(j));
        }
        j = j + 1;
    }
    ch
}

/// The subgraph that group `gi` forms: its member nodes in index order
/// (their ids and shapes), the edges (not the cross-group ones) with both
/// ends among them, renumbered by position, and one group for each group
/// nested in it (in child order) that holds one of them, with its title
/// and those members in index order. Also returns the member list, so that
/// sizes and positions can be mapped back.
pub fn extract_subgraph(topo: &LayoutTopology, gi: usize) -> (r: (LayoutTopology, Vec<usize>))
    requires
        nesting_acyclic(children_of(topo.groups@)),
        topo.shape_hints@.len() == topo.node_ids@.len(),
        forall|i: usize| #[trigger] group_members(children_of(topo.groups@), gi as int).contains(i)
            ==> (i as int) < topo.node_ids@.len(),
    ensures
        forall|a: int, b: int| 0 <= a < b < r.1@.len() ==> r.1@[a] < r.1@[b],
        forall|i: usize| #[trigger] r.1@.contains(i) <==> group_members(children_of(topo.groups@), gi as int).contains(i),
        r.0@.title is None,
        r.0@.ids == r.1@.map_values(|i: usize| topo.node_ids@[i as int]@),
        r.0@.hints == r.1@.map_values(|i: usize| topo.shape_hints@[i as int]),
        r.0@.edges == sub_edges(topo.edges@, r.1@),
        r.0@.groups == (if (gi as int) < topo.groups@.len() {
            nested_groups(
                children_of(topo.groups@),
                groups_view(topo.groups@).map_values(|g: (Option<Seq<char>>, Seq<GroupChild>)| g.0),
                r.1@,
                children_of(topo.groups@)[gi as int],
            )
        } else {
            Seq::empty()
        }),
        r.0@.cross.len() == 0,
{
    let ghost gs = children_of(topo.groups@);
    let ml = member_list_of(&topo.groups, gi);
    // Nodes.
    let mut ids: Vec<String> = Vec::new();
    let mut hints: Vec<ShapeHint> = Vec::new();
    let mut j: usize = 0;
    while j < ml.len()
        invariant
            j <= ml@.len(),
            gs == children_of(topo.groups@),
            topo.shape_hints@.len() == topo.node_ids@.len(),
            forall|i: usize| #[trigger] ml@.contains(i) <==> group_members(gs, gi as int).contains(i),
            forall|i: usize| #[trigger] group_members(gs, gi as int).contains(i) ==> (i as int) < topo.node_ids@.len(),
            layer_view(ids@) == ml@.take(j as int).map_values(|i: usize| topo.node_ids@[i as int]@),
            hints@ == ml@.take(j as int).map_values(|i: usize| topo.shape_hints@[i as int]),
        decreases ml@.len() - j,
    {
        let ni = ml[j];
        assert(ml@.contains(ni));
        let ghost vb = layer_view(ids@);
        ids.push(topo.node_ids[ni].clone());
        hints.push(topo.shape_hints[ni]);
        assert(layer_view(ids@) =~= vb.push(topo.node_ids@[ni as int]@));
        assert(ml@.take(j + 1).map_values(|i: usize| topo.node_ids@[i as int]@)
            =~= ml@.take(j as int).map_values(|i: usize| topo.node_ids@[i as int]@).push(topo.node_ids@[ni as int]@));
        assert(ml@.take(j + 1).map_values(|i: usize| topo.shape_hints@[i as int])
            =~= ml@.take(j as int).map_values(|i: usize| topo.shape_hints@[i as int]).push(topo.shape_hints@[ni as int]));
        j = j + 1;
    }
    assert(ml@.take(ml@.len() as int) =~= ml@);
    // Edges.
    let mut edges: Vec<LEdge> = Vec::new();
    let mut k: usize = 0;
    assert(topo.edges@.take(0) =~= Seq::<LEdge>::empty());
    while k < topo.edges.len()
        invariant
            k <= topo.edges@.len(),
            edges@ == sub_edges(topo.edges@.take(k as int), ml@),
        decreases topo.edges@.len() - k,
    {
        let ghost t = topo.edges@.take(k + 1);
        assert(t.drop_last() =~= topo.edges@.take(k as int));
        let e = topo.edges[k];
        assert(t.last() == e);
        match (find_index(&ml, e.source), find_index(&ml, e.target)) {
            (Some(s), Some(d)) => {
                edges.push(LEdge { source: s, target: d, ..e });
            },
            _ => {},
        }
        k = k + 1;
    }
    assert(topo.edges@.take(topo.edges@.len() as int) =~= topo.edges@);
    // Nested groups.
    let mut groups: Vec<LGroup> = Vec::new();
    let ghost titles = groups_view(topo.groups@).map_values(|g: (Option<Seq<char>>, Seq<GroupChild>)| g.0);
    if gi < topo.groups.len() {
        let cs = &topo.groups[gi].children;
        assert(cs@ == gs[gi as int]);
        let mut c: usize = 0;
        assert(cs@.take(0) =~= Seq::<GroupChild>::empty());
        while c < cs.len()
            invariant
                c <= cs@.len(),
                gs == children_of(topo.groups@),
                nesting_acyclic(gs),
                titles == groups_view(topo.groups@).map_values(|g: (Option<Seq<char>>, Seq<GroupChild>)| g.0),
                groups_view(groups@) == nested_groups(gs, titles, ml@, cs@.take(c as int)),
            decreases cs@.len() - c,
        {
            let ghost t = cs@.take(c + 1);
            assert(t.drop_last() =~= cs@.take(c as int));
            assert(t.last() == cs@[c as int]);
            match cs[c] {
                GroupChild::Group(h) => {
                    let mut nm: Vec<usize> = Vec::new();
                    collect_member_indices(&topo.groups, h, &mut nm);
                    let ch = nested_children_exec(&ml, &nm);
                    assert(Set::new(|x: usize| nm@.contains(x)) =~= group_members(gs, h as int));
                    if ch.len() > 0 {
                        let ghost before = groups_view(groups@);
                        proof {
                            lemma_nested_children_in_range(ml@, group_members(gs, h as int), ml@.len(), h as int, gs);
                        }
                        let title = copy_title(&topo.groups[h].title);
                        groups.push(LGroup { title, children: ch });
                        assert(groups_view(groups@) =~= before.push((titles[h as int], ch@)));
                    }
                },
                GroupChild::Node(_) => {},
            }
            c = c + 1;
        }
        assert(cs@.take(cs@.len() as int) =~= cs@);
    }
    let sub = LayoutTopology {
        title: None,
        node_ids: ids,
        shape_hints: hints,
        groups,
        edges,
        cross_group_edges: Vec::new(),
    };
    (sub, ml)
}

/// A non-empty list of nested members comes from a group in range.
proof fn lemma_nested_children_in_range(ml: Seq<usize>, nm: Set<usize>, k: nat, h: int, gs: Seq<Seq<GroupChild>>)
    requires
        nm == group_members(gs, h),
        nested_children(ml, nm, k).len() > 0,
        k <= ml.len(),
    ensures
        0 <= h < gs.len(),
    decreases k,
{
    if k > 0 {
        if nm.contains(ml[k - 1]) {
            let f = choose|f: nat| #[trigger] members_upto(gs, h, f).contains(ml[k - 1]);
        } else {
            lemma_nested_children_in_range(ml, nm, (k - 1) as nat, h, gs);
        }
    }
}

/// Copy of an optional string.
fn copy_title(s: &Option<String>) -> (r: Option<String>)
    ensures
        r == *s,
{
    match s {
        Some(t) => Some(t.clone()),
        None => None,
    }
}

} // verus!
