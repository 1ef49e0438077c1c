//! Initial node order for the directed solver: weakly connected components
//! one after another, inside a component the strongly connected components
//! that touch it (ordered by their smallest node, each in ascending order),
//! then the rest of the component; nodes in no component come last.

use vstd::prelude::*;
use vstd::relations::{sorted_by, total_ordering};
use vstd::string::StringExecFns;

use petgraph::graph::{DiGraph, NodeIndex};

use super::super::analyze::{identity, sort_ascending, GraphAnalysis};
use super::super::ir::LEdge;
use super::super::layer_index::{id_lt, lemma_id_lt_irreflexive, lemma_id_lt_total, node_leq};
use crate::builder::state::lemma_distinct_len;

verus! {

// ---------------------------------------------------------------------------
// The order, as a specification
// ---------------------------------------------------------------------------

/// The views of a list of node lists.
pub open spec fn lists_view(s: Seq<Vec<usize>>) -> Seq<Seq<usize>> {
    s.map_values(|c: Vec<usize>| c@)
}

/// `r` followed by those members of `ms` that lie in `comp` and are not
/// yet placed, in the order of `ms`.
pub open spec fn push_absent(r: Seq<usize>, ms: Seq<usize>, comp: Seq<usize>) -> Seq<usize>
    decreases ms.len(),
{
    if ms.len() == 0 {
        r
    } else {
        let p = push_absent(r, ms.drop_last(), comp);
        let m = ms.last();
        if comp.contains(m) && !p.contains(m) {
            p.push(m)
        } else {
            p
        }
    }
}

/// The smallest member, or 0 for an empty list.
pub open spec fn min_or_zero(s: Seq<usize>) -> usize
    decreases s.len(),
{
    if s.len() == 0 {
        0
    } else if s.len() == 1 {
        s[0]
    } else {
        let m = min_or_zero(s.drop_last());
        if s.last() < m {
            s.last()
        } else {
            m
        }
    }
}

/// The sort key of each strongly connected component: its smallest node.
pub open spec fn scc_keys(sccs: Seq<Seq<usize>>) -> Seq<usize> {
    Seq::new(sccs.len(), |i: int| min_or_zero(sccs[i]))
}

/// Component indices by key, equal keys by index.
pub open spec fn key_leq(keys: Seq<usize>) -> spec_fn(usize, usize) -> bool {
    |a: usize, b: usize|
        keys[a as int] < keys[b as int] || (keys[a as int] == keys[b as int] && a <= b)
}

/// Ascending order of nodes.
pub open spec fn ascending_leq() -> spec_fn(usize, usize) -> bool {
    |a: usize, b: usize| a <= b
}

/// Whether a strongly connected component has a node in `comp`.
pub open spec fn meets(scc: Seq<usize>, comp: Seq<usize>) -> bool {
    exists|i: int| 0 <= i < scc.len() && comp.contains(#[trigger] scc[i])
}

/// The indices below `k` of the strongly connected components that meet
/// `comp`, ascending.
pub open spec fn touching(sccs: Seq<Seq<usize>>, comp: Seq<usize>, k: nat) -> Seq<usize>
    decreases k,
{
    if k == 0 {
        Seq::empty()
    } else {
        let t = touching(sccs, comp, (k - 1) as nat);
        if meets(sccs[k - 1], comp) {
            t.push((k - 1) as usize)
        } else {
            t
        }
    }
}

/// The strongly connected components that meet `comp`, by smallest node.
pub open spec fn scc_order(sccs: Seq<Seq<usize>>, comp: Seq<usize>) -> Seq<usize> {
    touching(sccs, comp, sccs.len()).sort_by(key_leq(scc_keys(sccs)))
}

/// Places the members of the listed strongly connected components, each in
/// ascending order, that lie in `comp`.
pub open spec fn place_sccs(r: Seq<usize>, sccs: Seq<Seq<usize>>, order: Seq<usize>, comp: Seq<usize>) -> Seq<usize>
    decreases order.len(),
{
    if order.len() == 0 {
        r
    } else {
        push_absent(
            place_sccs(r, sccs, order.drop_last(), comp),
            sccs[order.last() as int].sort_by(ascending_leq()),
            comp,
        )
    }
}

/// Places one weakly connected component: its strongly connected
/// components first, then its remaining nodes in the component's order.
pub open spec fn place_component(r: Seq<usize>, sccs: Seq<Seq<usize>>, comp: Seq<usize>) -> Seq<usize> {
    push_absent(place_sccs(r, sccs, scc_order(sccs, comp), comp), comp, comp)
}

/// Places the weakly connected components in turn.
pub open spec fn place_components(sccs: Seq<Seq<usize>>, comps: Seq<Seq<usize>>) -> Seq<usize>
    decreases comps.len(),
{
    if comps.len() == 0 {
        Seq::empty()
    } else {
        place_component(place_components(sccs, comps.drop_last()), sccs, comps.last())
    }
}

/// The initial order of `n` nodes: the components placed, then every node
/// not yet placed, in index order.
pub open spec fn spec_heuristic_order(n: int, sccs: Seq<Seq<usize>>, comps: Seq<Seq<usize>>) -> Seq<usize> {
    push_absent(place_components(sccs, comps), identity(n), identity(n))
}

// ---------------------------------------------------------------------------
// Orderings
// ---------------------------------------------------------------------------

proof fn lemma_key_leq_total(keys: Seq<usize>)
    ensures
        total_ordering(key_leq(keys)),
{
    let r = key_leq(keys);
    assert(vstd::relations::reflexive(r));
    assert(vstd::relations::antisymmetric(r));
    assert(vstd::relations::transitive(r));
    assert(vstd::relations::strongly_connected(r));
}

proof fn lemma_ascending_total()
    ensures
        total_ordering(ascending_leq()),
{
    let r = ascending_leq();
    assert(vstd::relations::reflexive(r));
    assert(vstd::relations::antisymmetric(r));
    assert(vstd::relations::transitive(r));
    assert(vstd::relations::strongly_connected(r));
}

/// A sorted permutation is the sorted sequence.
proof fn lemma_is_sort_by(s: Seq<usize>, t: Seq<usize>, leq: spec_fn(usize, usize) -> bool)
    requires
        total_ordering(leq),
        sorted_by(t, leq),
        t.to_multiset() == s.to_multiset(),
    ensures
        t == s.sort_by(leq),
{
    s.lemma_sort_by_ensures(leq);
    vstd::seq_lib::lemma_sorted_unique(t, s.sort_by(leq), leq);
}


// ---------------------------------------------------------------------------
// Helpers
// ---------------------------------------------------------------------------

fn contains_node(v: &Vec<usize>, x: usize) -> (b: bool)
    ensures
        b == v@.contains(x),
{
    let mut i: usize = 0;
    while i < v.len()
        invariant
            i <= v@.len(),
            forall|j: int| 0 <= j < i ==> v@[j] != x,
        decreases v@.len() - i,
    {
        if v[i] == x {
            return true;
        }
        i = i + 1;
    }
    false
}

fn meets_exec(scc: &Vec<usize>, comp: &Vec<usize>) -> (b: bool)
    ensures
        b == meets(scc@, comp@),
{
    let mut i: usize = 0;
    while i < scc.len()
        invariant
            i <= scc@.len(),
            forall|j: int| 0 <= j < i ==> !comp@.contains(#[trigger] scc@[j]),
        decreases scc@.len() - i,
    {
        if contains_node(comp, scc[i]) {
            return true;
        }
        i = i + 1;
    }
    false
}

fn min_or_zero_exec(s: &Vec<usize>) -> (m: usize)
    ensures
        m == min_or_zero(s@),
{
    if s.len() == 0 {
        return 0;
    }
    let mut m = s[0];
    let mut i: usize = 1;
    assert(s@.take(1).drop_last() =~= Seq::<usize>::empty());
    while i < s.len()
        invariant
            1 <= i <= s@.len(),
            m == min_or_zero(s@.take(i as int)),
        decreases s@.len() - i,
    {
        assert(s@.take(i + 1).drop_last() =~= s@.take(i as int));
        if s[i] < m {
            m = s[i];
        }
        i = i + 1;
    }
    assert(s@.take(s@.len() as int) =~= s@);
    m
}

/// Whether `x` comes strictly after `y` by key, then index.
fn key_after(keys: &Vec<usize>, x: usize, y: usize) -> (b: bool)
    requires
        (x as int) < keys@.len(),
        (y as int) < keys@.len(),
    ensures
        b == !key_leq(keys@)(x, y),
{
    keys[x] > keys[y] || (keys[x] == keys[y] && x > y)
}

/// Sorts component indices by key, equal keys by index.
fn sort_by_keys(v: &mut Vec<usize>, keys: &Vec<usize>)
    requires
        forall|i: int| 0 <= i < old(v)@.len() ==> (#[trigger] old(v)@[i] as int) < keys@.len(),
    ensures
        final(v)@ == old(v)@.sort_by(key_leq(keys@)),
        forall|i: int| 0 <= i < final(v)@.len() ==> (#[trigger] final(v)@[i] as int) < keys@.len(),
{
    let ghost orig = v@;
    let ghost leq = key_leq(keys@);
    let n = v.len();
    if n == 0 {
        proof {
            lemma_key_leq_total(keys@);
            lemma_is_sort_by(orig, v@, leq);
        }
        return;
    }
    let mut i: usize = 1;
    while i < n
        invariant
            1 <= i <= n,
            n == v@.len(),
            leq == key_leq(keys@),
            v@.to_multiset() == orig.to_multiset(),
            forall|k: int| 0 <= k < n ==> (#[trigger] v@[k] as int) < keys@.len(),
            forall|a: int, b: int| 0 <= a < b < i ==> leq(v@[a], v@[b]),
        decreases n - i,
    {
        let mut j = i;
        while j > 0 && key_after(keys, v[j - 1], v[j])
            invariant
                0 <= j <= i < n,
                n == v@.len(),
                leq == key_leq(keys@),
                v@.to_multiset() == orig.to_multiset(),
                forall|k: int| 0 <= k < n ==> (#[trigger] v@[k] as int) < keys@.len(),
                forall|a: int, b: int| 0 <= a < b <= i && a != j && b != j ==> leq(v@[a], v@[b]),
                forall|a: int, b: int| 0 <= a < j && j < b <= i ==> leq(v@[a], v@[b]),
                forall|b: int| j < b <= i ==> leq(v@[j as int], v@[b]),
            decreases j,
        {
            let x = v[j - 1];
            let y = v[j];
            let ghost before = v@;
            v.set(j - 1, y);
            v.set(j, x);
            proof {
                assert(v@ =~= before.update(j - 1, y).update(j as int, x));
                lemma_swap_multiset(before, j - 1, j as int);
            }
            j = j - 1;
        }
        i = i + 1;
    }
    proof {
        lemma_key_leq_total(keys@);
        lemma_is_sort_by(orig, v@, leq);
    }
}

proof fn lemma_swap_multiset(s: Seq<usize>, i: int, j: int)
    requires
        0 <= i < j < s.len(),
    ensures
        s.update(i, s[j]).update(j, s[i]).to_multiset() == s.to_multiset(),
{
    broadcast use vstd::seq_lib::group_to_multiset_ensures;
    let u = s.update(i, s[j]);
    assert(u[j] == s[j]);
    assert(u.to_multiset() == s.to_multiset().insert(s[j]).remove(s[i]));
    assert(u.update(j, s[i]).to_multiset() == u.to_multiset().insert(s[i]).remove(s[j]));
    assert(s.contains(s[i]));
    assert(s.to_multiset().count(s[i]) > 0);
    assert(u.update(j, s[i]).to_multiset() =~= s.to_multiset());
}

/// The members of a strongly connected component, ascending.
fn sorted_members(scc: &Vec<usize>) -> (m: Vec<usize>)
    ensures
        m@ == scc@.sort_by(ascending_leq()),
{
    let mut m: Vec<usize> = Vec::new();
    let mut i: usize = 0;
    while i < scc.len()
        invariant
            i <= scc@.len(),
            m@ == scc@.take(i as int),
        decreases scc@.len() - i,
    {
        m.push(scc[i]);
        assert(m@ =~= scc@.take(i + 1));
        i = i + 1;
    }
    assert(scc@.take(scc@.len() as int) =~= scc@);
    let ghost before = m@;
    sort_ascending(&mut m);
    proof {
        lemma_ascending_total();
        assert(sorted_by(m@, ascending_leq()));
        lemma_is_sort_by(before, m@, ascending_leq());
    }
    m
}

/// What holds of the order being built: `seen` marks exactly the placed
/// nodes, each placed once, all below `n`.
pub open spec fn placed_inv(r: Seq<usize>, seen: Seq<bool>, n: int) -> bool {
    &&& seen.len() == n
    &&& r.no_duplicates()
    &&& forall|i: int| 0 <= i < r.len() ==> (#[trigger] r[i] as int) < n
    &&& forall|x: int| 0 <= x < n ==> #[trigger] seen[x] == r.contains(x as usize)
}

/// Places the members of `ms` that lie in `comp` and are not yet placed.
fn push_absent_exec(result: &mut Vec<usize>, seen: &mut Vec<bool>, ms: &Vec<usize>, comp: &Vec<usize>, n: usize)
    requires
        placed_inv(old(result)@, old(seen)@, n as int),
        forall|i: int| 0 <= i < comp@.len() ==> (#[trigger] comp@[i] as int) < n,
    ensures
        final(result)@ == push_absent(old(result)@, ms@, comp@),
        placed_inv(final(result)@, final(seen)@, n as int),
{
    let ghost r0 = result@;
    let mut j: usize = 0;
    assert(ms@.take(0) =~= Seq::<usize>::empty());
    while j < ms.len()
        invariant
            j <= ms@.len(),
            placed_inv(result@, seen@, n as int),
            forall|i: int| 0 <= i < comp@.len() ==> (#[trigger] comp@[i] as int) < n,
            result@ == push_absent(r0, ms@.take(j as int), comp@),
        decreases ms@.len() - j,
    {
        let m = ms[j];
        assert(ms@.take(j + 1).drop_last() =~= ms@.take(j as int));
        assert(ms@.take(j + 1).last() == m);
        if contains_node(comp, m) {
            let ghost i = choose|i: int| 0 <= i < comp@.len() && comp@[i] == m;
            assert((comp@[i] as int) < n);
            assert(seen@[m as int] == result@.contains(m));
            if !seen[m] {
                let ghost before = result@;
                result.push(m);
                seen.set(m, true);
                proof {
                    assert forall|x: int| 0 <= x < n implies #[trigger] seen@[x] == result@.contains(x as usize) by {
                        if result@.contains(x as usize) {
                            let k = choose|k: int| 0 <= k < result@.len() && result@[k] == x as usize;
                            if k < before.len() {
                                assert(before[k] == x as usize);
                            }
                        }
                        if before.contains(x as usize) {
                            let k = choose|k: int| 0 <= k < before.len() && before[k] == x as usize;
                            assert(result@[k] == x as usize);
                        }
                        assert(result@[before.len() as int] == m);
                    }
                    assert forall|a: int, b: int| 0 <= a < b < result@.len() implies result@[a] != result@[b] by {
                        if b == before.len() {
                            assert(before[a] == result@[a]);
                            assert(before.contains(result@[a]));
                        }
                    }
                }
            }
        }
        j = j + 1;
    }
    assert(ms@.take(ms@.len() as int) =~= ms@);
}

/// The initial order of the nodes `0..node_count` for the layered layout
/// of a directed graph. Weakly connected components come one after
/// another, in the order of the analysis. Inside a component, the strongly
/// connected components that have a node in it come first, ordered by
/// their smallest node, each contributing its nodes of the component in
/// ascending order; the component's other nodes follow in its own order.
/// Nodes in no component come last, in index order. Every node occurs
/// exactly once.
pub fn heuristic_order(node_count: usize, analysis: &GraphAnalysis) -> (order: Vec<usize>)
    requires
        forall|k: int, j: int|
            0 <= k < analysis.connected_components@.len() && 0 <= j < analysis.connected_components@[k]@.len()
                ==> (#[trigger] analysis.connected_components@[k]@[j] as int) < node_count,
    ensures
        order@ == spec_heuristic_order(
            node_count as int,
            lists_view(analysis.sccs@),
            lists_view(analysis.connected_components@),
        ),
        order@.len() == node_count,
        order@.no_duplicates(),
        forall|i: int| 0 <= i < order@.len() ==> (#[trigger] order@[i] as int) < node_count,
{
    let n = node_count;
    let sccs = &analysis.sccs;
    let comps = &analysis.connected_components;
    let ghost sv = lists_view(sccs@);
    let ghost cv = lists_view(comps@);
    // Sort key of each strongly connected component.
    let mut keys: Vec<usize> = Vec::new();
    let mut s: usize = 0;
    while s < sccs.len()
        invariant
            s <= sccs@.len(),
            sv == lists_view(sccs@),
            keys@ == scc_keys(sv).take(s as int),
        decreases sccs@.len() - s,
    {
        let k = min_or_zero_exec(&sccs[s]);
        keys.push(k);
        assert(keys@ =~= scc_keys(sv).take(s + 1));
        s = s + 1;
    }
    assert(keys@ =~= scc_keys(sv));
    let mut result: Vec<usize> = Vec::new();
    let mut seen: Vec<bool> = Vec::new();
    let mut i: usize = 0;
    while i < n
        invariant
            i <= n,
            seen@.len() == i,
            forall|x: int| 0 <= x < i ==> !(#[trigger] seen@[x]),
        decreases n - i,
    {
        seen.push(false);
        i = i + 1;
    }
    assert(placed_inv(result@, seen@, n as int));
    let mut c: usize = 0;
    assert(cv.take(0) =~= Seq::<Seq<usize>>::empty());
    while c < comps.len()
        invariant
            c <= comps@.len(),
            sv == lists_view(sccs@),
            cv == lists_view(comps@),
            keys@ == scc_keys(sv),
            placed_inv(result@, seen@, n as int),
            forall|k: int, j: int|
                0 <= k < comps@.len() && 0 <= j < comps@[k]@.len() ==> (#[trigger] comps@[k]@[j] as int) < n,
            result@ == place_components(sv, cv.take(c as int)),
        decreases comps@.len() - c,
    {
        let comp = &comps[c];
        assert(comp@ == cv[c as int]);
        assert forall|j: int| 0 <= j < comp@.len() implies (#[trigger] comp@[j] as int) < n by {
            assert(comps@[c as int]@[j] == comp@[j]);
        }
        // The strongly connected components that meet this one.
        let mut touched: Vec<usize> = Vec::new();
        let mut t: usize = 0;
        while t < sccs.len()
            invariant
                t <= sccs@.len(),
                sv == lists_view(sccs@),
                keys@.len() == sccs@.len(),
                touched@ == touching(sv, comp@, t as nat),
                forall|q: int| 0 <= q < touched@.len() ==> (#[trigger] touched@[q] as int) < t,
            decreases sccs@.len() - t,
        {
            if meets_exec(&sccs[t], comp) {
                touched.push(t);
            }
            t = t + 1;
        }
        sort_by_keys(&mut touched, &keys);
        assert(touched@ == scc_order(sv, comp@));
        let ghost r0 = result@;
        let mut q: usize = 0;
        assert(touched@.take(0) =~= Seq::<usize>::empty());
        while q < touched.len()
            invariant
                q <= touched@.len(),
                sv == lists_view(sccs@),
                placed_inv(result@, seen@, n as int),
                forall|j: int| 0 <= j < comp@.len() ==> (#[trigger] comp@[j] as int) < n,
                forall|x: int| 0 <= x < touched@.len() ==> (#[trigger] touched@[x] as int) < sccs@.len(),
                result@ == place_sccs(r0, sv, touched@.take(q as int), comp@),
            decreases touched@.len() - q,
        {
            let si = touched[q];
            let members = sorted_members(&sccs[si]);
            assert(touched@.take(q + 1).drop_last() =~= touched@.take(q as int));
            assert(touched@.take(q + 1).last() == si);
            push_absent_exec(&mut result, &mut seen, &members, comp, n);
            q = q + 1;
        }
        assert(touched@.take(touched@.len() as int) =~= touched@);
        push_absent_exec(&mut result, &mut seen, comp, comp, n);
        assert(cv.take(c + 1).drop_last() =~= cv.take(c as int));
        assert(cv.take(c + 1).last() == comp@);
        c = c + 1;
    }
    assert(cv.take(comps@.len() as int) =~= cv);
    // Every node not yet placed, in index order.
    let ghost r1 = result@;
    let mut v: usize = 0;
    assert(identity(n as int).take(0) =~= Seq::<usize>::empty());
    while v < n
        invariant
            v <= n,
            placed_inv(result@, seen@, n as int),
            result@ == push_absent(r1, identity(n as int).take(v as int), identity(n as int)),
            forall|x: int| 0 <= x < v ==> result@.contains(#[trigger] (x as usize)),
        decreases n - v,
    {
        let ghost id = identity(n as int);
        assert(id.take(v + 1).drop_last() =~= id.take(v as int));
        assert(id.take(v + 1).last() == v);
        assert(id[v as int] == v);
        assert(id.contains(v));
        if !seen[v] {
            let ghost before = result@;
            result.push(v);
            seen.set(v, true);
            proof {
                assert forall|x: int| 0 <= x < n implies #[trigger] seen@[x] == result@.contains(x as usize) by {
                    if result@.contains(x as usize) {
                        let k = choose|k: int| 0 <= k < result@.len() && result@[k] == x as usize;
                        if k < before.len() {
                            assert(before[k] == x as usize);
                        }
                    }
                    if before.contains(x as usize) {
                        let k = choose|k: int| 0 <= k < before.len() && before[k] == x as usize;
                        assert(result@[k] == x as usize);
                    }
                    assert(result@[before.len() as int] == v);
                }
                assert forall|a: int, b: int| 0 <= a < b < result@.len() implies result@[a] != result@[b] by {
                    if b == before.len() {
                        assert(before[a] == result@[a]);
                        assert(before.contains(result@[a]));
                    }
                }
                assert forall|x: int| 0 <= x < v + 1 implies result@.contains(#[trigger] (x as usize)) by {
                    if x < v {
                        let k = choose|k: int| 0 <= k < before.len() && before[k] == x as usize;
                        assert(result@[k] == x as usize);
                    } else {
                        assert(result@[before.len() as int] == v);
                    }
                }
            }
        } else {
            assert(result@.contains(v));
        }
        v = v + 1;
    }
    assert(identity(n as int).take(n as int) =~= identity(n as int));
    proof {
        lemma_distinct_len(result@, n as int);
        lemma_covers_len(result@, n as int);
    }
    result
}

/// A sequence that holds each of `0..n` has at least `n` members.
proof fn lemma_covers_len(s: Seq<usize>, n: int)
    requires
        0 <= n,
        forall|x: int| 0 <= x < n ==> s.contains(#[trigger] (x as usize)),
        n <= usize::MAX + 1,
    ensures
        s.len() >= n,
{
    let si = s.map_values(|x: usize| x as int);
    vstd::set_lib::lemma_int_range(0, n);
    assert forall|x: int| vstd::set_lib::set_int_range(0, n).contains(x) implies si.to_set().contains(x) by {
        assert(s.contains(x as usize));
        let k = choose|k: int| 0 <= k < s.len() && s[k] == x as usize;
        assert(si[k] == x);
        assert(si.contains(x));
    }
    vstd::set_lib::lemma_len_subset(vstd::set_lib::set_int_range(0, n), si.to_set());
    si.lemma_cardinality_of_set();
}

// ---------------------------------------------------------------------------
// Node ids that sort in priority order
// ---------------------------------------------------------------------------

/// The character of decimal digit `d`.
pub open spec fn digit_char(d: int) -> char {
    (48 + d) as char
}

/// `n` in decimal, without leading zeros.
pub open spec fn decimal(n: nat) -> Seq<char>
    decreases n,
{
    if n < 10 {
        seq![digit_char(n as int)]
    } else {
        decimal(n / 10) + seq![digit_char((n % 10) as int)]
    }
}

/// `n` in decimal, padded with zeros to at least four digits.
pub open spec fn padded4(n: nat) -> Seq<char> {
    let d = decimal(n);
    if d.len() < 4 {
        Seq::new((4 - d.len()) as nat, |i: int| '0') + d
    } else {
        d
    }
}

/// The id of node `i` with priority `prio`: the padded priority, a colon,
/// the node index.
pub open spec fn priority_id(prio: nat, i: nat) -> Seq<char> {
    padded4(prio) + seq![':'] + decimal(i)
}

/// The digit `d` as a string.
fn digit_string(d: usize) -> (s: String)
    requires
        d < 10,
    ensures
        s@ == seq![digit_char(d as int)],
{
    if d == 0 {
        proof { reveal_strlit("0"); }
        String::from_str("0")
    } else if d == 1 {
        proof { reveal_strlit("1"); }
        String::from_str("1")
    } else if d == 2 {
        proof { reveal_strlit("2"); }
        String::from_str("2")
    } else if d == 3 {
        proof { reveal_strlit("3"); }
        String::from_str("3")
    } else if d == 4 {
        proof { reveal_strlit("4"); }
        String::from_str("4")
    } else if d == 5 {
        proof { reveal_strlit("5"); }
        String::from_str("5")
    } else if d == 6 {
        proof { reveal_strlit("6"); }
        String::from_str("6")
    } else if d == 7 {
        proof { reveal_strlit("7"); }
        String::from_str("7")
    } else if d == 8 {
        proof { reveal_strlit("8"); }
        String::from_str("8")
    } else {
        proof { reveal_strlit("9"); }
        String::from_str("9")
    }
}

/// Appends `n` in decimal.
fn append_decimal(s: &mut String, n: usize)
    ensures
        final(s)@ == old(s)@ + decimal(n as nat),
    decreases n,
{
    if n < 10 {
        let d = digit_string(n);
        s.append(d.as_str());
    } else {
        append_decimal(s, n / 10);
        let d = digit_string(n % 10);
        s.append(d.as_str());
        assert(decimal(n as nat) == decimal((n / 10) as nat) + seq![digit_char((n % 10) as int)]);
    }
}

proof fn lemma_decimal_len(n: nat)
    ensures
        n < 10 ==> decimal(n).len() == 1,
        10 <= n < 100 ==> decimal(n).len() == 2,
        100 <= n < 1000 ==> decimal(n).len() == 3,
        1000 <= n ==> decimal(n).len() >= 4,
    decreases n,
{
    if n >= 10 {
        lemma_decimal_len(n / 10);
    }
}

/// The id of node `i` with priority `prio`: `prio` in decimal padded with
/// zeros to four digits (longer numbers keep all their digits), a colon,
/// then `i` in decimal.
fn priority_label(prio: usize, i: usize) -> (s: String)
    ensures
        s@ == priority_id(prio as nat, i as nat),
{
    proof {
        lemma_decimal_len(prio as nat);
        reveal_strlit("0");
        reveal_strlit(":");
    }
    let zeros: usize = if prio < 10 { 3 } else if prio < 100 { 2 } else if prio < 1000 { 1 } else { 0 };
    let mut s = String::new();
    let mut z: usize = 0;
    while z < zeros
        invariant
            z <= zeros,
            s@ == Seq::new(z as nat, |j: int| '0'),
        decreases zeros - z,
    {
        proof { reveal_strlit("0"); }
        s.append("0");
        assert(s@ =~= Seq::new((z + 1) as nat, |j: int| '0'));
        z = z + 1;
    }
    let ghost pad = s@;
    append_decimal(&mut s, prio);
    assert(pad + decimal(prio as nat) =~= padded4(prio as nat));
    s.append(":");
    append_decimal(&mut s, i);
    assert(s@ =~= priority_id(prio as nat, i as nat));
    s
}

/// The four digits of a number below 10000.
pub open spec fn four_digits(n: int) -> Seq<char> {
    seq![digit_char(n / 1000), digit_char((n / 100) % 10), digit_char((n / 10) % 10), digit_char(n % 10)]
}

proof fn lemma_padded4_small(n: nat)
    requires
        n < 10000,
    ensures
        padded4(n) == four_digits(n as int),
{
    reveal_with_fuel(decimal, 5);
    if n < 10 {
        assert(decimal(n) =~= seq![digit_char(n as int)]);
        assert(padded4(n) =~= four_digits(n as int));
    } else if n < 100 {
        assert(decimal(n) =~= seq![digit_char((n / 10) as int), digit_char((n % 10) as int)]);
        assert(padded4(n) =~= four_digits(n as int));
    } else if n < 1000 {
        assert(decimal(n / 10) =~= seq![digit_char((n / 100) as int), digit_char(((n / 10) % 10) as int)]);
        assert(decimal(n) =~= seq![digit_char((n / 100) as int), digit_char(((n / 10) % 10) as int), digit_char((n % 10) as int)]);
        assert(padded4(n) =~= four_digits(n as int));
    } else {
        assert(decimal(n / 100) =~= seq![digit_char((n / 1000) as int), digit_char(((n / 100) % 10) as int)]);
        assert(decimal(n / 10) =~= seq![digit_char((n / 1000) as int), digit_char(((n / 100) % 10) as int), digit_char(((n / 10) % 10) as int)]);
        assert(decimal(n) =~= four_digits(n as int));
    }
}

/// Comparing sequences that start with prefixes of one length that differ
/// compares the prefixes.
proof fn lemma_id_lt_prefix(p: Seq<char>, q: Seq<char>, s: Seq<char>, t: Seq<char>)
    requires
        p.len() == q.len(),
        p != q,
    ensures
        id_lt(p + s, q + t) == id_lt(p, q),
    decreases p.len(),
{
    if p.len() == 0 {
        assert(p =~= q);
    } else if p[0] != q[0] {
        assert((p + s)[0] == p[0]);
        assert((q + t)[0] == q[0]);
    } else {
        assert((p + s).drop_first() =~= p.drop_first() + s);
        assert((q + t).drop_first() =~= q.drop_first() + t);
        assert((p + s)[0] == p[0]);
        assert((q + t)[0] == q[0]);
        assert(p.drop_first() != q.drop_first()) by {
            if p.drop_first() == q.drop_first() {
                assert(p =~= seq![p[0]] + p.drop_first());
                assert(q =~= seq![q[0]] + q.drop_first());
            }
        }
        lemma_id_lt_prefix(p.drop_first(), q.drop_first(), s, t);
    }
}

proof fn lemma_digits(a: int)
    requires
        0 <= a < 10000,
    ensures
        0 <= a / 1000 <= 9,
        0 <= (a / 100) % 10 <= 9,
        0 <= (a / 10) % 10 <= 9,
        0 <= a % 10 <= 9,
        a == (a / 1000) * 1000 + ((a / 100) % 10) * 100 + ((a / 10) % 10) * 10 + a % 10,
{
    assert(a == (a / 1000) * 1000 + ((a / 100) % 10) * 100 + ((a / 10) % 10) * 10 + a % 10) by (nonlinear_arith)
        requires
            0 <= a < 10000,
    {
        assert(a == (a / 10) * 10 + a % 10);
        assert(a / 10 == (a / 100) * 10 + (a / 10) % 10);
        assert(a / 100 == (a / 1000) * 10 + (a / 100) % 10);
    }
    assert(0 <= a / 1000 <= 9) by (nonlinear_arith)
        requires
            0 <= a < 10000,
    ;
}

proof fn lemma_digit_char(x: int, y: int)
    requires
        0 <= x <= 9,
        0 <= y <= 9,
    ensures
        digit_char(x) as int == 48 + x,
        (digit_char(x) == digit_char(y)) <==> x == y,
{
}

/// The first differing digit decides.
proof fn lemma_digit_order(a0: int, a1: int, a2: int, a3: int, b0: int, b1: int, b2: int, b3: int)
    requires
        0 <= a0 <= 9, 0 <= a1 <= 9, 0 <= a2 <= 9, 0 <= a3 <= 9,
        0 <= b0 <= 9, 0 <= b1 <= 9, 0 <= b2 <= 9, 0 <= b3 <= 9,
        a0 * 1000 + a1 * 100 + a2 * 10 + a3 < b0 * 1000 + b1 * 100 + b2 * 10 + b3,
    ensures
        a0 < b0 || (a0 == b0 && (a1 < b1 || (a1 == b1 && (a2 < b2 || (a2 == b2 && a3 < b3))))),
{
}

proof fn lemma_four_digits_lt(a: int, b: int)
    requires
        0 <= a < b < 10000,
    ensures
        id_lt(four_digits(a), four_digits(b)),
        four_digits(a) != four_digits(b),
{
    let fa = four_digits(a);
    let fb = four_digits(b);
    lemma_digits(a);
    lemma_digits(b);
    let (a0, a1, a2, a3) = (a / 1000, (a / 100) % 10, (a / 10) % 10, a % 10);
    let (b0, b1, b2, b3) = (b / 1000, (b / 100) % 10, (b / 10) % 10, b % 10);
    lemma_digit_order(a0, a1, a2, a3, b0, b1, b2, b3);
    lemma_digit_char(a0, b0);
    lemma_digit_char(a1, b1);
    lemma_digit_char(a2, b2);
    lemma_digit_char(a3, b3);
    let fa1 = fa.drop_first();
    let fb1 = fb.drop_first();
    let fa2 = fa1.drop_first();
    let fb2 = fb1.drop_first();
    let fa3 = fa2.drop_first();
    let fb3 = fb2.drop_first();
    assert(fa1 =~= seq![digit_char(a1), digit_char(a2), digit_char(a3)]);
    assert(fb1 =~= seq![digit_char(b1), digit_char(b2), digit_char(b3)]);
    assert(fa2 =~= seq![digit_char(a2), digit_char(a3)]);
    assert(fb2 =~= seq![digit_char(b2), digit_char(b3)]);
    assert(fa3 =~= seq![digit_char(a3)]);
    assert(fb3 =~= seq![digit_char(b3)]);
    if a0 == b0 && a1 == b1 && a2 == b2 {
        assert(id_lt(fa3, fb3));
    }
    if a0 == b0 && a1 == b1 {
        assert(id_lt(fa2, fb2));
    }
    if a0 == b0 {
        assert(id_lt(fa1, fb1));
    }
    assert(id_lt(fa, fb));
    assert(fa[0] != fb[0] || fa[1] != fb[1] || fa[2] != fb[2] || fa[3] != fb[3]);
}

/// Ids with priorities below 10000 sort in priority order: the lower
/// priority first, whatever the node indices.
pub proof fn lemma_priority_ids_ordered(a: nat, b: nat, i: nat, j: nat)
    requires
        a < b < 10000,
    ensures
        id_lt(priority_id(a, i), priority_id(b, j)),
{
    lemma_padded4_small(a);
    lemma_padded4_small(b);
    lemma_four_digits_lt(a as int, b as int);
    assert(priority_id(a, i) =~= four_digits(a as int) + (seq![':'] + decimal(i)));
    assert(priority_id(b, j) =~= four_digits(b as int) + (seq![':'] + decimal(j)));
    lemma_id_lt_prefix(four_digits(a as int), four_digits(b as int), seq![':'] + decimal(i), seq![':'] + decimal(j));
}

// ---------------------------------------------------------------------------
// The graph handed to the layered layout
// ---------------------------------------------------------------------------

/// The node ids of a graph with string nodes, by node index.
pub uninterp spec fn sgraph_nodes(g: DiGraph<String, ()>) -> Seq<Seq<char>>;

/// The edges of a graph with string nodes, as (source, target) indices, in
/// edge index order (the order they were added, for a graph built by
/// adding nodes and edges).
pub uninterp spec fn sgraph_edges(g: DiGraph<String, ()>) -> Seq<(usize, usize)>;

/// `Graph::with_capacity`: no nodes, no edges.
#[verifier::external_body]
pub(crate) fn sgraph_with_capacity(nodes: usize, edges: usize) -> (g: DiGraph<String, ()>)
    ensures
        sgraph_nodes(g) == Seq::<Seq<char>>::empty(),
        sgraph_edges(g) == Seq::<(usize, usize)>::empty(),
{
    DiGraph::with_capacity(nodes, edges)
}

/// `Graph::add_node`: appends a node and returns its index, the number of
/// nodes before. It panics only when the `u32` index space is full, which
/// the `requires` rules out.
#[verifier::external_body]
pub(crate) fn sgraph_add_node(g: &mut DiGraph<String, ()>, id: String) -> (idx: usize)
    requires
        sgraph_nodes(*old(g)).len() < 0xffff_ffff,
    ensures
        idx == sgraph_nodes(*old(g)).len(),
        sgraph_nodes(*final(g)) == sgraph_nodes(*old(g)).push(id@),
        sgraph_edges(*final(g)) == sgraph_edges(*old(g)),
{
    g.add_node(id).index()
}

/// `Graph::add_edge`: appends the edge `a -> b`. It panics when an end is
/// not a node or the `u32` edge index space is full, which the `requires`
/// rules out.
#[verifier::external_body]
pub(crate) fn sgraph_add_edge(g: &mut DiGraph<String, ()>, a: usize, b: usize)
    requires
        a < sgraph_nodes(*old(g)).len(),
        b < sgraph_nodes(*old(g)).len(),
        sgraph_edges(*old(g)).len() < 0xffff_ffff,
    ensures
        sgraph_nodes(*final(g)) == sgraph_nodes(*old(g)),
        sgraph_edges(*final(g)) == sgraph_edges(*old(g)).push((a, b)),
{
    g.add_edge(NodeIndex::new(a), NodeIndex::new(b), ());
}

/// `Graph::find_edge` on a directed graph: whether an edge goes from `a`
/// to `b`.
#[verifier::external_body]
fn sgraph_has_edge(g: &DiGraph<String, ()>, a: usize, b: usize) -> (r: bool)
    requires
        a < sgraph_nodes(*g).len(),
        b < sgraph_nodes(*g).len(),
    ensures
        r == sgraph_edges(*g).contains((a, b)),
{
    g.find_edge(NodeIndex::new(a), NodeIndex::new(b)).is_some()
}

/// The position of each node in `order`.
pub open spec fn priorities(order: Seq<usize>, n: nat) -> Seq<usize> {
    Seq::new(n, |v: int| (choose|p: int| 0 <= p < order.len() && order[p] == v as usize) as usize)
}

/// The edges of the layered graph: each layout edge between two distinct
/// nodes of the graph, once per pair of ends, in order.
pub open spec fn layered_edges(n: int, es: Seq<LEdge>) -> Seq<(usize, usize)>
    decreases es.len(),
{
    if es.len() == 0 {
        Seq::empty()
    } else {
        let r = layered_edges(n, es.drop_last());
        let e = es.last();
        if (e.source as int) < n && (e.target as int) < n && e.source != e.target && !r.contains((e.source, e.target)) {
            r.push((e.source, e.target))
        } else {
            r
        }
    }
}

proof fn lemma_layered_edges(n: int, es: Seq<LEdge>)
    ensures
        layered_edges(n, es).len() <= es.len(),
        forall|k: int| 0 <= k < layered_edges(n, es).len() ==>
            ((#[trigger] layered_edges(n, es)[k]).0 as int) < n && (layered_edges(n, es)[k].1 as int) < n,
    decreases es.len(),
{
    if es.len() > 0 {
        lemma_layered_edges(n, es.drop_last());
        let r = layered_edges(n, es.drop_last());
        let e = es.last();
        if (e.source as int) < n && (e.target as int) < n && e.source != e.target && !r.contains((e.source, e.target)) {
            assert forall|k: int| 0 <= k < r.push((e.source, e.target)).len() implies
                ((#[trigger] r.push((e.source, e.target))[k]).0 as int) < n && (r.push((e.source, e.target))[k].1 as int) < n by {
                if k < r.len() {
                    assert(r.push((e.source, e.target))[k] == r[k]);
                }
            }
        }
    }
}

/// The ids of the layered graph's nodes, from their priorities.
pub open spec fn layered_ids(prio: Seq<usize>) -> Seq<Seq<char>> {
    Seq::new(prio.len(), |i: int| priority_id(prio[i] as nat, i as nat))
}

/// The graph that the layered layout works on: node `i` is layout node
/// `i`, with the id `<priority>:<i>` (priority from [`heuristic_order`],
/// padded to four digits), and one edge per pair of distinct ends of the
/// layout edges (see [`layered_edges`]). Also returns the node index of
/// each layout node.
pub fn build_graph(node_count: usize, edges: &[LEdge], analysis: &GraphAnalysis) -> (r: (DiGraph<String, ()>, Vec<usize>))
    requires
        node_count < 0xffff_ffff,
        edges@.len() < 0xffff_ffff,
        forall|k: int, j: int|
            0 <= k < analysis.connected_components@.len() && 0 <= j < analysis.connected_components@[k]@.len()
                ==> (#[trigger] analysis.connected_components@[k]@[j] as int) < node_count,
    ensures
        sgraph_nodes(r.0) == layered_ids(priorities(
            spec_heuristic_order(node_count as int, lists_view(analysis.sccs@), lists_view(analysis.connected_components@)),
            node_count as nat,
        )),
        sgraph_edges(r.0) == layered_edges(node_count as int, edges@),
        r.1@ == identity(node_count as int),
{
    let n = node_count;
    let order = heuristic_order(n, analysis);
    let ghost ord = order@;
    // Position of each node in the order.
    let mut priority: Vec<usize> = Vec::new();
    let mut i: usize = 0;
    while i < n
        invariant
            i <= n,
            priority@.len() == i,
        decreases n - i,
    {
        priority.push(0);
        i = i + 1;
    }
    let mut p: usize = 0;
    while p < order.len()
        invariant
            p <= ord.len(),
            ord == order@,
            ord.len() == n,
            ord.no_duplicates(),
            forall|k: int| 0 <= k < ord.len() ==> (#[trigger] ord[k] as int) < n,
            priority@.len() == n,
            forall|k: int| 0 <= k < p ==> #[trigger] priority@[ord[k] as int] == k,
        decreases ord.len() - p,
    {
        let node = order[p];
        priority.set(node, p);
        proof {
            assert forall|k: int| 0 <= k < p + 1 implies #[trigger] priority@[ord[k] as int] == k by {
                if k < p {
                    assert(ord[k] != ord[p as int]);
                }
            }
        }
        p = p + 1;
    }
    let ghost prios = priorities(ord, n as nat);
    proof {
        lemma_distinct_len(ord, n as int);
        assert forall|v: int| 0 <= v < n implies #[trigger] priority@[v] == prios[v] by {
            lemma_in_permutation(ord, n as int, v);
            let q = choose|q: int| 0 <= q < ord.len() && ord[q] == v as usize;
            assert(priority@[ord[q] as int] == q);
        }
        assert(priority@ =~= prios);
    }
    // Nodes.
    let mut graph = sgraph_with_capacity(n, edges.len());
    let mut idx_map: Vec<usize> = Vec::new();
    let mut i: usize = 0;
    while i < n
        invariant
            i <= n,
            n < 0xffff_ffff,
            priority@ == prios,
            prios.len() == n,
            sgraph_nodes(graph) == layered_ids(prios).take(i as int),
            sgraph_edges(graph) == Seq::<(usize, usize)>::empty(),
            idx_map@ == identity(i as int),
        decreases n - i,
    {
        let id = priority_label(priority[i], i);
        let ni = sgraph_add_node(&mut graph, id);
        idx_map.push(ni);
        assert(sgraph_nodes(graph) =~= layered_ids(prios).take(i + 1));
        assert(idx_map@ =~= identity(i + 1));
        i = i + 1;
    }
    assert(layered_ids(prios).take(n as int) =~= layered_ids(prios));
    // Edges.
    let mut k: usize = 0;
    assert(edges@.take(0) =~= Seq::<LEdge>::empty());
    while k < edges.len()
        invariant
            k <= edges@.len(),
            edges@.len() < 0xffff_ffff,
            sgraph_nodes(graph).len() == n,
            sgraph_nodes(graph) == layered_ids(prios),
            sgraph_edges(graph) == layered_edges(n as int, edges@.take(k as int)),
        decreases edges@.len() - k,
    {
        let ghost t = edges@.take(k + 1);
        assert(t.drop_last() =~= edges@.take(k as int));
        let e = edges[k];
        assert(t.last() == e);
        proof {
            lemma_layered_edges(n as int, edges@.take(k as int));
        }
        if e.source < n && e.target < n {
            if e.source != e.target && !sgraph_has_edge(&graph, e.source, e.target) {
                sgraph_add_edge(&mut graph, e.source, e.target);
            }
        }
        k = k + 1;
    }
    assert(edges@.take(edges@.len() as int) =~= edges@);
    (graph, idx_map)
}

/// In a duplicate-free ordering of `0..n` every node below `n` occurs.
proof fn lemma_in_permutation(ord: Seq<usize>, n: int, v: int)
    requires
        ord.len() == n,
        ord.no_duplicates(),
        forall|k: int| 0 <= k < ord.len() ==> (#[trigger] ord[k] as int) < n,
        0 <= v < n,
    ensures
        exists|q: int| 0 <= q < ord.len() && ord[q] == v as usize,
{
    if !(exists|q: int| 0 <= q < ord.len() && ord[q] == v as usize) {
        // Then `ord` is a duplicate-free sequence of values below `n` that
        // misses `v`: at most `n - 1` values.
        let others = ord.map_values(|x: usize| if (x as int) < v { x } else { (x - 1) as usize });
        assert forall|k: int| 0 <= k < others.len() implies (#[trigger] others[k] as int) < n - 1 by {
            assert(ord[k] as int != v);
        }
        assert forall|a: int, b: int| 0 <= a < b < others.len() implies others[a] != others[b] by {
            assert(ord[a] != ord[b]);
            assert(ord[a] as int != v && ord[b] as int != v);
        }
        lemma_distinct_len(others, n - 1);
    }
}

/// Each layer of the layered graph lists its nodes in priority order: with
/// priorities below 10000, a node of lower priority comes strictly before
/// a node of higher priority in the order that layers are sorted by.
pub proof fn lemma_layer_order_follows_priority(prio: Seq<usize>, x: usize, y: usize)
    requires
        (x as int) < prio.len(),
        (y as int) < prio.len(),
        prio[x as int] < prio[y as int] < 10000,
    ensures
        node_leq(layered_ids(prio))(x, y),
        !node_leq(layered_ids(prio))(y, x),
{
    let ids = layered_ids(prio);
    lemma_priority_ids_ordered(prio[x as int] as nat, prio[y as int] as nat, x as nat, y as nat);
    assert(ids[x as int] == priority_id(prio[x as int] as nat, x as nat));
    assert(ids[y as int] == priority_id(prio[y as int] as nat, y as nat));
    lemma_id_lt_total(ids[x as int], ids[y as int]);
    lemma_id_lt_irreflexive(ids[x as int]);
}

} // verus!
