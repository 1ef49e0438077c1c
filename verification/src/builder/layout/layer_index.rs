//! The nodes of each layer, ordered by node id: the starting order of the
//! layers before crossing reduction.

use vstd::prelude::*;
use vstd::relations::{sorted_by, total_ordering};
use vstd::string::StrSliceExecFns;

use std::collections::HashMap;

use super::crossing::layer_view;

verus! {

broadcast use vstd::std_specs::hash::group_hash_axioms;

// ---------------------------------------------------------------------------
// Order of ids
// ---------------------------------------------------------------------------

/// `a` comes strictly before `b`: lexicographic by character code, a
/// proper prefix first.
pub open spec fn id_lt(a: Seq<char>, b: Seq<char>) -> bool
    decreases a.len(),
{
    if a.len() == 0 {
        b.len() > 0
    } else if b.len() == 0 {
        false
    } else if a[0] != b[0] {
        (a[0] as int) < (b[0] as int)
    } else {
        id_lt(a.drop_first(), b.drop_first())
    }
}

pub(crate) proof fn lemma_id_lt_irreflexive(a: Seq<char>)
    ensures
        !id_lt(a, a),
    decreases a.len(),
{
    if a.len() > 0 {
        lemma_id_lt_irreflexive(a.drop_first());
    }
}

pub(crate) proof fn lemma_id_lt_total(a: Seq<char>, b: Seq<char>)
    ensures
        a != b ==> (id_lt(a, b) || id_lt(b, a)),
        !(id_lt(a, b) && id_lt(b, a)),
    decreases a.len(),
{
    if a.len() > 0 && b.len() > 0 && a[0] == b[0] {
        lemma_id_lt_total(a.drop_first(), b.drop_first());
        if a != b {
            assert(a.drop_first() != b.drop_first()) by {
                if a.drop_first() == b.drop_first() {
                    assert(a =~= seq![a[0]] + a.drop_first());
                    assert(b =~= seq![b[0]] + b.drop_first());
                }
            }
        }
    } else if a.len() > 0 && b.len() > 0 {
        assert((a[0] as int) != (b[0] as int));
    } else if a.len() == 0 && b.len() == 0 {
        assert(a =~= b);
    }
}

proof fn lemma_id_lt_transitive(a: Seq<char>, b: Seq<char>, c: Seq<char>)
    requires
        id_lt(a, b),
        id_lt(b, c),
    ensures
        id_lt(a, c),
    decreases a.len(),
{
    if a.len() > 0 && b.len() > 0 && c.len() > 0 && a[0] == b[0] && b[0] == c[0] {
        lemma_id_lt_transitive(a.drop_first(), b.drop_first(), c.drop_first());
    }
}

/// Node order: by id, equal ids by node index.
pub open spec fn node_leq(ids: Seq<Seq<char>>) -> spec_fn(usize, usize) -> bool {
    |x: usize, y: usize| id_lt(ids[x as int], ids[y as int]) || (ids[x as int] == ids[y as int] && x <= y)
}

pub(crate) proof fn lemma_node_leq_total(ids: Seq<Seq<char>>)
    ensures
        total_ordering(node_leq(ids)),
{
    let r = node_leq(ids);
    assert forall|x: usize| #[trigger] r(x, x) by {}
    assert forall|x: usize, y: usize| #[trigger] r(x, y) && #[trigger] r(y, x) implies x == y by {
        lemma_id_lt_total(ids[x as int], ids[y as int]);
        lemma_id_lt_irreflexive(ids[x as int]);
    }
    assert forall|x: usize, y: usize, z: usize| #[trigger] r(x, y) && #[trigger] r(y, z) implies r(x, z) by {
        if id_lt(ids[x as int], ids[y as int]) && id_lt(ids[y as int], ids[z as int]) {
            lemma_id_lt_transitive(ids[x as int], ids[y as int], ids[z as int]);
        }
    }
    assert forall|x: usize, y: usize| #[trigger] r(x, y) || #[trigger] r(y, x) by {
        lemma_id_lt_total(ids[x as int], ids[y as int]);
    }
}

// ---------------------------------------------------------------------------
// Layers
// ---------------------------------------------------------------------------

/// The nodes below `k` on layer `l`, ascending.
pub open spec fn layer_nodes(layers: Seq<usize>, l: usize, k: int) -> Seq<usize>
    decreases k,
{
    if k <= 0 {
        Seq::empty()
    } else {
        let r = layer_nodes(layers, l, k - 1);
        if layers[k - 1] == l { r.push((k - 1) as usize) } else { r }
    }
}

/// Layer `l` holds some node below `k`.
pub open spec fn layer_used(layers: Seq<usize>, l: usize, k: int) -> bool {
    exists|v: int| 0 <= v < k && #[trigger] layers[v] == l
}

// ---------------------------------------------------------------------------
// Executable
// ---------------------------------------------------------------------------

/// Whether id `a` comes strictly before id `b`.
fn id_less(a: &String, b: &String) -> (r: bool)
    ensures
        r == id_lt(a@, b@),
{
    let sa = a.as_str();
    let sb = b.as_str();
    let na = sa.unicode_len();
    let nb = sb.unicode_len();
    let mut i: usize = 0;
    assert(a@.skip(0) =~= a@);
    assert(b@.skip(0) =~= b@);
    loop
        invariant
            sa@ == a@,
            sb@ == b@,
            na as int == a@.len(),
            nb as int == b@.len(),
            i <= na,
            i <= nb,
            id_lt(a@, b@) == id_lt(a@.skip(i as int), b@.skip(i as int)),
        decreases na - i,
    {
        if i == na {
            return i < nb;
        }
        if i == nb {
            return false;
        }
        let ca = sa.get_char(i);
        let cb = sb.get_char(i);
        assert(a@.skip(i as int)[0] == ca);
        assert(b@.skip(i as int)[0] == cb);
        if ca != cb {
            return (ca as u32) < (cb as u32);
        }
        assert(a@.skip(i as int).drop_first() =~= a@.skip(i + 1));
        assert(b@.skip(i as int).drop_first() =~= b@.skip(i + 1));
        i = i + 1;
    }
}

/// Whether node `x` comes no later than node `y`.
fn node_le(ids: &Vec<String>, x: usize, y: usize) -> (r: bool)
    requires
        x < ids@.len(),
        y < ids@.len(),
    ensures
        r == node_leq(layer_view(ids@))(x, y),
{
    let ghost v = layer_view(ids@);
    assert(v[x as int] == ids@[x as int]@);
    assert(v[y as int] == ids@[y as int]@);
    id_less(&ids[x], &ids[y]) || (ids[x] == ids[y] && x <= y)
}

proof fn lemma_swap_multiset(s: Seq<usize>, i: int, j: int)
    requires
        0 <= i < j < s.len(),
    ensures
        s.update(i, s[j]).update(j, s[i]).to_multiset() == s.to_multiset(),
{
    broadcast use vstd::seq_lib::group_to_multiset_ensures;
    let u = s.update(i, s[j]);
    assert(u[j] == s[j]);
    assert(u.to_multiset() == s.to_multiset().insert(s[j]).remove(s[i]));
    assert(u.update(j, s[i]).to_multiset() == u.to_multiset().insert(s[i]).remove(s[j]));
    assert(s.contains(s[i]));
    assert(s.to_multiset().count(s[i]) > 0);
    assert(u.update(j, s[i]).to_multiset() =~= s.to_multiset());
}

/// Sorts nodes by id, equal ids by index.
fn sort_nodes(v: &mut Vec<usize>, ids: &Vec<String>)
    requires
        forall|i: int| 0 <= i < old(v)@.len() ==> (#[trigger] old(v)@[i] as int) < ids@.len(),
    ensures
        final(v)@ == old(v)@.sort_by(node_leq(layer_view(ids@))),
{
    let ghost orig = v@;
    let ghost leq = node_leq(layer_view(ids@));
    let n = v.len();
    let mut i: usize = 1;
    while i < n
        invariant
            n == v@.len(),
            leq == node_leq(layer_view(ids@)),
            v@.to_multiset() == orig.to_multiset(),
            forall|k: int| 0 <= k < n ==> (#[trigger] v@[k] as int) < ids@.len(),
            n == 0 || 1 <= i <= n,
            forall|a: int, b: int| 0 <= a < b < i && b < n ==> leq(v@[a], v@[b]),
        decreases n - i,
    {
        let mut j = i;
        while j > 0 && !node_le(ids, v[j - 1], v[j])
            invariant
                0 <= j <= i < n,
                n == v@.len(),
                leq == node_leq(layer_view(ids@)),
                v@.to_multiset() == orig.to_multiset(),
                forall|k: int| 0 <= k < n ==> (#[trigger] v@[k] as int) < ids@.len(),
                forall|a: int, b: int| 0 <= a < b <= i && a != j && b != j ==> leq(v@[a], v@[b]),
                forall|a: int, b: int| 0 <= a < j && j < b <= i ==> leq(v@[a], v@[b]),
                forall|b: int| j < b <= i ==> leq(v@[j as int], v@[b]),
            decreases j,
        {
            let x = v[j - 1];
            let y = v[j];
            let ghost before = v@;
            v.set(j - 1, y);
            v.set(j, x);
            proof {
                assert(v@ =~= before.update(j - 1, y).update(j as int, x));
                lemma_swap_multiset(before, j - 1, j as int);
                lemma_node_leq_total(layer_view(ids@));
            }
            j = j - 1;
        }
        proof {
            lemma_node_leq_total(layer_view(ids@));
        }
        i = i + 1;
    }
    proof {
        lemma_node_leq_total(layer_view(ids@));
        assert(sorted_by(v@, leq));
        orig.lemma_sort_by_ensures(leq);
        vstd::seq_lib::lemma_sorted_unique(v@, orig.sort_by(leq), leq);
    }
}

/// Position of `x` in `keys`.
fn key_pos(keys: &Vec<usize>, x: usize) -> (r: Option<usize>)
    ensures
        match r {
            Some(p) => p < keys@.len() && keys@[p as int] == x,
            None => !keys@.contains(x),
        },
{
    let mut i: usize = 0;
    while i < keys.len()
        invariant
            i <= keys@.len(),
            forall|j: int| 0 <= j < i ==> keys@[j] != x,
        decreases keys@.len() - i,
    {
        if keys[i] == x {
            return Some(i);
        }
        i = i + 1;
    }
    None
}

fn copy_nodes(v: &Vec<usize>) -> (c: Vec<usize>)
    ensures
        c@ == v@,
{
    let mut c: Vec<usize> = Vec::new();
    let mut i: usize = 0;
    while i < v.len()
        invariant
            i <= v@.len(),
            c@ == v@.take(i as int),
        decreases v@.len() - i,
    {
        c.push(v[i]);
        assert(c@ =~= v@.take(i + 1));
        i = i + 1;
    }
    assert(v@.take(v@.len() as int) =~= v@);
    c
}

proof fn lemma_layer_nodes_bound(layers: Seq<usize>, l: usize, k: int)
    requires
        0 <= k <= layers.len(),
    ensures
        forall|i: int| 0 <= i < layer_nodes(layers, l, k).len() ==> (#[trigger] layer_nodes(layers, l, k)[i] as int) < k,
    decreases k,
{
    if k > 0 {
        lemma_layer_nodes_bound(layers, l, k - 1);
        let r = layer_nodes(layers, l, k - 1);
        if layers[k - 1] == l {
            assert forall|i: int| 0 <= i < r.push((k - 1) as usize).len() implies (#[trigger] r.push((k - 1) as usize)[i] as int) < k by {
                if i < r.len() {
                    assert(r.push((k - 1) as usize)[i] == r[i]);
                }
            }
        }
    }
}

/// The nodes of each layer: node `v` is on layer `layers[v]`, and each
/// layer used lists its nodes in ascending order of id, equal ids by node
/// index.
pub fn build_layer_index(layers: &Vec<usize>, ids: &Vec<String>) -> (index: HashMap<usize, Vec<usize>>)
    requires
        layers@.len() == ids@.len(),
    ensures
        forall|l: usize| #[trigger] index@.contains_key(l) <==> layer_used(layers@, l, layers@.len() as int),
        forall|l: usize| #[trigger] index@.contains_key(l) ==> index@[l]@ == layer_nodes(layers@, l, layers@.len() as int).sort_by(
            node_leq(layer_view(ids@)),
        ),
        forall|l: usize, x: usize| #[trigger] index@.contains_key(l) ==> (#[trigger] index@[l]@.contains(x)
            <==> ((x as int) < layers@.len() && layers@[x as int] == l)),
        forall|l: usize| #[trigger] index@.contains_key(l) ==> sorted_by(index@[l]@, node_leq(layer_view(ids@))),
{
    let n = layers.len();
    let mut keys: Vec<usize> = Vec::new();
    let mut buckets: Vec<Vec<usize>> = Vec::new();
    let mut v: usize = 0;
    while v < n
        invariant
            v <= n,
            n == layers@.len(),
            keys@.len() == buckets@.len(),
            keys@.no_duplicates(),
            forall|p: int| 0 <= p < keys@.len() ==> (#[trigger] buckets@[p])@ == layer_nodes(layers@, keys@[p], v as int),
            forall|l: usize| #[trigger] layer_used(layers@, l, v as int) <==> keys@.contains(l),
        decreases n - v,
    {
        let l = layers[v];
        let ghost kb = keys@;
        let ghost bb = buckets@;
        match key_pos(&keys, l) {
            Some(p) => {
                let mut b = copy_nodes(&buckets[p]);
                b.push(v);
                buckets.set(p, b);
            },
            None => {
                keys.push(l);
                let mut b: Vec<usize> = Vec::new();
                b.push(v);
                buckets.push(b);
                assert(layer_nodes(layers@, l, v as int) =~= Seq::<usize>::empty()) by {
                    lemma_layer_nodes_empty(layers@, l, v as int);
                }
                assert forall|a: int, c: int| 0 <= a < c < keys@.len() implies keys@[a] != keys@[c] by {
                    if c == kb.len() {
                        assert(kb.contains(keys@[a]));
                    }
                }
            },
        }
        proof {
            assert forall|p: int| 0 <= p < keys@.len() implies (#[trigger] buckets@[p])@ == layer_nodes(layers@, keys@[p], v + 1) by {
                if p < kb.len() && kb[p] != l {
                    assert(buckets@[p] == bb[p]);
                }
            }
            assert forall|x: usize| #[trigger] layer_used(layers@, x, v + 1) <==> keys@.contains(x) by {
                lemma_used_step(layers@, x, v as int);
                lemma_push_contains(kb, l, x);
                if kb.contains(l) {
                    assert(keys@ == kb);
                } else {
                    assert(keys@ == kb.push(l));
                }
                assert(layer_used(layers@, x, v as int) <==> kb.contains(x));
            }
        }
        v = v + 1;
    }
    let mut index: HashMap<usize, Vec<usize>> = HashMap::new();
    let mut p: usize = 0;
    while p < keys.len()
        invariant
            p <= keys@.len(),
            n == layers@.len(),
            layers@.len() == ids@.len(),
            keys@.len() == buckets@.len(),
            keys@.no_duplicates(),
            forall|q: int| 0 <= q < keys@.len() ==> (#[trigger] buckets@[q])@ == layer_nodes(layers@, keys@[q], n as int),
            forall|l: usize| #[trigger] index@.contains_key(l) <==> keys@.take(p as int).contains(l),
            forall|l: usize| #[trigger] index@.contains_key(l) ==> index@[l]@ == layer_nodes(layers@, l, n as int).sort_by(
                node_leq(layer_view(ids@)),
            ),
            forall|l: usize, x: usize| #[trigger] index@.contains_key(l) ==> (#[trigger] index@[l]@.contains(x)
                <==> ((x as int) < n && layers@[x as int] == l)),
            forall|l: usize| #[trigger] index@.contains_key(l) ==> sorted_by(index@[l]@, node_leq(layer_view(ids@))),
        decreases keys@.len() - p,
    {
        let l = keys[p];
        let mut b = copy_nodes(&buckets[p]);
        proof {
            lemma_layer_nodes_bound(layers@, l, n as int);
        }
        sort_nodes(&mut b, ids);
        proof {
            broadcast use vstd::seq_lib::group_to_multiset_ensures;
            let ln = layer_nodes(layers@, l, n as int);
            lemma_node_leq_total(layer_view(ids@));
            ln.lemma_sort_by_ensures(node_leq(layer_view(ids@)));
            assert forall|x: usize| #[trigger] b@.contains(x) <==> ((x as int) < n && layers@[x as int] == l) by {
                lemma_layer_nodes_contains(layers@, l, n as int, x);
                assert(b@.to_multiset().count(x) == ln.to_multiset().count(x));
                assert(b@.contains(x) <==> b@.to_multiset().contains(x));
                assert(ln.contains(x) <==> ln.to_multiset().contains(x));
            }
        }
        let ghost before = index@;
        index.insert(l, b);
        proof {
            let t0 = keys@.take(p as int);
            let t1 = keys@.take(p + 1);
            assert forall|x: usize| #[trigger] index@.contains_key(x) <==> t1.contains(x) by {
                if t1.contains(x) && x != l {
                    let q = choose|q: int| 0 <= q < t1.len() && t1[q] == x;
                    assert(t0[q] == x);
                }
                if t0.contains(x) {
                    let q = choose|q: int| 0 <= q < t0.len() && t0[q] == x;
                    assert(t1[q] == x);
                }
                if x == l {
                    assert(t1[p as int] == l);
                }
            }
        }
        p = p + 1;
    }
    proof {
        assert(keys@.take(keys@.len() as int) =~= keys@);
    }
    index
}

pub(crate) proof fn lemma_layer_nodes_contains(layers: Seq<usize>, l: usize, k: int, x: usize)
    requires
        0 <= k <= layers.len(),
        layers.len() <= usize::MAX,
    ensures
        layer_nodes(layers, l, k).contains(x) <==> ((x as int) < k && layers[x as int] == l),
    decreases k,
{
    if k > 0 {
        lemma_layer_nodes_contains(layers, l, k - 1, x);
        let r = layer_nodes(layers, l, k - 1);
        lemma_push_contains(r, (k - 1) as usize, x);
    }
}

proof fn lemma_used_step(layers: Seq<usize>, x: usize, v: int)
    requires
        0 <= v < layers.len(),
    ensures
        layer_used(layers, x, v + 1) <==> (layer_used(layers, x, v) || layers[v] == x),
{
    if layer_used(layers, x, v + 1) && layers[v] != x {
        let w = choose|w: int| 0 <= w < v + 1 && #[trigger] layers[w] == x;
        assert(w < v);
    }
}

proof fn lemma_push_contains(s: Seq<usize>, l: usize, x: usize)
    ensures
        s.push(l).contains(x) <==> (s.contains(x) || x == l),
{
    if s.push(l).contains(x) && x != l {
        let q = choose|q: int| 0 <= q < s.push(l).len() && s.push(l)[q] == x;
        assert(s[q] == x);
    }
    if s.contains(x) {
        let q = choose|q: int| 0 <= q < s.len() && s[q] == x;
        assert(s.push(l)[q] == x);
    }
    if x == l {
        assert(s.push(l)[s.len() as int] == l);
    }
}

proof fn lemma_layer_nodes_empty(layers: Seq<usize>, l: usize, k: int)
    requires
        0 <= k <= layers.len(),
        !layer_used(layers, l, k),
    ensures
        layer_nodes(layers, l, k) == Seq::<usize>::empty(),
    decreases k,
{
    if k > 0 {
        assert(layers[k - 1] != l);
        assert(!layer_used(layers, l, k - 1));
        lemma_layer_nodes_empty(layers, l, k - 1);
    }
}

} // verus!
