//! Crossing reduction of the layered layout: layers held by layer number
//! are swept down and up, each layer sorted by the barycenter of its
//! neighbours in the layer before it.

use vstd::prelude::*;

use std::collections::HashMap;
use vstd::std_specs::iter::IteratorSpec;

use petgraph::graph::DiGraph;

use super::crossing::{key_at, key_le, lemma_key_le_total, sort_positions, sorted_positions};
use super::longest_path::{feedback_flags, feedback_flags_of};
use super::solver::directed::sgraph_edges;
use super::sugiyama::{first_pos_from, position_in};
use super::work_graph::sgraph_edge_list;

verus! {

broadcast use vstd::std_specs::hash::group_hash_axioms;

// ---------------------------------------------------------------------------
// Model
// ---------------------------------------------------------------------------

/// Sum and number of the positions in `other` of the neighbours of `x`
/// along edges that are not feedback arcs: sources of edges into `x` when
/// sweeping down, targets of edges out of `x` when sweeping up. A
/// neighbour counts at its first position, and once per edge; neighbours
/// outside `other` do not count.
pub open spec fn nb_stats(
    es: Seq<(usize, usize)>,
    fas: Seq<(usize, usize)>,
    other: Seq<usize>,
    x: usize,
    down: bool,
) -> (int, int)
    decreases es.len(),
{
    if es.len() == 0 {
        (0, 0)
    } else {
        let r = nb_stats(es.drop_last(), fas, other, x, down);
        let e = es.last();
        let (me, peer) = if down { (e.1, e.0) } else { (e.0, e.1) };
        let pos = first_pos_from(other, peer, 0);
        if me == x && !fas.contains(e) && pos >= 0 { (r.0 + pos, r.1 + 1) } else { r }
    }
}

/// Sort key of position `p`: the barycenter as a fraction, or the first
/// position of the node itself when it has no neighbour; ties keep the
/// current order.
pub open spec fn bary_key(
    es: Seq<(usize, usize)>,
    fas: Seq<(usize, usize)>,
    layer: Seq<usize>,
    other: Seq<usize>,
    down: bool,
    p: int,
) -> (int, int, int) {
    let st = nb_stats(es, fas, other, layer[p], down);
    if st.1 > 0 { (st.0, st.1, p) } else { (first_pos_from(layer, layer[p], 0), 1, p) }
}

/// The layer sorted by barycenter (a stable sort).
pub open spec fn bary_order(
    es: Seq<(usize, usize)>,
    fas: Seq<(usize, usize)>,
    layer: Seq<usize>,
    other: Seq<usize>,
    down: bool,
) -> Seq<usize> {
    let keys = Seq::new(layer.len(), |p: int| bary_key(es, fas, layer, other, down, p));
    sorted_positions(keys).map_values(|p: int| layer[p])
}

/// Layer `l` sorted against layer `o`, when both exist.
pub open spec fn sweep_layer(
    cur: Map<usize, Seq<usize>>,
    es: Seq<(usize, usize)>,
    fas: Seq<(usize, usize)>,
    l: usize,
    o: usize,
    down: bool,
) -> Map<usize, Seq<usize>> {
    if cur.contains_key(o) && cur.contains_key(l) {
        cur.insert(l, bary_order(es, fas, cur[l], cur[o], down))
    } else {
        cur
    }
}

/// Sweeping down over layers `l..=hi`, each sorted against the one above.
pub open spec fn sweep_down(cur: Map<usize, Seq<usize>>, es: Seq<(usize, usize)>, fas: Seq<(usize, usize)>, l: int, hi: int) -> Map<usize, Seq<usize>>
    decreases hi + 1 - l,
{
    if l > hi || l < 1 {
        cur
    } else {
        sweep_down(sweep_layer(cur, es, fas, l as usize, (l - 1) as usize, true), es, fas, l + 1, hi)
    }
}

/// Sweeping up over layers `l` down to 0, each sorted against the one below.
pub open spec fn sweep_up(cur: Map<usize, Seq<usize>>, es: Seq<(usize, usize)>, fas: Seq<(usize, usize)>, l: int) -> Map<usize, Seq<usize>>
    decreases l + 1,
{
    if l < 0 {
        cur
    } else {
        sweep_up(sweep_layer(cur, es, fas, l as usize, (l + 1) as usize, false), es, fas, l - 1)
    }
}

/// `k` rounds of a sweep down then a sweep up, up to layer `hi`.
pub open spec fn sweep_rounds(cur: Map<usize, Seq<usize>>, es: Seq<(usize, usize)>, fas: Seq<(usize, usize)>, hi: int, k: nat) -> Map<usize, Seq<usize>>
    decreases k,
{
    if k == 0 {
        cur
    } else {
        let c = sweep_rounds(cur, es, fas, hi, (k - 1) as nat);
        sweep_up(sweep_down(c, es, fas, 1, hi), es, fas, hi - 1)
    }
}

/// The layers as sequences.
pub open spec fn layers_of(m: Map<usize, Vec<usize>>) -> Map<usize, Seq<usize>> {
    Map::new(|l: usize| m.contains_key(l), |l: usize| m[l]@)
}

/// The highest layer number, 0 without layers.
pub open spec fn top_of(d: Set<usize>) -> int {
    if exists|l: usize| d.contains(l) {
        (choose|h: usize| d.contains(h) && forall|l: usize| d.contains(l) ==> l <= h) as int
    } else {
        0
    }
}

/// The crossing reduction of layers held as sequences: `iterations` rounds
/// over the layers `0..=top`.
pub open spec fn spec_order_layers(
    es: Seq<(usize, usize)>,
    fas: Seq<(usize, usize)>,
    lm: Map<usize, Seq<usize>>,
    iterations: nat,
) -> Map<usize, Seq<usize>> {
    sweep_rounds(lm, es, fas, top_of(lm.dom()), iterations)
}

/// The crossing reduction of a layer map.
pub open spec fn spec_reduce_crossings(
    es: Seq<(usize, usize)>,
    fas: Seq<(usize, usize)>,
    m: Map<usize, Vec<usize>>,
    iterations: nat,
) -> Map<usize, Seq<usize>> {
    spec_order_layers(es, fas, layers_of(m), iterations)
}

// ---------------------------------------------------------------------------
// Pieces
// ---------------------------------------------------------------------------

/// The highest layer number (0 without layers).
fn top_layer(m: &HashMap<usize, Vec<usize>>) -> (hi: usize)
    ensures
        forall|l: usize| m@.contains_key(l) ==> l <= hi,
        (exists|l: usize| m@.contains_key(l)) ==> m@.contains_key(hi),
        !(exists|l: usize| m@.contains_key(l)) ==> hi == 0,
{
    let mut hi: usize = 0;
    let mut found = false;
    let ghost ks: Seq<usize> = vstd::std_specs::hash::spec_keys_iter(m).remaining().unref();
    let ghost mut cnt: int = 0;
    for k in it: m.keys()
        invariant
            ks == it.seq().unref(),
            cnt == it.index(),
            forall|i: int| 0 <= i < cnt ==> ks[i] <= hi,
            found ==> exists|i: int| 0 <= i < cnt && ks[i] == hi,
            !found ==> hi == 0 && cnt == 0,
    {
        if !found || *k > hi {
            hi = *k;
            found = true;
        }
        proof {
            cnt = cnt + 1;
        }
    }
    proof {
        assert(cnt == ks.len());
        assert(ks.to_set() == m@.dom());
    }
    hi
}

proof fn lemma_position_sum_step(sum: int, cnt: int, pos: int, k: int)
    requires
        0 <= sum <= cnt * 0xffff_ffff_ffff_ffff,
        0 <= cnt <= k,
        0 <= pos <= usize::MAX,
        0 <= k < usize::MAX,
    ensures
        sum + pos <= (cnt + 1) * 0xffff_ffff_ffff_ffff,
        (cnt + 1) * 0xffff_ffff_ffff_ffff < 0x1_0000_0000_0000_0000_0000_0000_0000_0000,
{
    assert(usize::MAX <= 0xffff_ffff_ffff_ffff);
    assert((cnt + 1) * 0xffff_ffff_ffff_ffff == cnt * 0xffff_ffff_ffff_ffff + 0xffff_ffff_ffff_ffff) by (nonlinear_arith);
    assert((cnt + 1) * 0xffff_ffff_ffff_ffff <= 0xffff_ffff_ffff_ffff * 0xffff_ffff_ffff_ffff) by (nonlinear_arith)
        requires
            0 <= cnt + 1 <= 0xffff_ffff_ffff_ffff,
    ;
}

/// Sum and number of the positions of the neighbours of `x` (see
/// [`nb_stats`]).
fn neighbour_positions(
    edges: &Vec<(usize, usize)>,
    flags: &Vec<bool>,
    other: &Vec<usize>,
    x: usize,
    down: bool,
    Ghost(fas): Ghost<Seq<(usize, usize)>>,
) -> (r: (u128, u128))
    requires
        flags@ == feedback_flags(edges@, fas),
    ensures
        r.0 as int == nb_stats(edges@, fas, other@, x, down).0,
        r.1 as int == nb_stats(edges@, fas, other@, x, down).1,
        r.1 <= edges@.len(),
{
    let ghost es = edges@;
    let mut sum: u128 = 0;
    let mut cnt: u128 = 0;
    let mut k: usize = 0;
    while k < edges.len()
        invariant
            k <= edges@.len(),
            es == edges@,
            flags@ == feedback_flags(es, fas),
            sum as int == nb_stats(es.take(k as int), fas, other@, x, down).0,
            cnt as int == nb_stats(es.take(k as int), fas, other@, x, down).1,
            cnt <= k,
            sum <= cnt * 0xffff_ffff_ffff_ffff,
        decreases edges@.len() - k,
    {
        proof {
            assert(es.take(k + 1).drop_last() =~= es.take(k as int));
            assert(es.take(k + 1).last() == es[k as int]);
        }
        let (a, b) = edges[k];
        let (me, peer) = if down { (b, a) } else { (a, b) };
        if me == x && !flags[k] {
            match position_in(other, peer) {
                Some(pos) => {
                    proof {
                        lemma_position_sum_step(sum as int, cnt as int, pos as int, k as int);
                    }
                    sum = sum + pos as u128;
                    cnt = cnt + 1;
                },
                None => {},
            }
        }
        k = k + 1;
    }
    proof {
        assert(es.take(es.len() as int) =~= es);
    }
    (sum, cnt)
}

/// One layer sorted by the barycenter of its neighbours in `other`.
fn reorder_layer(
    edges: &Vec<(usize, usize)>,
    flags: &Vec<bool>,
    layer: &Vec<usize>,
    other: &Vec<usize>,
    down: bool,
    Ghost(fas): Ghost<Seq<(usize, usize)>>,
) -> (r: Vec<usize>)
    requires
        flags@ == feedback_flags(edges@, fas),
    ensures
        r@ == bary_order(edges@, fas, layer@, other@, down),
        r@.len() == layer@.len(),
{
    let n = layer.len();
    let ne = edges.len();
    assert(usize::MAX <= 0xffff_ffff_ffff_ffff);
    let ghost gk = Seq::new(layer@.len(), |p: int| bary_key(edges@, fas, layer@, other@, down, p));
    let mut keys: Vec<(u128, u128, usize)> = Vec::new();
    let mut p: usize = 0;
    while p < n
        invariant
            p <= n,
            n == layer@.len(),
            ne == edges@.len(),
            usize::MAX <= 0xffff_ffff_ffff_ffff,
            gk == Seq::new(layer@.len(), |p: int| bary_key(edges@, fas, layer@, other@, down, p)),
            flags@ == feedback_flags(edges@, fas),
            keys@.len() == p,
            forall|q: int| 0 <= q < p ==> 1 <= (#[trigger] keys@[q]).1 <= 0xffff_ffff_ffff_ffff,
            forall|q: int| 0 <= q < p ==> #[trigger] key_at(gk, q) == (keys@[q].0 as int, keys@[q].1 as int, keys@[q].2 as int),
        decreases n - p,
    {
        let (sum, cnt) = neighbour_positions(edges, flags, other, layer[p], down, Ghost(fas));
        let key = if cnt > 0 {
            (sum, cnt, p)
        } else {
            let own = match position_in(layer, layer[p]) {
                Some(i) => i,
                None => p,
            };
            proof {
                assert(layer@.contains(layer@[p as int]));
            }
            (own as u128, 1u128, p)
        };
        keys.push(key);
        proof {
            assert(gk[p as int] == bary_key(edges@, fas, layer@, other@, down, p as int));
        }
        p = p + 1;
    }
    let perm = sort_positions::<usize>(&keys, Ghost(gk), Ghost(layer@));
    let mut r: Vec<usize> = Vec::new();
    let mut m: usize = 0;
    while m < n
        invariant
            m <= n,
            n == layer@.len(),
            perm@.len() == n,
            forall|q: int| 0 <= q < n ==> #[trigger] perm@[q] < n,
            r@.len() == m,
            forall|q: int| 0 <= q < m ==> #[trigger] r@[q] == layer@[perm@[q] as int],
        decreases n - m,
    {
        r.push(layer[perm[m]]);
        m = m + 1;
    }
    proof {
        assert(r@ =~= sorted_positions(gk).map_values(|p: int| layer@[p]));
    }
    r
}

/// The highest layer number found by [`top_layer`] is [`top_of`].
proof fn lemma_top(m: Map<usize, Vec<usize>>, hi: usize)
    requires
        forall|l: usize| m.contains_key(l) ==> l <= hi,
        (exists|l: usize| m.contains_key(l)) ==> m.contains_key(hi),
        !(exists|l: usize| m.contains_key(l)) ==> hi == 0,
    ensures
        hi as int == top_of(layers_of(m).dom()),
{
    let d = layers_of(m).dom();
    assert(d =~= m.dom());
    if exists|l: usize| d.contains(l) {
        let h = choose|h: usize| d.contains(h) && forall|l: usize| d.contains(l) ==> l <= h;
        assert(m.contains_key(h));
        assert(h <= hi);
        assert(m.contains_key(hi));
        assert(hi <= h);
    } else {
        if exists|l: usize| m.contains_key(l) {
            let l = choose|l: usize| m.contains_key(l);
            assert(d.contains(l));
        }
    }
}

/// Copies of the layers, with the same layer numbers.
fn copy_layers(m: &HashMap<usize, Vec<usize>>, hi: usize) -> (c: HashMap<usize, Vec<usize>>)
    requires
        forall|l: usize| m@.contains_key(l) ==> l <= hi,
    ensures
        layers_of(c@) == layers_of(m@),
{
    let mut c: HashMap<usize, Vec<usize>> = HashMap::new();
    let mut l: usize = 0;
    loop
        invariant_except_break
            forall|x: usize| #[trigger] c@.contains_key(x) <==> (m@.contains_key(x) && x < l),
        invariant
            l <= hi,
            forall|x: usize| m@.contains_key(x) ==> x <= hi,
            forall|x: usize| #[trigger] c@.contains_key(x) ==> c@[x]@ == m@[x]@,
        ensures
            forall|x: usize| #[trigger] c@.contains_key(x) <==> m@.contains_key(x),
            forall|x: usize| #[trigger] c@.contains_key(x) ==> c@[x]@ == m@[x]@,
        decreases hi - l,
    {
        match m.get(&l) {
            Some(v) => {
                let mut w: Vec<usize> = Vec::new();
                let mut i: usize = 0;
                while i < v.len()
                    invariant
                        i <= v@.len(),
                        w@ == v@.take(i as int),
                    decreases v@.len() - i,
                {
                    w.push(v[i]);
                    proof {
                        assert(v@.take(i + 1) =~= v@.take(i as int).push(v@[i as int]));
                    }
                    i = i + 1;
                }
                proof {
                    assert(v@.take(v@.len() as int) =~= v@);
                }
                c.insert(l, w);
            },
            None => {},
        }
        if l == hi {
            break;
        }
        l = l + 1;
    }
    assert(layers_of(c@) =~= layers_of(m@));
    c
}

/// Layer `l` sorted against layer `o`, when both exist.
fn sweep_step(
    cur: &mut HashMap<usize, Vec<usize>>,
    edges: &Vec<(usize, usize)>,
    flags: &Vec<bool>,
    l: usize,
    o: usize,
    down: bool,
    Ghost(fas): Ghost<Seq<(usize, usize)>>,
)
    requires
        flags@ == feedback_flags(edges@, fas),
    ensures
        layers_of(final(cur)@) == sweep_layer(layers_of(old(cur)@), edges@, fas, l, o, down),
{
    let ghost c0 = layers_of(cur@);
    let next = match (cur.get(&o), cur.get(&l)) {
        (Some(other), Some(layer)) => Some(reorder_layer(edges, flags, layer, other, down, Ghost(fas))),
        _ => None,
    };
    match next {
        Some(r) => {
            cur.insert(l, r);
            proof {
                assert(layers_of(cur@) =~= c0.insert(l, r@));
            }
        },
        None => {},
    }
}

// ---------------------------------------------------------------------------
// Crossing reduction
// ---------------------------------------------------------------------------

/// Crossing reduction by barycenters. Each of `crossing_iterations`
/// rounds sweeps down over the layers `1..=top`, sorting each layer by the
/// barycenter of the positions of its predecessors in the layer above,
/// then up over the layers `top - 1` down to `0`, sorting each by the
/// positions of its successors in the layer below. Feedback arcs are left
/// out; a node without neighbours keeps its own position as its value; the
/// sort is stable; a layer whose neighbouring layer is missing stays as it
/// is. Barycenters are compared exactly, as fractions.
pub fn reduce_crossings(
    graph: &DiGraph<String, ()>,
    layer_nodes: &HashMap<usize, Vec<usize>>,
    feedback_arcs: &Vec<(usize, usize)>,
    crossing_iterations: usize,
) -> (ordered: HashMap<usize, Vec<usize>>)
    ensures
        layers_of(ordered@) == spec_reduce_crossings(
            sgraph_edges(*graph),
            feedback_arcs@,
            layer_nodes@,
            crossing_iterations as nat,
        ),
        crossing_iterations > 0 ==> forall|j: usize|
            #![trigger ordered@[j]]
            j < usize::MAX && ordered@.contains_key(j) && ordered@.contains_key((j + 1) as usize) ==> sorted_by_successors(
                sgraph_edges(*graph),
                feedback_arcs@,
                ordered@[j]@,
                ordered@[(j + 1) as usize]@,
            ),
{
    let edges = sgraph_edge_list(graph);
    let ghost es = edges@;
    let ghost fas = feedback_arcs@;
    let flags = feedback_flags_of(&edges, feedback_arcs);
    let hi = top_layer(layer_nodes);
    proof {
        lemma_top(layer_nodes@, hi);
    }
    let mut ordered = copy_layers(layer_nodes, hi);
    let ghost start = layers_of(layer_nodes@);
    let mut it: usize = 0;
    while it < crossing_iterations
        invariant
            it <= crossing_iterations,
            es == edges@,
            flags@ == feedback_flags(es, fas),
            layers_of(ordered@) == sweep_rounds(start, es, fas, hi as int, it as nat),
        decreases crossing_iterations - it,
    {
        let ghost c0 = layers_of(ordered@);
        let mut l: usize = 1;
        while l < hi
            invariant
                1 <= l,
                hi >= 1 ==> l <= hi,
                es == edges@,
                flags@ == feedback_flags(es, fas),
                sweep_down(layers_of(ordered@), es, fas, l as int, hi as int) == sweep_down(c0, es, fas, 1, hi as int),
            decreases hi - l,
        {
            sweep_step(&mut ordered, &edges, &flags, l, l - 1, true, Ghost(fas));
            l = l + 1;
        }
        let ghost cb = layers_of(ordered@);
        if hi >= 1 {
            sweep_step(&mut ordered, &edges, &flags, hi, hi - 1, true, Ghost(fas));
            proof {
                let c2 = sweep_layer(cb, es, fas, hi, (hi - 1) as usize, true);
                assert(sweep_down(cb, es, fas, hi as int, hi as int) == sweep_down(c2, es, fas, hi + 1, hi as int));
                assert(sweep_down(c2, es, fas, hi + 1, hi as int) == c2);
            }
        } else {
            proof {
                assert(sweep_down(cb, es, fas, 1, hi as int) == cb);
                assert(sweep_down(c0, es, fas, 1, hi as int) == c0);
            }
        }
        let ghost c1 = layers_of(ordered@);
        proof {
            assert(c1 == sweep_down(c0, es, fas, 1, hi as int));
        }
        let mut u: usize = hi;
        while u > 0
            invariant
                u <= hi,
                es == edges@,
                flags@ == feedback_flags(es, fas),
                sweep_up(layers_of(ordered@), es, fas, u - 1) == sweep_up(c1, es, fas, hi - 1),
            decreases u,
        {
            u = u - 1;
            sweep_step(&mut ordered, &edges, &flags, u, u + 1, false, Ghost(fas));
        }
        it = it + 1;
    }
    proof {
        if crossing_iterations > 0 {
            let lm = layers_of(ordered@);
            let c = sweep_rounds(start, es, fas, hi as int, (crossing_iterations - 1) as nat);
            let d = sweep_down(c, es, fas, 1, hi as int);
            assert(lm == sweep_up(d, es, fas, hi - 1));
            lemma_rounds_same(start, es, fas, hi as int, crossing_iterations as nat);
            assert forall|j: usize|
                #![trigger ordered@[j]]
                j < usize::MAX && ordered@.contains_key(j) && ordered@.contains_key((j + 1) as usize) implies sorted_by_successors(
                    es,
                    fas,
                    ordered@[j]@,
                    ordered@[(j + 1) as usize]@,
                ) by {
                assert(lm.contains_key(j) && lm.contains_key((j + 1) as usize));
                assert(start.contains_key((j + 1) as usize));
                assert(layer_nodes@.contains_key((j + 1) as usize));
                assert(j + 1 <= hi);
                lemma_sweep_up_sorts_by_successors(d, es, fas, hi - 1, j);
                assert(lm[j] == ordered@[j]@);
                assert(lm[(j + 1) as usize] == ordered@[(j + 1) as usize]@);
            }
        }
    }
    ordered
}

// ---------------------------------------------------------------------------
// Law
// ---------------------------------------------------------------------------

/// The same layer numbers, each layer with the same length and the same
/// nodes.
pub open spec fn same_nodes(a: Map<usize, Seq<usize>>, b: Map<usize, Seq<usize>>) -> bool {
    &&& forall|l: usize| #[trigger] a.contains_key(l) <==> b.contains_key(l)
    &&& forall|l: usize| #[trigger] a.contains_key(l) ==> a[l].len() == b[l].len()
    &&& forall|l: usize, x: usize| #[trigger] a.contains_key(l) ==> (#[trigger] a[l].contains(x) <==> b[l].contains(x))
}

proof fn lemma_bary_order_same(
    es: Seq<(usize, usize)>,
    fas: Seq<(usize, usize)>,
    layer: Seq<usize>,
    other: Seq<usize>,
    down: bool,
)
    ensures
        bary_order(es, fas, layer, other, down).len() == layer.len(),
        forall|x: usize| #[trigger] bary_order(es, fas, layer, other, down).contains(x) <==> layer.contains(x),
{
    broadcast use vstd::seq_lib::group_to_multiset_ensures;
    let n = layer.len();
    let keys = Seq::new(n, |p: int| bary_key(es, fas, layer, other, down, p));
    let leq = |a: int, b: int| key_le(keys, a, b);
    lemma_key_le_total(keys);
    let base = Seq::new(n, |i: int| i);
    base.lemma_sort_by_ensures(leq);
    let sp = sorted_positions(keys);
    assert(sp == base.sort_by(leq));
    assert(sp.len() == n) by {
        assert(sp.to_multiset().len() == base.to_multiset().len());
    }
    assert forall|i: int| 0 <= i < n implies 0 <= #[trigger] sp[i] < n by {
        assert(sp.contains(sp[i]));
        assert(sp.to_multiset().count(sp[i]) > 0);
        assert(base.to_multiset().count(sp[i]) > 0);
        assert(base.contains(sp[i]));
    }
    let r = bary_order(es, fas, layer, other, down);
    assert forall|x: usize| #[trigger] r.contains(x) <==> layer.contains(x) by {
        if r.contains(x) {
            let i = choose|i: int| 0 <= i < r.len() && r[i] == x;
            assert(layer[sp[i]] == x);
        }
        if layer.contains(x) {
            let j = choose|j: int| 0 <= j < n && layer[j] == x;
            assert(base[j] == j);
            assert(base.contains(j));
            assert(base.to_multiset().count(j) > 0);
            assert(sp.to_multiset().count(j) > 0);
            assert(sp.contains(j));
            let i = choose|i: int| 0 <= i < sp.len() && sp[i] == j;
            assert(r[i] == x);
        }
    }
}

proof fn lemma_sweep_layer_same(
    cur: Map<usize, Seq<usize>>,
    es: Seq<(usize, usize)>,
    fas: Seq<(usize, usize)>,
    l: usize,
    o: usize,
    down: bool,
)
    ensures
        same_nodes(sweep_layer(cur, es, fas, l, o, down), cur),
{
    if cur.contains_key(o) && cur.contains_key(l) {
        lemma_bary_order_same(es, fas, cur[l], cur[o], down);
    }
}

proof fn lemma_same_trans(a: Map<usize, Seq<usize>>, b: Map<usize, Seq<usize>>, c: Map<usize, Seq<usize>>)
    requires
        same_nodes(a, b),
        same_nodes(b, c),
    ensures
        same_nodes(a, c),
{
    assert forall|l: usize, x: usize| #[trigger] a.contains_key(l) implies (#[trigger] a[l].contains(x) <==> c[l].contains(x)) by {
        assert(a[l].contains(x) <==> b[l].contains(x));
        assert(b.contains_key(l));
        assert(b[l].contains(x) <==> c[l].contains(x));
    }
}

proof fn lemma_sweep_down_same(cur: Map<usize, Seq<usize>>, es: Seq<(usize, usize)>, fas: Seq<(usize, usize)>, l: int, hi: int)
    ensures
        same_nodes(sweep_down(cur, es, fas, l, hi), cur),
    decreases hi + 1 - l,
{
    if !(l > hi || l < 1) {
        let c = sweep_layer(cur, es, fas, l as usize, (l - 1) as usize, true);
        lemma_sweep_layer_same(cur, es, fas, l as usize, (l - 1) as usize, true);
        lemma_sweep_down_same(c, es, fas, l + 1, hi);
        lemma_same_trans(sweep_down(c, es, fas, l + 1, hi), c, cur);
    }
}

proof fn lemma_sweep_up_same(cur: Map<usize, Seq<usize>>, es: Seq<(usize, usize)>, fas: Seq<(usize, usize)>, l: int)
    ensures
        same_nodes(sweep_up(cur, es, fas, l), cur),
    decreases l + 1,
{
    if l >= 0 {
        let c = sweep_layer(cur, es, fas, l as usize, (l + 1) as usize, false);
        lemma_sweep_layer_same(cur, es, fas, l as usize, (l + 1) as usize, false);
        lemma_sweep_up_same(c, es, fas, l - 1);
        lemma_same_trans(sweep_up(c, es, fas, l - 1), c, cur);
    }
}

pub(crate) proof fn lemma_rounds_same(cur: Map<usize, Seq<usize>>, es: Seq<(usize, usize)>, fas: Seq<(usize, usize)>, hi: int, k: nat)
    ensures
        same_nodes(sweep_rounds(cur, es, fas, hi, k), cur),
    decreases k,
{
    if k > 0 {
        let c = sweep_rounds(cur, es, fas, hi, (k - 1) as nat);
        lemma_rounds_same(cur, es, fas, hi, (k - 1) as nat);
        let d = sweep_down(c, es, fas, 1, hi);
        lemma_sweep_down_same(c, es, fas, 1, hi);
        lemma_sweep_up_same(d, es, fas, hi - 1);
        lemma_same_trans(sweep_up(d, es, fas, hi - 1), d, c);
        lemma_same_trans(sweep_up(d, es, fas, hi - 1), c, cur);
    } else {
        assert(same_nodes(cur, cur));
    }
}

/// Crossing reduction only reorders: the same layer numbers come out, each
/// layer with its length and its nodes.
pub proof fn lemma_reduce_crossings_keeps_nodes(
    es: Seq<(usize, usize)>,
    fas: Seq<(usize, usize)>,
    m: Map<usize, Vec<usize>>,
    iterations: nat,
)
    ensures
        same_nodes(spec_reduce_crossings(es, fas, m, iterations), layers_of(m)),
{
    lemma_rounds_same(layers_of(m), es, fas, top_of(layers_of(m).dom()), iterations);
}

/// The positions in `below` of the targets of the edges out of `x` that
/// are not feedback arcs, edge by edge: a target at its first position,
/// targets outside `below` left out.
pub open spec fn successor_positions(
    es: Seq<(usize, usize)>,
    fas: Seq<(usize, usize)>,
    below: Seq<usize>,
    x: usize,
) -> Seq<int>
    decreases es.len(),
{
    if es.len() == 0 {
        Seq::empty()
    } else {
        let r = successor_positions(es.drop_last(), fas, below, x);
        let e = es.last();
        if e.0 == x && !fas.contains(e) && below.contains(e.1) { r.push(first_pos_from(below, e.1, 0)) } else { r }
    }
}

/// The sum of a sequence of integers.
pub open spec fn int_sum(s: Seq<int>) -> int
    decreases s.len(),
{
    if s.len() == 0 {
        0
    } else {
        int_sum(s.drop_last()) + s.last()
    }
}

/// Any two nodes of `layer` that have successors in `below` come in the
/// order of the mean position of their successors there (compared exactly
/// as fractions).
pub open spec fn sorted_by_successors(
    es: Seq<(usize, usize)>,
    fas: Seq<(usize, usize)>,
    layer: Seq<usize>,
    below: Seq<usize>,
) -> bool {
    forall|i: int, k: int|
        #![trigger layer[i], layer[k]]
        0 <= i < k < layer.len() && successor_positions(es, fas, below, layer[i]).len() > 0
            && successor_positions(es, fas, below, layer[k]).len() > 0 ==> int_sum(
            successor_positions(es, fas, below, layer[i]),
        ) * successor_positions(es, fas, below, layer[k]).len() <= int_sum(
            successor_positions(es, fas, below, layer[k]),
        ) * successor_positions(es, fas, below, layer[i]).len()
}

proof fn lemma_first_pos_found(s: Seq<usize>, x: usize, i: int)
    requires
        0 <= i,
        exists|j: int| i <= j < s.len() && s[j] == x,
    ensures
        first_pos_from(s, x, i) >= 0,
    decreases s.len() - i,
{
    if s[i] != x {
        let j = choose|j: int| i <= j < s.len() && s[j] == x;
        assert(j > i);
        lemma_first_pos_found(s, x, i + 1);
    }
}

proof fn lemma_first_pos_nonneg(s: Seq<usize>, x: usize, i: int)
    ensures
        first_pos_from(s, x, i) >= -1,
        first_pos_from(s, x, i) >= 0 ==> s.contains(x),
    decreases s.len() - i,
{
    if 0 <= i < s.len() && s[i] != x {
        lemma_first_pos_nonneg(s, x, i + 1);
    }
}

/// What the sweep up counts for a node is the sum and number of its
/// successors' positions.
proof fn lemma_up_stats(es: Seq<(usize, usize)>, fas: Seq<(usize, usize)>, other: Seq<usize>, x: usize)
    ensures
        nb_stats(es, fas, other, x, false) == (
            int_sum(successor_positions(es, fas, other, x)),
            successor_positions(es, fas, other, x).len() as int,
        ),
        int_sum(successor_positions(es, fas, other, x)) >= 0,
    decreases es.len(),
{
    if es.len() > 0 {
        lemma_up_stats(es.drop_last(), fas, other, x);
        let e = es.last();
        lemma_first_pos_nonneg(other, e.1, 0);
        if other.contains(e.1) {
            let j = choose|j: int| 0 <= j < other.len() && other[j] == e.1;
            lemma_first_pos_found(other, e.1, 0);
        }
        let r = successor_positions(es.drop_last(), fas, other, x);
        if e.0 == x && !fas.contains(e) && other.contains(e.1) {
            assert(r.push(first_pos_from(other, e.1, 0)).drop_last() =~= r);
        }
    }
}

/// A layer sorted for the sweep up is sorted by its successors' positions.
proof fn lemma_up_order_sorted(es: Seq<(usize, usize)>, fas: Seq<(usize, usize)>, layer: Seq<usize>, other: Seq<usize>)
    ensures
        sorted_by_successors(es, fas, bary_order(es, fas, layer, other, false), other),
{
    broadcast use vstd::seq_lib::group_to_multiset_ensures;
    let n = layer.len();
    let keys = Seq::new(n, |p: int| bary_key(es, fas, layer, other, false, p));
    let leq = |a: int, b: int| key_le(keys, a, b);
    lemma_key_le_total(keys);
    let base = Seq::new(n, |i: int| i);
    base.lemma_sort_by_ensures(leq);
    let sp = sorted_positions(keys);
    assert(sp == base.sort_by(leq));
    assert(sp.len() == n) by {
        assert(sp.to_multiset().len() == base.to_multiset().len());
    }
    assert forall|i: int| 0 <= i < n implies 0 <= #[trigger] sp[i] < n by {
        assert(sp.contains(sp[i]));
        assert(sp.to_multiset().count(sp[i]) > 0);
        assert(base.to_multiset().count(sp[i]) > 0);
        assert(base.contains(sp[i]));
    }
    let r = bary_order(es, fas, layer, other, false);
    assert forall|i: int, k: int|
        #![trigger r[i], r[k]]
        0 <= i < k < r.len() && successor_positions(es, fas, other, r[i]).len() > 0
            && successor_positions(es, fas, other, r[k]).len() > 0 implies int_sum(
            successor_positions(es, fas, other, r[i]),
        ) * successor_positions(es, fas, other, r[k]).len() <= int_sum(
            successor_positions(es, fas, other, r[k]),
        ) * successor_positions(es, fas, other, r[i]).len() by {
        let a = sp[i];
        let b = sp[k];
        assert(r[i] == layer[a]);
        assert(r[k] == layer[b]);
        assert(leq(sp[i], sp[k]));
        lemma_up_stats(es, fas, other, layer[a]);
        lemma_up_stats(es, fas, other, layer[b]);
        assert(keys[a] == bary_key(es, fas, layer, other, false, a));
        assert(keys[b] == bary_key(es, fas, layer, other, false, b));
        assert(key_at(keys, a) == keys[a]);
        assert(key_at(keys, b) == keys[b]);
    }
}

/// The sweep up changes no layer above the one it starts from.
proof fn lemma_sweep_up_above(cur: Map<usize, Seq<usize>>, es: Seq<(usize, usize)>, fas: Seq<(usize, usize)>, l: int, key: usize)
    requires
        key as int > l,
        cur.contains_key(key),
    ensures
        sweep_up(cur, es, fas, l).contains_key(key),
        sweep_up(cur, es, fas, l)[key] == cur[key],
    decreases l + 1,
{
    if l >= 0 {
        let c = sweep_layer(cur, es, fas, l as usize, (l + 1) as usize, false);
        assert(c.contains_key(key) && c[key] == cur[key]);
        lemma_sweep_up_above(c, es, fas, l - 1, key);
    }
}

/// After the sweep up from layer `l`, every layer `j <= l` that has a layer
/// below it is sorted by the mean position of its nodes' successors in
/// that layer: the sweep up orders a layer by the targets of its edges that
/// are not feedback arcs, in the layer below, a node without such a target
/// counting at its position in the layer as it was before the sweep.
pub proof fn lemma_sweep_up_sorts_by_successors(
    cur: Map<usize, Seq<usize>>,
    es: Seq<(usize, usize)>,
    fas: Seq<(usize, usize)>,
    l: int,
    j: usize,
)
    requires
        j as int <= l < usize::MAX,
        sweep_up(cur, es, fas, l).contains_key(j),
        sweep_up(cur, es, fas, l).contains_key((j + 1) as usize),
    ensures
        sorted_by_successors(es, fas, sweep_up(cur, es, fas, l)[j], sweep_up(cur, es, fas, l)[(j + 1) as usize]),
        cur.contains_key(j) && sorted_by_up_value(
            es,
            fas,
            cur[j],
            sweep_up(cur, es, fas, l)[j],
            sweep_up(cur, es, fas, l)[(j + 1) as usize],
        ),
    decreases l + 1,
{
    let c = sweep_layer(cur, es, fas, l as usize, (l + 1) as usize, false);
    lemma_sweep_layer_same(cur, es, fas, l as usize, (l + 1) as usize, false);
    lemma_sweep_up_same(c, es, fas, l - 1);
    if (j as int) < l {
        lemma_sweep_up_sorts_by_successors(c, es, fas, l - 1, j);
        assert(c.contains_key(j));
        assert(c[j] == cur[j]);
    } else {
        let res = sweep_up(c, es, fas, l - 1);
        assert(c.contains_key(j) && c.contains_key((j + 1) as usize));
        lemma_sweep_up_above(c, es, fas, l - 1, j);
        lemma_sweep_up_above(c, es, fas, l - 1, (j + 1) as usize);
        assert(cur.contains_key(j) && cur.contains_key((j + 1) as usize));
        assert(c[j] == bary_order(es, fas, cur[j], cur[(j + 1) as usize], false));
        assert(c[(j + 1) as usize] == cur[(j + 1) as usize]);
        lemma_up_order_sorted(es, fas, cur[j], cur[(j + 1) as usize]);
        lemma_up_order_by_value(es, fas, cur[j], cur[(j + 1) as usize]);
    }
}

/// The positions in `above` of the sources of the edges into `x` that are
/// not feedback arcs, edge by edge: a source at its first position, sources
/// outside `above` left out.
pub open spec fn predecessor_positions(
    es: Seq<(usize, usize)>,
    fas: Seq<(usize, usize)>,
    above: Seq<usize>,
    x: usize,
) -> Seq<int>
    decreases es.len(),
{
    if es.len() == 0 {
        Seq::empty()
    } else {
        let r = predecessor_positions(es.drop_last(), fas, above, x);
        let e = es.last();
        if e.1 == x && !fas.contains(e) && above.contains(e.0) { r.push(first_pos_from(above, e.0, 0)) } else { r }
    }
}

/// Any two nodes of `layer` that have predecessors in `above` come in the
/// order of the mean position of their predecessors there.
pub open spec fn sorted_by_predecessors(
    es: Seq<(usize, usize)>,
    fas: Seq<(usize, usize)>,
    layer: Seq<usize>,
    above: Seq<usize>,
) -> bool {
    forall|i: int, k: int|
        #![trigger layer[i], layer[k]]
        0 <= i < k < layer.len() && predecessor_positions(es, fas, above, layer[i]).len() > 0
            && predecessor_positions(es, fas, above, layer[k]).len() > 0 ==> int_sum(
            predecessor_positions(es, fas, above, layer[i]),
        ) * predecessor_positions(es, fas, above, layer[k]).len() <= int_sum(
            predecessor_positions(es, fas, above, layer[k]),
        ) * predecessor_positions(es, fas, above, layer[i]).len()
}

proof fn lemma_down_stats(es: Seq<(usize, usize)>, fas: Seq<(usize, usize)>, other: Seq<usize>, x: usize)
    ensures
        nb_stats(es, fas, other, x, true) == (
            int_sum(predecessor_positions(es, fas, other, x)),
            predecessor_positions(es, fas, other, x).len() as int,
        ),
        int_sum(predecessor_positions(es, fas, other, x)) >= 0,
    decreases es.len(),
{
    if es.len() > 0 {
        lemma_down_stats(es.drop_last(), fas, other, x);
        let e = es.last();
        lemma_first_pos_nonneg(other, e.0, 0);
        if other.contains(e.0) {
            let j = choose|j: int| 0 <= j < other.len() && other[j] == e.0;
            lemma_first_pos_found(other, e.0, 0);
        }
        let r = predecessor_positions(es.drop_last(), fas, other, x);
        if e.1 == x && !fas.contains(e) && other.contains(e.0) {
            assert(r.push(first_pos_from(other, e.0, 0)).drop_last() =~= r);
        }
    }
}

/// A layer sorted for the sweep down is sorted by its predecessors' positions.
proof fn lemma_down_order_sorted(es: Seq<(usize, usize)>, fas: Seq<(usize, usize)>, layer: Seq<usize>, other: Seq<usize>)
    ensures
        sorted_by_predecessors(es, fas, bary_order(es, fas, layer, other, true), other),
{
    broadcast use vstd::seq_lib::group_to_multiset_ensures;
    let n = layer.len();
    let keys = Seq::new(n, |p: int| bary_key(es, fas, layer, other, true, p));
    let leq = |a: int, b: int| key_le(keys, a, b);
    lemma_key_le_total(keys);
    let base = Seq::new(n, |i: int| i);
    base.lemma_sort_by_ensures(leq);
    let sp = sorted_positions(keys);
    assert(sp == base.sort_by(leq));
    assert(sp.len() == n) by {
        assert(sp.to_multiset().len() == base.to_multiset().len());
    }
    assert forall|i: int| 0 <= i < n implies 0 <= #[trigger] sp[i] < n by {
        assert(sp.contains(sp[i]));
        assert(sp.to_multiset().count(sp[i]) > 0);
        assert(base.to_multiset().count(sp[i]) > 0);
        assert(base.contains(sp[i]));
    }
    let r = bary_order(es, fas, layer, other, true);
    assert forall|i: int, k: int|
        #![trigger r[i], r[k]]
        0 <= i < k < r.len() && predecessor_positions(es, fas, other, r[i]).len() > 0
            && predecessor_positions(es, fas, other, r[k]).len() > 0 implies int_sum(
            predecessor_positions(es, fas, other, r[i]),
        ) * predecessor_positions(es, fas, other, r[k]).len() <= int_sum(
            predecessor_positions(es, fas, other, r[k]),
        ) * predecessor_positions(es, fas, other, r[i]).len() by {
        let a = sp[i];
        let b = sp[k];
        assert(r[i] == layer[a]);
        assert(r[k] == layer[b]);
        assert(leq(sp[i], sp[k]));
        lemma_down_stats(es, fas, other, layer[a]);
        lemma_down_stats(es, fas, other, layer[b]);
        assert(keys[a] == bary_key(es, fas, layer, other, true, a));
        assert(keys[b] == bary_key(es, fas, layer, other, true, b));
        assert(key_at(keys, a) == keys[a]);
        assert(key_at(keys, b) == keys[b]);
    }
}

/// The sweep down from layer `l` changes no layer before `l`.
proof fn lemma_sweep_down_below(cur: Map<usize, Seq<usize>>, es: Seq<(usize, usize)>, fas: Seq<(usize, usize)>, l: int, hi: int, key: usize)
    requires
        (key as int) < l,
        hi <= usize::MAX,
        cur.contains_key(key),
    ensures
        sweep_down(cur, es, fas, l, hi).contains_key(key),
        sweep_down(cur, es, fas, l, hi)[key] == cur[key],
    decreases hi + 1 - l,
{
    if !(l > hi || l < 1) {
        let c = sweep_layer(cur, es, fas, l as usize, (l - 1) as usize, true);
        assert(c.contains_key(key) && c[key] == cur[key]);
        lemma_sweep_down_below(c, es, fas, l + 1, hi, key);
    }
}

/// After the sweep down over the layers `l..=hi` (`l >= 1`), every layer
/// `j` among them that has a layer above it is sorted by the mean position
/// of its nodes' predecessors in that layer: the sweep down orders a layer
/// by the sources of its edges that are not feedback arcs, in the layer
/// above.
pub proof fn lemma_sweep_down_sorts_by_predecessors(
    cur: Map<usize, Seq<usize>>,
    es: Seq<(usize, usize)>,
    fas: Seq<(usize, usize)>,
    l: int,
    hi: int,
    j: usize,
)
    requires
        1 <= l <= j as int <= hi <= usize::MAX,
        sweep_down(cur, es, fas, l, hi).contains_key(j),
        sweep_down(cur, es, fas, l, hi).contains_key((j - 1) as usize),
    ensures
        sorted_by_predecessors(es, fas, sweep_down(cur, es, fas, l, hi)[j], sweep_down(cur, es, fas, l, hi)[(j - 1) as usize]),
    decreases hi + 1 - l,
{
    let c = sweep_layer(cur, es, fas, l as usize, (l - 1) as usize, true);
    lemma_sweep_layer_same(cur, es, fas, l as usize, (l - 1) as usize, true);
    lemma_sweep_down_same(c, es, fas, l + 1, hi);
    if (j as int) > l {
        lemma_sweep_down_sorts_by_predecessors(c, es, fas, l + 1, hi, j);
    } else {
        assert(c.contains_key(j) && c.contains_key((j - 1) as usize));
        lemma_sweep_down_below(c, es, fas, l + 1, hi, j);
        lemma_sweep_down_below(c, es, fas, l + 1, hi, (j - 1) as usize);
        assert(cur.contains_key(j) && cur.contains_key((j - 1) as usize));
        assert(c[j] == bary_order(es, fas, cur[j], cur[(j - 1) as usize], true));
        assert(c[(j - 1) as usize] == cur[(j - 1) as usize]);
        lemma_down_order_sorted(es, fas, cur[j], cur[(j - 1) as usize]);
    }
}

/// What the sweep up sorts a node `x` of a layer by, as a fraction: the
/// mean position of its successors in `below`, or, without one, its own
/// position in the layer as it stood before (`before`).
pub open spec fn up_value(
    es: Seq<(usize, usize)>,
    fas: Seq<(usize, usize)>,
    before: Seq<usize>,
    below: Seq<usize>,
    x: usize,
) -> (int, int) {
    let sp = successor_positions(es, fas, below, x);
    if sp.len() > 0 { (int_sum(sp), sp.len() as int) } else { (first_pos_from(before, x, 0), 1) }
}

/// `layer` lists its nodes in ascending order of [`up_value`].
pub open spec fn sorted_by_up_value(
    es: Seq<(usize, usize)>,
    fas: Seq<(usize, usize)>,
    before: Seq<usize>,
    layer: Seq<usize>,
    below: Seq<usize>,
) -> bool {
    forall|i: int, k: int|
        #![trigger layer[i], layer[k]]
        0 <= i < k < layer.len() ==> up_value(es, fas, before, below, layer[i]).0 * up_value(es, fas, before, below, layer[k]).1
            <= up_value(es, fas, before, below, layer[k]).0 * up_value(es, fas, before, below, layer[i]).1
}

proof fn lemma_up_order_by_value(es: Seq<(usize, usize)>, fas: Seq<(usize, usize)>, layer: Seq<usize>, other: Seq<usize>)
    ensures
        sorted_by_up_value(es, fas, layer, bary_order(es, fas, layer, other, false), other),
{
    broadcast use vstd::seq_lib::group_to_multiset_ensures;
    let n = layer.len();
    let keys = Seq::new(n, |p: int| bary_key(es, fas, layer, other, false, p));
    let leq = |a: int, b: int| key_le(keys, a, b);
    lemma_key_le_total(keys);
    let base = Seq::new(n, |i: int| i);
    base.lemma_sort_by_ensures(leq);
    let sp = sorted_positions(keys);
    assert(sp == base.sort_by(leq));
    assert(sp.len() == n) by {
        assert(sp.to_multiset().len() == base.to_multiset().len());
    }
    assert forall|i: int| 0 <= i < n implies 0 <= #[trigger] sp[i] < n by {
        assert(sp.contains(sp[i]));
        assert(sp.to_multiset().count(sp[i]) > 0);
        assert(base.to_multiset().count(sp[i]) > 0);
        assert(base.contains(sp[i]));
    }
    let r = bary_order(es, fas, layer, other, false);
    assert forall|i: int, k: int|
        #![trigger r[i], r[k]]
        0 <= i < k < r.len() implies up_value(es, fas, layer, other, r[i]).0 * up_value(es, fas, layer, other, r[k]).1
            <= up_value(es, fas, layer, other, r[k]).0 * up_value(es, fas, layer, other, r[i]).1 by {
        let a = sp[i];
        let b = sp[k];
        assert(r[i] == layer[a]);
        assert(r[k] == layer[b]);
        assert(leq(sp[i], sp[k]));
        lemma_up_stats(es, fas, other, layer[a]);
        lemma_up_stats(es, fas, other, layer[b]);
        assert(layer.contains(layer[a]));
        assert(layer.contains(layer[b]));
        lemma_first_pos_found(layer, layer[a], 0);
        lemma_first_pos_found(layer, layer[b], 0);
        assert(keys[a] == bary_key(es, fas, layer, other, false, a));
        assert(keys[b] == bary_key(es, fas, layer, other, false, b));
        assert(key_at(keys, a) == keys[a]);
        assert(key_at(keys, b) == keys[b]);
    }
}

} // verus!
