//! Crossing reduction between adjacent layers (barycenter heuristic).
//!
//! The input is a sequence of layers (each an ordered sequence of node ids)
//! and a list of edges between nodes; the output is the same layers with the
//! order inside each layer rearranged so that edges between adjacent layers
//! cross less. Four sweeps are made (down, up, down, up); in every sweep each
//! layer is sorted by the barycenter of its neighbours in the layer it is
//! compared against, ties broken by the order in which ids first appear in the
//! input and then by the current position, so the result is deterministic.

use vstd::prelude::*;
use vstd::relations::{sorted_by, total_ordering};
use vstd::seq_lib::lemma_sorted_unique;

verus! {

/// Node identifier.
pub type NodeId = String;

/// An edge between two nodes of adjacent layers.
#[derive(Debug, Clone)]
pub struct LayerEdge {
    pub source: NodeId,
    pub target: NodeId,
}

impl View for LayerEdge {
    type V = (Seq<char>, Seq<char>);

    open spec fn view(&self) -> (Seq<char>, Seq<char>) {
        (self.source@, self.target@)
    }
}

// ---------------------------------------------------------------------------
// Mathematical model
// ---------------------------------------------------------------------------

/// The ids of one layer, as character sequences.
pub open spec fn layer_view(l: Seq<String>) -> Seq<Seq<char>> {
    l.map_values(|s: String| s@)
}

/// All layers, as sequences of character sequences.
pub open spec fn layers_view(ls: Seq<Vec<String>>) -> Seq<Seq<Seq<char>>> {
    ls.map_values(|l: Vec<String>| layer_view(l@))
}

/// The edges, as pairs of character sequences.
pub open spec fn edges_view(es: Seq<LayerEdge>) -> Seq<(Seq<char>, Seq<char>)> {
    es.map_values(|e: LayerEdge| e@)
}

/// Index of the last occurrence of `id` in `s`, or -1 when `id` is absent.
pub open spec fn last_pos(s: Seq<Seq<char>>, id: Seq<char>) -> int
    decreases s.len(),
{
    if s.len() == 0 {
        -1
    } else if s.last() == id {
        s.len() - 1
    } else {
        last_pos(s.drop_last(), id)
    }
}

/// Contribution of one edge to the neighbour statistics of position `p` of
/// `layer` against `other`: the positions in `other` of the edge's far end,
/// once for each direction in which the edge joins the two layers.
pub open spec fn edge_sum(layer: Seq<Seq<char>>, other: Seq<Seq<char>>, e: (Seq<char>, Seq<char>), p: int) -> int {
    (if last_pos(layer, e.0) == p && last_pos(other, e.1) >= 0 { last_pos(other, e.1) } else { 0 })
    + (if last_pos(other, e.0) >= 0 && last_pos(layer, e.1) == p { last_pos(other, e.0) } else { 0 })
}

/// Number of neighbour positions that one edge contributes to position `p`.
pub open spec fn edge_cnt(layer: Seq<Seq<char>>, other: Seq<Seq<char>>, e: (Seq<char>, Seq<char>), p: int) -> int {
    (if last_pos(layer, e.0) == p && last_pos(other, e.1) >= 0 { 1int } else { 0int })
    + (if last_pos(other, e.0) >= 0 && last_pos(layer, e.1) == p { 1int } else { 0int })
}

/// Sum of the positions in `other` of the neighbours of position `p` of `layer`.
pub open spec fn nb_sum(layer: Seq<Seq<char>>, other: Seq<Seq<char>>, es: Seq<(Seq<char>, Seq<char>)>, p: int) -> int
    decreases es.len(),
{
    if es.len() == 0 {
        0
    } else {
        nb_sum(layer, other, es.drop_last(), p) + edge_sum(layer, other, es.last(), p)
    }
}

/// Number of neighbours in `other` of position `p` of `layer`.
pub open spec fn nb_cnt(layer: Seq<Seq<char>>, other: Seq<Seq<char>>, es: Seq<(Seq<char>, Seq<char>)>, p: int) -> int
    decreases es.len(),
{
    if es.len() == 0 {
        0
    } else {
        nb_cnt(layer, other, es.drop_last(), p) + edge_cnt(layer, other, es.last(), p)
    }
}

/// `s` followed by the elements of `t` not seen before, in first-seen order.
pub open spec fn dedup_into(s: Seq<Seq<char>>, t: Seq<Seq<char>>) -> Seq<Seq<char>>
    decreases t.len(),
{
    if t.len() == 0 {
        s
    } else {
        let d = dedup_into(s, t.drop_last());
        if d.contains(t.last()) { d } else { d.push(t.last()) }
    }
}

/// The distinct ids of all layers in order of first appearance.
pub open spec fn first_seen(ls: Seq<Seq<Seq<char>>>) -> Seq<Seq<char>>
    decreases ls.len(),
{
    if ls.len() == 0 {
        Seq::empty()
    } else {
        dedup_into(first_seen(ls.drop_last()), ls.last())
    }
}

/// Sort key of position `p`: barycenter (as numerator / denominator),
/// first-appearance rank of the id, and the position itself.
pub open spec fn pos_key(
    cur: Seq<Seq<Seq<char>>>,
    li: int,
    oi: int,
    es: Seq<(Seq<char>, Seq<char>)>,
    seen: Seq<Seq<char>>,
    p: int,
) -> (int, int, int) {
    let layer = cur[li];
    let other = cur[oi];
    let cnt = nb_cnt(layer, other, es, p);
    let app = last_pos(seen, layer[p]);
    (
        if cnt > 0 { nb_sum(layer, other, es, p) } else { p },
        if cnt > 0 { cnt } else { 1 },
        if app >= 0 { app } else { p },
    )
}

/// The keys of all positions of layer `li`.
pub open spec fn layer_keys(
    cur: Seq<Seq<Seq<char>>>,
    li: int,
    oi: int,
    es: Seq<(Seq<char>, Seq<char>)>,
    seen: Seq<Seq<char>>,
) -> Seq<(int, int, int)> {
    Seq::new(cur[li].len(), |p: int| pos_key(cur, li, oi, es, seen, p))
}

/// Key of element `a`, with a neutral key outside the valid range.
pub open spec fn key_at(keys: Seq<(int, int, int)>, a: int) -> (int, int, int) {
    if 0 <= a < keys.len() && keys[a].1 > 0 && keys[a].0 >= 0 {
        keys[a]
    } else {
        (0, 1, 0)
    }
}

/// Ordering of positions: smaller barycenter first (compared exactly as
/// fractions), then earlier first appearance, then smaller position.
pub open spec fn key_le(keys: Seq<(int, int, int)>, a: int, b: int) -> bool {
    let ka = key_at(keys, a);
    let kb = key_at(keys, b);
    ||| ka.0 * kb.1 < kb.0 * ka.1
    ||| ka.0 * kb.1 == kb.0 * ka.1 && ka.2 < kb.2
    ||| ka.0 * kb.1 == kb.0 * ka.1 && ka.2 == kb.2 && a <= b
}

/// The positions `0..n` in their sorted order.
pub open spec fn sorted_positions(keys: Seq<(int, int, int)>) -> Seq<int> {
    Seq::new(keys.len(), |i: int| i).sort_by(|a: int, b: int| key_le(keys, a, b))
}

/// One reordering step: layer `li` sorted by its keys against layer `oi`.
pub open spec fn reorder(
    cur: Seq<Seq<Seq<char>>>,
    li: int,
    oi: int,
    es: Seq<(Seq<char>, Seq<char>)>,
    seen: Seq<Seq<char>>,
) -> Seq<Seq<Seq<char>>> {
    if cur[li].len() <= 1 {
        cur
    } else {
        let keys = layer_keys(cur, li, oi, es, seen);
        cur.update(li, sorted_positions(keys).map_values(|p: int| cur[li][p]))
    }
}

/// Top-down sweep over layers `1..=k`: each sorted against the layer above.
pub open spec fn sweep_down(cur: Seq<Seq<Seq<char>>>, k: int, es: Seq<(Seq<char>, Seq<char>)>, seen: Seq<Seq<char>>) -> Seq<Seq<Seq<char>>>
    decreases k,
{
    if k <= 0 {
        cur
    } else {
        reorder(sweep_down(cur, k - 1, es, seen), k, k - 1, es, seen)
    }
}

/// Bottom-up sweep over layers `n-2, n-3, ..., n-1-k` (with `n = cur.len()`):
/// each sorted against the layer below.
pub open spec fn sweep_up(cur: Seq<Seq<Seq<char>>>, k: int, es: Seq<(Seq<char>, Seq<char>)>, seen: Seq<Seq<char>>) -> Seq<Seq<Seq<char>>>
    decreases k,
{
    if k <= 0 {
        cur
    } else {
        let prev = sweep_up(cur, k - 1, es, seen);
        reorder(prev, cur.len() - 1 - k, cur.len() - k, es, seen)
    }
}

/// One full round: a top-down sweep followed by a bottom-up sweep.
pub open spec fn round(cur: Seq<Seq<Seq<char>>>, es: Seq<(Seq<char>, Seq<char>)>, seen: Seq<Seq<char>>) -> Seq<Seq<Seq<char>>> {
    let d = sweep_down(cur, cur.len() - 1, es, seen);
    sweep_up(d, cur.len() - 1, es, seen)
}

/// The result of crossing minimisation: two rounds (four sweeps).
pub open spec fn spec_minimize_crossings(ls: Seq<Seq<Seq<char>>>, es: Seq<(Seq<char>, Seq<char>)>) -> Seq<Seq<Seq<char>>> {
    if ls.len() == 0 {
        Seq::empty()
    } else {
        let seen = first_seen(ls);
        round(round(ls, es, seen), es, seen)
    }
}

// ---------------------------------------------------------------------------
// Proof support
// ---------------------------------------------------------------------------

proof fn lemma_frac_trans(a0: int, a1: int, b0: int, b1: int, c0: int, c1: int)
    by (nonlinear_arith)
    requires
        a1 > 0,
        b1 > 0,
        c1 > 0,
        a0 * b1 <= b0 * a1,
        b0 * c1 <= c0 * b1,
    ensures
        a0 * c1 <= c0 * a1,
        (a0 * b1 < b0 * a1 || b0 * c1 < c0 * b1) ==> a0 * c1 < c0 * a1,
{
}

pub(crate) proof fn lemma_key_le_total(keys: Seq<(int, int, int)>)
    ensures
        total_ordering(|a: int, b: int| key_le(keys, a, b)),
{
    let leq = |a: int, b: int| key_le(keys, a, b);
    assert forall|a: int, b: int, c: int| #[trigger] leq(a, b) && #[trigger] leq(b, c) implies leq(a, c) by {
        let ka = key_at(keys, a);
        let kb = key_at(keys, b);
        let kc = key_at(keys, c);
        lemma_frac_trans(ka.0, ka.1, kb.0, kb.1, kc.0, kc.1);
    }
}

/// Inserting `x` into a sequence adds it to the multiset of its elements.
proof fn lemma_insert_multiset<A>(s: Seq<A>, j: int, x: A)
    requires
        0 <= j <= s.len(),
    ensures
        s.insert(j, x).to_multiset() =~= s.to_multiset().insert(x),
{
    broadcast use vstd::seq_lib::group_to_multiset_ensures;
    let t = s.insert(j, x);
    s.insert_ensures(j, x);
    assert(t.remove(j) =~= s);
    assert(t.to_multiset().remove(t[j]) =~= s.to_multiset());
    assert(t.contains(x));
    assert(t.to_multiset().count(x) > 0);
}

pub(crate) proof fn lemma_last_pos_range(s: Seq<Seq<char>>, id: Seq<char>)
    ensures
        -1 <= last_pos(s, id) < s.len(),
        last_pos(s, id) >= 0 ==> s[last_pos(s, id)] == id,
        last_pos(s, id) < 0 ==> !s.contains(id),
    decreases s.len(),
{
    if s.len() > 0 {
        lemma_last_pos_range(s.drop_last(), id);
        if last_pos(s, id) < 0 {
            assert forall|i: int| 0 <= i < s.len() implies s[i] != id by {
                if i < s.len() - 1 {
                    assert(s.drop_last()[i] == s[i]);
                }
            }
        }
    }
}

// ---------------------------------------------------------------------------
// Executable code
// ---------------------------------------------------------------------------

/// Index of the last occurrence of `id` in `s`.
pub(crate) fn find_last(s: &Vec<String>, id: &String) -> (r: Option<usize>)
    ensures
        match r {
            Some(i) => i == last_pos(layer_view(s@), id@),
            None => last_pos(layer_view(s@), id@) == -1,
        },
{
    let mut i = s.len();
    assert(layer_view(s@).take(i as int) =~= layer_view(s@));
    while i > 0
        invariant
            i <= s.len(),
            last_pos(layer_view(s@), id@) == last_pos(layer_view(s@).take(i as int), id@),
        decreases i,
    {
        let ghost v = layer_view(s@).take(i as int);
        assert(v.drop_last() =~= layer_view(s@).take(i - 1));
        assert(v.last() == s@[i - 1]@);
        if s[i - 1] == *id {
            return Some(i - 1);
        }
        i = i - 1;
    }
    assert(layer_view(s@).take(0) =~= Seq::<Seq<char>>::empty());
    None
}

/// How two fractions `a / b` and `c / d` compare: by their whole parts, and
/// when those agree, by their remainders cross-multiplied.
proof fn lemma_frac_split(a: int, b: int, c: int, d: int)
    requires
        0 <= a,
        1 <= b,
        0 <= c,
        1 <= d,
    ensures
        (a * d < c * b) == (a / b < c / d || (a / b == c / d && (a % b) * d < (c % d) * b)),
        (a * d == c * b) == (a / b == c / d && (a % b) * d == (c % d) * b),
{
    let qa = a / b;
    let ra = a % b;
    let qc = c / d;
    let rc = c % d;
    vstd::arithmetic::div_mod::lemma_fundamental_div_mod(a, b);
    vstd::arithmetic::div_mod::lemma_fundamental_div_mod(c, d);
    vstd::arithmetic::div_mod::lemma_mod_pos_bound(a, b);
    vstd::arithmetic::div_mod::lemma_mod_pos_bound(c, d);
    assert(a * d - c * b == (qa - qc) * (b * d) + (ra * d - rc * b)) by (nonlinear_arith)
        requires
            a == b * qa + ra,
            c == d * qc + rc,
    ;
    assert(0 <= ra * d < b * d) by (nonlinear_arith)
        requires
            0 <= ra < b,
            d >= 1,
    ;
    assert(0 <= rc * b < b * d) by (nonlinear_arith)
        requires
            0 <= rc < d,
            b >= 1,
    ;
    if qa < qc {
        assert((qa - qc) * (b * d) <= -(b * d)) by (nonlinear_arith)
            requires
                qa - qc <= -1,
                b * d >= 1,
        ;
    } else if qa > qc {
        assert((qa - qc) * (b * d) >= b * d) by (nonlinear_arith)
            requires
                qa - qc >= 1,
                b * d >= 1,
        ;
    }
}

/// Exact comparison of two sort keys (see [`key_le`]): the barycenters are
/// compared by their whole parts and then by their remainders, so that no
/// product leaves `u128`.
fn exec_key_le(ka: (u128, u128, usize), a: usize, kb: (u128, u128, usize), b: usize) -> (r: bool)
    requires
        1 <= ka.1 <= 0xffff_ffff_ffff_ffff,
        1 <= kb.1 <= 0xffff_ffff_ffff_ffff,
    ensures
        r == ({
            ||| ka.0 * kb.1 < kb.0 * ka.1
            ||| ka.0 * kb.1 == kb.0 * ka.1 && ka.2 < kb.2
            ||| ka.0 * kb.1 == kb.0 * ka.1 && ka.2 == kb.2 && a <= b
        }),
{
    let qa = ka.0 / ka.1;
    let ra = ka.0 % ka.1;
    let qb = kb.0 / kb.1;
    let rb = kb.0 % kb.1;
    proof {
        lemma_frac_split(ka.0 as int, ka.1 as int, kb.0 as int, kb.1 as int);
        assert(ra * kb.1 <= 0xffff_ffff_ffff_ffff * 0xffff_ffff_ffff_ffff) by (nonlinear_arith)
            requires
                ra < ka.1,
                ka.1 <= 0xffff_ffff_ffff_ffff,
                kb.1 <= 0xffff_ffff_ffff_ffff,
        ;
        assert(rb * ka.1 <= 0xffff_ffff_ffff_ffff * 0xffff_ffff_ffff_ffff) by (nonlinear_arith)
            requires
                rb < kb.1,
                kb.1 <= 0xffff_ffff_ffff_ffff,
                ka.1 <= 0xffff_ffff_ffff_ffff,
        ;
        assert(kb.0 * ka.1 == ka.1 * kb.0 && ka.0 * kb.1 == ka.0 * kb.1) by (nonlinear_arith);
    }
    let l = ra * kb.1;
    let r = rb * ka.1;
    let lt = qa < qb || (qa == qb && l < r);
    let eq = qa == qb && l == r;
    lt || (eq && (ka.2 < kb.2 || (ka.2 == kb.2 && a <= b)))
}

proof fn lemma_reorder_without_edges(
    cur: Seq<Seq<Seq<char>>>,
    li: int,
    oi: int,
    seen: Seq<Seq<char>>,
)
    requires
        0 <= li < cur.len(),
    ensures
        reorder(cur, li, oi, Seq::empty(), seen) == cur,
{
    let es = Seq::<(Seq<char>, Seq<char>)>::empty();
    if cur[li].len() > 1 {
        let keys = layer_keys(cur, li, oi, es, seen);
        let leq = |a: int, b: int| key_le(keys, a, b);
        let id = Seq::new(keys.len(), |i: int| i);
        lemma_key_le_total(keys);
        assert forall|i: int, j: int| 0 <= i < j < id.len() implies #[trigger] leq(id[i], id[j]) by {
            assert(keys[i] == pos_key(cur, li, oi, es, seen, i));
            assert(keys[j] == pos_key(cur, li, oi, es, seen, j));
            assert(key_at(keys, i).0 * key_at(keys, j).1 < key_at(keys, j).0 * key_at(keys, i).1);
        }
        id.lemma_sort_by_ensures(leq);
        lemma_sorted_unique(id, id.sort_by(leq), leq);
        assert(sorted_positions(keys) == id);
        assert(id.map_values(|p: int| cur[li][p]) =~= cur[li]);
        assert(cur.update(li, cur[li]) =~= cur);
    }
}

proof fn lemma_sweeps_without_edges(cur: Seq<Seq<Seq<char>>>, k: int, seen: Seq<Seq<char>>)
    requires
        0 <= k < cur.len(),
    ensures
        sweep_down(cur, k, Seq::empty(), seen) == cur,
        sweep_up(cur, k, Seq::empty(), seen) == cur,
    decreases k,
{
    if k > 0 {
        lemma_sweeps_without_edges(cur, k - 1, seen);
        lemma_reorder_without_edges(cur, k, k - 1, seen);
        lemma_reorder_without_edges(cur, cur.len() - 1 - k, cur.len() - k, seen);
    }
}

/// Without edges, or with at most one layer, there is nothing to reorder by:
/// crossing reduction gives its layers back unchanged.
pub proof fn lemma_minimize_crossings_identity(ls: Seq<Seq<Seq<char>>>, es: Seq<(Seq<char>, Seq<char>)>)
    requires
        es.len() == 0 || ls.len() <= 1,
    ensures
        spec_minimize_crossings(ls, es) == ls,
{
    if ls.len() == 0 {
        assert(spec_minimize_crossings(ls, es) =~= ls);
    } else {
        let seen = first_seen(ls);
        if ls.len() == 1 {
            assert(round(ls, es, seen) == ls);
        } else {
            assert(es =~= Seq::<(Seq<char>, Seq<char>)>::empty());
            lemma_sweeps_without_edges(ls, ls.len() - 1, seen);
            assert(round(ls, es, seen) == ls);
        }
    }
}

/// Two layerings with the same number of layers and the same members on
/// each layer.
pub open spec fn same_members(a: Seq<Seq<Seq<char>>>, b: Seq<Seq<Seq<char>>>) -> bool {
    &&& a.len() == b.len()
    &&& forall|i: int, x: Seq<char>| 0 <= i < a.len() ==> (#[trigger] a[i].contains(x) <==> b[i].contains(x))
}

/// No edge of `ex` joins two adjacent layers of `ls`, in either direction.
pub open spec fn joins_no_adjacent(ls: Seq<Seq<Seq<char>>>, ex: Seq<(Seq<char>, Seq<char>)>) -> bool {
    forall|k: int, i: int|
        #![trigger ex[k], ls[i].contains(ex[k].0)]
        #![trigger ex[k], ls[i].contains(ex[k].1)]
        0 <= k < ex.len() && 0 <= i < ls.len() - 1 ==> {
            &&& !(ls[i].contains(ex[k].0) && ls[i + 1].contains(ex[k].1))
            &&& !(ls[i].contains(ex[k].1) && ls[i + 1].contains(ex[k].0))
        }
}

proof fn lemma_nb_append(
    layer: Seq<Seq<char>>,
    other: Seq<Seq<char>>,
    es: Seq<(Seq<char>, Seq<char>)>,
    ex: Seq<(Seq<char>, Seq<char>)>,
    p: int,
)
    requires
        forall|k: int| 0 <= k < ex.len() ==> edge_sum(layer, other, #[trigger] ex[k], p) == 0
            && edge_cnt(layer, other, ex[k], p) == 0,
    ensures
        nb_sum(layer, other, es + ex, p) == nb_sum(layer, other, es, p),
        nb_cnt(layer, other, es + ex, p) == nb_cnt(layer, other, es, p),
    decreases ex.len(),
{
    if ex.len() == 0 {
        assert(es + ex =~= es);
    } else {
        let d = ex.drop_last();
        assert forall|k: int| 0 <= k < d.len() implies edge_sum(layer, other, #[trigger] d[k], p) == 0
            && edge_cnt(layer, other, d[k], p) == 0 by {
            assert(d[k] == ex[k]);
        }
        lemma_nb_append(layer, other, es, d, p);
        assert((es + ex).drop_last() =~= es + d);
        assert((es + ex).last() == ex[ex.len() - 1]);
    }
}

/// Reordering one layer against an adjacent one does not see edges that
/// join no adjacent layers, and keeps the members of every layer.
proof fn lemma_reorder_ignores(
    ls: Seq<Seq<Seq<char>>>,
    cur: Seq<Seq<Seq<char>>>,
    li: int,
    oi: int,
    es: Seq<(Seq<char>, Seq<char>)>,
    ex: Seq<(Seq<char>, Seq<char>)>,
    seen: Seq<Seq<char>>,
)
    requires
        same_members(cur, ls),
        joins_no_adjacent(ls, ex),
        0 <= li < cur.len(),
        0 <= oi < cur.len(),
        oi == li + 1 || oi == li - 1,
    ensures
        reorder(cur, li, oi, es + ex, seen) == reorder(cur, li, oi, es, seen),
        same_members(reorder(cur, li, oi, es, seen), ls),
{
    let layer = cur[li];
    let other = cur[oi];
    assert forall|p: int| 0 <= p < layer.len() implies pos_key(cur, li, oi, es + ex, seen, p) == pos_key(cur, li, oi, es, seen, p) by {
        assert forall|k: int| 0 <= k < ex.len() implies edge_sum(layer, other, #[trigger] ex[k], p) == 0
            && edge_cnt(layer, other, ex[k], p) == 0 by {
            let e = ex[k];
            lemma_last_pos_range(layer, e.0);
            lemma_last_pos_range(layer, e.1);
            lemma_last_pos_range(other, e.0);
            lemma_last_pos_range(other, e.1);
            if last_pos(layer, e.0) == p && last_pos(other, e.1) >= 0 {
                assert(layer.contains(e.0) && other.contains(e.1));
                assert(cur[li].contains(e.0) && cur[oi].contains(e.1));
                if oi == li + 1 {
                    assert(ls[li].contains(e.0) && ls[li + 1].contains(e.1));
                } else {
                    assert(ls[oi].contains(e.1) && ls[oi + 1].contains(e.0));
                }
            }
            if last_pos(other, e.0) >= 0 && last_pos(layer, e.1) == p {
                assert(layer.contains(e.1) && other.contains(e.0));
                assert(cur[li].contains(e.1) && cur[oi].contains(e.0));
                if oi == li + 1 {
                    assert(ls[li].contains(e.1) && ls[li + 1].contains(e.0));
                } else {
                    assert(ls[oi].contains(e.0) && ls[oi + 1].contains(e.1));
                }
            }
        }
        lemma_nb_append(layer, other, es, ex, p);
    }
    assert(layer_keys(cur, li, oi, es + ex, seen) =~= layer_keys(cur, li, oi, es, seen));
    if layer.len() > 1 {
        let keys = layer_keys(cur, li, oi, es, seen);
        let leq = |a: int, b: int| key_le(keys, a, b);
        let id = Seq::new(keys.len(), |i: int| i);
        lemma_key_le_total(keys);
        id.lemma_sort_by_ensures(leq);
        let sp = sorted_positions(keys);
        let nl = sp.map_values(|q: int| layer[q]);
        let r = reorder(cur, li, oi, es, seen);
        assert(r[li] == nl);
        assert forall|x: Seq<char>| #[trigger] nl.contains(x) <==> layer.contains(x) by {
            broadcast use vstd::seq_lib::group_to_multiset_ensures;
            if nl.contains(x) {
                let j = choose|j: int| 0 <= j < nl.len() && nl[j] == x;
                assert(sp.contains(sp[j]));
                assert(id.to_multiset().count(sp[j]) > 0);
                assert(id.contains(sp[j]));
                let q = choose|q: int| 0 <= q < id.len() && id[q] == sp[j];
                assert(layer[q] == x);
            }
            if layer.contains(x) {
                let q = choose|q: int| 0 <= q < layer.len() && layer[q] == x;
                assert(id[q] == q);
                assert(id.contains(q));
                assert(sp.to_multiset().count(q) > 0);
                assert(sp.contains(q));
                let j = choose|j: int| 0 <= j < sp.len() && sp[j] == q;
                assert(nl[j] == x);
            }
        }
        assert forall|i: int, x: Seq<char>| 0 <= i < r.len() implies (#[trigger] r[i].contains(x) <==> ls[i].contains(x)) by {
            if i == li {
                assert(nl.contains(x) <==> layer.contains(x));
            } else {
                assert(r[i] == cur[i]);
            }
        }
    }
}

proof fn lemma_sweeps_ignore(
    ls: Seq<Seq<Seq<char>>>,
    cur: Seq<Seq<Seq<char>>>,
    k: int,
    es: Seq<(Seq<char>, Seq<char>)>,
    ex: Seq<(Seq<char>, Seq<char>)>,
    seen: Seq<Seq<char>>,
)
    requires
        same_members(cur, ls),
        joins_no_adjacent(ls, ex),
        0 <= k < cur.len(),
    ensures
        sweep_down(cur, k, es + ex, seen) == sweep_down(cur, k, es, seen),
        same_members(sweep_down(cur, k, es, seen), ls),
        sweep_up(cur, k, es + ex, seen) == sweep_up(cur, k, es, seen),
        same_members(sweep_up(cur, k, es, seen), ls),
    decreases k,
{
    if k > 0 {
        lemma_sweeps_ignore(ls, cur, k - 1, es, ex, seen);
        lemma_down_len(cur, k - 1, es, seen);
        lemma_up_len(cur, k - 1, es, seen);
        lemma_reorder_ignores(ls, sweep_down(cur, k - 1, es, seen), k, k - 1, es, ex, seen);
        lemma_reorder_ignores(ls, sweep_up(cur, k - 1, es, seen), cur.len() - 1 - k, cur.len() - k, es, ex, seen);
    }
}

/// Crossing reduction keeps the members of every layer.
pub(crate) proof fn lemma_minimize_keeps_members(ls: Seq<Seq<Seq<char>>>, es: Seq<(Seq<char>, Seq<char>)>)
    ensures
        same_members(spec_minimize_crossings(ls, es), ls),
{
    if ls.len() > 0 {
        let seen = first_seen(ls);
        let n = ls.len() - 1;
        let none = Seq::<(Seq<char>, Seq<char>)>::empty();
        assert(joins_no_adjacent(ls, none));
        assert(same_members(ls, ls));
        lemma_sweeps_ignore(ls, ls, n, es, none, seen);
        let d1 = sweep_down(ls, n, es, seen);
        lemma_down_len(ls, n, es, seen);
        lemma_sweeps_ignore(ls, d1, n, es, none, seen);
        let r1 = round(ls, es, seen);
        lemma_up_len(d1, n, es, seen);
        lemma_sweeps_ignore(ls, r1, n, es, none, seen);
        let d2 = sweep_down(r1, n, es, seen);
        lemma_down_len(r1, n, es, seen);
        lemma_sweeps_ignore(ls, d2, n, es, none, seen);
    } else {
        assert(spec_minimize_crossings(ls, es) =~= ls);
    }
}

/// Crossing reduction only sees edges between adjacent layers: adding
/// edges that join no two adjacent layers leaves the result unchanged.
pub proof fn lemma_minimize_crossings_ignores(
    ls: Seq<Seq<Seq<char>>>,
    es: Seq<(Seq<char>, Seq<char>)>,
    ex: Seq<(Seq<char>, Seq<char>)>,
)
    requires
        joins_no_adjacent(ls, ex),
    ensures
        spec_minimize_crossings(ls, es + ex) == spec_minimize_crossings(ls, es),
{
    if ls.len() > 0 {
        let seen = first_seen(ls);
        let n = ls.len() - 1;
        assert(same_members(ls, ls));
        lemma_sweeps_ignore(ls, ls, n, es, ex, seen);
        let d1 = sweep_down(ls, n, es, seen);
        lemma_down_len(ls, n, es, seen);
        lemma_sweeps_ignore(ls, d1, n, es, ex, seen);
        let r1 = round(ls, es, seen);
        lemma_up_len(d1, n, es, seen);
        assert(r1 == sweep_up(d1, n, es, seen));
        lemma_sweeps_ignore(ls, r1, n, es, ex, seen);
        let d2 = sweep_down(r1, n, es, seen);
        lemma_down_len(r1, n, es, seen);
        lemma_sweeps_ignore(ls, d2, n, es, ex, seen);
    }
}

/// A bound on the number of edges (half the address space) that keeps every
/// neighbour count inside `usize` and every barycenter numerator inside
/// `u128`.
pub open spec fn within_limits(n_edges: int) -> bool {
    n_edges <= usize::MAX / 2
}

proof fn lemma_sum_step(sum: int, cnt: int, pos: int, k: int, m: int)
    requires
        0 <= sum <= cnt * 0xffff_ffff_ffff_ffff,
        0 <= cnt <= 2 * k + 1,
        0 <= pos <= usize::MAX,
        0 <= k < m,
        m <= usize::MAX / 2,
    ensures
        sum + pos <= (cnt + 1) * 0xffff_ffff_ffff_ffff,
        (cnt + 1) * 0xffff_ffff_ffff_ffff < 0x1_0000_0000_0000_0000_0000_0000_0000_0000,
        cnt + 1 <= 2 * (k + 1),
{
    assert(usize::MAX <= 0xffff_ffff_ffff_ffff);
    assert((cnt + 1) * 0xffff_ffff_ffff_ffff == cnt * 0xffff_ffff_ffff_ffff + 0xffff_ffff_ffff_ffff) by (nonlinear_arith);
    assert(cnt + 1 <= 0xffff_ffff_ffff_ffff);
    assert((cnt + 1) * 0xffff_ffff_ffff_ffff <= 0xffff_ffff_ffff_ffff * 0xffff_ffff_ffff_ffff) by (nonlinear_arith)
        requires
            0 <= cnt + 1 <= 0xffff_ffff_ffff_ffff,
    ;
}

/// Barycenter sum and neighbour count of position `p` of the layer.
fn neighbour_stats(
    p: usize,
    sl: &Vec<Option<usize>>,
    tl: &Vec<Option<usize>>,
    so: &Vec<Option<usize>>,
    to: &Vec<Option<usize>>,
    Ghost(layer): Ghost<Seq<Seq<char>>>,
    Ghost(other): Ghost<Seq<Seq<char>>>,
    Ghost(es): Ghost<Seq<(Seq<char>, Seq<char>)>>,
) -> (r: (u128, u128))
    requires
        es.len() <= usize::MAX / 2,
        sl.len() == es.len(),
        tl.len() == es.len(),
        so.len() == es.len(),
        to.len() == es.len(),
        forall|k: int| 0 <= k < es.len() ==> (match #[trigger] sl@[k] {
            Some(i) => i == last_pos(layer, es[k].0),
            None => last_pos(layer, es[k].0) == -1,
        }),
        forall|k: int| 0 <= k < es.len() ==> (match #[trigger] tl@[k] {
            Some(i) => i == last_pos(layer, es[k].1),
            None => last_pos(layer, es[k].1) == -1,
        }),
        forall|k: int| 0 <= k < es.len() ==> (match #[trigger] so@[k] {
            Some(i) => i == last_pos(other, es[k].0),
            None => last_pos(other, es[k].0) == -1,
        }),
        forall|k: int| 0 <= k < es.len() ==> (match #[trigger] to@[k] {
            Some(i) => i == last_pos(other, es[k].1),
            None => last_pos(other, es[k].1) == -1,
        }),
    ensures
        r.0 == nb_sum(layer, other, es, p as int),
        r.1 == nb_cnt(layer, other, es, p as int),
        r.1 <= 2 * es.len(),
{
    let mut sum: u128 = 0;
    let mut cnt: u128 = 0;
    let mut k: usize = 0;
    while k < sl.len()
        invariant
            k <= es.len(),
            es.len() <= usize::MAX / 2,
            sl.len() == es.len(),
            tl.len() == es.len(),
            so.len() == es.len(),
            to.len() == es.len(),
            forall|k: int| 0 <= k < es.len() ==> (match #[trigger] sl@[k] {
                Some(i) => i == last_pos(layer, es[k].0),
                None => last_pos(layer, es[k].0) == -1,
            }),
            forall|k: int| 0 <= k < es.len() ==> (match #[trigger] tl@[k] {
                Some(i) => i == last_pos(layer, es[k].1),
                None => last_pos(layer, es[k].1) == -1,
            }),
            forall|k: int| 0 <= k < es.len() ==> (match #[trigger] so@[k] {
                Some(i) => i == last_pos(other, es[k].0),
                None => last_pos(other, es[k].0) == -1,
            }),
            forall|k: int| 0 <= k < es.len() ==> (match #[trigger] to@[k] {
                Some(i) => i == last_pos(other, es[k].1),
                None => last_pos(other, es[k].1) == -1,
            }),
            sum == nb_sum(layer, other, es.take(k as int), p as int),
            cnt == nb_cnt(layer, other, es.take(k as int), p as int),
            sum <= cnt * 0xffff_ffff_ffff_ffff,
            cnt <= 2 * k,
        decreases es.len() - k,
    {
        let ghost t = es.take(k + 1);
        assert(t.drop_last() =~= es.take(k as int));
        assert(t.last() == es[k as int]);
        proof {
            lemma_last_pos_range(other, es[k as int].0);
            lemma_last_pos_range(other, es[k as int].1);
        }
        match (sl[k], to[k]) {
            (Some(sp), Some(tp)) => {
                if sp == p {
                    proof {
                        lemma_sum_step(sum as int, cnt as int, tp as int, k as int, es.len() as int);
                    }
                    sum = sum + tp as u128;
                    cnt = cnt + 1;
                }
            }
            _ => {}
        }
        match (so[k], tl[k]) {
            (Some(sp), Some(tp)) => {
                if tp == p {
                    proof {
                        lemma_sum_step(sum as int, cnt as int, sp as int, k as int, es.len() as int);
                    }
                    sum = sum + sp as u128;
                    cnt = cnt + 1;
                }
            }
            _ => {}
        }
        k = k + 1;
    }
    assert(es.take(es.len() as int) =~= es);
    (sum, cnt)
}

/// The positions `0..n` sorted by their keys (an insertion sort), with
/// the items at those positions taken along: they come out in the order of
/// [`sorted_positions`], each item as often as before.
pub(crate) fn sort_positions<T>(keys: &Vec<(u128, u128, usize)>, Ghost(gk): Ghost<Seq<(int, int, int)>>, Ghost(layer): Ghost<Seq<T>>) -> (perm: Vec<usize>)
    requires
        keys@.len() == gk.len(),
        layer.len() == gk.len(),
        forall|q: int| 0 <= q < keys@.len() ==> 1 <= (#[trigger] keys@[q]).1 <= 0xffff_ffff_ffff_ffff,
        forall|q: int| 0 <= q < keys@.len() ==> #[trigger] key_at(gk, q) == (keys@[q].0 as int, keys@[q].1 as int, keys@[q].2 as int),
    ensures
        perm@.len() == keys@.len(),
        forall|q: int| 0 <= q < perm@.len() ==> #[trigger] perm@[q] < keys@.len(),
        perm@.map_values(|v: usize| v as int) == sorted_positions(gk),
        perm@.map_values(|v: usize| layer[v as int]).to_multiset() == layer.to_multiset(),
{
    let n = keys.len();
    let ghost leq = |a: int, b: int| key_le(gk, a, b);
    proof {
        lemma_key_le_total(gk);
    }
    let mut perm: Vec<usize> = Vec::new();
    let ghost mut out: Seq<T> = Seq::empty();
    let mut i: usize = 0;
    assert(perm@.map_values(|v: usize| v as int) =~= Seq::<int>::empty());
    assert(Seq::new(0 as nat, |x: int| x) =~= Seq::<int>::empty());
    assert(layer.take(0) =~= Seq::<T>::empty());
    assert(out =~= perm@.map_values(|v: usize| layer[v as int]));
    while i < n
        invariant
            i <= n,
            n == layer.len(),
            n == keys.len(),
            n == gk.len(),
            total_ordering(leq),
            leq == (|a: int, b: int| key_le(gk, a, b)),
            forall|q: int| 0 <= q < n ==> 1 <= (#[trigger] keys@[q]).1 <= 0xffff_ffff_ffff_ffff,
            forall|q: int| 0 <= q < n ==> #[trigger] key_at(gk, q) == (keys@[q].0 as int, keys@[q].1 as int, keys@[q].2 as int),
            perm.len() == i,
            forall|m: int| 0 <= m < i ==> #[trigger] perm@[m] < i,
            forall|x: int, y: int| 0 <= x < y < i ==> key_le(gk, #[trigger] perm@[x] as int, #[trigger] perm@[y] as int),
            perm@.map_values(|v: usize| v as int).to_multiset() == Seq::new(i as nat, |x: int| x).to_multiset(),
            out == perm@.map_values(|v: usize| layer[v as int]),
            out.to_multiset() == layer.take(i as int).to_multiset(),
        decreases n - i,
    {
        let mut j: usize = 0;
        while j < perm.len() && exec_key_le(keys[perm[j]], perm[j], keys[i], i)
            invariant
                j <= perm.len(),
                perm.len() == i,
                i < n,
                n == keys.len(),
                forall|m: int| 0 <= m < i ==> #[trigger] perm@[m] < i,
                forall|q: int| 0 <= q < n ==> 1 <= (#[trigger] keys@[q]).1 <= 0xffff_ffff_ffff_ffff,
                forall|q: int| 0 <= q < n ==> #[trigger] key_at(gk, q) == (keys@[q].0 as int, keys@[q].1 as int, keys@[q].2 as int),
                forall|m: int| 0 <= m < j ==> key_le(gk, #[trigger] perm@[m] as int, i as int),
            decreases perm.len() - j,
        {
            assert(key_at(gk, perm@[j as int] as int) == (keys@[perm@[j as int] as int].0 as int, keys@[perm@[j as int] as int].1 as int, keys@[perm@[j as int] as int].2 as int));
            assert(key_at(gk, i as int) == (keys@[i as int].0 as int, keys@[i as int].1 as int, keys@[i as int].2 as int));
            j = j + 1;
        }
        if j < perm.len() {
            assert(key_at(gk, perm@[j as int] as int) == (keys@[perm@[j as int] as int].0 as int, keys@[perm@[j as int] as int].1 as int, keys@[perm@[j as int] as int].2 as int));
            assert(key_at(gk, i as int) == (keys@[i as int].0 as int, keys@[i as int].1 as int, keys@[i as int].2 as int));
            assert(!key_le(gk, perm@[j as int] as int, i as int));
            assert(leq(perm@[j as int] as int, i as int) || leq(i as int, perm@[j as int] as int));
            assert(key_le(gk, i as int, perm@[j as int] as int));
        }
        let ghost old_perm = perm@;
        let ghost old_out = out;
        perm.insert(j, i);
        proof {
            old_perm.insert_ensures(j as int, i);
            let pi = old_perm.map_values(|v: usize| v as int);
            assert(perm@.map_values(|v: usize| v as int) =~= pi.insert(j as int, i as int));
            lemma_insert_multiset(pi, j as int, i as int);
            assert(Seq::new((i + 1) as nat, |x: int| x) =~= Seq::new(i as nat, |x: int| x).push(i as int));
            Seq::new(i as nat, |x: int| x).to_multiset_ensures();
            out = perm@.map_values(|v: usize| layer[v as int]);
            assert(out =~= old_out.insert(j as int, layer[i as int]));
            lemma_insert_multiset(old_out, j as int, layer[i as int]);
            assert(layer.take(i + 1) =~= layer.take(i as int).push(layer[i as int]));
            layer.take(i as int).to_multiset_ensures();
            assert forall|x: int, y: int| 0 <= x < y < i + 1 implies key_le(gk, #[trigger] perm@[x] as int, #[trigger] perm@[y] as int) by {
                if y < j {
                } else if y == j {
                } else if x < j {
                    // perm[x] <= i < perm[y]
                    if y - 1 > j {
                        assert(leq(i as int, old_perm[j as int] as int));
                        assert(leq(old_perm[j as int] as int, old_perm[y - 1] as int));
                    }
                    assert(leq(i as int, perm@[y] as int));
                    assert(leq(perm@[x] as int, i as int));
                } else if x == j {
                    if y - 1 > j {
                        assert(leq(old_perm[j as int] as int, old_perm[y - 1] as int));
                    }
                } else {
                    assert(perm@[x] == old_perm[x - 1]);
                    assert(perm@[y] == old_perm[y - 1]);
                }
            }
        }
        i = i + 1;
    }

    // The sorted order is the unique one.
    let ghost sorted = sorted_positions(gk);
    proof {
        let pi = perm@.map_values(|v: usize| v as int);
        let base = Seq::new(n as nat, |x: int| x);
        base.lemma_sort_by_ensures(leq);
        assert(sorted_by(pi, leq));
        assert(base.sort_by(leq) == sorted);
        lemma_sorted_unique(pi, sorted, leq);
        assert(layer.take(n as int) =~= layer);
    }

    proof {
        assert(layer.take(n as int) =~= layer);
    }
    perm
}

/// Reorders layer `layer_idx` of `cur` by the barycenter of each node's
/// neighbours in layer `other_idx`.
fn reorder_by_neighbors(
    cur: &mut Vec<Vec<NodeId>>,
    layer_idx: usize,
    other_idx: usize,
    edges: &[LayerEdge],
    seen: &Vec<NodeId>,
)
    requires
        layer_idx < old(cur).len(),
        other_idx < old(cur).len(),
        within_limits(edges@.len() as int),
    ensures
        layers_view(final(cur)@) == reorder(
            layers_view(old(cur)@),
            layer_idx as int,
            other_idx as int,
            edges_view(edges@),
            layer_view(seen@),
        ),
        final(cur)@.len() == old(cur)@.len(),
        forall|i: int| 0 <= i < old(cur)@.len() ==>
            (#[trigger] layers_view(final(cur)@)[i]).to_multiset() == layers_view(old(cur)@)[i].to_multiset(),
{
    let ghost cv = layers_view(cur@);
    let ghost es = edges_view(edges@);
    let ghost sv = layer_view(seen@);
    let n = cur[layer_idx].len();
    if n <= 1 {
        return;
    }
    let ghost layer = cv[layer_idx as int];
    let ghost other = cv[other_idx as int];
    assert(layer == layer_view(cur@[layer_idx as int]@));
    assert(other == layer_view(cur@[other_idx as int]@));

    // Positions of every edge end in the two layers.
    let mut sl: Vec<Option<usize>> = Vec::new();
    let mut tl: Vec<Option<usize>> = Vec::new();
    let mut so: Vec<Option<usize>> = Vec::new();
    let mut to: Vec<Option<usize>> = Vec::new();
    let mut k: usize = 0;
    while k < edges.len()
        invariant
            k <= edges.len(),
            es == edges_view(edges@),
            layer == layer_view(cur@[layer_idx as int]@),
            other == layer_view(cur@[other_idx as int]@),
            layer_idx < cur.len(),
            other_idx < cur.len(),
            sl.len() == k,
            tl.len() == k,
            so.len() == k,
            to.len() == k,
            forall|k: int| 0 <= k < sl.len() ==> (match #[trigger] sl@[k] {
                Some(i) => i == last_pos(layer, es[k].0),
                None => last_pos(layer, es[k].0) == -1,
            }),
            forall|k: int| 0 <= k < tl.len() ==> (match #[trigger] tl@[k] {
                Some(i) => i == last_pos(layer, es[k].1),
                None => last_pos(layer, es[k].1) == -1,
            }),
            forall|k: int| 0 <= k < so.len() ==> (match #[trigger] so@[k] {
                Some(i) => i == last_pos(other, es[k].0),
                None => last_pos(other, es[k].0) == -1,
            }),
            forall|k: int| 0 <= k < to.len() ==> (match #[trigger] to@[k] {
                Some(i) => i == last_pos(other, es[k].1),
                None => last_pos(other, es[k].1) == -1,
            }),
        decreases edges.len() - k,
    {
        let e = &edges[k];
        assert(es[k as int] == (e.source@, e.target@));
        sl.push(find_last(&cur[layer_idx], &e.source));
        tl.push(find_last(&cur[layer_idx], &e.target));
        so.push(find_last(&cur[other_idx], &e.source));
        to.push(find_last(&cur[other_idx], &e.target));
        k = k + 1;
    }

    // Sort keys of every position.
    let ghost gk = layer_keys(cv, layer_idx as int, other_idx as int, es, sv);
    let mut keys: Vec<(u128, u128, usize)> = Vec::new();
    let mut p: usize = 0;
    while p < n
        invariant
            p <= n,
            n == layer.len(),
            gk == layer_keys(cv, layer_idx as int, other_idx as int, es, sv),
            cv == layers_view(cur@),
            layer == cv[layer_idx as int],
            other == cv[other_idx as int],
            layer == layer_view(cur@[layer_idx as int]@),
            layer_idx < cur.len(),
            other_idx < cur.len(),
            sv == layer_view(seen@),
            es.len() <= usize::MAX / 2,
            sl.len() == es.len(),
            tl.len() == es.len(),
            so.len() == es.len(),
            to.len() == es.len(),
            forall|k: int| 0 <= k < es.len() ==> (match #[trigger] sl@[k] {
                Some(i) => i == last_pos(layer, es[k].0),
                None => last_pos(layer, es[k].0) == -1,
            }),
            forall|k: int| 0 <= k < es.len() ==> (match #[trigger] tl@[k] {
                Some(i) => i == last_pos(layer, es[k].1),
                None => last_pos(layer, es[k].1) == -1,
            }),
            forall|k: int| 0 <= k < es.len() ==> (match #[trigger] so@[k] {
                Some(i) => i == last_pos(other, es[k].0),
                None => last_pos(other, es[k].0) == -1,
            }),
            forall|k: int| 0 <= k < es.len() ==> (match #[trigger] to@[k] {
                Some(i) => i == last_pos(other, es[k].1),
                None => last_pos(other, es[k].1) == -1,
            }),
            keys.len() == p,
            forall|q: int| 0 <= q < p ==> 1 <= (#[trigger] keys@[q]).1 <= 0xffff_ffff_ffff_ffff,
            forall|q: int| 0 <= q < p ==> #[trigger] key_at(gk, q) == (keys@[q].0 as int, keys@[q].1 as int, keys@[q].2 as int),
        decreases n - p,
    {
        let (sum, cnt) = neighbour_stats(p, &sl, &tl, &so, &to, Ghost(layer), Ghost(other), Ghost(es));
        let app = match find_last(seen, &cur[layer_idx][p]) {
            Some(a) => a,
            None => p,
        };
        proof {
            lemma_last_pos_range(sv, layer[p as int]);
        }
        assert(usize::MAX <= 0xffff_ffff_ffff_ffff);
        let key = if cnt > 0 { (sum, cnt, app) } else { (p as u128, 1u128, app) };
        keys.push(key);
        assert(gk[p as int] == pos_key(cv, layer_idx as int, other_idx as int, es, sv, p as int));
        p = p + 1;
    }

    // Insertion sort of the positions by key.
    let perm = sort_positions::<Seq<char>>(&keys, Ghost(gk), Ghost(layer));
    let ghost sorted = sorted_positions(gk);
    let ghost out = perm@.map_values(|v: usize| layer[v as int]);
    proof {
        assert(layer.take(n as int) =~= layer);
    }

    let mut new_layer: Vec<NodeId> = Vec::new();
    let mut m: usize = 0;
    while m < n
        invariant
            m <= n,
            perm.len() == n,
            n == layer.len(),
            layer == layer_view(cur@[layer_idx as int]@),
            layer_idx < cur.len(),
            forall|q: int| 0 <= q < n ==> #[trigger] perm@[q] < n,
            new_layer.len() == m,
            forall|q: int| 0 <= q < m ==> #[trigger] new_layer@[q]@ == layer[perm@[q] as int],
        decreases n - m,
    {
        let s = cur[layer_idx][perm[m]].clone();
        new_layer.push(s);
        m = m + 1;
    }
    proof {
        assert(layer_view(new_layer@) =~= out);
        assert(out =~= sorted.map_values(|p: int| layer[p]));
    }
    cur.set(layer_idx, new_layer);
    proof {
        assert(layers_view(cur@) =~= cv.update(layer_idx as int, sorted.map_values(|p: int| layer[p])));
    }
}

/// A copy of one layer.
fn copy_layer(l: &Vec<NodeId>) -> (r: Vec<NodeId>)
    ensures
        layer_view(r@) == layer_view(l@),
{
    let mut r: Vec<NodeId> = Vec::new();
    let mut j: usize = 0;
    while j < l.len()
        invariant
            j <= l.len(),
            r.len() == j,
            forall|q: int| 0 <= q < j ==> #[trigger] r@[q]@ == l@[q]@,
        decreases l.len() - j,
    {
        r.push(l[j].clone());
        j = j + 1;
    }
    assert(layer_view(r@) =~= layer_view(l@));
    r
}

/// The distinct ids of `layers` in order of first appearance.
fn collect_first_seen(layers: &[Vec<NodeId>]) -> (seen: Vec<NodeId>)
    ensures
        layer_view(seen@) == first_seen(layers_view(layers@)),
{
    let ghost lv = layers_view(layers@);
    let mut seen: Vec<NodeId> = Vec::new();
    let mut i: usize = 0;
    assert(lv.take(0) =~= Seq::<Seq<Seq<char>>>::empty());
    assert(layer_view(seen@) =~= Seq::<Seq<char>>::empty());
    while i < layers.len()
        invariant
            i <= layers.len(),
            lv == layers_view(layers@),
            layer_view(seen@) == first_seen(lv.take(i as int)),
        decreases layers.len() - i,
    {
        let ghost base = first_seen(lv.take(i as int));
        let ghost t = lv[i as int];
        assert(t == layer_view(layers@[i as int]@));
        let mut j: usize = 0;
        assert(t.take(0) =~= Seq::<Seq<char>>::empty());
        while j < layers[i].len()
            invariant
                i < layers.len(),
                j <= layers@[i as int]@.len(),
                t == layer_view(layers@[i as int]@),
                layer_view(seen@) == dedup_into(base, t.take(j as int)),
            decreases layers@[i as int]@.len() - j,
        {
            let ghost tj = t.take(j + 1);
            assert(tj.drop_last() =~= t.take(j as int));
            assert(tj.last() == layers@[i as int]@[j as int]@);
            let found = find_last(&seen, &layers[i][j]);
            proof {
                lemma_last_pos_range(layer_view(seen@), layers@[i as int]@[j as int]@);
            }
            if found.is_none() {
                seen.push(layers[i][j].clone());
                assert(layer_view(seen@) =~= dedup_into(base, t.take(j as int)).push(tj.last()));
            } else {
                assert(layer_view(seen@).contains(tj.last()));
            }
            j = j + 1;
        }
        assert(t.take(t.len() as int) =~= t);
        let ghost ti = lv.take(i + 1);
        assert(ti.drop_last() =~= lv.take(i as int));
        assert(ti.last() == t);
        i = i + 1;
    }
    assert(lv.take(lv.len() as int) =~= lv);
    seen
}

proof fn lemma_sweeps_keep_len_full(cur: Seq<Seq<Seq<char>>>, es: Seq<(Seq<char>, Seq<char>)>, seen: Seq<Seq<char>>)
    requires
        cur.len() > 0,
    ensures
        round(cur, es, seen).len() == cur.len(),
{
    lemma_down_len(cur, cur.len() - 1, es, seen);
    let d = sweep_down(cur, cur.len() - 1, es, seen);
    lemma_up_len(d, cur.len() - 1, es, seen);
}

proof fn lemma_down_len(cur: Seq<Seq<Seq<char>>>, k: int, es: Seq<(Seq<char>, Seq<char>)>, seen: Seq<Seq<char>>)
    requires
        k < cur.len(),
    ensures
        sweep_down(cur, k, es, seen).len() == cur.len(),
    decreases k,
{
    if k > 0 {
        lemma_down_len(cur, k - 1, es, seen);
    }
}

proof fn lemma_up_len(cur: Seq<Seq<Seq<char>>>, k: int, es: Seq<(Seq<char>, Seq<char>)>, seen: Seq<Seq<char>>)
    requires
        k < cur.len(),
    ensures
        sweep_up(cur, k, es, seen).len() == cur.len(),
    decreases k,
{
    if k > 0 {
        lemma_up_len(cur, k - 1, es, seen);
    }
}

/// Crossing reduction: returns `layers` with the order inside each layer
/// rearranged by two rounds of barycenter sweeps (top-down then bottom-up).
///
/// `edges` may join any two nodes; an edge only counts between the two layers
/// that hold its ends. The set of nodes of every layer is unchanged.
pub fn minimize_crossings(layers: &[Vec<NodeId>], edges: &[LayerEdge]) -> (r: Vec<Vec<NodeId>>)
    requires
        within_limits(edges@.len() as int),
    ensures
        layers_view(r@) == spec_minimize_crossings(layers_view(layers@), edges_view(edges@)),
        r@.len() == layers@.len(),
        forall|i: int| 0 <= i < layers@.len() ==>
            (#[trigger] layers_view(r@)[i]).to_multiset() == layers_view(layers@)[i].to_multiset(),
{
    let ghost lv = layers_view(layers@);
    let ghost es = edges_view(edges@);
    if layers.len() == 0 {
        let r: Vec<Vec<NodeId>> = Vec::new();
        assert(layers_view(r@) =~= Seq::<Seq<Seq<char>>>::empty());
        return r;
    }
    let n_layers = layers.len();
    let seen = collect_first_seen(layers);
    let ghost sv = layer_view(seen@);

    let mut cur: Vec<Vec<NodeId>> = Vec::new();
    let mut i: usize = 0;
    while i < n_layers
        invariant
            i <= n_layers,
            n_layers == layers@.len(),
            lv == layers_view(layers@),
            cur@.len() == i,
            forall|q: int| 0 <= q < i ==> #[trigger] layer_view(cur@[q]@) == lv[q],
        decreases n_layers - i,
    {
        cur.push(copy_layer(&layers[i]));
        i = i + 1;
    }
    assert(layers_view(cur@) =~= lv);

    let mut r: usize = 0;
    while r < 4
        invariant
            r <= 4,
            n_layers == lv.len(),
            n_layers >= 1,
            es == edges_view(edges@),
            sv == first_seen(lv),
            sv == layer_view(seen@),
            within_limits(edges@.len() as int),
            layers_view(cur@) == (if r == 0 { lv } else if r == 1 { sweep_down(lv, n_layers - 1, es, sv) }
                else if r == 2 { round(lv, es, sv) }
                else if r == 3 { sweep_down(round(lv, es, sv), n_layers - 1, es, sv) }
                else { round(round(lv, es, sv), es, sv) }),
            cur@.len() == n_layers,
            forall|q: int| 0 <= q < n_layers ==>
                (#[trigger] layers_view(cur@)[q]).to_multiset() == lv[q].to_multiset(),
        decreases 4 - r,
    {
        let ghost start = layers_view(cur@);
        if r % 2 == 0 {
            let mut k: usize = 1;
            while k < n_layers
                invariant
                    1 <= k <= n_layers,
                    n_layers == start.len(),
                    es == edges_view(edges@),
                    sv == layer_view(seen@),
                    within_limits(edges@.len() as int),
                    layers_view(cur@) == sweep_down(start, k - 1, es, sv),
                    cur@.len() == n_layers,
                    forall|q: int| 0 <= q < n_layers ==>
                        (#[trigger] layers_view(cur@)[q]).to_multiset() == start[q].to_multiset(),
                decreases n_layers - k,
            {
                reorder_by_neighbors(&mut cur, k, k - 1, edges, &seen);
                k = k + 1;
            }
        } else {
            let mut k: usize = 1;
            while k < n_layers
                invariant
                    1 <= k <= n_layers,
                    n_layers == start.len(),
                    es == edges_view(edges@),
                    sv == layer_view(seen@),
                    within_limits(edges@.len() as int),
                    layers_view(cur@) == sweep_up(start, k - 1, es, sv),
                    cur@.len() == n_layers,
                    forall|q: int| 0 <= q < n_layers ==>
                        (#[trigger] layers_view(cur@)[q]).to_multiset() == start[q].to_multiset(),
                decreases n_layers - k,
            {
                reorder_by_neighbors(&mut cur, n_layers - 1 - k, n_layers - k, edges, &seen);
                k = k + 1;
            }
        }
        proof {
            lemma_sweeps_keep_len_full(lv, es, sv);
        }
        r = r + 1;
    }
    cur
}

} // verus!
