//! State diagram layout engine.

use vstd::prelude::*;

use crate::ast::{State, StateDiagram, Transition};
use crate::builder::layout::convert::{from_id, marker_string, to_id};
use crate::builder::layout::crossing::{find_last, last_pos, layer_view, lemma_last_pos_range};

verus! {

// ---------------------------------------------------------------------------
// Topological order of the states (Kahn's algorithm)
// ---------------------------------------------------------------------------

/// Lowers the count of each target in `ts` by one, in order; a target whose
/// count drops from 1 to 0 joins the queue. (A count already at 0 stays.)
pub open spec fn relax(deg: Seq<int>, q: Seq<usize>, ts: Seq<usize>) -> (Seq<int>, Seq<usize>)
    decreases ts.len(),
{
    if ts.len() == 0 {
        (deg, q)
    } else {
        let r = relax(deg, q, ts.drop_last());
        let t = ts.last() as int;
        let d = r.0[t];
        (r.0.update(t, if d > 0 { d - 1 } else { 0 }), if d == 1 { r.1.push(ts.last()) } else { r.1 })
    }
}

/// The queue after taking the nodes from position `h` on, each one relaxing
/// its targets (at most `fuel` of them).
pub open spec fn kahn(deg: Seq<int>, q: Seq<usize>, h: int, out: Seq<Seq<usize>>, fuel: nat) -> Seq<usize>
    decreases fuel,
{
    if fuel == 0 || h >= q.len() || h < 0 {
        q
    } else {
        let r = relax(deg, q, out[q[h] as int]);
        kahn(r.0, r.1, h + 1, out, (fuel - 1) as nat)
    }
}

/// The nodes among `0..k` whose count is 0, in order.
pub open spec fn zero_nodes(deg: Seq<int>, k: int) -> Seq<usize>
    decreases k,
{
    if k <= 0 {
        Seq::empty()
    } else {
        let r = zero_nodes(deg, k - 1);
        if deg[k - 1] == 0 { r.push((k - 1) as usize) } else { r }
    }
}

/// The nodes among `0..k` that `q` does not hold, in order.
pub open spec fn missing(q: Seq<usize>, k: int) -> Seq<usize>
    decreases k,
{
    if k <= 0 {
        Seq::empty()
    } else {
        let r = missing(q, k - 1);
        if q.contains((k - 1) as usize) { r } else { r.push((k - 1) as usize) }
    }
}

/// Number of times `v` occurs in `ts`.
pub open spec fn count_of(ts: Seq<usize>, v: int) -> int
    decreases ts.len(),
{
    if ts.len() == 0 {
        0
    } else {
        count_of(ts.drop_last(), v) + if ts.last() as int == v { 1int } else { 0int }
    }
}

/// Number of edges into `v` over the lists of nodes `0..k`.
pub open spec fn edges_into(out: Seq<Seq<usize>>, k: int, v: int) -> int
    decreases k,
{
    if k <= 0 {
        0
    } else {
        edges_into(out, k - 1, v) + count_of(out[k - 1], v)
    }
}

/// The in-degrees as integers.
pub open spec fn deg_view(d: Seq<usize>) -> Seq<int> {
    d.map_values(|x: usize| x as int)
}

/// The adjacency lists as sequences.
pub open spec fn out_view(out: Seq<Vec<usize>>) -> Seq<Seq<usize>> {
    out.map_values(|a: Vec<usize>| a@)
}

/// The order in which Kahn's algorithm takes the nodes: first those with
/// in-degree 0 in index order, then each node whose in-degree drops to 0 as
/// the nodes before it are taken.
pub open spec fn kahn_order(in_degree: Seq<int>, out: Seq<Seq<usize>>) -> Seq<usize> {
    let n = in_degree.len() as int;
    kahn(in_degree, zero_nodes(in_degree, n), 0, out, (n + 1) as nat)
}

/// Kahn's order, followed by the nodes it never reaches (on cycles or
/// behind them) in index order.
pub open spec fn spec_topological_sort(in_degree: Seq<int>, out: Seq<Seq<usize>>) -> Seq<usize> {
    let k = kahn_order(in_degree, out);
    k + missing(k, in_degree.len() as int)
}

/// The queue invariant: it holds each node at most once, exactly the nodes
/// whose count is 0, all in `0..n`.
pub open spec fn queue_inv(deg: Seq<int>, q: Seq<usize>) -> bool {
    &&& deg.len() <= usize::MAX
    &&& q.no_duplicates()
    &&& forall|i: int| 0 <= i < q.len() ==> (#[trigger] q[i] as int) < deg.len()
    &&& forall|v: int| 0 <= v < deg.len() ==> (q.contains(v as usize) <==> #[trigger] deg[v] == 0)
    &&& forall|v: int| 0 <= v < deg.len() ==> #[trigger] deg[v] >= 0
}

/// Adjacency lists of `n` nodes, with targets in `0..n`.
pub open spec fn out_wf(out: Seq<Seq<usize>>, n: int) -> bool {
    &&& out.len() == n
    &&& forall|u: int, i: int| 0 <= u < n && 0 <= i < out[u].len() ==> (#[trigger] out[u][i] as int) < n
}

pub proof fn lemma_relax_inv(deg: Seq<int>, q: Seq<usize>, ts: Seq<usize>)
    requires
        queue_inv(deg, q),
        forall|i: int| 0 <= i < ts.len() ==> (#[trigger] ts[i] as int) < deg.len(),
    ensures
        queue_inv(relax(deg, q, ts).0, relax(deg, q, ts).1),
        relax(deg, q, ts).0.len() == deg.len(),
        q.is_prefix_of(relax(deg, q, ts).1),
    decreases ts.len(),
{
    if ts.len() > 0 {
        let t2 = ts.drop_last();
        assert forall|i: int| 0 <= i < t2.len() implies (#[trigger] t2[i] as int) < deg.len() by {
            assert(t2[i] == ts[i]);
        }
        lemma_relax_inv(deg, q, t2);
        let r = relax(deg, q, t2);
        let t = ts.last() as int;
        assert(ts.last() == ts[ts.len() - 1]);
        let d = r.0[t];
        let nd = r.0.update(t, if d > 0 { d - 1 } else { 0 });
        let nq = if d == 1 { r.1.push(ts.last()) } else { r.1 };
        if d == 1 {
            assert(!r.1.contains(t as usize));
            assert forall|v: int| 0 <= v < deg.len() implies (nq.contains(v as usize) <==> #[trigger] nd[v] == 0) by {
                if nq.contains(v as usize) && v != t {
                    let i = choose|i: int| 0 <= i < nq.len() && nq[i] == v as usize;
                    assert(r.1[i] == v as usize);
                }
                if r.1.contains(v as usize) {
                    let i = choose|i: int| 0 <= i < r.1.len() && r.1[i] == v as usize;
                    assert(nq[i] == v as usize);
                }
                if v == t {
                    assert(nq[r.1.len() as int] == v as usize);
                }
            }
            assert forall|i: int, j: int| 0 <= i < j < nq.len() implies nq[i] != nq[j] by {
                if j == r.1.len() {
                    assert(nq[i] == r.1[i]);
                    assert(r.1.contains(nq[i]));
                }
            }
            assert forall|i: int| 0 <= i < nq.len() implies (#[trigger] nq[i] as int) < deg.len() by {
                if i < r.1.len() {
                    assert(nq[i] == r.1[i]);
                }
            }
            assert(q.is_prefix_of(nq)) by {
                assert forall|i: int| 0 <= i < q.len() implies q[i] == nq[i] by {
                    assert(q[i] == r.1[i]);
                }
            }
        } else {
            assert forall|v: int| 0 <= v < deg.len() implies (nq.contains(v as usize) <==> #[trigger] nd[v] == 0) by {
                if v == t {
                    assert(r.0[t] == 0 ==> nd[t] == 0);
                }
            }
        }
    }
}

pub proof fn lemma_zero_nodes(deg: Seq<int>, k: int)
    requires
        0 <= k <= deg.len(),
        deg.len() <= usize::MAX,
    ensures
        zero_nodes(deg, k).no_duplicates(),
        forall|i: int| 0 <= i < zero_nodes(deg, k).len() ==> (#[trigger] zero_nodes(deg, k)[i] as int) < k,
        forall|v: int| 0 <= v < k ==> (zero_nodes(deg, k).contains(v as usize) <==> #[trigger] deg[v] == 0),
    decreases k,
{
    if k > 0 {
        lemma_zero_nodes(deg, k - 1);
        let r = zero_nodes(deg, k - 1);
        let x = (k - 1) as usize;
        if deg[k - 1] == 0 {
            let z = r.push(x);
            assert forall|i: int| 0 <= i < z.len() implies (#[trigger] z[i] as int) < k by {
                if i < r.len() {
                    assert(z[i] == r[i]);
                }
            }
            assert forall|v: int| 0 <= v < k implies (z.contains(v as usize) <==> #[trigger] deg[v] == 0) by {
                if r.contains(v as usize) {
                    let i = choose|i: int| 0 <= i < r.len() && r[i] == v as usize;
                    assert(z[i] == v as usize);
                }
                if z.contains(v as usize) && v != k - 1 {
                    let i = choose|i: int| 0 <= i < z.len() && z[i] == v as usize;
                    assert(r[i] == v as usize);
                }
                if v == k - 1 {
                    assert(z[r.len() as int] == x);
                }
            }
            assert forall|i: int, j: int| 0 <= i < j < z.len() implies z[i] != z[j] by {
                if j == r.len() {
                    assert(z[i] == r[i]);
                }
            }
        }
    }
}

proof fn lemma_missing(q: Seq<usize>, k: int)
    requires
        0 <= k <= usize::MAX,
    ensures
        missing(q, k).no_duplicates(),
        forall|i: int| 0 <= i < missing(q, k).len() ==> (#[trigger] missing(q, k)[i] as int) < k,
        forall|i: int| 0 <= i < missing(q, k).len() ==> !q.contains(#[trigger] missing(q, k)[i]),
        forall|v: int| 0 <= v < k && !q.contains(v as usize) ==> #[trigger] missing(q, k).contains(v as usize),
    decreases k,
{
    if k > 0 {
        lemma_missing(q, k - 1);
        let r = missing(q, k - 1);
        let x = (k - 1) as usize;
        if !q.contains(x) {
            let z = r.push(x);
            assert forall|i: int| 0 <= i < z.len() implies (#[trigger] z[i] as int) < k && !q.contains(z[i]) by {
                if i < r.len() {
                    assert(z[i] == r[i]);
                }
            }
            assert forall|v: int| 0 <= v < k && !q.contains(v as usize) implies #[trigger] z.contains(v as usize) by {
                if v < k - 1 {
                    assert(r.contains(v as usize));
                    let i = choose|i: int| 0 <= i < r.len() && r[i] == v as usize;
                    assert(z[i] == v as usize);
                } else {
                    assert(z[r.len() as int] == x);
                }
            }
            assert forall|i: int, j: int| 0 <= i < j < z.len() implies z[i] != z[j] by {
                if j == r.len() {
                    assert(z[i] == r[i]);
                }
            }
        }
    }
}

/// Layout engine of a state diagram.
pub struct StateEngine<'a> {
    diagram: &'a StateDiagram,
}

impl<'a> StateEngine<'a> {
    /// The diagram this engine lays out.
    pub closed spec fn diagram(&self) -> &'a StateDiagram {
        self.diagram
    }

    /// An engine for `diagram`.
    pub fn new(diagram: &'a StateDiagram) -> (e: Self)
        ensures
            e.diagram() == diagram,
    {
        Self { diagram }
    }
}

pub proof fn lemma_distinct_len(q: Seq<usize>, n: int)
    requires
        q.no_duplicates(),
        0 <= n,
        forall|i: int| 0 <= i < q.len() ==> (#[trigger] q[i] as int) < n,
    ensures
        q.len() <= n,
{
    let qi = q.map_values(|x: usize| x as int);
    assert forall|i: int, j: int| 0 <= i < j < qi.len() implies qi[i] != qi[j] by {
        assert(q[i] != q[j]);
    }
    assert(qi.no_duplicates());
    qi.unique_seq_to_set();
    vstd::set_lib::lemma_int_range(0, n);
    assert forall|x: int| qi.to_set().contains(x) implies vstd::set_lib::set_int_range(0, n).contains(x) by {
        assert(qi.contains(x));
        let i = choose|i: int| 0 <= i < qi.len() && qi[i] == x;
        assert(q[i] as int == x);
    }
    vstd::set_lib::lemma_len_subset(qi.to_set(), vstd::set_lib::set_int_range(0, n));
}

/// The adjacency lists of the states `0..n`: each state's list with the
/// targets that are no state left out (a state without a list has none).
pub open spec fn known_targets(out: Seq<Seq<usize>>, n: int) -> Seq<Seq<usize>> {
    Seq::new(n as nat, |u: int| if u < out.len() { out[u].filter(|t: usize| (t as int) < n) } else { Seq::empty() })
}

/// An ordering of the states `0..n` (`n` the length of `in_degree`):
/// Kahn's algorithm from the states with in-degree 0 (in index order), each
/// state taken in turn lowering the in-degree of its targets and queueing
/// those that reach 0 (targets that are no state are passed over); the
/// states it never reaches (on a cycle or behind one) follow in index order.
/// Every state occurs exactly once.
pub fn topological_sort(in_degree: &Vec<usize>, out_edges: &Vec<Vec<usize>>) -> (order: Vec<usize>)
    requires
        forall|v: int| 0 <= v < in_degree@.len() ==> #[trigger] in_degree@[v] >= edges_into(
            known_targets(out_view(out_edges@), in_degree@.len() as int),
            in_degree@.len() as int,
            v,
        ),
    ensures
        order@ == spec_topological_sort(deg_view(in_degree@), known_targets(out_view(out_edges@), in_degree@.len() as int)),
        order@.len() == in_degree@.len(),
        order@.no_duplicates(),
        forall|i: int| 0 <= i < order@.len() ==> #[trigger] order@[i] < in_degree@.len(),
        (forall|v: int| 0 <= v < in_degree@.len() ==> #[trigger] in_degree@[v] == edges_into(
            known_targets(out_view(out_edges@), in_degree@.len() as int),
            in_degree@.len() as int,
            v,
        )) && lists_acyclic(known_targets(out_view(out_edges@), in_degree@.len() as int), in_degree@.len() as int)
            ==> forall|p: int, u: int| 0 <= p < order@.len() && 0 <= u < in_degree@.len()
            && #[trigger] known_targets(out_view(out_edges@), in_degree@.len() as int)[u].contains(#[trigger] order@[p])
            ==> exists|j: int| 0 <= j < p && order@[j] == u as usize,
{
    let n = in_degree.len();
    let ghost kt = known_targets(out_view(out_edges@), n as int);
    let mut lists: Vec<Vec<usize>> = Vec::new();
    let mut u: usize = 0;
    while u < n
        invariant
            u <= n,
            n == in_degree@.len(),
            kt == known_targets(out_view(out_edges@), n as int),
            lists@.len() == u,
            forall|q: int| 0 <= q < u ==> (#[trigger] lists@[q])@ == kt[q],
        decreases n - u,
    {
        let mut row: Vec<usize> = Vec::new();
        if u < out_edges.len() {
            let src = &out_edges[u];
            let ghost sv = src@;
            let ghost pred = |t: usize| (t as int) < n;
            let mut j: usize = 0;
            assert(sv.take(0) =~= Seq::<usize>::empty());
            proof {
                reveal(Seq::filter);
            }
            while j < src.len()
                invariant
                    j <= sv.len(),
                    sv == src@,
                    pred == (|t: usize| (t as int) < n),
                    row@ == sv.take(j as int).filter(pred),
                decreases sv.len() - j,
            {
                assert(sv.take(j + 1).drop_last() =~= sv.take(j as int));
                assert(sv.take(j + 1).last() == sv[j as int]);
                proof {
                    reveal(Seq::filter);
                }
                if src[j] < n {
                    row.push(src[j]);
                }
                j = j + 1;
            }
            assert(sv.take(sv.len() as int) =~= sv);
            assert(out_view(out_edges@)[u as int] == sv);
        }
        lists.push(row);
        u = u + 1;
    }
    proof {
        assert(out_view(lists@) =~= kt);
        assert forall|a: int, i: int| 0 <= a < n && 0 <= i < out_view(lists@)[a].len()
            implies (#[trigger] out_view(lists@)[a][i] as int) < n by {
            if a < out_edges@.len() {
                out_view(out_edges@)[a].lemma_filter_pred(|t: usize| (t as int) < n, i);
            }
        }
        let dv = deg_view(in_degree@);
        if (forall|v: int| 0 <= v < n ==> #[trigger] in_degree@[v] == edges_into(kt, n as int, v)) && lists_acyclic(kt, n as int) {
            assert forall|v: int| 0 <= v < dv.len() implies #[trigger] dv[v] == edges_into(kt, dv.len() as int, v) by {
                assert(dv[v] == in_degree@[v] as int);
            }
            lemma_topological_sort_acyclic(dv, kt);
        }
    }
    kahn_sort(in_degree, &lists)
}

/// Kahn's order followed by the states it never reaches, on adjacency lists
/// whose targets are all states.
fn kahn_sort(in_degree: &Vec<usize>, out_edges: &Vec<Vec<usize>>) -> (order: Vec<usize>)
    requires
        out_wf(out_view(out_edges@), in_degree@.len() as int),
        forall|v: int| 0 <= v < in_degree@.len() ==>
            #[trigger] in_degree@[v] >= edges_into(out_view(out_edges@), in_degree@.len() as int, v),
    ensures
        order@ == spec_topological_sort(deg_view(in_degree@), out_view(out_edges@)),
        order@.len() == in_degree@.len(),
        order@.no_duplicates(),
        forall|i: int| 0 <= i < order@.len() ==> #[trigger] order@[i] < in_degree@.len(),
{
    let n = in_degree.len();
    let ghost outv = out_view(out_edges@);
    let ghost deg0 = deg_view(in_degree@);
    let mut degree: Vec<usize> = Vec::new();
    let mut queue: Vec<usize> = Vec::new();
    let mut i: usize = 0;
    while i < n
        invariant
            i <= n,
            n == in_degree@.len(),
            deg0 == deg_view(in_degree@),
            deg_view(degree@) == deg0.take(i as int),
            queue@ == zero_nodes(deg0, i as int),
        decreases n - i,
    {
        let d = in_degree[i];
        let ghost before = degree@;
        degree.push(d);
        if d == 0 {
            queue.push(i);
        }
        assert(deg0[i as int] == d as int);
        assert(deg_view(degree@) =~= deg_view(before).push(d as int));
        assert(deg_view(degree@) =~= deg0.take(i + 1));
        i = i + 1;
    }
    assert(deg_view(degree@) =~= deg0);
    proof {
        lemma_zero_nodes(deg0, n as int);
        assert(queue_inv(deg_view(degree@), queue@));
        lemma_distinct_len(queue@, n as int);
    }
    let ghost fuel: int = n + 1;
    let mut head: usize = 0;
    while head < queue.len()
        invariant
            n == in_degree@.len(),
            outv == out_view(out_edges@),
            out_wf(outv, n as int),
            deg_view(degree@).len() == n,
            queue_inv(deg_view(degree@), queue@),
            head <= queue@.len(),
            queue@.len() <= n,
            fuel == n + 1,
            kahn_order(deg0, outv) == kahn(deg_view(degree@), queue@, head as int, outv, (fuel - head) as nat),
        decreases n - head,
    {
        let ghost dv = deg_view(degree@);
        let ghost qv = queue@;
        let u = queue[head];
        let outs = &out_edges[u];
        assert(outs@ == outv[u as int]);
        let mut k: usize = 0;
        assert(outs@.take(0) =~= Seq::<usize>::empty());
        while k < outs.len()
            invariant
                k <= outs@.len(),
                n == in_degree@.len(),
                degree@.len() == n,
                forall|j: int| 0 <= j < outs@.len() ==> (#[trigger] outs@[j] as int) < n,
                (deg_view(degree@), queue@) == relax(dv, qv, outs@.take(k as int)),
            decreases outs@.len() - k,
        {
            let ghost tt = outs@.take(k + 1);
            assert(tt.drop_last() =~= outs@.take(k as int));
            let t = outs[k];
            assert(tt.last() == t);
            let d = degree[t];
            if d > 0 {
                degree.set(t, d - 1);
            }
            if d == 1 {
                queue.push(t);
            }
            assert(deg_view(degree@) =~= relax(dv, qv, tt).0);
            k = k + 1;
        }
        assert(outs@.take(outs@.len() as int) =~= outs@);
        proof {
            assert forall|j: int| 0 <= j < outs@.len() implies (#[trigger] outs@[j] as int) < dv.len() by {}
            lemma_relax_inv(dv, qv, outs@);
            lemma_distinct_len(queue@, n as int);
        }
        head = head + 1;
    }
    let ghost korder = queue@;
    assert(kahn_order(deg0, outv) == korder);
    let mut order = queue;
    let mut v: usize = 0;
    while v < n
        invariant
            v <= n,
            n == in_degree@.len(),
            deg_view(degree@).len() == n,
            queue_inv(deg_view(degree@), korder),
            order@ == korder + missing(korder, v as int),
        decreases n - v,
    {
        if degree[v] != 0 {
            assert(deg_view(degree@)[v as int] != 0);
            order.push(v);
            assert(!korder.contains(v));
            assert(order@ =~= korder + missing(korder, v + 1));
        } else {
            assert(deg_view(degree@)[v as int] == 0);
            assert(korder.contains(v));
        }
        v = v + 1;
    }
    proof {
        lemma_missing(korder, n as int);
        let m = missing(korder, n as int);
        assert forall|i: int, j: int| 0 <= i < j < order@.len() implies order@[i] != order@[j] by {
            if i < korder.len() && j >= korder.len() {
                assert(order@[j] == m[j - korder.len()]);
                assert(!korder.contains(m[j - korder.len()]));
                assert(korder.contains(order@[i]));
            } else if i >= korder.len() {
                assert(order@[i] == m[i - korder.len()]);
                assert(order@[j] == m[j - korder.len()]);
            }
        }
        assert forall|i: int| 0 <= i < order@.len() implies #[trigger] order@[i] < n by {
            if i >= korder.len() {
                assert(order@[i] == m[i - korder.len()]);
            }
        }
        lemma_distinct_len(order@, n as int);
        lemma_cover_len(order@, n as int, korder, m);
    }
    order
}

proof fn lemma_cover_len(o: Seq<usize>, n: int, k: Seq<usize>, m: Seq<usize>)
    requires
        0 <= n <= usize::MAX,
        o == k + m,
        forall|v: int| 0 <= v < n && !k.contains(v as usize) ==> #[trigger] m.contains(v as usize),
    ensures
        o.len() >= n,
{
    let oi = o.map_values(|x: usize| x as int);
    vstd::set_lib::lemma_int_range(0, n);
    assert forall|x: int| vstd::set_lib::set_int_range(0, n).contains(x) implies oi.to_set().contains(x) by {
        if k.contains(x as usize) {
            let i = choose|i: int| 0 <= i < k.len() && k[i] == x as usize;
            assert(oi[i] == x);
        } else {
            assert(m.contains(x as usize));
            let i = choose|i: int| 0 <= i < m.len() && m[i] == x as usize;
            assert(oi[k.len() + i] == x);
        }
        assert(oi.contains(x));
    }
    oi.lemma_cardinality_of_set();
    vstd::set_lib::lemma_len_subset(vstd::set_lib::set_int_range(0, n), oi.to_set());
}

// ---------------------------------------------------------------------------
// Law: Kahn's order puts every node after all of its predecessors
// ---------------------------------------------------------------------------

/// Edges into `v` from the lists of the nodes in `s`.
pub open spec fn edges_from(out: Seq<Seq<usize>>, s: Seq<usize>, v: int) -> int
    decreases s.len(),
{
    if s.len() == 0 {
        0
    } else {
        edges_from(out, s.drop_last(), v) + count_of(out[s.last() as int], v)
    }
}

/// Edges into `v` from the lists of the nodes below `k` that `s` lacks.
pub open spec fn edges_outside(out: Seq<Seq<usize>>, s: Seq<usize>, k: int, v: int) -> int
    decreases k,
{
    if k <= 0 {
        0
    } else {
        edges_outside(out, s, k - 1, v) + if s.contains((k - 1) as usize) { 0int } else { count_of(out[k - 1], v) }
    }
}

proof fn lemma_count_nonneg(ts: Seq<usize>, v: int)
    ensures
        count_of(ts, v) >= 0,
    decreases ts.len(),
{
    if ts.len() > 0 {
        lemma_count_nonneg(ts.drop_last(), v);
    }
}

proof fn lemma_outside_nonneg(out: Seq<Seq<usize>>, s: Seq<usize>, k: int, v: int)
    ensures
        edges_outside(out, s, k, v) >= 0,
    decreases k,
{
    if k > 0 {
        lemma_outside_nonneg(out, s, k - 1, v);
        lemma_count_nonneg(out[k - 1], v);
    }
}

proof fn lemma_outside_empty(out: Seq<Seq<usize>>, k: int, v: int)
    ensures
        edges_outside(out, Seq::empty(), k, v) == edges_into(out, k, v),
    decreases k,
{
    if k > 0 {
        lemma_outside_empty(out, k - 1, v);
    }
}

/// Adding `x` to the set moves its edges from outside to inside.
proof fn lemma_outside_push(out: Seq<Seq<usize>>, s: Seq<usize>, x: usize, k: int, v: int)
    requires
        !s.contains(x),
        0 <= k <= usize::MAX,
    ensures
        edges_outside(out, s, k, v) == edges_outside(out, s.push(x), k, v)
            + if (x as int) < k { count_of(out[x as int], v) } else { 0int },
    decreases k,
{
    if k > 0 {
        lemma_outside_push(out, s, x, k - 1, v);
        let y = (k - 1) as usize;
        assert(s.push(x).contains(y) <==> (s.contains(y) || y == x)) by {
            if s.push(x).contains(y) {
                let i = choose|i: int| 0 <= i < s.push(x).len() && s.push(x)[i] == y;
                if i < s.len() {
                    assert(s[i] == y);
                }
            }
            if s.contains(y) {
                let i = choose|i: int| 0 <= i < s.len() && s[i] == y;
                assert(s.push(x)[i] == y);
            }
            if y == x {
                assert(s.push(x)[s.len() as int] == y);
            }
        }
    }
}

/// Edges from a set of distinct nodes plus edges from the others make all
/// edges.
proof fn lemma_edges_split(out: Seq<Seq<usize>>, s: Seq<usize>, n: int, v: int)
    requires
        s.no_duplicates(),
        forall|i: int| 0 <= i < s.len() ==> (#[trigger] s[i] as int) < n,
        0 <= n <= usize::MAX,
    ensures
        edges_from(out, s, v) + edges_outside(out, s, n, v) == edges_into(out, n, v),
    decreases s.len(),
{
    if s.len() == 0 {
        lemma_outside_empty(out, n, v);
        assert(s =~= Seq::<usize>::empty());
    } else {
        let s2 = s.drop_last();
        let x = s.last();
        assert forall|i: int| 0 <= i < s2.len() implies (#[trigger] s2[i] as int) < n by {
            assert(s2[i] == s[i]);
        }
        assert(s2.no_duplicates()) by {
            assert forall|i: int, j: int| 0 <= i < j < s2.len() implies s2[i] != s2[j] by {
                assert(s[i] != s[j]);
            }
        }
        assert(!s2.contains(x)) by {
            if s2.contains(x) {
                let i = choose|i: int| 0 <= i < s2.len() && s2[i] == x;
                assert(s[i] != s[s.len() - 1]);
            }
        }
        assert(x == s[s.len() - 1]);
        assert((x as int) < n);
        lemma_edges_split(out, s2, n, v);
        lemma_outside_push(out, s2, x, n, v);
        assert(s2.push(x) =~= s);
        assert(edges_from(out, s, v) == edges_from(out, s2, v) + count_of(out[x as int], v));
        assert(edges_outside(out, s2, n, v) == edges_outside(out, s, n, v) + count_of(out[x as int], v));
    }
}

/// Relaxing the targets `ts` when no count would drop below 0: each count
/// drops by the number of times its node occurs in `ts`.
proof fn lemma_relax_exact(deg: Seq<int>, q: Seq<usize>, ts: Seq<usize>)
    requires
        forall|t: int| 0 <= t < deg.len() ==> #[trigger] deg[t] >= count_of(ts, t),
        forall|i: int| 0 <= i < ts.len() ==> (#[trigger] ts[i] as int) < deg.len(),
    ensures
        relax(deg, q, ts).0.len() == deg.len(),
        forall|t: int| 0 <= t < deg.len() ==> #[trigger] relax(deg, q, ts).0[t] == deg[t] - count_of(ts, t),
    decreases ts.len(),
{
    if ts.len() > 0 {
        let t2 = ts.drop_last();
        let x = ts.last() as int;
        assert(ts.last() == ts[ts.len() - 1]);
        assert forall|i: int| 0 <= i < t2.len() implies (#[trigger] t2[i] as int) < deg.len() by {
            assert(t2[i] == ts[i]);
        }
        assert forall|t: int| 0 <= t < deg.len() implies #[trigger] deg[t] >= count_of(t2, t) by {
            assert(count_of(ts, t) >= count_of(t2, t));
        }
        lemma_relax_exact(deg, q, t2);
    }
}

/// Invariant of Kahn's algorithm for the law: the counts are the in-degrees
/// less the edges from the taken nodes, and every queued node comes after
/// all of its predecessors.
pub open spec fn kahn_inv(indeg: Seq<int>, out: Seq<Seq<usize>>, deg: Seq<int>, q: Seq<usize>, h: int) -> bool {
    let n = indeg.len() as int;
    &&& 0 <= h <= q.len()
    &&& deg.len() == n
    &&& queue_inv(deg, q)
    &&& out_wf(out, n)
    &&& forall|v: int| 0 <= v < n ==> #[trigger] indeg[v] >= edges_into(out, n, v)
    &&& forall|v: int| 0 <= v < n ==> #[trigger] deg[v] == indeg[v] - edges_from(out, q.take(h), v)
    &&& forall|p: int, u: int| 0 <= p < q.len() && 0 <= u < n && count_of(out[u], #[trigger] q[p] as int) > 0
        ==> #[trigger] q.take(p).contains(u as usize)
}

proof fn lemma_kahn_step(indeg: Seq<int>, out: Seq<Seq<usize>>, deg: Seq<int>, q: Seq<usize>, h: int)
    requires
        kahn_inv(indeg, out, deg, q, h),
        h < q.len(),
    ensures
        kahn_inv(indeg, out, relax(deg, q, out[q[h] as int]).0, relax(deg, q, out[q[h] as int]).1, h + 1),
{
    let n = indeg.len() as int;
    let u0 = q[h];
    let ts = out[u0 as int];
    let r = relax(deg, q, ts);
    let tk = q.take(h);
    let tk1 = q.take(h + 1);
    assert(tk1 =~= tk.push(u0));
    assert(tk1.drop_last() =~= tk);
    assert(tk.no_duplicates() && tk1.no_duplicates()) by {
        assert forall|i: int, j: int| 0 <= i < j < tk1.len() implies tk1[i] != tk1[j] by {
            assert(q[i] != q[j]);
        }
    }
    assert forall|i: int| 0 <= i < tk1.len() implies (#[trigger] tk1[i] as int) < n by {
        assert(tk1[i] == q[i]);
    }
    assert(!tk.contains(u0)) by {
        if tk.contains(u0) {
            let i = choose|i: int| 0 <= i < tk.len() && tk[i] == u0;
            assert(q[i] != q[h]);
        }
    }
    assert forall|i: int| 0 <= i < ts.len() implies (#[trigger] ts[i] as int) < deg.len() by {}
    // No count drops below zero.
    assert forall|t: int| 0 <= t < deg.len() implies #[trigger] deg[t] >= count_of(ts, t) by {
        lemma_edges_split(out, tk, n, t);
        lemma_outside_push(out, tk, u0, n, t);
        lemma_outside_nonneg(out, tk.push(u0), n, t);
    }
    lemma_relax_exact(deg, q, ts);
    lemma_relax_inv(deg, q, ts);
    assert(tk1.last() == u0);
    assert forall|v: int| 0 <= v < n implies #[trigger] r.0[v] == indeg[v] - edges_from(out, tk1, v) by {
        assert(edges_from(out, tk1, v) == edges_from(out, tk, v) + count_of(ts, v));
    }
    assert(queue_inv(r.0, r.1));
    assert(r.0.len() == n);
    assert(0 <= h + 1 <= r.1.len()) by {
        assert(q.is_prefix_of(r.1));
    }
    assert(r.1.take(h + 1) =~= tk1) by {
        assert(q.is_prefix_of(r.1));
    }
    // New queue entries come after all their predecessors.
    assert forall|p: int, u: int| 0 <= p < r.1.len() && 0 <= u < n && count_of(out[u], #[trigger] r.1[p] as int) > 0
        implies #[trigger] r.1.take(p).contains(u as usize) by {
        if p < q.len() {
            assert(r.1[p] == q[p]);
            assert(q.take(p).contains(u as usize));
            let i = choose|i: int| 0 <= i < q.take(p).len() && q.take(p)[i] == u as usize;
            assert(r.1.take(p)[i] == u as usize);
        } else {
            lemma_new_entry(indeg, out, deg, q, h, r.0, r.1, p, u);
        }
    }
}

proof fn lemma_new_entry(
    indeg: Seq<int>,
    out: Seq<Seq<usize>>,
    deg: Seq<int>,
    q: Seq<usize>,
    h: int,
    d2: Seq<int>,
    q2: Seq<usize>,
    p: int,
    u: int,
)
    requires
        kahn_inv(indeg, out, deg, q, h),
        h < q.len(),
        (d2, q2) == relax(deg, q, out[q[h] as int]),
        queue_inv(d2, q2),
        d2.len() == deg.len(),
        q.is_prefix_of(q2),
        forall|v: int| 0 <= v < indeg.len() ==> #[trigger] d2[v] == indeg[v] - edges_from(out, q.take(h + 1), v),
        q.len() <= p < q2.len(),
        0 <= u < indeg.len(),
        count_of(out[u], q2[p] as int) > 0,
    ensures
        q2.take(p).contains(u as usize),
{
    let n = indeg.len() as int;
    let tk1 = q.take(h + 1);
    assert(tk1.no_duplicates()) by {
        assert forall|i: int, j: int| 0 <= i < j < tk1.len() implies tk1[i] != tk1[j] by {
            assert(q[i] != q[j]);
        }
    }
    assert forall|i: int| 0 <= i < tk1.len() implies (#[trigger] tk1[i] as int) < n by {
        assert(tk1[i] == q[i]);
    }
    let x = q2[p];
    assert(q2.contains(x));
    assert((x as int) < n);
    assert(d2[x as int] == 0);
    lemma_edges_split(out, tk1, n, x as int);
    lemma_outside_nonneg(out, tk1, n, x as int);
    if !tk1.contains(u as usize) {
        lemma_outside_push(out, tk1, u as usize, n, x as int);
        lemma_outside_nonneg(out, tk1.push(u as usize), n, x as int);
        assert(false);
    }
    let i = choose|i: int| 0 <= i < tk1.len() && tk1[i] == u as usize;
    assert(q2[i] == q[i]);
    assert(q2.take(p)[i] == u as usize);
}

proof fn lemma_kahn_keeps(indeg: Seq<int>, out: Seq<Seq<usize>>, deg: Seq<int>, q: Seq<usize>, h: int, fuel: nat)
    requires
        kahn_inv(indeg, out, deg, q, h),
    ensures
        forall|p: int, u: int| 0 <= p < kahn(deg, q, h, out, fuel).len() && 0 <= u < indeg.len()
            && count_of(out[u], #[trigger] kahn(deg, q, h, out, fuel)[p] as int) > 0
            ==> #[trigger] kahn(deg, q, h, out, fuel).take(p).contains(u as usize),
        kahn(deg, q, h, out, fuel).no_duplicates(),
        forall|i: int| 0 <= i < kahn(deg, q, h, out, fuel).len() ==> (#[trigger] kahn(deg, q, h, out, fuel)[i] as int) < indeg.len(),
    decreases fuel,
{
    if !(fuel == 0 || h >= q.len() || h < 0) {
        lemma_kahn_step(indeg, out, deg, q, h);
        let r = relax(deg, q, out[q[h] as int]);
        lemma_kahn_keeps(indeg, out, r.0, r.1, h + 1, (fuel - 1) as nat);
        assert(kahn(deg, q, h, out, fuel) == kahn(r.0, r.1, h + 1, out, (fuel - 1) as nat));
    } else {
        assert(kahn(deg, q, h, out, fuel) == q);
    }
}

/// What Kahn's order is: distinct nodes, each after all of its
/// predecessors.
pub proof fn lemma_kahn_order_facts(indeg: Seq<int>, out: Seq<Seq<usize>>)
    requires
        indeg.len() <= usize::MAX,
        out_wf(out, indeg.len() as int),
        forall|v: int| 0 <= v < indeg.len() ==> #[trigger] indeg[v] >= edges_into(out, indeg.len() as int, v),
    ensures
        kahn_order(indeg, out).no_duplicates(),
        forall|i: int| 0 <= i < kahn_order(indeg, out).len() ==> (#[trigger] kahn_order(indeg, out)[i] as int) < indeg.len(),
        forall|p: int, u: int| 0 <= p < kahn_order(indeg, out).len() && 0 <= u < indeg.len()
            && count_of(out[u], #[trigger] kahn_order(indeg, out)[p] as int) > 0
            ==> #[trigger] kahn_order(indeg, out).take(p).contains(u as usize),
{
    let n = indeg.len() as int;
    let q = zero_nodes(indeg, n);
    lemma_zero_nodes(indeg, n);
    assert(q.take(0) =~= Seq::<usize>::empty());
    assert forall|v: int| 0 <= v < n implies #[trigger] indeg[v] >= 0 by {
        lemma_edges_split(out, Seq::empty(), n, v);
        lemma_outside_nonneg(out, Seq::empty(), n, v);
    }
    assert forall|pp: int, uu: int| 0 <= pp < q.len() && 0 <= uu < n && count_of(out[uu], #[trigger] q[pp] as int) > 0
        implies #[trigger] q.take(pp).contains(uu as usize) by {
        let x = q[pp] as int;
        assert(q.contains(q[pp]));
        assert(indeg[x] == 0);
        lemma_edges_split(out, Seq::empty(), n, x);
        lemma_outside_push(out, Seq::empty(), uu as usize, n, x);
        lemma_outside_nonneg(out, seq![uu as usize], n, x);
        assert(Seq::<usize>::empty().push(uu as usize) =~= seq![uu as usize]);
    }
    assert(kahn_inv(indeg, out, indeg, q, 0));
    lemma_kahn_keeps(indeg, out, indeg, q, 0, (n + 1) as nat);
}

/// Kahn's order puts every node after all of its predecessors: when `u` has
/// an edge to the node at position `p`, `u` is taken at an earlier position.
pub proof fn lemma_kahn_order_respects_edges(indeg: Seq<int>, out: Seq<Seq<usize>>, p: int, u: int)
    requires
        indeg.len() <= usize::MAX,
        out_wf(out, indeg.len() as int),
        forall|v: int| 0 <= v < indeg.len() ==> #[trigger] indeg[v] >= edges_into(out, indeg.len() as int, v),
        0 <= p < kahn_order(indeg, out).len(),
        0 <= u < indeg.len(),
        out[u].contains(kahn_order(indeg, out)[p]),
    ensures
        exists|j: int| 0 <= j < p && kahn_order(indeg, out)[j] == u as usize,
{
    lemma_kahn_order_facts(indeg, out);
    let k = kahn_order(indeg, out);
    lemma_count_pos(out[u], k[p]);
    assert(k.take(p).contains(u as usize));
    let j = choose|j: int| 0 <= j < k.take(p).len() && k.take(p)[j] == u as usize;
    assert(k[j] == u as usize);
}

/// When Kahn's algorithm runs out of queued nodes, every node it did not
/// take still has an edge from a node it did not take.
proof fn lemma_kahn_leftover(indeg: Seq<int>, out: Seq<Seq<usize>>, deg: Seq<int>, q: Seq<usize>, h: int, fuel: nat)
    requires
        kahn_inv(indeg, out, deg, q, h),
        h + fuel > indeg.len(),
        forall|v: int| 0 <= v < indeg.len() ==> #[trigger] indeg[v] == edges_into(out, indeg.len() as int, v),
    ensures
        forall|v: int| 0 <= v < indeg.len() && !kahn(deg, q, h, out, fuel).contains(v as usize)
            ==> #[trigger] edges_outside(out, kahn(deg, q, h, out, fuel), indeg.len() as int, v) > 0,
    decreases fuel,
{
    let n = indeg.len() as int;
    if !(fuel == 0 || h >= q.len() || h < 0) {
        lemma_kahn_step(indeg, out, deg, q, h);
        let r = relax(deg, q, out[q[h] as int]);
        lemma_kahn_leftover(indeg, out, r.0, r.1, h + 1, (fuel - 1) as nat);
        assert(kahn(deg, q, h, out, fuel) == kahn(r.0, r.1, h + 1, out, (fuel - 1) as nat));
    } else {
        lemma_distinct_len(q, n);
        assert(h == q.len());
        assert(q.take(h) =~= q);
        assert(kahn(deg, q, h, out, fuel) == q);
        assert forall|v: int| 0 <= v < n && !q.contains(v as usize) implies #[trigger] edges_outside(out, q, n, v) > 0 by {
            assert(deg[v] == indeg[v] - edges_from(out, q.take(h), v));
            assert(deg[v] != 0);
            assert(deg[v] >= 0);
            assert(indeg[v] == edges_into(out, n, v));
            lemma_edges_split(out, q, n, v);
        }
    }
}

/// An edge into `v` from outside `s` comes from some node below `k` that
/// `s` lacks.
proof fn lemma_outside_witness(out: Seq<Seq<usize>>, s: Seq<usize>, k: int, v: int)
    requires
        edges_outside(out, s, k, v) > 0,
    ensures
        exists|u: int| 0 <= u < k && !s.contains(u as usize) && count_of(#[trigger] out[u], v) > 0,
    decreases k,
{
    if k > 0 {
        if edges_outside(out, s, k - 1, v) > 0 {
            lemma_outside_witness(out, s, k - 1, v);
            let u = choose|u: int| 0 <= u < k - 1 && !s.contains(u as usize) && count_of(#[trigger] out[u], v) > 0;
            assert(0 <= u < k && !s.contains(u as usize) && count_of(out[u], v) > 0);
        } else {
            assert(!s.contains((k - 1) as usize) && count_of(out[k - 1], v) > 0);
        }
    }
}

/// Every node that Kahn's algorithm does not take has a predecessor that it
/// does not take either (in-degrees counted exactly).
pub proof fn lemma_kahn_order_leftover(indeg: Seq<int>, out: Seq<Seq<usize>>, v: int)
    requires
        indeg.len() <= usize::MAX,
        out_wf(out, indeg.len() as int),
        forall|w: int| 0 <= w < indeg.len() ==> #[trigger] indeg[w] == edges_into(out, indeg.len() as int, w),
        0 <= v < indeg.len(),
        !kahn_order(indeg, out).contains(v as usize),
    ensures
        exists|u: int| 0 <= u < indeg.len() && !kahn_order(indeg, out).contains(u as usize)
            && count_of(#[trigger] out[u], v) > 0,
{
    let n = indeg.len() as int;
    let q = zero_nodes(indeg, n);
    lemma_zero_nodes(indeg, n);
    assert(q.take(0) =~= Seq::<usize>::empty());
    assert forall|w: int| 0 <= w < n implies #[trigger] indeg[w] >= 0 by {
        lemma_edges_split(out, Seq::empty(), n, w);
        lemma_outside_nonneg(out, Seq::empty(), n, w);
    }
    assert forall|pp: int, uu: int| 0 <= pp < q.len() && 0 <= uu < n && count_of(out[uu], #[trigger] q[pp] as int) > 0
        implies #[trigger] q.take(pp).contains(uu as usize) by {
        let x = q[pp] as int;
        assert(q.contains(q[pp]));
        assert(indeg[x] == 0);
        lemma_edges_split(out, Seq::empty(), n, x);
        lemma_outside_push(out, Seq::empty(), uu as usize, n, x);
        lemma_outside_nonneg(out, seq![uu as usize], n, x);
        assert(Seq::<usize>::empty().push(uu as usize) =~= seq![uu as usize]);
    }
    assert(kahn_inv(indeg, out, indeg, q, 0));
    lemma_kahn_leftover(indeg, out, indeg, q, 0, (n + 1) as nat);
    let k = kahn_order(indeg, out);
    assert(edges_outside(out, k, n, v) > 0);
    lemma_outside_witness(out, k, n, v);
}

/// A numbering of the nodes `0..n` that drops along every edge: a witness
/// that the adjacency lists have no cycle.
pub open spec fn ranks_drop(out: Seq<Seq<usize>>, n: int, r: Seq<int>) -> bool {
    &&& r.len() == n
    &&& forall|x: int| 0 <= x < n ==> 0 <= #[trigger] r[x] < n
    &&& forall|u: int, i: int| 0 <= u < n && 0 <= i < out[u].len() ==> r[#[trigger] out[u][i] as int] < r[u]
}

/// The adjacency lists of nodes `0..n` have no cycle.
pub open spec fn lists_acyclic(out: Seq<Seq<usize>>, n: int) -> bool {
    exists|r: Seq<int>| ranks_drop(out, n, r)
}

proof fn lemma_count_contains(ts: Seq<usize>, v: int)
    requires
        count_of(ts, v) > 0,
    ensures
        exists|i: int| 0 <= i < ts.len() && ts[i] as int == v,
    decreases ts.len(),
{
    if ts.len() > 0 && ts.last() as int != v {
        lemma_count_contains(ts.drop_last(), v);
        let i = choose|i: int| 0 <= i < ts.drop_last().len() && ts.drop_last()[i] as int == v;
        assert(ts[i] as int == v);
    }
}

proof fn lemma_acyclic_all_taken(indeg: Seq<int>, out: Seq<Seq<usize>>, r: Seq<int>, v: int)
    requires
        indeg.len() <= usize::MAX,
        out_wf(out, indeg.len() as int),
        forall|w: int| 0 <= w < indeg.len() ==> #[trigger] indeg[w] == edges_into(out, indeg.len() as int, w),
        ranks_drop(out, indeg.len() as int, r),
        0 <= v < indeg.len(),
    ensures
        kahn_order(indeg, out).contains(v as usize),
    decreases indeg.len() - r[v],
{
    if !kahn_order(indeg, out).contains(v as usize) {
        lemma_kahn_order_leftover(indeg, out, v);
        let u = choose|u: int| 0 <= u < indeg.len() && !kahn_order(indeg, out).contains(u as usize)
            && count_of(#[trigger] out[u], v) > 0;
        lemma_count_contains(out[u], v);
        let i = choose|i: int| 0 <= i < out[u].len() && out[u][i] as int == v;
        assert(r[out[u][i] as int] < r[u]);
        lemma_acyclic_all_taken(indeg, out, r, u);
    }
}

/// On adjacency lists without a cycle, with in-degrees counted exactly, the
/// ordering is Kahn's order alone (no state is left over), it holds every
/// state, and every edge goes forward: a state comes after each state with
/// an edge to it.
pub proof fn lemma_topological_sort_acyclic(indeg: Seq<int>, out: Seq<Seq<usize>>)
    requires
        indeg.len() <= usize::MAX,
        out_wf(out, indeg.len() as int),
        forall|w: int| 0 <= w < indeg.len() ==> #[trigger] indeg[w] == edges_into(out, indeg.len() as int, w),
        lists_acyclic(out, indeg.len() as int),
    ensures
        spec_topological_sort(indeg, out) == kahn_order(indeg, out),
        forall|v: usize| (v as int) < indeg.len() ==> #[trigger] spec_topological_sort(indeg, out).contains(v),
        forall|p: int, u: int| 0 <= p < spec_topological_sort(indeg, out).len() && 0 <= u < indeg.len()
            && #[trigger] out[u].contains(#[trigger] spec_topological_sort(indeg, out)[p])
            ==> exists|j: int| 0 <= j < p && spec_topological_sort(indeg, out)[j] == u as usize,
{
    let n = indeg.len() as int;
    let r = choose|r: Seq<int>| ranks_drop(out, n, r);
    let k = kahn_order(indeg, out);
    assert forall|v: usize| (v as int) < n implies #[trigger] k.contains(v) by {
        lemma_acyclic_all_taken(indeg, out, r, v as int);
    }
    lemma_missing(k, n);
    if missing(k, n).len() > 0 {
        let x = missing(k, n)[0];
        assert((x as int) < n);
        assert(k.contains(x));
    }
    assert(spec_topological_sort(indeg, out) =~= k);
    assert forall|p: int, u: int| 0 <= p < k.len() && 0 <= u < n && #[trigger] out[u].contains(#[trigger] k[p])
        implies exists|j: int| 0 <= j < p && k[j] == u as usize by {
        assert forall|w: int| 0 <= w < n implies #[trigger] indeg[w] >= edges_into(out, n, w) by {}
        lemma_kahn_order_respects_edges(indeg, out, p, u);
    }
}

pub proof fn lemma_count_pos(ts: Seq<usize>, x: usize)
    requires
        ts.contains(x),
    ensures
        count_of(ts, x as int) > 0,
    decreases ts.len(),
{
    let i = choose|i: int| 0 <= i < ts.len() && ts[i] == x;
    if i < ts.len() - 1 {
        assert(ts.drop_last()[i] == x);
        lemma_count_pos(ts.drop_last(), x);
        lemma_count_nonneg(ts.drop_last(), x as int);
    } else {
        lemma_count_nonneg(ts.drop_last(), x as int);
    }
}

// ---------------------------------------------------------------------------
// The state graph that transitions describe
// ---------------------------------------------------------------------------

/// Adds a key unless it is already there.
pub open spec fn add_key(keys: Seq<Seq<char>>, k: Seq<char>) -> Seq<Seq<char>> {
    if keys.contains(k) { keys } else { keys.push(k) }
}

/// The keys of the states that the transitions name (`[*]` as a source is
/// the start state `__start__`, as a target the end state `__end__`), each
/// once, in order of first appearance.
pub open spec fn graph_keys(ts: Seq<Transition>) -> Seq<Seq<char>>
    decreases ts.len(),
{
    if ts.len() == 0 {
        Seq::empty()
    } else {
        let r = graph_keys(ts.drop_last());
        add_key(add_key(r, from_id(ts.last())), to_id(ts.last()))
    }
}

/// The targets, as indices into `keys`, of the transitions leaving `k`, in
/// order.
pub open spec fn key_targets(ts: Seq<Transition>, keys: Seq<Seq<char>>, k: Seq<char>) -> Seq<usize>
    decreases ts.len(),
{
    if ts.len() == 0 {
        Seq::empty()
    } else {
        let r = key_targets(ts.drop_last(), keys, k);
        let t = ts.last();
        if from_id(t) == k { r.push(last_pos(keys, to_id(t)) as usize) } else { r }
    }
}

/// The adjacency lists of the state graph, by key index.
pub open spec fn graph_out(ts: Seq<Transition>) -> Seq<Seq<usize>> {
    let keys = graph_keys(ts);
    Seq::new(keys.len(), |i: int| key_targets(ts, keys, keys[i]))
}

/// The in-degree of every key: the number of transitions into it.
pub open spec fn graph_in(ts: Seq<Transition>) -> Seq<int> {
    let n = graph_keys(ts).len() as int;
    Seq::new(n as nat, |v: int| edges_into(graph_out(ts), n, v))
}

proof fn lemma_graph_keys(ts: Seq<Transition>)
    ensures
        graph_keys(ts).no_duplicates(),
        graph_keys(ts).len() <= 2 * ts.len(),
        forall|j: int| 0 <= j < ts.len() ==> graph_keys(ts).contains(from_id(#[trigger] ts[j]))
            && graph_keys(ts).contains(to_id(ts[j])),
    decreases ts.len(),
{
    if ts.len() > 0 {
        let d = ts.drop_last();
        lemma_graph_keys(d);
        let r = graph_keys(d);
        let t = ts.last();
        let r1 = add_key(r, from_id(t));
        let r2 = add_key(r1, to_id(t));
        assert(r1.no_duplicates()) by {
            if !r.contains(from_id(t)) {
                assert forall|i: int, j: int| 0 <= i < j < r1.len() implies r1[i] != r1[j] by {
                    if j == r.len() {
                        assert(r[i] == r1[i]);
                    }
                }
            }
        }
        assert(r2.no_duplicates()) by {
            if !r1.contains(to_id(t)) {
                assert forall|i: int, j: int| 0 <= i < j < r2.len() implies r2[i] != r2[j] by {
                    if j == r1.len() {
                        assert(r1[i] == r2[i]);
                    }
                }
            }
        }
        assert forall|x: Seq<char>| r.contains(x) implies #[trigger] r2.contains(x) by {
            let i = choose|i: int| 0 <= i < r.len() && r[i] == x;
            assert(r1[i] == x);
            assert(r2[i] == x);
        }
        assert(r1.contains(from_id(t))) by {
            if !r.contains(from_id(t)) {
                assert(r1[r.len() as int] == from_id(t));
            }
        }
        assert(r2.contains(from_id(t))) by {
            let i = choose|i: int| 0 <= i < r1.len() && r1[i] == from_id(t);
            assert(r2[i] == from_id(t));
        }
        assert(r2.contains(to_id(t))) by {
            if !r1.contains(to_id(t)) {
                assert(r2[r1.len() as int] == to_id(t));
            }
        }
        assert forall|j: int| 0 <= j < ts.len() implies r2.contains(from_id(#[trigger] ts[j])) && r2.contains(to_id(ts[j])) by {
            if j < d.len() {
                assert(d[j] == ts[j]);
            }
        }
    }
}

proof fn lemma_count_push(s: Seq<usize>, x: usize, v: int)
    ensures
        count_of(s.push(x), v) == count_of(s, v) + if x as int == v { 1int } else { 0int },
{
    assert(s.push(x).drop_last() =~= s);
}

proof fn lemma_edges_into_push(out: Seq<Seq<usize>>, k: int, u: int, x: usize, v: int)
    requires
        0 <= u < out.len(),
        k <= out.len(),
    ensures
        edges_into(out.update(u, out[u].push(x)), k, v)
            == edges_into(out, k, v) + if 0 <= u < k && x as int == v { 1int } else { 0int },
    decreases k,
{
    if k > 0 {
        lemma_edges_into_push(out, k - 1, u, x, v);
        if k - 1 == u {
            lemma_count_push(out[u], x, v);
        }
    }
}

proof fn lemma_edges_into_empty(n: int, k: int, v: int)
    requires
        0 <= k <= n,
    ensures
        edges_into(Seq::new(n as nat, |i: int| Seq::<usize>::empty()), k, v) == 0,
    decreases k,
{
    if k > 0 {
        lemma_edges_into_empty(n, k - 1, v);
    }
}

/// The graph that the transitions describe: the keys of the states they
/// name, in order of first appearance (`[*]` is `__start__` as a source and
/// `__end__` as a target), the in-degree of every key, and for every key the
/// indices of the targets of the transitions leaving it, in order.
pub fn state_graph(transitions: &Vec<Transition>) -> (g: (Vec<String>, Vec<usize>, Vec<Vec<usize>>))
    ensures
        layer_view(g.0@) == graph_keys(transitions@),
        out_view(g.2@) == graph_out(transitions@),
        deg_view(g.1@) == graph_in(transitions@),
        out_wf(out_view(g.2@), g.1@.len() as int),
        g.0@.len() == g.1@.len(),
{
    let ghost ts = transitions@;
    let star = marker_string(0);
    let mut keys: Vec<String> = Vec::new();
    let mut k: usize = 0;
    assert(ts.take(0) =~= Seq::<Transition>::empty());
    assert(layer_view(keys@) =~= Seq::<Seq<char>>::empty());
    while k < transitions.len()
        invariant
            k <= ts.len(),
            ts == transitions@,
            star@ == "[*]"@,
            layer_view(keys@) == graph_keys(ts.take(k as int)),
        decreases ts.len() - k,
    {
        let ghost before = layer_view(keys@);
        assert(ts.take(k + 1).drop_last() =~= ts.take(k as int));
        let tr = &transitions[k];
        assert(ts.take(k + 1).last() == *tr);
        let from = if tr.from == star { marker_string(1) } else { tr.from.clone() };
        let to = if tr.to == star { marker_string(2) } else { tr.to.clone() };
        proof {
            lemma_last_pos_range(before, from@);
        }
        if find_last(&keys, &from).is_none() {
            keys.push(from);
        }
        assert(layer_view(keys@) =~= add_key(before, from_id(*tr)));
        let ghost mid = layer_view(keys@);
        proof {
            lemma_last_pos_range(mid, to@);
        }
        if find_last(&keys, &to).is_none() {
            keys.push(to);
        }
        assert(layer_view(keys@) =~= add_key(mid, to_id(*tr)));
        k = k + 1;
    }
    assert(ts.take(ts.len() as int) =~= ts);
    let ghost kv = layer_view(keys@);
    proof {
        lemma_graph_keys(ts);
    }
    let n = keys.len();
    let mut out: Vec<Vec<usize>> = Vec::new();
    let mut deg: Vec<usize> = Vec::new();
    let mut i: usize = 0;
    while i < n
        invariant
            i <= n,
            out@.len() == i,
            deg@.len() == i,
            forall|j: int| 0 <= j < i ==> (#[trigger] out@[j])@ == Seq::<usize>::empty(),
            forall|j: int| 0 <= j < i ==> #[trigger] deg@[j] == 0,
        decreases n - i,
    {
        out.push(Vec::new());
        deg.push(0);
        i = i + 1;
    }
    proof {
        assert(out_view(out@) =~= Seq::new(n as nat, |i: int| Seq::<usize>::empty()));
        assert forall|i: int| 0 <= i < n implies key_targets(ts.take(0), kv, kv[i]) == Seq::<usize>::empty() by {}
        assert(out_view(out@) =~= Seq::new(n as nat, |i: int| key_targets(ts.take(0), kv, kv[i])));
        assert forall|v: int| 0 <= v < n implies #[trigger] deg_view(deg@)[v] == edges_into(out_view(out@), n as int, v) by {
            lemma_edges_into_empty(n as int, n as int, v);
        }
    }
    let mut k: usize = 0;
    while k < transitions.len()
        invariant
            k <= ts.len(),
            ts == transitions@,
            star@ == "[*]"@,
            kv == layer_view(keys@),
            kv == graph_keys(ts),
            kv.no_duplicates(),
            n == kv.len(),
            forall|j: int| 0 <= j < ts.len() ==> kv.contains(from_id(#[trigger] ts[j])) && kv.contains(to_id(ts[j])),
            out@.len() == n,
            deg@.len() == n,
            out_view(out@) == Seq::new(n as nat, |i: int| key_targets(ts.take(k as int), kv, kv[i])),
            forall|v: int| 0 <= v < n ==> #[trigger] deg_view(deg@)[v] == edges_into(out_view(out@), n as int, v),
            forall|v: int| 0 <= v < n ==> #[trigger] deg@[v] <= k,
            forall|u: int, j: int| 0 <= u < n && 0 <= j < out_view(out@)[u].len() ==> (#[trigger] out_view(out@)[u][j] as int) < n,
        decreases ts.len() - k,
    {
        let tr = &transitions[k];
        let ghost tk = ts.take(k as int);
        let ghost tk1 = ts.take(k + 1);
        assert(tk1.drop_last() =~= tk);
        assert(tk1.last() == *tr);
        assert(ts[k as int] == *tr);
        let from = if tr.from == star { marker_string(1) } else { tr.from.clone() };
        let to = if tr.to == star { marker_string(2) } else { tr.to.clone() };
        proof {
            lemma_last_pos_range(kv, from@);
            lemma_last_pos_range(kv, to@);
        }
        let u = match find_last(&keys, &from) { Some(x) => x, None => 0 };
        let x = match find_last(&keys, &to) { Some(y) => y, None => 0 };
        assert(kv[u as int] == from_id(*tr));
        let ghost ov = out_view(out@);
        let mut row = out.remove(u);
        row.push(x);
        out.insert(u, row);
        let ghost dv = deg_view(deg@);
        let ghost dd = deg@;
        let d = deg[x];
        deg.set(x, d + 1);
        proof {
            assert(out_view(out@) =~= ov.update(u as int, ov[u as int].push(x)));
            assert forall|i: int| 0 <= i < n implies #[trigger] out_view(out@)[i] == key_targets(tk1, kv, kv[i]) by {
                if i == u {
                } else {
                    assert(kv[i] != kv[u as int]);
                }
            }
            assert(out_view(out@) =~= Seq::new(n as nat, |i: int| key_targets(tk1, kv, kv[i])));
            assert forall|v: int| 0 <= v < n implies #[trigger] deg_view(deg@)[v] == edges_into(out_view(out@), n as int, v) by {
                lemma_edges_into_push(ov, n as int, u as int, x, v);
                assert(dv[v] == edges_into(ov, n as int, v));
                if v == x as int {
                    assert(deg@[v] == dd[v] + 1);
                } else {
                    assert(deg@[v] == dd[v]);
                }
            }
            assert forall|v: int| 0 <= v < n implies #[trigger] deg@[v] <= k + 1 by {
                assert(dd[v] <= k);
            }
            assert forall|uu: int, j: int| 0 <= uu < n && 0 <= j < out_view(out@)[uu].len() implies (#[trigger] out_view(out@)[uu][j] as int) < n by {
                if uu == u && j == ov[u as int].len() {
                } else if uu == u {
                    assert(out_view(out@)[uu][j] == ov[uu][j]);
                }
            }
        }
        k = k + 1;
    }
    assert(ts.take(ts.len() as int) =~= ts);
    assert(out_view(out@) =~= graph_out(ts));
    assert(deg_view(deg@) =~= graph_in(ts));
    (keys, deg, out)
}

/// The states of a diagram in layout order: the keys of the state graph
/// that the transitions describe, taken in the order of
/// [`topological_sort`] (Kahn's order, then the states it never reaches, in
/// order of first appearance), each once.
pub fn state_layout_order(transitions: &Vec<Transition>) -> (ids: Vec<String>)
    ensures
        layer_view(ids@) == spec_topological_sort(graph_in(transitions@), graph_out(transitions@)).map_values(
            |i: usize| graph_keys(transitions@)[i as int],
        ),
        layer_view(ids@).to_set() == graph_keys(transitions@).to_set(),
        ids@.len() == graph_keys(transitions@).len(),
{
    let ghost ts = transitions@;
    let (keys, deg, out) = state_graph(transitions);
    let ghost kv = layer_view(keys@);
    proof {
        assert(deg_view(deg@) == graph_in(ts));
        assert forall|v: int| 0 <= v < deg@.len() implies #[trigger] deg@[v] >= edges_into(out_view(out@), deg@.len() as int, v) by {
            assert(deg_view(deg@)[v] == deg@[v] as int);
        }
    }
    let order = kahn_sort(&deg, &out);
    let ghost ov = order@;
    let mut ids: Vec<String> = Vec::new();
    let mut j: usize = 0;
    while j < order.len()
        invariant
            j <= ov.len(),
            ov == order@,
            kv == layer_view(keys@),
            keys@.len() == deg@.len(),
            ov.len() == deg@.len(),
            forall|i: int| 0 <= i < ov.len() ==> #[trigger] ov[i] < deg@.len(),
            layer_view(ids@) == ov.take(j as int).map_values(|i: usize| kv[i as int]),
        decreases ov.len() - j,
    {
        let ghost before = layer_view(ids@);
        let c = keys[order[j]].clone();
        assert(c@ == kv[ov[j as int] as int]);
        ids.push(c);
        assert(layer_view(ids@) =~= before.push(c@));
        assert(ov.take(j + 1).map_values(|i: usize| kv[i as int]) =~= ov.take(j as int).map_values(|i: usize| kv[i as int]).push(kv[ov[j as int] as int]));
        assert(layer_view(ids@) =~= ov.take(j + 1).map_values(|i: usize| kv[i as int]));
        j = j + 1;
    }
    assert(ov.take(ov.len() as int) =~= ov);
    proof {
        let m = ov.map_values(|i: usize| kv[i as int]);
        assert(layer_view(ids@) == m);
        lemma_distinct_len(ov, kv.len() as int);
        assert forall|x: Seq<char>| #[trigger] m.to_set().contains(x) <==> kv.to_set().contains(x) by {
            if m.contains(x) {
                let i = choose|i: int| 0 <= i < m.len() && m[i] == x;
                assert(kv[ov[i] as int] == x);
            }
            if kv.contains(x) {
                let q = choose|q: int| 0 <= q < kv.len() && kv[q] == x;
                // Every index occurs in the order: it holds n distinct indices below n.
                let s = ov.map_values(|i: usize| i as int);
                assert forall|a: int, b: int| 0 <= a < b < s.len() implies s[a] != s[b] by {
                    assert(ov[a] != ov[b]);
                }
                s.unique_seq_to_set();
                vstd::set_lib::lemma_int_range(0, kv.len() as int);
                assert forall|y: int| #[trigger] s.to_set().contains(y) implies vstd::set_lib::set_int_range(0, kv.len() as int).contains(y) by {
                    let i = choose|i: int| 0 <= i < s.len() && s[i] == y;
                }
                vstd::set_lib::lemma_subset_equality(s.to_set(), vstd::set_lib::set_int_range(0, kv.len() as int));
                assert(s.to_set().contains(q));
                let i = choose|i: int| 0 <= i < s.len() && s[i] == q;
                assert(m[i] == x);
            }
        }
        assert(m.to_set() =~= kv.to_set());
    }
    ids
}

// ---------------------------------------------------------------------------
// The kind of every state node
// ---------------------------------------------------------------------------

/// The kind of a node of the state graph: the start and end states, fork and
/// join bars, composite states, and ordinary states with their description
/// and display label.
#[derive(Debug)]
pub enum StateNode {
    Start,
    End,
    Fork,
    Join,
    Composite,
    Normal { description: Option<String>, label: Option<String> },
}

/// A node kind with its strings as sequences.
pub enum StateNodeV {
    Start,
    End,
    Fork,
    Join,
    Composite,
    Normal(Option<Seq<char>>, Option<Seq<char>>),
}

pub open spec fn opt_view(o: Option<String>) -> Option<Seq<char>> {
    match o {
        Some(s) => Some(s@),
        None => None,
    }
}

pub open spec fn node_kind_view(k: StateNode) -> StateNodeV {
    match k {
        StateNode::Start => StateNodeV::Start,
        StateNode::End => StateNodeV::End,
        StateNode::Fork => StateNodeV::Fork,
        StateNode::Join => StateNodeV::Join,
        StateNode::Composite => StateNodeV::Composite,
        StateNode::Normal { description, label } => StateNodeV::Normal(opt_view(description), opt_view(label)),
    }
}

/// Some fork state has id `id`.
pub open spec fn fork_named(states: Seq<State>, id: Seq<char>) -> bool {
    exists|i: int| 0 <= i < states.len() && (#[trigger] states[i] matches State::Fork { id: x } && x@ == id)
}

/// Some join state has id `id`.
pub open spec fn join_named(states: Seq<State>, id: Seq<char>) -> bool {
    exists|i: int| 0 <= i < states.len() && (#[trigger] states[i] matches State::Join { id: x } && x@ == id)
}

/// Some composite state has id `id`.
pub open spec fn composite_named(states: Seq<State>, id: Seq<char>) -> bool {
    exists|i: int| 0 <= i < states.len() && (#[trigger] states[i] matches State::Composite { id: x, .. } && x@ == id)
}

/// The display label of `id`: the description of the last simple state with
/// that id that has one.
pub open spec fn simple_label(states: Seq<State>, id: Seq<char>) -> Option<Seq<char>>
    decreases states.len(),
{
    if states.len() == 0 {
        None
    } else {
        match states.last() {
            State::Simple { id: x, description: Some(d) } => if x@ == id { Some(d@) } else { simple_label(states.drop_last(), id) },
            _ => simple_label(states.drop_last(), id),
        }
    }
}

/// The kind of the state `id` that a transition names: a fork, a join or a
/// composite state when one is declared with that id (in that order of
/// preference), else an ordinary state with its label.
pub open spec fn kind_of(states: Seq<State>, id: Seq<char>) -> StateNodeV {
    if fork_named(states, id) {
        StateNodeV::Fork
    } else if join_named(states, id) {
        StateNodeV::Join
    } else if composite_named(states, id) {
        StateNodeV::Composite
    } else {
        StateNodeV::Normal(None, simple_label(states, id))
    }
}

/// Adds a keyed node unless its key is already there.
pub open spec fn add_kind(ns: Seq<(Seq<char>, StateNodeV)>, k: Seq<char>, v: StateNodeV) -> Seq<(Seq<char>, StateNodeV)> {
    if ns.map_values(|p: (Seq<char>, StateNodeV)| p.0).contains(k) { ns } else { ns.push((k, v)) }
}

/// The keys of the state graph with the kind each one first gets: `[*]` as
/// a source is the start state, as a target the end state; any other state
/// takes [`kind_of`].
pub open spec fn graph_kinds(ts: Seq<Transition>, states: Seq<State>) -> Seq<(Seq<char>, StateNodeV)>
    decreases ts.len(),
{
    if ts.len() == 0 {
        Seq::empty()
    } else {
        let r = graph_kinds(ts.drop_last(), states);
        let t = ts.last();
        let r1 = add_kind(r, from_id(t), if t.from@ == "[*]"@ { StateNodeV::Start } else { kind_of(states, t.from@) });
        add_kind(r1, to_id(t), if t.to@ == "[*]"@ { StateNodeV::End } else { kind_of(states, t.to@) })
    }
}

proof fn lemma_graph_kinds_keys(ts: Seq<Transition>, states: Seq<State>)
    ensures
        graph_kinds(ts, states).map_values(|p: (Seq<char>, StateNodeV)| p.0) == graph_keys(ts),
    decreases ts.len(),
{
    if ts.len() > 0 {
        lemma_graph_kinds_keys(ts.drop_last(), states);
        let t = ts.last();
        let r = graph_kinds(ts.drop_last(), states);
        let r1 = add_kind(r, from_id(t), if t.from@ == "[*]"@ { StateNodeV::Start } else { kind_of(states, t.from@) });
        let kf = |p: (Seq<char>, StateNodeV)| p.0;
        assert(r1.map_values(kf) =~= add_key(r.map_values(kf), from_id(t)));
        let r2 = graph_kinds(ts, states);
        assert(r2.map_values(kf) =~= add_key(r1.map_values(kf), to_id(t)));
    }
}

fn fork_exec(states: &Vec<State>, id: &String) -> (b: bool)
    ensures
        b == fork_named(states@, id@),
{
    let mut i: usize = 0;
    while i < states.len()
        invariant
            i <= states@.len(),
            forall|j: int| 0 <= j < i ==> !(#[trigger] states@[j] matches State::Fork { id: x } && x@ == id@),
        decreases states@.len() - i,
    {
        match &states[i] {
            State::Fork { id: x } => {
                if *x == *id {
                    return true;
                }
            },
            _ => {},
        }
        i = i + 1;
    }
    false
}

fn join_exec(states: &Vec<State>, id: &String) -> (b: bool)
    ensures
        b == join_named(states@, id@),
{
    let mut i: usize = 0;
    while i < states.len()
        invariant
            i <= states@.len(),
            forall|j: int| 0 <= j < i ==> !(#[trigger] states@[j] matches State::Join { id: x } && x@ == id@),
        decreases states@.len() - i,
    {
        match &states[i] {
            State::Join { id: x } => {
                if *x == *id {
                    return true;
                }
            },
            _ => {},
        }
        i = i + 1;
    }
    false
}

fn composite_exec(states: &Vec<State>, id: &String) -> (b: bool)
    ensures
        b == composite_named(states@, id@),
{
    let mut i: usize = 0;
    while i < states.len()
        invariant
            i <= states@.len(),
            forall|j: int| 0 <= j < i ==> !(#[trigger] states@[j] matches State::Composite { id: x, .. } && x@ == id@),
        decreases states@.len() - i,
    {
        match &states[i] {
            State::Composite { id: x, .. } => {
                if *x == *id {
                    return true;
                }
            },
            _ => {},
        }
        i = i + 1;
    }
    false
}

fn simple_label_exec(states: &Vec<State>, id: &String) -> (l: Option<String>)
    ensures
        opt_view(l) == simple_label(states@, id@),
{
    let mut i = states.len();
    assert(states@.take(i as int) =~= states@);
    while i > 0
        invariant
            i <= states@.len(),
            simple_label(states@, id@) == simple_label(states@.take(i as int), id@),
        decreases i,
    {
        let ghost t = states@.take(i as int);
        assert(t.drop_last() =~= states@.take(i - 1));
        assert(t.last() == states@[i - 1]);
        match &states[i - 1] {
            State::Simple { id: x, description: Some(d) } => {
                if *x == *id {
                    return Some(d.clone());
                }
            },
            _ => {},
        }
        i = i - 1;
    }
    assert(states@.take(0) =~= Seq::<State>::empty());
    None
}

/// The kind of the state `id` (see [`kind_of`]).
fn make_node(states: &Vec<State>, id: &String) -> (k: StateNode)
    ensures
        node_kind_view(k) == kind_of(states@, id@),
{
    if fork_exec(states, id) {
        StateNode::Fork
    } else if join_exec(states, id) {
        StateNode::Join
    } else if composite_exec(states, id) {
        StateNode::Composite
    } else {
        StateNode::Normal { description: None, label: simple_label_exec(states, id) }
    }
}

/// The kind of every node of the state graph, in the order of its keys
/// (see [`state_graph`]): the kind the state gets where a transition first
/// names it.
pub fn state_node_kinds(sd: &StateDiagram) -> (kinds: Vec<StateNode>)
    ensures
        kinds@.len() == graph_kinds(sd.transitions@, sd.states@).len(),
        forall|i: int| 0 <= i < kinds@.len() ==> node_kind_view(#[trigger] kinds@[i])
            == graph_kinds(sd.transitions@, sd.states@)[i].1,
        graph_kinds(sd.transitions@, sd.states@).map_values(|p: (Seq<char>, StateNodeV)| p.0) == graph_keys(sd.transitions@),
{
    let ghost ts = sd.transitions@;
    let ghost st = sd.states@;
    let star = marker_string(0);
    let mut keys: Vec<String> = Vec::new();
    let mut kinds: Vec<StateNode> = Vec::new();
    let mut k: usize = 0;
    assert(ts.take(0) =~= Seq::<Transition>::empty());
    while k < sd.transitions.len()
        invariant
            k <= ts.len(),
            ts == sd.transitions@,
            st == sd.states@,
            star@ == "[*]"@,
            keys@.len() == kinds@.len(),
            graph_kinds(ts.take(k as int), st) == Seq::new(keys@.len(), |i: int| (keys@[i]@, node_kind_view(kinds@[i]))),
        decreases ts.len() - k,
    {
        let ghost before = graph_kinds(ts.take(k as int), st);
        assert(ts.take(k + 1).drop_last() =~= ts.take(k as int));
        let tr = &sd.transitions[k];
        assert(ts.take(k + 1).last() == *tr);
        let from_star = tr.from == star;
        let to_star = tr.to == star;
        let from = if from_star { marker_string(1) } else { tr.from.clone() };
        let to = if to_star { marker_string(2) } else { tr.to.clone() };
        proof {
            lemma_last_pos_range(layer_view(keys@), from@);
            assert(before.map_values(|p: (Seq<char>, StateNodeV)| p.0) =~= layer_view(keys@));
        }
        if find_last(&keys, &from).is_none() {
            let kind = if from_star { StateNode::Start } else { make_node(&sd.states, &tr.from) };
            keys.push(from);
            kinds.push(kind);
        }
        let ghost mid = add_kind(before, from_id(*tr), if tr.from@ == "[*]"@ { StateNodeV::Start } else { kind_of(st, tr.from@) });
        assert(mid =~= Seq::new(keys@.len(), |i: int| (keys@[i]@, node_kind_view(kinds@[i]))));
        proof {
            lemma_last_pos_range(layer_view(keys@), to@);
            assert(mid.map_values(|p: (Seq<char>, StateNodeV)| p.0) =~= layer_view(keys@));
        }
        if find_last(&keys, &to).is_none() {
            let kind = if to_star { StateNode::End } else { make_node(&sd.states, &tr.to) };
            keys.push(to);
            kinds.push(kind);
        }
        assert(graph_kinds(ts.take(k + 1), st) =~= Seq::new(keys@.len(), |i: int| (keys@[i]@, node_kind_view(kinds@[i]))));
        k = k + 1;
    }
    assert(ts.take(ts.len() as int) =~= ts);
    proof {
        lemma_graph_kinds_keys(ts, st);
    }
    kinds
}

/// The text shown for a state node with key `id`: "Start" and "End" for the
/// start and end states, nothing for a fork, the id for a join or a
/// composite state, and for an ordinary state its label, or its id when it
/// has none.
pub open spec fn node_text(k: StateNodeV, id: Seq<char>) -> Seq<char> {
    match k {
        StateNodeV::Start => "Start"@,
        StateNodeV::End => "End"@,
        StateNodeV::Fork => Seq::empty(),
        StateNodeV::Join => id,
        StateNodeV::Composite => id,
        StateNodeV::Normal(_, label) => match label {
            Some(l) => l,
            None => id,
        },
    }
}

/// The text shown for a state node (see [`node_text`]).
pub fn state_node_text(k: &StateNode, id: &String) -> (t: String)
    ensures
        t@ == node_text(node_kind_view(*k), id@),
{
    match k {
        StateNode::Start => String::from_str("Start"),
        StateNode::End => String::from_str("End"),
        StateNode::Fork => String::new(),
        StateNode::Join => id.clone(),
        StateNode::Composite => id.clone(),
        StateNode::Normal { label, .. } => match label {
            Some(l) => l.clone(),
            None => id.clone(),
        },
    }
}

} // verus!
