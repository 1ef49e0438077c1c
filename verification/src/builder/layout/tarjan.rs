//! Strongly connected components of a layered graph by Tarjan's
//! algorithm: a depth-first search from every unvisited node in index
//! order, each node looking at its edges in the graph's own order (most
//! recently added first); a node whose low link stays at its own index
//! closes a component, which takes the nodes above it on the search stack.

use vstd::prelude::*;

use petgraph::graph::DiGraph;

use super::analyze::{
    digraph_edges, digraph_nodes, edges_below, graph_node_bound, graph_out_targets, lemma_targets_from,
    lemma_unvisited_bounds, lemma_unvisited_mark, targets_from, unvisited,
};

verus! {

// ---------------------------------------------------------------------------
// The search, as a specification
// ---------------------------------------------------------------------------

/// State of the search: the next index, the search stack, each node's
/// index (once visited) and low link, which nodes are on the stack, and
/// the components closed so far.
pub struct TarjanState {
    pub index: usize,
    pub stack: Seq<usize>,
    pub indices: Seq<Option<usize>>,
    pub low: Seq<usize>,
    pub on_stack: Seq<bool>,
    pub sccs: Seq<Seq<usize>>,
}

/// Which nodes have been visited.
pub open spec fn visited_flags(ix: Seq<Option<usize>>) -> Seq<bool> {
    ix.map_values(|o: Option<usize>| o is Some)
}

/// The targets of `v` in the order the graph lists them.
pub open spec fn out_order(edges: Seq<(usize, usize)>, v: usize) -> Seq<usize> {
    targets_from(edges, v as int).reverse()
}

/// Visiting `v`: it gets the next index as index and low link and goes
/// on the stack.
pub open spec fn visit(st: TarjanState, v: usize) -> TarjanState {
    TarjanState {
        index: (st.index + 1) as usize,
        stack: st.stack.push(v),
        indices: st.indices.update(v as int, Some(st.index)),
        low: st.low.update(v as int, st.index),
        on_stack: st.on_stack.update(v as int, true),
        sccs: st.sccs,
    }
}

/// Lowers the low link of `v` to `x` when `x` is smaller.
pub open spec fn lower(st: TarjanState, v: usize, x: usize) -> TarjanState {
    TarjanState {
        low: st.low.update(v as int, if x < st.low[v as int] { x } else { st.low[v as int] }),
        ..st
    }
}

/// Position of the last `x` in `s`, or -1.
pub open spec fn last_at(s: Seq<usize>, x: usize) -> int
    decreases s.len(),
{
    if s.len() == 0 {
        -1
    } else if s.last() == x {
        s.len() - 1
    } else {
        last_at(s.drop_last(), x)
    }
}

/// Closes the component of `v`: the stack from `v` up leaves the stack,
/// top first, as a new component.
pub open spec fn pop_component(st: TarjanState, v: usize) -> TarjanState {
    let p = last_at(st.stack, v);
    let seg = st.stack.subrange(p, st.stack.len() as int);
    TarjanState {
        stack: st.stack.take(p),
        on_stack: Seq::new(st.on_stack.len(), |i: int| if seg.contains(i as usize) { false } else { st.on_stack[i] }),
        sccs: st.sccs.push(seg.reverse()),
        ..st
    }
}

/// The search from `v` (at most `fuel` levels deep): visit it, follow its
/// edges, and close its component when its low link is its index.
pub open spec fn strongconnect(edges: Seq<(usize, usize)>, st: TarjanState, v: usize, fuel: nat) -> TarjanState
    decreases fuel, 0nat,
{
    if fuel == 0 {
        st
    } else {
        let st1 = visit(st, v);
        let st2 = connect_list(edges, st1, v, out_order(edges, v), (fuel - 1) as nat);
        if st2.indices[v as int] == Some(st2.low[v as int]) {
            pop_component(st2, v)
        } else {
            st2
        }
    }
}

/// The edges from `v` to `ws`, in order: an unvisited target is searched
/// and lowers `v`'s low link to its own; a target on the stack lowers it
/// to its index.
pub open spec fn connect_list(edges: Seq<(usize, usize)>, st: TarjanState, v: usize, ws: Seq<usize>, fuel: nat) -> TarjanState
    decreases fuel, ws.len() + 1,
{
    if ws.len() == 0 {
        st
    } else {
        let st1 = connect_list(edges, st, v, ws.drop_last(), fuel);
        let w = ws.last();
        if st1.indices[w as int] is None {
            let st2 = strongconnect(edges, st1, w, fuel);
            lower(st2, v, st2.low[w as int])
        } else if st1.on_stack[w as int] {
            lower(st1, v, st1.indices[w as int]->0)
        } else {
            st1
        }
    }
}

/// Before the search: nothing visited.
pub open spec fn tarjan_start(n: nat) -> TarjanState {
    TarjanState {
        index: 0,
        stack: Seq::empty(),
        indices: Seq::new(n, |i: int| None),
        low: Seq::new(n, |i: int| 0usize),
        on_stack: Seq::new(n, |i: int| false),
        sccs: Seq::empty(),
    }
}

/// The search from every unvisited node below `k`, in index order.
pub open spec fn tarjan_upto(edges: Seq<(usize, usize)>, n: nat, k: int) -> TarjanState
    decreases k,
{
    if k <= 0 {
        tarjan_start(n)
    } else {
        let st = tarjan_upto(edges, n, k - 1);
        if st.indices[k - 1] is None {
            strongconnect(edges, st, (k - 1) as usize, n + 1)
        } else {
            st
        }
    }
}

/// The components of a graph with `n` nodes and the given edges, in the
/// order they close, each listed top of stack first.
pub open spec fn spec_tarjan_scc(edges: Seq<(usize, usize)>, n: nat) -> Seq<Seq<usize>> {
    tarjan_upto(edges, n, n as int).sccs
}

// ---------------------------------------------------------------------------
// The search
// ---------------------------------------------------------------------------

/// The state of a running search.
struct TarjanRun {
    index: usize,
    stack: Vec<usize>,
    indices: Vec<Option<usize>>,
    low: Vec<usize>,
    on_stack: Vec<bool>,
    sccs: Vec<Vec<usize>>,
}

impl View for TarjanRun {
    type V = TarjanState;

    closed spec fn view(&self) -> TarjanState {
        TarjanState {
            index: self.index,
            stack: self.stack@,
            indices: self.indices@,
            low: self.low@,
            on_stack: self.on_stack@,
            sccs: comp_view(self.sccs@),
        }
    }
}

/// The components as sequences.
pub open spec fn comp_view(sccs: Seq<Vec<usize>>) -> Seq<Seq<usize>> {
    sccs.map_values(|c: Vec<usize>| c@)
}

/// What holds of the state between steps: sizes, the next index counts
/// the visited nodes, and the stack holds nodes of the graph.
pub open spec fn run_ok(st: TarjanState, n: int) -> bool {
    &&& st.indices.len() == n
    &&& st.low.len() == n
    &&& st.on_stack.len() == n
    &&& st.index as int == n - unvisited(visited_flags(st.indices))
    &&& forall|i: int| 0 <= i < st.stack.len() ==> (#[trigger] st.stack[i] as int) < n
}

/// `b` starts with the entries of `a`.
pub open spec fn extends(a: Seq<usize>, b: Seq<usize>) -> bool {
    &&& a.len() <= b.len()
    &&& forall|i: int| 0 <= i < a.len() ==> #[trigger] b[i] == a[i]
}

/// Visited nodes keep their index.
pub open spec fn keeps_indices(a: Seq<Option<usize>>, b: Seq<Option<usize>>) -> bool {
    forall|i: int| 0 <= i < a.len() && (#[trigger] a[i]) is Some ==> b[i] == a[i]
}

proof fn lemma_last_at(s: Seq<usize>, x: usize, i: int)
    requires
        0 <= i < s.len(),
        s[i] == x,
    ensures
        i <= last_at(s, x) < s.len(),
        s[last_at(s, x)] == x,
        forall|j: int| last_at(s, x) < j < s.len() ==> #[trigger] s[j] != x,
    decreases s.len(),
{
    if s.last() != x {
        lemma_last_at(s.drop_last(), x, i);
        assert forall|j: int| last_at(s, x) < j < s.len() implies #[trigger] s[j] != x by {
            if j < s.len() - 1 {
                assert(s.drop_last()[j] == s[j]);
            }
        }
    }
}

proof fn lemma_visit_flags(ix: Seq<Option<usize>>, v: int, k: usize)
    requires
        0 <= v < ix.len(),
        ix[v] is None,
    ensures
        visited_flags(ix.update(v, Some(k))) == visited_flags(ix).update(v, true),
        !visited_flags(ix)[v],
{
    assert(visited_flags(ix.update(v, Some(k))) =~= visited_flags(ix).update(v, true));
}

proof fn lemma_targets_below(edges: Seq<(usize, usize)>, n: int, v: usize)
    requires
        edges_below(edges, n),
    ensures
        forall|i: int| 0 <= i < out_order(edges, v).len() ==> (#[trigger] out_order(edges, v)[i] as int) < n,
{
    let t = targets_from(edges, v as int);
    assert forall|i: int| 0 <= i < out_order(edges, v).len() implies (#[trigger] out_order(edges, v)[i] as int) < n by {
        let w = out_order(edges, v)[i];
        assert(t[t.len() - 1 - i] == w);
        assert(t.contains(w));
        lemma_targets_from(edges, v, w);
        let k = choose|k: int| 0 <= k < edges.len() && edges[k] == (v, w);
        assert(edges[k].1 == w);
    }
}

/// Closes the component of `v`, which is on the stack.
fn pop_component_exec(run: &mut TarjanRun, v: usize, Ghost(n): Ghost<int>, Ghost(p0): Ghost<int>)
    requires
        run_ok(old(run)@, n),
        n <= usize::MAX,
        0 <= p0 < old(run)@.stack.len(),
        old(run)@.stack[p0] == v,
    ensures
        final(run)@ == pop_component(old(run)@, v),
        run_ok(final(run)@, n),
{
    let ghost s2 = run@;
    let ghost big_l = s2.stack.len() as int;
    proof {
        lemma_last_at(s2.stack, v, p0);
    }
    let ghost p = last_at(s2.stack, v);
    let mut scc: Vec<usize> = Vec::new();
    let mut done = false;
    assert(s2.stack.take(big_l) =~= s2.stack);
    assert(s2.stack.subrange(big_l, big_l).reverse() =~= Seq::<usize>::empty());
    assert(run.on_stack@ =~= Seq::new(s2.on_stack.len(), |i: int| if s2.stack.subrange(big_l, big_l).contains(i as usize) { false } else { s2.on_stack[i] }));
    while !done
        invariant
            run_ok(s2, n),
            n <= usize::MAX,
            0 <= p0,
            p == last_at(s2.stack, v),
            p0 <= p < big_l,
            big_l == s2.stack.len(),
            s2.stack[p] == v,
            forall|j: int| p < j < big_l ==> #[trigger] s2.stack[j] != v,
            run.index == s2.index,
            run.indices@ == s2.indices,
            run.low@ == s2.low,
            run.sccs@.map_values(|c: Vec<usize>| c@) == s2.sccs,
            done ==> run.stack@.len() == p,
            !done ==> p < run.stack@.len(),
            run.stack@.len() <= big_l,
            run.stack@ == s2.stack.take(run.stack@.len() as int),
            scc@ == s2.stack.subrange(run.stack@.len() as int, big_l).reverse(),
            run.on_stack@ == Seq::new(
                s2.on_stack.len(),
                |i: int| if s2.stack.subrange(run.stack@.len() as int, big_l).contains(i as usize) { false } else { s2.on_stack[i] },
            ),
        decreases run.stack@.len() + if done { 0int } else { 1int },
    {
        let ghost cur = run.stack@.len() as int;
        assert(!done);
        assert(p < cur);
        assert(cur > 0);
        let popped = run.stack.pop();
        assert(popped is Some);
        let w = popped.unwrap();
        assert(w == s2.stack[cur - 1]);
        assert((w as int) < n);
        run.on_stack.set(w, false);
        scc.push(w);
        let ghost seg0 = s2.stack.subrange(cur, big_l);
        let ghost seg1 = s2.stack.subrange(cur - 1, big_l);
        assert(seg1 =~= seq![w] + seg0);
        assert(scc@ =~= seg1.reverse());
        assert(run.stack@ =~= s2.stack.take(cur - 1));
        assert forall|i: int| 0 <= i < s2.on_stack.len() implies #[trigger] run.on_stack@[i] == (if seg1.contains(i as usize) { false } else { s2.on_stack[i] }) by {
            if seg1.contains(i as usize) && i as usize != w {
                let k = choose|k: int| 0 <= k < seg1.len() && seg1[k] == i as usize;
                assert(k > 0);
                assert(seg0[k - 1] == i as usize);
            }
            if seg0.contains(i as usize) {
                let k = choose|k: int| 0 <= k < seg0.len() && seg0[k] == i as usize;
                assert(seg1[k + 1] == i as usize);
            }
            if i as usize == w {
                assert(seg1[0] == w);
            }
        }
        assert(run.on_stack@ =~= Seq::new(s2.on_stack.len(), |i: int| if seg1.contains(i as usize) { false } else { s2.on_stack[i] }));
        if w == v {
            done = true;
        }
    }
    run.sccs.push(scc);
    let ghost fin = run@;
    let ghost want = pop_component(s2, v);
    assert(fin.sccs =~= want.sccs);
    assert(fin.on_stack =~= want.on_stack);
    assert(fin.stack =~= want.stack);
}

/// The search from the unvisited node `v`.
fn connect(g: &DiGraph<usize, ()>, v: usize, run: &mut TarjanRun, Ghost(fuel): Ghost<nat>, Ghost(b): Ghost<int>)
    requires
        edges_below(digraph_edges(*g), digraph_nodes(*g).len() as int),
        digraph_nodes(*g).len() <= usize::MAX,
        run_ok(old(run)@, digraph_nodes(*g).len() as int),
        (v as int) < digraph_nodes(*g).len(),
        old(run)@.indices[v as int] is None,
        fuel > unvisited(visited_flags(old(run)@.indices)),
        sound(old(run)@, digraph_nodes(*g).len() as int, b),
    ensures
        final(run)@ == strongconnect(digraph_edges(*g), old(run)@, v, fuel),
        sound(final(run)@, digraph_nodes(*g).len() as int, b),
        final(run)@.indices[v as int] == Some(old(run)@.index),
        b == old(run)@.index ==> final(run)@.stack.len() == old(run)@.stack.len(),
        run_ok(final(run)@, digraph_nodes(*g).len() as int),
        extends(old(run)@.stack, final(run)@.stack),
        keeps_indices(old(run)@.indices, final(run)@.indices),
        final(run)@.indices[v as int] is Some,
        final(run)@.index > old(run)@.index,
    decreases fuel,
{
    let ghost edges = digraph_edges(*g);
    let ghost n = digraph_nodes(*g).len() as int;
    let ghost st0 = run@;
    proof {
        lemma_visit_flags(st0.indices, v as int, st0.index);
        lemma_unvisited_mark(visited_flags(st0.indices), v as int);
        lemma_unvisited_bounds(visited_flags(st0.indices));
    }
    // Visit.
    let i = run.index;
    run.indices.set(v, Some(i));
    run.low.set(v, i);
    run.index = i + 1;
    run.stack.push(v);
    run.on_stack.set(v, true);
    let ghost st1 = run@;
    assert(st1 == visit(st0, v));
    proof {
        lemma_visit_sound(st0, n, b, v);
    }
    let ghost p0 = st0.stack.len() as int;
    let ws = graph_out_targets(g, v);
    proof {
        lemma_targets_below(edges, n, v);
        assert forall|j: int| 0 <= j < ws@.len() implies (#[trigger] ws@[j] as int) < n by {
            assert(ws@[j] == out_order(edges, v)[j]);
        }
    }
    let mut k: usize = 0;
    assert(ws@.take(0) =~= Seq::<usize>::empty());
    while k < ws.len()
        invariant
            edges == digraph_edges(*g),
            n == digraph_nodes(*g).len(),
            n <= usize::MAX,
            edges_below(edges, n),
            (v as int) < n,
            k <= ws@.len(),
            ws@ == out_order(edges, v),
            forall|j: int| 0 <= j < ws@.len() ==> (#[trigger] ws@[j] as int) < n,
            fuel >= 1,
            run_ok(run@, n),
            run@ == connect_list(edges, st1, v, ws@.take(k as int), (fuel - 1) as nat),
            extends(st1.stack, run@.stack),
            keeps_indices(st1.indices, run@.indices),
            st1.indices[v as int] == Some(st0.index),
            sound(run@, n, b),
            st0.index >= b,
            run@.index >= st1.index,
            st1.index as int == n - unvisited(visited_flags(st1.indices)),
            (fuel - 1) as int > unvisited(visited_flags(st1.indices)),
            run_ok(st1, n),
        decreases ws@.len() - k,
    {
        let ghost t = ws@.take(k + 1);
        assert(t.drop_last() =~= ws@.take(k as int));
        assert(t.last() == ws@[k as int]);
        let w = ws[k];
        let ghost before = run@;
        match run.indices[w] {
            None => {
                connect(g, w, run, Ghost((fuel - 1) as nat), Ghost(b));
                proof {
                    let m = run@;
                    assert(m.indices[w as int] == Some(before.index));
                    assert(m.indices[v as int] == st1.indices[v as int]) by {
                        assert(before.indices[v as int] == st1.indices[v as int]);
                    }
                    lemma_lower_sound(m, n, b, v, m.low[w as int]);
                }
                let wl = run.low[w];
                let vl = run.low[v];
                run.low.set(v, if wl < vl { wl } else { vl });
                let ghost mid = strongconnect(edges, before, w, (fuel - 1) as nat);
                assert(run@ =~= lower(mid, v, mid.low[w as int]));
                assert(keeps_indices(st1.indices, run@.indices)) by {
                    assert forall|x: int| 0 <= x < st1.indices.len() && (#[trigger] st1.indices[x]) is Some implies run@.indices[x] == st1.indices[x] by {
                        assert(before.indices[x] == st1.indices[x]);
                    }
                }
                assert(extends(st1.stack, run@.stack)) by {
                    assert forall|x: int| 0 <= x < st1.stack.len() implies #[trigger] run@.stack[x] == st1.stack[x] by {
                        assert(before.stack[x] == st1.stack[x]);
                    }
                }
            },
            Some(wi) => {
                if run.on_stack[w] {
                    proof {
                        assert(before.stack.contains(w));
                        let i = choose|i: int| 0 <= i < before.stack.len() && before.stack[i] == w;
                        assert(before.indices[before.stack[i] as int] is Some);
                        assert(before.indices[v as int] == st1.indices[v as int]);
                        lemma_lower_sound(before, n, b, v, wi);
                    }
                    let vl = run.low[v];
                    run.low.set(v, if wi < vl { wi } else { vl });
                    assert(run@ =~= lower(before, v, before.indices[w as int]->0));
                }
            },
        }
        k = k + 1;
    }
    assert(ws@.take(ws@.len() as int) =~= ws@);
    let ghost st2 = run@;
    assert(st2.indices[v as int] == st1.indices[v as int]);
    let vi = match run.indices[v] {
        Some(x) => x,
        None => 0,
    };
    assert(st2.low[v as int] <= st0.index && st2.low[v as int] >= b);
    if run.low[v] == vi {
        assert(st2.stack[p0] == v);
        proof {
            lemma_pop_sound(st2, n, b, v, p0);
        }
        pop_component_exec(run, v, Ghost(n), Ghost(p0));
        proof {
            lemma_last_at(st2.stack, v, p0);
        }
        assert(extends(st0.stack, run@.stack)) by {
            assert forall|x: int| 0 <= x < st0.stack.len() implies #[trigger] run@.stack[x] == st0.stack[x] by {
                assert(st1.stack[x] == st0.stack[x]);
                assert(st2.stack[x] == st1.stack[x]);
            }
        }
    } else {
        assert(extends(st0.stack, run@.stack)) by {
            assert forall|x: int| 0 <= x < st0.stack.len() implies #[trigger] run@.stack[x] == st0.stack[x] by {
                assert(st1.stack[x] == st0.stack[x]);
            }
        }
    }
    assert(keeps_indices(st0.indices, run@.indices)) by {
        assert forall|x: int| 0 <= x < st0.indices.len() && (#[trigger] st0.indices[x]) is Some implies run@.indices[x] == st0.indices[x] by {
            assert(st1.indices[x] == st0.indices[x]);
        }
    }
}

/// The strongly connected components of `g`, as node indices, by Tarjan's
/// algorithm (see [`spec_tarjan_scc`]): components in the order they
/// close, each listing its nodes from the top of the search stack down.
pub fn tarjan_scc(g: &DiGraph<usize, ()>) -> (sccs: Vec<Vec<usize>>)
    ensures
        comp_view(sccs@) == spec_tarjan_scc(digraph_edges(*g), digraph_nodes(*g).len()),
        forall|c: int| 0 <= c < sccs@.len() ==> (#[trigger] sccs@[c])@.len() > 0,
        concat_all(comp_view(sccs@)).no_duplicates(),
        forall|x: usize| #[trigger] concat_all(comp_view(sccs@)).contains(x) <==> (x as int) < digraph_nodes(*g).len(),
{
    let n = graph_node_bound(g);
    let ghost edges = digraph_edges(*g);
    let mut run = TarjanRun {
        index: 0,
        stack: Vec::new(),
        indices: Vec::new(),
        low: Vec::new(),
        on_stack: Vec::new(),
        sccs: Vec::new(),
    };
    let mut i: usize = 0;
    while i < n
        invariant
            i <= n,
            run.index == 0,
            run.stack@.len() == 0,
            run.sccs@.len() == 0,
            run.indices@ == Seq::new(i as nat, |j: int| None::<usize>),
            run.low@ == Seq::new(i as nat, |j: int| 0usize),
            run.on_stack@ == Seq::new(i as nat, |j: int| false),
        decreases n - i,
    {
        run.indices.push(None);
        run.low.push(0);
        run.on_stack.push(false);
        assert(run.indices@ =~= Seq::new((i + 1) as nat, |j: int| None::<usize>));
        assert(run.low@ =~= Seq::new((i + 1) as nat, |j: int| 0usize));
        assert(run.on_stack@ =~= Seq::new((i + 1) as nat, |j: int| false));
        i = i + 1;
    }
    assert(run@.sccs =~= Seq::<Seq<usize>>::empty());
    assert(run@.stack =~= Seq::<usize>::empty());
    assert(run@ == tarjan_start(n as nat));
    proof {
        lemma_all_unvisited(n as nat);
        assert(all_nodes(run@) =~= Seq::<usize>::empty());
    }
    let mut v: usize = 0;
    while v < n
        invariant
            v <= n,
            n == digraph_nodes(*g).len(),
            edges == digraph_edges(*g),
            edges_below(edges, n as int),
            run_ok(run@, n as int),
            run@ == tarjan_upto(edges, n as nat, v as int),
            run@.stack.len() == 0,
            sound(run@, n as int, run@.index as int),
            forall|x: int| 0 <= x < v ==> (#[trigger] run@.indices[x]) is Some,
        decreases n - v,
    {
        if run.indices[v].is_none() {
            let ghost before = run@;
            proof {
                lemma_unvisited_bounds(visited_flags(run@.indices));
            }
            connect(g, v, &mut run, Ghost((n + 1) as nat), Ghost(before.index as int));
            proof {
                lemma_rebase(run@, n as int, before.index as int);
                assert forall|x: int| 0 <= x < v + 1 implies (#[trigger] run@.indices[x]) is Some by {
                    if x < v {
                        assert(before.indices[x] is Some);
                    }
                }
            }
        }
        v = v + 1;
    }
    proof {
        let fin = run@;
        assert(all_nodes(fin) =~= concat_all(fin.sccs));
        assert forall|x: usize| #[trigger] concat_all(fin.sccs).contains(x) <==> (x as int) < n by {
            if concat_all(fin.sccs).contains(x) {
                let k = choose|k: int| 0 <= k < concat_all(fin.sccs).len() && concat_all(fin.sccs)[k] == x;
                assert(all_nodes(fin)[k] == x);
            }
            if (x as int) < n {
                assert(fin.indices[x as int] is Some);
            }
        }
        assert forall|c: int| 0 <= c < run.sccs@.len() implies (#[trigger] run.sccs@[c])@.len() > 0 by {
            assert(fin.sccs[c] == run.sccs@[c]@);
        }
    }
    run.sccs
}

/// With an empty stack, any base up to the next index will do.
proof fn lemma_rebase(st: TarjanState, n: int, b: int)
    requires
        sound(st, n, b),
        st.stack.len() == 0,
    ensures
        sound(st, n, st.index as int),
{
}

proof fn lemma_all_unvisited(n: nat)
    ensures
        unvisited(visited_flags(Seq::new(n, |j: int| None::<usize>))) == n,
    decreases n,
{
    if n > 0 {
        lemma_all_unvisited((n - 1) as nat);
        assert(visited_flags(Seq::new(n, |j: int| None::<usize>)).drop_last()
            =~= visited_flags(Seq::new((n - 1) as nat, |j: int| None::<usize>)));
    }
}

// ---------------------------------------------------------------------------
// Every node in exactly one component
// ---------------------------------------------------------------------------

/// The nodes of the components, one after another.
pub open spec fn concat_all(ss: Seq<Seq<usize>>) -> Seq<usize>
    decreases ss.len(),
{
    if ss.len() == 0 {
        Seq::empty()
    } else {
        concat_all(ss.drop_last()) + ss.last()
    }
}

/// The nodes of the closed components, then those on the stack.
pub open spec fn all_nodes(st: TarjanState) -> Seq<usize> {
    concat_all(st.sccs) + st.stack
}

/// What the search keeps, for a search whose stack holds only nodes of
/// index at least `b`: every visited node lies exactly once in a closed
/// component or on the stack; the on-stack flags match the stack; a
/// visited node's low link is at most its index and, for a node of index
/// at least `b`, at least `b`.
pub open spec fn sound(st: TarjanState, n: int, b: int) -> bool {
    &&& all_nodes(st).no_duplicates()
    &&& forall|i: int| 0 <= i < all_nodes(st).len() ==> (#[trigger] all_nodes(st)[i] as int) < n
    &&& forall|x: int| 0 <= x < n ==> ((#[trigger] st.indices[x]) is Some <==> all_nodes(st).contains(x as usize))
    &&& forall|x: int| 0 <= x < n ==> (#[trigger] st.on_stack[x] <==> st.stack.contains(x as usize))
    &&& forall|c: int| 0 <= c < st.sccs.len() ==> (#[trigger] st.sccs[c]).len() > 0
    &&& forall|x: int| 0 <= x < n && (#[trigger] st.indices[x]) is Some ==> {
        &&& st.low[x] <= st.indices[x]->0
        &&& st.indices[x]->0 < st.index
        &&& (st.indices[x]->0 >= b ==> st.low[x] >= b)
    }
    &&& forall|i: int| 0 <= i < st.stack.len() ==> (#[trigger] st.indices[st.stack[i] as int]) is Some
        && st.indices[st.stack[i] as int]->0 >= b
    &&& b <= st.index
}

proof fn lemma_contains_concat(a: Seq<usize>, b: Seq<usize>, x: usize)
    ensures
        (a + b).contains(x) <==> (a.contains(x) || b.contains(x)),
{
    if (a + b).contains(x) {
        let k = choose|k: int| 0 <= k < (a + b).len() && (a + b)[k] == x;
        if k < a.len() {
            assert(a[k] == x);
        } else {
            assert(b[k - a.len()] == x);
        }
    }
    if a.contains(x) {
        let k = choose|k: int| 0 <= k < a.len() && a[k] == x;
        assert((a + b)[k] == x);
    }
    if b.contains(x) {
        let k = choose|k: int| 0 <= k < b.len() && b[k] == x;
        assert((a + b)[a.len() + k] == x);
    }
}

/// Same multiset, so the same members and, with no duplicates in one, none
/// in the other.
proof fn lemma_same_multiset(s: Seq<usize>, t: Seq<usize>)
    requires
        s.to_multiset() == t.to_multiset(),
        s.no_duplicates(),
    ensures
        t.no_duplicates(),
        forall|x: usize| #[trigger] t.contains(x) <==> s.contains(x),
{
    broadcast use vstd::seq_lib::group_to_multiset_ensures;
    s.lemma_multiset_has_no_duplicates();
    assert forall|x: usize| t.to_multiset().contains(x) implies t.to_multiset().count(x) == 1 by {}
    t.lemma_multiset_has_no_duplicates_conv();
    assert forall|x: usize| #[trigger] t.contains(x) <==> s.contains(x) by {
        assert(t.to_multiset().count(x) == s.to_multiset().count(x));
        assert(t.contains(x) <==> t.to_multiset().contains(x));
        assert(s.contains(x) <==> s.to_multiset().contains(x));
    }
}

proof fn lemma_visit_sound(st: TarjanState, n: int, b: int, v: usize)
    requires
        n <= usize::MAX,
        sound(st, n, b),
        run_ok(st, n),
        0 <= v < n,
        st.indices[v as int] is None,
    ensures
        sound(visit(st, v), n, b),
{
    let s1 = visit(st, v);
    lemma_visit_flags(st.indices, v as int, st.index);
    lemma_unvisited_mark(visited_flags(st.indices), v as int);
    lemma_unvisited_bounds(visited_flags(st.indices));
    assert(s1.index == st.index + 1);
    let a0 = all_nodes(st);
    assert(all_nodes(s1) =~= a0.push(v));
    assert(!a0.contains(v));
    assert forall|x: usize| #[trigger] all_nodes(s1).contains(x) <==> (a0.contains(x) || x == v) by {
        assert(all_nodes(s1) =~= a0 + seq![v]);
        lemma_contains_concat(a0, seq![v], x);
        assert(seq![v][0] == v);
    }
    assert forall|i: int, j: int| 0 <= i < j < all_nodes(s1).len() implies all_nodes(s1)[i] != all_nodes(s1)[j] by {
        if j == a0.len() {
            assert(a0.contains(all_nodes(s1)[i]));
        }
    }
    assert forall|x: usize| #[trigger] s1.stack.contains(x) <==> (st.stack.contains(x) || x == v) by {
        assert(s1.stack =~= st.stack + seq![v]);
        lemma_contains_concat(st.stack, seq![v], x);
        assert(seq![v][0] == v);
    }
    assert forall|i: int| 0 <= i < s1.stack.len() implies (#[trigger] s1.indices[s1.stack[i] as int]) is Some
        && s1.indices[s1.stack[i] as int]->0 >= b by {
        if i < st.stack.len() {
            assert(s1.stack[i] == st.stack[i]);
            assert(st.indices[st.stack[i] as int] is Some);
        }
    }
    assert(all_nodes(s1).no_duplicates());
    assert forall|i: int| 0 <= i < all_nodes(s1).len() implies (#[trigger] all_nodes(s1)[i] as int) < n by {
        if i < a0.len() {
            assert(all_nodes(s1)[i] == a0[i]);
        }
    }
    assert forall|x: int| 0 <= x < n implies ((#[trigger] s1.indices[x]) is Some <==> all_nodes(s1).contains(x as usize)) by {
        assert(all_nodes(s1).contains(x as usize) <==> (a0.contains(x as usize) || x as usize == v));
    }
    assert forall|x: int| 0 <= x < n implies (#[trigger] s1.on_stack[x] <==> s1.stack.contains(x as usize)) by {
        assert(s1.stack.contains(x as usize) <==> (st.stack.contains(x as usize) || x as usize == v));
    }
    assert forall|c: int| 0 <= c < s1.sccs.len() implies (#[trigger] s1.sccs[c]).len() > 0 by {
        assert(s1.sccs[c] == st.sccs[c]);
    }
    assert forall|x: int| 0 <= x < n && (#[trigger] s1.indices[x]) is Some implies {
        &&& s1.low[x] <= s1.indices[x]->0
        &&& s1.indices[x]->0 < s1.index
        &&& (s1.indices[x]->0 >= b ==> s1.low[x] >= b)
    } by {
        if x != v as int {
            assert(st.indices[x] is Some);
        }
    }
}

proof fn lemma_lower_sound(st: TarjanState, n: int, b: int, v: usize, x: usize)
    requires
        n <= usize::MAX,
        sound(st, n, b),
        run_ok(st, n),
        0 <= v < n,
        st.indices[v as int] is Some,
        x >= b,
    ensures
        sound(lower(st, v, x), n, b),
{
    let s1 = lower(st, v, x);
    assert(all_nodes(s1) == all_nodes(st));
    assert forall|y: int| 0 <= y < n && (#[trigger] s1.indices[y]) is Some implies {
        &&& s1.low[y] <= s1.indices[y]->0
        &&& s1.indices[y]->0 < s1.index
        &&& (s1.indices[y]->0 >= b ==> s1.low[y] >= b)
    } by {
        assert(st.indices[y] is Some);
    }
}

proof fn lemma_pop_sound(st: TarjanState, n: int, b: int, v: usize, p0: int)
    requires
        n <= usize::MAX,
        sound(st, n, b),
        run_ok(st, n),
        0 <= p0 < st.stack.len(),
        st.stack[p0] == v,
    ensures
        sound(pop_component(st, v), n, b),
        last_at(st.stack, v) == p0,
{
    broadcast use vstd::seq_lib::group_to_multiset_ensures;
    lemma_last_at(st.stack, v, p0);
    let p = last_at(st.stack, v);
    let s = st.stack;
    let a = concat_all(st.sccs);
    let seg = s.subrange(p, s.len() as int);
    let take = s.take(p);
    let s1 = pop_component(st, v);
    // The stack has no duplicates, so `v` is only at `p0`.
    assert(s =~= take + seg);
    assert(all_nodes(st) =~= a + s);
    assert(s.no_duplicates()) by {
        assert forall|i: int, j: int| 0 <= i < j < s.len() implies s[i] != s[j] by {
            assert(all_nodes(st)[a.len() + i] == s[i]);
            assert(all_nodes(st)[a.len() + j] == s[j]);
        }
    }
    assert(p == p0);
    assert(concat_all(s1.sccs) =~= a + seg.reverse()) by {
        assert(s1.sccs.drop_last() =~= st.sccs);
    }
    assert(all_nodes(s1) =~= (a + seg.reverse()) + take);
    // Same multiset of nodes.
    vstd::seq_lib::lemma_multiset_commutative(a, s);
    vstd::seq_lib::lemma_multiset_commutative(take, seg);
    vstd::seq_lib::lemma_multiset_commutative(a + seg.reverse(), take);
    vstd::seq_lib::lemma_multiset_commutative(a, seg.reverse());
    seg.lemma_reverse_to_multiset();
    assert(all_nodes(s1).to_multiset() =~= all_nodes(st).to_multiset());
    lemma_same_multiset(all_nodes(st), all_nodes(s1));
    assert forall|i: int| 0 <= i < all_nodes(s1).len() implies (#[trigger] all_nodes(s1)[i] as int) < n by {
        assert(all_nodes(s1).contains(all_nodes(s1)[i]));
        assert(all_nodes(st).contains(all_nodes(s1)[i]));
        let k = choose|k: int| 0 <= k < all_nodes(st).len() && all_nodes(st)[k] == all_nodes(s1)[i];
    }
    // The on-stack flags.
    assert forall|x: int| 0 <= x < n implies (#[trigger] s1.on_stack[x] <==> s1.stack.contains(x as usize)) by {
        lemma_contains_concat(take, seg, x as usize);
        if take.contains(x as usize) && seg.contains(x as usize) {
            let i = choose|i: int| 0 <= i < take.len() && take[i] == x as usize;
            let j = choose|j: int| 0 <= j < seg.len() && seg[j] == x as usize;
            assert(s[i] == s[p + j]);
        }
    }
    assert forall|c: int| 0 <= c < s1.sccs.len() implies (#[trigger] s1.sccs[c]).len() > 0 by {
        if c < st.sccs.len() {
            assert(s1.sccs[c] == st.sccs[c]);
        }
    }
    assert forall|i: int| 0 <= i < s1.stack.len() implies (#[trigger] s1.indices[s1.stack[i] as int]) is Some
        && s1.indices[s1.stack[i] as int]->0 >= b by {
        assert(s1.stack[i] == s[i]);
        assert(st.indices[s[i] as int] is Some);
    }
}

} // verus!
