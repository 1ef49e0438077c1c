//! The nodes of a state diagram with what rendering needs of them: id,
//! label and shape, in the order in which layout numbers them (declared
//! states, then the states that transitions name, each id once).

use vstd::prelude::*;

use crate::ast::{State, StateDiagram, Transition};

use super::convert::{
    declared_node, declared_nodes, end_id, from_id, marker_string, node_ids_of, spec_add_state_node, start_id,
    state_nodes, to_id, transition_nodes,
};
use super::crossing::last_pos;
use super::ir::ShapeHint;
use super::recognize::opt_view;

verus! {

/// A node of a state diagram. Its size follows from its shape: a circle is
/// the start or end state, a bar a fork or join, any other state a box.
pub struct StateNodeInfo {
    /// Node id; `__start__` and `__end__` stand for `[*]`.
    pub id: String,
    /// Text shown, the description of a simple state.
    pub label: Option<String>,
    /// Shape category.
    pub shape: ShapeHint,
}

/// A node as mathematical values: id, label, shape.
pub type StateNodeV = (Seq<char>, Option<Seq<char>>, ShapeHint);

/// The description of the last simple state declared with id `id`.
pub open spec fn label_of(states: Seq<State>, id: Seq<char>) -> Option<Seq<char>>
    decreases states.len(),
{
    if states.len() == 0 {
        None
    } else {
        match states.last() {
            State::Simple { id: i, description } => if i@ == id {
                opt_view(description)
            } else {
                label_of(states.drop_last(), id)
            },
            _ => label_of(states.drop_last(), id),
        }
    }
}

/// Whether a node with id `id` is listed.
pub open spec fn has_node(ns: Seq<StateNodeV>, id: Seq<char>) -> bool {
    exists|k: int| 0 <= k < ns.len() && (#[trigger] ns[k]).0 == id
}

/// Appends a node unless its id is listed.
pub open spec fn push_node(ns: Seq<StateNodeV>, n: StateNodeV) -> Seq<StateNodeV> {
    if has_node(ns, n.0) { ns } else { ns.push(n) }
}

/// The node of a declared state.
pub open spec fn declared_info(states: Seq<State>, s: State) -> StateNodeV {
    match s {
        State::Simple { id, .. } => (id@, label_of(states, id@), ShapeHint::Rect),
        State::Composite { id, .. } => (id@, label_of(states, id@), ShapeHint::Rect),
        State::Fork { id } => (id@, None, ShapeHint::Bar),
        State::Join { id } => (id@, None, ShapeHint::Bar),
        State::Start => (start_id(), None, ShapeHint::Circle),
        State::End => (end_id(), None, ShapeHint::Circle),
    }
}

/// The nodes of the declared states among `ds`, in order.
pub open spec fn declared_infos(states: Seq<State>, ds: Seq<State>) -> Seq<StateNodeV>
    decreases ds.len(),
{
    if ds.len() == 0 {
        Seq::empty()
    } else {
        push_node(declared_infos(states, ds.drop_last()), declared_info(states, ds.last()))
    }
}

/// Adds the two ends of each transition: `[*]` as a source is the start
/// circle, as a target the end circle; any other id a box.
pub open spec fn transition_infos(states: Seq<State>, ns: Seq<StateNodeV>, ts: Seq<Transition>) -> Seq<StateNodeV>
    decreases ts.len(),
{
    if ts.len() == 0 {
        ns
    } else {
        let r = transition_infos(states, ns, ts.drop_last());
        let t = ts.last();
        let f = from_id(t);
        let d = to_id(t);
        let r2 = push_node(r, (f, label_of(states, f), if t.from@ == "[*]"@ { ShapeHint::Circle } else { ShapeHint::Rect }));
        push_node(r2, (d, label_of(states, d), if t.to@ == "[*]"@ { ShapeHint::Circle } else { ShapeHint::Rect }))
    }
}

/// The nodes of a state diagram.
pub open spec fn spec_state_nodes(sd: StateDiagram) -> Seq<StateNodeV> {
    transition_infos(sd.states@, declared_infos(sd.states@, sd.states@), sd.transitions@)
}

/// The view of a node list.
pub open spec fn infos_view(v: Seq<StateNodeInfo>) -> Seq<StateNodeV> {
    v.map_values(|n: StateNodeInfo| (n.id@, opt_view(n.label), n.shape))
}

/// The description of the last simple state declared with id `id`.
fn find_label(states: &Vec<State>, id: &String) -> (r: Option<String>)
    ensures
        opt_view(r) == label_of(states@, id@),
{
    let mut k = states.len();
    assert(states@.take(k as int) =~= states@);
    while k > 0
        invariant
            k <= states@.len(),
            label_of(states@, id@) == label_of(states@.take(k as int), id@),
        decreases k,
    {
        let ghost t = states@.take(k as int);
        assert(t.drop_last() =~= states@.take(k - 1));
        assert(t.last() == states@[k - 1]);
        match &states[k - 1] {
            State::Simple { id: i, description } => {
                if *i == *id {
                    return match description {
                        Some(d) => Some(d.clone()),
                        None => None,
                    };
                }
            },
            _ => {},
        }
        k = k - 1;
    }
    None
}

/// Appends a node unless its id is listed.
fn push_info(out: &mut Vec<StateNodeInfo>, id: String, label: Option<String>, shape: ShapeHint)
    ensures
        infos_view(final(out)@) == push_node(infos_view(old(out)@), (id@, opt_view(label), shape)),
{
    let ghost before = infos_view(out@);
    let mut k: usize = 0;
    while k < out.len()
        invariant
            k <= out@.len(),
            before == infos_view(out@),
            forall|j: int| 0 <= j < k ==> (#[trigger] before[j]).0 != id@,
        decreases out@.len() - k,
    {
        if out[k].id == id {
            assert(before[k as int].0 == id@);
            return;
        }
        k = k + 1;
    }
    assert(!has_node(before, id@));
    let ghost n = (id@, opt_view(label), shape);
    out.push(StateNodeInfo { id, label, shape });
    assert(infos_view(out@) =~= before.push(n));
}

/// The nodes of a state diagram, in the order in which layout numbers
/// them: the declared states (simple and composite states as boxes with
/// the description of the last simple state of that id, forks and joins
/// as bars, start and end states as circles `__start__` and `__end__`),
/// then the ends of each transition (`[*]` is the start circle as a
/// source and the end circle as a target, other ids boxes); each id once.
pub fn collect_state_nodes(sd: &StateDiagram) -> (out: Vec<StateNodeInfo>)
    ensures
        infos_view(out@) == spec_state_nodes(*sd),
{
    let states = &sd.states;
    let mut out: Vec<StateNodeInfo> = Vec::new();
    let mut k: usize = 0;
    assert(states@.take(0) =~= Seq::<State>::empty());
    assert(infos_view(out@) =~= Seq::<StateNodeV>::empty());
    while k < states.len()
        invariant
            k <= states@.len(),
            states == &sd.states,
            infos_view(out@) == declared_infos(states@, states@.take(k as int)),
        decreases states@.len() - k,
    {
        let ghost t = states@.take(k + 1);
        assert(t.drop_last() =~= states@.take(k as int));
        assert(t.last() == states@[k as int]);
        match &states[k] {
            State::Simple { id, .. } => {
                let label = find_label(states, id);
                push_info(&mut out, id.clone(), label, ShapeHint::Rect);
            },
            State::Composite { id, .. } => {
                let label = find_label(states, id);
                push_info(&mut out, id.clone(), label, ShapeHint::Rect);
            },
            State::Fork { id } => {
                push_info(&mut out, id.clone(), None, ShapeHint::Bar);
            },
            State::Join { id } => {
                push_info(&mut out, id.clone(), None, ShapeHint::Bar);
            },
            State::Start => {
                push_info(&mut out, marker_string(1), None, ShapeHint::Circle);
            },
            State::End => {
                push_info(&mut out, marker_string(2), None, ShapeHint::Circle);
            },
        }
        k = k + 1;
    }
    assert(states@.take(states@.len() as int) =~= states@);
    let star = marker_string(0);
    let ghost decl = declared_infos(states@, states@);
    let ghost ts = sd.transitions@;
    let mut k: usize = 0;
    assert(ts.take(0) =~= Seq::<Transition>::empty());
    while k < sd.transitions.len()
        invariant
            k <= ts.len(),
            ts == sd.transitions@,
            states == &sd.states,
            star@ == "[*]"@,
            infos_view(out@) == transition_infos(states@, decl, ts.take(k as int)),
        decreases ts.len() - k,
    {
        let ghost t = ts.take(k + 1);
        assert(t.drop_last() =~= ts.take(k as int));
        assert(t.last() == ts[k as int]);
        let tr = &sd.transitions[k];
        let f_start = tr.from == star;
        let t_end = tr.to == star;
        let from = if f_start { marker_string(1) } else { tr.from.clone() };
        let to = if t_end { marker_string(2) } else { tr.to.clone() };
        let fl = find_label(states, &from);
        let tl = find_label(states, &to);
        push_info(&mut out, from, fl, if f_start { ShapeHint::Circle } else { ShapeHint::Rect });
        push_info(&mut out, to, tl, if t_end { ShapeHint::Circle } else { ShapeHint::Rect });
        k = k + 1;
    }
    assert(ts.take(ts.len() as int) =~= ts);
    out
}

// ---------------------------------------------------------------------------
// Agreement with the layout nodes
// ---------------------------------------------------------------------------

/// The ids of a node list.
pub open spec fn info_ids(ns: Seq<StateNodeV>) -> Seq<Seq<char>> {
    ns.map_values(|n: StateNodeV| n.0)
}

proof fn lemma_has_node_pos(ns: Seq<StateNodeV>, id: Seq<char>)
    ensures
        has_node(ns, id) <==> last_pos(info_ids(ns), id) >= 0,
    decreases ns.len(),
{
    let ids = info_ids(ns);
    if ns.len() > 0 {
        lemma_has_node_pos(ns.drop_last(), id);
        assert(info_ids(ns.drop_last()) =~= ids.drop_last());
        if has_node(ns, id) && ns.last().0 != id {
            let k = choose|k: int| 0 <= k < ns.len() && (#[trigger] ns[k]).0 == id;
            assert(ns.drop_last()[k] == ns[k]);
        }
        if has_node(ns.drop_last(), id) {
            let k = choose|k: int| 0 <= k < ns.drop_last().len() && (#[trigger] ns.drop_last()[k]).0 == id;
            assert(ns[k] == ns.drop_last()[k]);
        }
        if ns.last().0 == id {
            assert(ns[ns.len() - 1].0 == id);
        }
    }
}

proof fn lemma_push_same_ids(a: Seq<(Seq<char>, ShapeHint)>, b: Seq<StateNodeV>, id: Seq<char>, h: ShapeHint, n: StateNodeV)
    requires
        node_ids_of(a) == info_ids(b),
        n.0 == id,
    ensures
        node_ids_of(spec_add_state_node(a, id, h)) == info_ids(push_node(b, n)),
{
    lemma_has_node_pos(b, id);
    if last_pos(node_ids_of(a), id) < 0 {
        assert(node_ids_of(a.push((id, h))) =~= node_ids_of(a).push(id));
        assert(info_ids(b.push(n)) =~= info_ids(b).push(id));
    }
}

proof fn lemma_declared_same_ids(states: Seq<State>, ds: Seq<State>)
    ensures
        node_ids_of(declared_nodes(Seq::empty(), ds)) == info_ids(declared_infos(states, ds)),
    decreases ds.len(),
{
    if ds.len() == 0 {
        assert(node_ids_of(Seq::<(Seq<char>, ShapeHint)>::empty()) =~= info_ids(Seq::<StateNodeV>::empty()));
    } else {
        lemma_declared_same_ids(states, ds.drop_last());
        let d = declared_node(ds.last());
        lemma_push_same_ids(
            declared_nodes(Seq::empty(), ds.drop_last()),
            declared_infos(states, ds.drop_last()),
            d.0,
            d.1,
            declared_info(states, ds.last()),
        );
    }
}

proof fn lemma_transitions_same_ids(
    states: Seq<State>,
    a: Seq<(Seq<char>, ShapeHint)>,
    b: Seq<StateNodeV>,
    ts: Seq<Transition>,
)
    requires
        node_ids_of(a) == info_ids(b),
    ensures
        node_ids_of(transition_nodes(a, ts)) == info_ids(transition_infos(states, b, ts)),
    decreases ts.len(),
{
    if ts.len() > 0 {
        lemma_transitions_same_ids(states, a, b, ts.drop_last());
        let t = ts.last();
        let f = from_id(t);
        let d = to_id(t);
        let ra = transition_nodes(a, ts.drop_last());
        let rb = transition_infos(states, b, ts.drop_last());
        let fh = if f == start_id() { ShapeHint::Circle } else { ShapeHint::Rect };
        let fn_ = (f, label_of(states, f), if t.from@ == "[*]"@ { ShapeHint::Circle } else { ShapeHint::Rect });
        lemma_push_same_ids(ra, rb, f, fh, fn_);
        let dh = if d == end_id() { ShapeHint::Circle } else { ShapeHint::Rect };
        let dn = (d, label_of(states, d), if t.to@ == "[*]"@ { ShapeHint::Circle } else { ShapeHint::Rect });
        lemma_push_same_ids(spec_add_state_node(ra, f, fh), push_node(rb, fn_), d, dh, dn);
    }
}

/// The state nodes that rendering reads come in the same order, with the
/// same ids, as the layout nodes of the state diagram, so that the `i`-th
/// layout position belongs to the `i`-th state node.
pub proof fn lemma_state_nodes_match_layout(sd: StateDiagram)
    ensures
        info_ids(spec_state_nodes(sd)) == node_ids_of(state_nodes(sd)),
{
    lemma_declared_same_ids(sd.states@, sd.states@);
    lemma_transitions_same_ids(
        sd.states@,
        declared_nodes(Seq::empty(), sd.states@),
        declared_infos(sd.states@, sd.states@),
        sd.transitions@,
    );
}

} // verus!
