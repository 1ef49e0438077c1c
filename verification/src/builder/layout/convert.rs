//! From a diagram to the topology that layout works on: nodes, groups and
//! edges by index, in source order. Node sizes are measured elsewhere.

use vstd::prelude::*;

use crate::ast::{
    ArrowType, ClassDiagram, Diagram, Edge, ErDiagram, Flowchart, Node, NodeShape, SequenceDiagram, State,
    StateDiagram, Subgraph, TimelineDiagram, Transition,
};

use super::crossing::{find_last, last_pos, layer_view};
use super::ir::{GroupChild, LEdge, LGroup, LineKind, PortHint, ShapeHint};
use super::recognize::{all_flowchart_nodes, opt_view, spec_all_flowchart_nodes, NodeV};

verus! {

/// Shape category of a source shape.
pub open spec fn spec_shape_hint(shape: Option<NodeShape>) -> ShapeHint {
    match shape {
        Some(NodeShape::Diamond) => ShapeHint::Diamond,
        Some(NodeShape::Circle) | Some(NodeShape::DoubleCircle) => ShapeHint::Circle,
        Some(_) => ShapeHint::Rounded,
        None => ShapeHint::Rect,
    }
}

/// Line category of a source arrow.
pub open spec fn spec_line_kind(arrow: ArrowType) -> LineKind {
    match arrow {
        ArrowType::Dotted => LineKind::Dashed,
        ArrowType::Both | ArrowType::MultiCircle | ArrowType::MultiCross => LineKind::Bidirectional,
        ArrowType::Invisible => LineKind::Invisible,
        _ => LineKind::Solid,
    }
}

/// Shape category of a node.
pub fn shape_hint_of(shape: &Option<NodeShape>) -> (h: ShapeHint)
    ensures
        h == spec_shape_hint(*shape),
{
    match shape {
        Some(NodeShape::Diamond) => ShapeHint::Diamond,
        Some(NodeShape::Circle) | Some(NodeShape::DoubleCircle) => ShapeHint::Circle,
        Some(NodeShape::Hexagon) | Some(NodeShape::Rounded) | Some(NodeShape::Stadium)
        | Some(NodeShape::Subroutine) | Some(NodeShape::Cylinder) | Some(NodeShape::Asymmetric)
        | Some(NodeShape::Parallelogram) | Some(NodeShape::ParallelogramAlt)
        | Some(NodeShape::Trapezoid) | Some(NodeShape::TrapezoidAlt)
        | Some(NodeShape::Rectangle) => ShapeHint::Rounded,
        None => ShapeHint::Rect,
    }
}

/// Line category of an edge.
pub fn line_kind_of(arrow: &ArrowType) -> (k: LineKind)
    ensures
        k == spec_line_kind(*arrow),
{
    match arrow {
        ArrowType::Dotted => LineKind::Dashed,
        ArrowType::Both | ArrowType::MultiCircle | ArrowType::MultiCross => LineKind::Bidirectional,
        ArrowType::Invisible => LineKind::Invisible,
        ArrowType::Solid | ArrowType::Thick | ArrowType::NoArrow | ArrowType::Circle
        | ArrowType::Cross | ArrowType::Labeled(_) => LineKind::Solid,
    }
}

/// `children` lists the node `idx`.
pub open spec fn lists_node(children: Seq<GroupChild>, idx: usize) -> bool {
    exists|c: int| 0 <= c < children.len() && children[c] == GroupChild::Node(idx)
}

/// Index of the first group that lists the node `idx`.
pub open spec fn spec_group_of(groups: Seq<Seq<GroupChild>>, idx: usize) -> Option<usize>
    decreases groups.len(),
{
    if groups.len() == 0 {
        None
    } else {
        match spec_group_of(groups.drop_last(), idx) {
            Some(g) => Some(g),
            None => if lists_node(groups.last(), idx) { Some((groups.len() - 1) as usize) } else { None },
        }
    }
}

proof fn lemma_group_of_prefix(groups: Seq<Seq<GroupChild>>, k: int, idx: usize)
    requires
        0 <= k <= groups.len(),
        spec_group_of(groups.take(k), idx) is Some,
    ensures
        spec_group_of(groups, idx) == spec_group_of(groups.take(k), idx),
    decreases groups.len(),
{
    if k == groups.len() {
        assert(groups.take(k) =~= groups);
    } else {
        assert(groups.drop_last().take(k) =~= groups.take(k));
        lemma_group_of_prefix(groups.drop_last(), k, idx);
    }
}

/// The members of the groups.
pub open spec fn children_of(groups: Seq<LGroup>) -> Seq<Seq<GroupChild>> {
    groups.map_values(|g: LGroup| g.children@)
}

/// Whether `children` lists the node `idx`.
fn lists_node_exec(children: &Vec<GroupChild>, idx: usize) -> (r: bool)
    ensures
        r == lists_node(children@, idx),
{
    let mut c: usize = 0;
    while c < children.len()
        invariant
            c <= children@.len(),
            forall|j: int| 0 <= j < c ==> children@[j] != GroupChild::Node(idx),
        decreases children@.len() - c,
    {
        if children[c] == GroupChild::Node(idx) {
            return true;
        }
        c = c + 1;
    }
    false
}

/// Index of the group that holds the node `node_idx` (the first one that
/// lists it); `None` for a top-level node.
pub fn group_of_node(groups: &[LGroup], node_idx: usize) -> (r: Option<usize>)
    ensures
        r == spec_group_of(children_of(groups@), node_idx),
{
    let ghost all = children_of(groups@);
    let mut g: usize = 0;
    assert(all.take(0) =~= Seq::<Seq<GroupChild>>::empty());
    while g < groups.len()
        invariant
            g <= groups@.len(),
            all == children_of(groups@),
            spec_group_of(all.take(g as int), node_idx) is None,
        decreases groups@.len() - g,
    {
        let ghost t = all.take(g + 1);
        assert(t.drop_last() =~= all.take(g as int));
        let children = &groups[g].children;
        let found = lists_node_exec(children, node_idx);
        proof {
            assert(t.last() == children@);
        }
        if found {
            assert(lists_node(children@, node_idx));
            assert(spec_group_of(t, node_idx) == Some(g));
            proof {
                lemma_group_of_prefix(all, g + 1, node_idx);
            }
            return Some(g);
        }
        assert(!lists_node(children@, node_idx));
        g = g + 1;
    }
    assert(all.take(groups@.len() as int) =~= all);
    None
}

/// Topology of a diagram: its title, one entry per node in `node_ids` and
/// `shape_hints`, the groups, and the edges split into those inside one
/// container and those that cross between containers.
pub struct LayoutTopology {
    pub title: Option<String>,
    pub node_ids: Vec<String>,
    pub shape_hints: Vec<ShapeHint>,
    pub groups: Vec<LGroup>,
    pub edges: Vec<LEdge>,
    pub cross_group_edges: Vec<LEdge>,
}

/// A topology as mathematical values.
pub struct TopologyV {
    pub title: Option<Seq<char>>,
    pub ids: Seq<Seq<char>>,
    pub hints: Seq<ShapeHint>,
    pub groups: Seq<(Option<Seq<char>>, Seq<GroupChild>)>,
    pub edges: Seq<LEdge>,
    pub cross: Seq<LEdge>,
}

/// The title and members of each group.
pub open spec fn groups_view(gs: Seq<LGroup>) -> Seq<(Option<Seq<char>>, Seq<GroupChild>)> {
    gs.map_values(|g: LGroup| (opt_view(g.title), g.children@))
}

impl View for LayoutTopology {
    type V = TopologyV;

    open spec fn view(&self) -> TopologyV {
        TopologyV {
            title: opt_view(self.title),
            ids: layer_view(self.node_ids@),
            hints: self.shape_hints@,
            groups: groups_view(self.groups@),
            edges: self.edges@,
            cross: self.cross_group_edges@,
        }
    }
}

/// The ids of the layout nodes.
pub open spec fn topo_ids(fc: Flowchart) -> Seq<Seq<char>> {
    spec_all_flowchart_nodes(fc).map_values(|v: NodeV| v.0)
}

/// The shape categories of the layout nodes.
pub open spec fn topo_hints(fc: Flowchart) -> Seq<ShapeHint> {
    spec_all_flowchart_nodes(fc).map_values(|v: NodeV| spec_shape_hint(v.2))
}

/// Members of the group of a subgraph: its nodes, by layout index, skipping
/// unknown ids.
pub open spec fn spec_children(ids: Seq<Seq<char>>, ns: Seq<Node>) -> Seq<GroupChild>
    decreases ns.len(),
{
    if ns.len() == 0 {
        Seq::empty()
    } else {
        let r = spec_children(ids, ns.drop_last());
        let p = last_pos(ids, ns.last().id@);
        if p >= 0 { r.push(GroupChild::Node(p as usize)) } else { r }
    }
}

/// The groups of the subgraphs, as (title, members).
pub open spec fn spec_groups(ids: Seq<Seq<char>>, sgs: Seq<Subgraph>) -> Seq<(Option<Seq<char>>, Seq<GroupChild>)> {
    sgs.map_values(|sg: Subgraph| (opt_view(sg.title), spec_children(ids, sg.nodes@)))
}

/// The layout edge of a source edge, when both of its ends are layout nodes.
pub open spec fn edge_of(ids: Seq<Seq<char>>, e: Edge) -> Option<LEdge> {
    let s = last_pos(ids, e.source@);
    let t = last_pos(ids, e.target@);
    if s >= 0 && t >= 0 {
        Some(LEdge {
            source: s as usize,
            target: t as usize,
            source_port: PortHint::Auto,
            target_port: PortHint::Auto,
            line_kind: spec_line_kind(e.arrow_type),
        })
    } else {
        None
    }
}

/// Adds the edges `es` to (inner, cross): an edge whose two ends lie in
/// different containers (no group counts as one container) is a cross edge.
pub open spec fn split_edges(
    ids: Seq<Seq<char>>,
    ch: Seq<Seq<GroupChild>>,
    es: Seq<Edge>,
    acc: (Seq<LEdge>, Seq<LEdge>),
) -> (Seq<LEdge>, Seq<LEdge>)
    decreases es.len(),
{
    if es.len() == 0 {
        acc
    } else {
        let r = split_edges(ids, ch, es.drop_last(), acc);
        match edge_of(ids, es.last()) {
            Some(le) => if spec_group_of(ch, le.source) != spec_group_of(ch, le.target) {
                (r.0, r.1.push(le))
            } else {
                (r.0.push(le), r.1)
            },
            None => r,
        }
    }
}

/// Adds the edges of the subgraphs, in order.
pub open spec fn split_subgraph_edges(
    ids: Seq<Seq<char>>,
    ch: Seq<Seq<GroupChild>>,
    sgs: Seq<Subgraph>,
    acc: (Seq<LEdge>, Seq<LEdge>),
) -> (Seq<LEdge>, Seq<LEdge>)
    decreases sgs.len(),
{
    if sgs.len() == 0 {
        acc
    } else {
        split_edges(ids, ch, sgs.last().edges@, split_subgraph_edges(ids, ch, sgs.drop_last(), acc))
    }
}

/// The (inner, cross) edges of a flowchart: top-level edges first, then
/// the edges of each subgraph.
pub open spec fn topo_edges(fc: Flowchart) -> (Seq<LEdge>, Seq<LEdge>) {
    let ids = topo_ids(fc);
    let ch = spec_groups(ids, fc.subgraphs@).map_values(|g: (Option<Seq<char>>, Seq<GroupChild>)| g.1);
    split_subgraph_edges(ids, ch, fc.subgraphs@, split_edges(ids, ch, fc.edges@, (Seq::empty(), Seq::empty())))
}

/// The group members of one subgraph.
fn subgraph_children(ids: &Vec<String>, sg: &Subgraph) -> (r: Vec<GroupChild>)
    ensures
        r@ == spec_children(layer_view(ids@), sg.nodes@),
{
    let mut r: Vec<GroupChild> = Vec::new();
    let mut k: usize = 0;
    assert(sg.nodes@.take(0) =~= Seq::<Node>::empty());
    while k < sg.nodes.len()
        invariant
            k <= sg.nodes@.len(),
            r@ == spec_children(layer_view(ids@), sg.nodes@.take(k as int)),
        decreases sg.nodes@.len() - k,
    {
        let ghost t = sg.nodes@.take(k + 1);
        assert(t.drop_last() =~= sg.nodes@.take(k as int));
        match find_last(ids, &sg.nodes[k].id) {
            Some(p) => {
                r.push(GroupChild::Node(p));
            },
            None => {},
        }
        k = k + 1;
    }
    assert(sg.nodes@.take(sg.nodes@.len() as int) =~= sg.nodes@);
    r
}

/// Copy of an optional string.
fn copy_title(s: &Option<String>) -> (r: Option<String>)
    ensures
        opt_view(r) == opt_view(*s),
{
    match s {
        Some(t) => Some(t.clone()),
        None => None,
    }
}

/// Adds the edges `es` to `inner` and `cross` as [`split_edges`] says.
fn push_edges(
    ids: &Vec<String>,
    groups: &Vec<LGroup>,
    es: &Vec<Edge>,
    inner: &mut Vec<LEdge>,
    cross: &mut Vec<LEdge>,
)
    ensures
        (final(inner)@, final(cross)@) == split_edges(layer_view(ids@), children_of(groups@), es@, (old(inner)@, old(cross)@)),
{
    let ghost ch = children_of(groups@);
    let ghost acc = (inner@, cross@);
    let mut k: usize = 0;
    assert(es@.take(0) =~= Seq::<Edge>::empty());
    while k < es.len()
        invariant
            k <= es@.len(),
            ch == children_of(groups@),
            (inner@, cross@) == split_edges(layer_view(ids@), ch, es@.take(k as int), acc),
        decreases es@.len() - k,
    {
        let ghost t = es@.take(k + 1);
        assert(t.drop_last() =~= es@.take(k as int));
        let e = &es[k];
        let s = find_last(ids, &e.source);
        let d = find_last(ids, &e.target);
        match (s, d) {
            (Some(si), Some(ti)) => {
                let le = LEdge {
                    source: si,
                    target: ti,
                    source_port: PortHint::Auto,
                    target_port: PortHint::Auto,
                    line_kind: line_kind_of(&e.arrow_type),
                };
                let sg = group_of_node(groups.as_slice(), si);
                let tg = group_of_node(groups.as_slice(), ti);
                if sg != tg {
                    cross.push(le);
                } else {
                    inner.push(le);
                }
            },
            _ => {},
        }
        k = k + 1;
    }
    assert(es@.take(es@.len() as int) =~= es@);
}

/// The topology of a flowchart: layout nodes as [`all_flowchart_nodes`]
/// gives them, one group per subgraph, and the edges (top level first,
/// then each subgraph's) whose ends are both layout nodes.
pub fn flowchart_topology(fc: &Flowchart) -> (t: LayoutTopology)
    ensures
        t.title is None,
        layer_view(t.node_ids@) == topo_ids(*fc),
        t.shape_hints@ == topo_hints(*fc),
        t.groups@.map_values(|g: LGroup| (opt_view(g.title), g.children@)) == spec_groups(topo_ids(*fc), fc.subgraphs@),
        (t.edges@, t.cross_group_edges@) == topo_edges(*fc),
{
    let nodes = all_flowchart_nodes(fc);
    let ghost nv = spec_all_flowchart_nodes(*fc);
    let mut node_ids: Vec<String> = Vec::new();
    let mut shape_hints: Vec<ShapeHint> = Vec::new();
    let mut i: usize = 0;
    while i < nodes.len()
        invariant
            i <= nodes@.len(),
            nv == spec_all_flowchart_nodes(*fc),
            nv == nodes@.map_values(|n: Node| (n.id@, opt_view(n.text), n.shape)),
            layer_view(node_ids@) == nv.take(i as int).map_values(|v: NodeV| v.0),
            shape_hints@ == nv.take(i as int).map_values(|v: NodeV| spec_shape_hint(v.2)),
        decreases nodes@.len() - i,
    {
        node_ids.push(nodes[i].id.clone());
        shape_hints.push(shape_hint_of(&nodes[i].shape));
        assert(nv.take(i + 1).map_values(|v: NodeV| v.0) =~= nv.take(i as int).map_values(|v: NodeV| v.0).push(nv[i as int].0));
        assert(nv.take(i + 1).map_values(|v: NodeV| spec_shape_hint(v.2)) =~= nv.take(i as int).map_values(|v: NodeV| spec_shape_hint(v.2)).push(spec_shape_hint(nv[i as int].2)));
        i = i + 1;
    }
    assert(nv.take(nv.len() as int) =~= nv);
    let ghost ids = topo_ids(*fc);
    assert(layer_view(node_ids@) =~= ids);
    let mut groups: Vec<LGroup> = Vec::new();
    let mut g: usize = 0;
    while g < fc.subgraphs.len()
        invariant
            g <= fc.subgraphs@.len(),
            layer_view(node_ids@) == ids,
            groups@.map_values(|gr: LGroup| (opt_view(gr.title), gr.children@)) == spec_groups(ids, fc.subgraphs@.take(g as int)),
        decreases fc.subgraphs@.len() - g,
    {
        let sg = &fc.subgraphs[g];
        let children = subgraph_children(&node_ids, sg);
        let ghost before = groups@.map_values(|gr: LGroup| (opt_view(gr.title), gr.children@));
        let ghost entry = (opt_view(sg.title), spec_children(ids, sg.nodes@));
        groups.push(LGroup { title: copy_title(&sg.title), children });
        assert(fc.subgraphs@.take(g + 1) =~= fc.subgraphs@.take(g as int).push(*sg));
        assert(spec_groups(ids, fc.subgraphs@.take(g + 1)) =~= spec_groups(ids, fc.subgraphs@.take(g as int)).push(entry));
        assert(groups@.map_values(|gr: LGroup| (opt_view(gr.title), gr.children@)) =~= before.push(entry));
        g = g + 1;
    }
    assert(fc.subgraphs@.take(fc.subgraphs@.len() as int) =~= fc.subgraphs@);
    let ghost ch = spec_groups(ids, fc.subgraphs@).map_values(|gr: (Option<Seq<char>>, Seq<GroupChild>)| gr.1);
    assert(children_of(groups@) =~= ch) by {
        assert forall|q: int| 0 <= q < groups@.len() implies children_of(groups@)[q] == ch[q] by {
            assert(groups@.map_values(|gr: LGroup| (opt_view(gr.title), gr.children@))[q].1 == groups@[q].children@);
        }
    }
    let mut edges: Vec<LEdge> = Vec::new();
    let mut cross: Vec<LEdge> = Vec::new();
    push_edges(&node_ids, &groups, &fc.edges, &mut edges, &mut cross);
    let mut g: usize = 0;
    let ghost first = split_edges(ids, ch, fc.edges@, (Seq::empty(), Seq::empty()));
    assert(edges@ =~= first.0 && cross@ =~= first.1);
    while g < fc.subgraphs.len()
        invariant
            g <= fc.subgraphs@.len(),
            layer_view(node_ids@) == ids,
            children_of(groups@) == ch,
            (edges@, cross@) == split_subgraph_edges(ids, ch, fc.subgraphs@.take(g as int), first),
        decreases fc.subgraphs@.len() - g,
    {
        let ghost gs = fc.subgraphs@.take(g + 1);
        assert(gs.drop_last() =~= fc.subgraphs@.take(g as int));
        push_edges(&node_ids, &groups, &fc.subgraphs[g].edges, &mut edges, &mut cross);
        g = g + 1;
    }
    LayoutTopology { title: None, node_ids, shape_hints, groups, edges, cross_group_edges: cross }
}

// ---------------------------------------------------------------------------
// State diagrams
// ---------------------------------------------------------------------------

/// Layout id of the start state.
pub open spec fn start_id() -> Seq<char> {
    "__start__"@
}

/// Layout id of the end state.
pub open spec fn end_id() -> Seq<char> {
    "__end__"@
}

/// The layout node of a declared state: its id (start and end states have
/// fixed ids) and shape (circles for start and end).
pub open spec fn declared_node(s: State) -> (Seq<char>, ShapeHint) {
    match s {
        State::Simple { id, .. } => (id@, ShapeHint::Rect),
        State::Composite { id, .. } => (id@, ShapeHint::Rect),
        State::Fork { id } => (id@, ShapeHint::Rect),
        State::Join { id } => (id@, ShapeHint::Rect),
        State::Start => (start_id(), ShapeHint::Circle),
        State::End => (end_id(), ShapeHint::Circle),
    }
}

/// Source id of a transition: `[*]` stands for the start state.
pub open spec fn from_id(t: Transition) -> Seq<char> {
    if t.from@ == "[*]"@ { start_id() } else { t.from@ }
}

/// Target id of a transition: `[*]` stands for the end state.
pub open spec fn to_id(t: Transition) -> Seq<char> {
    if t.to@ == "[*]"@ { end_id() } else { t.to@ }
}

/// The ids of layout nodes.
pub open spec fn node_ids_of(ns: Seq<(Seq<char>, ShapeHint)>) -> Seq<Seq<char>> {
    ns.map_values(|p: (Seq<char>, ShapeHint)| p.0)
}

/// Adds a node unless one with its id is already there.
pub open spec fn spec_add_state_node(ns: Seq<(Seq<char>, ShapeHint)>, id: Seq<char>, hint: ShapeHint) -> Seq<(Seq<char>, ShapeHint)> {
    if last_pos(node_ids_of(ns), id) >= 0 { ns } else { ns.push((id, hint)) }
}

/// The nodes of the declared states, in order.
pub open spec fn declared_nodes(ns: Seq<(Seq<char>, ShapeHint)>, states: Seq<State>) -> Seq<(Seq<char>, ShapeHint)>
    decreases states.len(),
{
    if states.len() == 0 {
        ns
    } else {
        let d = declared_node(states.last());
        spec_add_state_node(declared_nodes(ns, states.drop_last()), d.0, d.1)
    }
}

/// Adds the two ends of each transition: a start state is a circle at the
/// source, an end state a circle at the target, anything else a rectangle.
pub open spec fn transition_nodes(ns: Seq<(Seq<char>, ShapeHint)>, ts: Seq<Transition>) -> Seq<(Seq<char>, ShapeHint)>
    decreases ts.len(),
{
    if ts.len() == 0 {
        ns
    } else {
        let r = transition_nodes(ns, ts.drop_last());
        let t = ts.last();
        let f = from_id(t);
        let d = to_id(t);
        let r2 = spec_add_state_node(r, f, if f == start_id() { ShapeHint::Circle } else { ShapeHint::Rect });
        spec_add_state_node(r2, d, if d == end_id() { ShapeHint::Circle } else { ShapeHint::Rect })
    }
}

/// The layout nodes of a state diagram: declared states, then the states
/// that only transitions name.
pub open spec fn state_nodes(sd: StateDiagram) -> Seq<(Seq<char>, ShapeHint)> {
    transition_nodes(declared_nodes(Seq::empty(), sd.states@), sd.transitions@)
}

/// A plain edge between the nodes with ids `s` and `t`, when both exist.
pub open spec fn solid_edge(ids: Seq<Seq<char>>, s: Seq<char>, t: Seq<char>) -> Option<LEdge> {
    let si = last_pos(ids, s);
    let ti = last_pos(ids, t);
    if si >= 0 && ti >= 0 {
        Some(LEdge {
            source: si as usize,
            target: ti as usize,
            source_port: PortHint::Auto,
            target_port: PortHint::Auto,
            line_kind: LineKind::Solid,
        })
    } else {
        None
    }
}

/// Plain edges for pairs of ids, in order, skipping pairs with an unknown id.
pub open spec fn pair_edges(ids: Seq<Seq<char>>, pairs: Seq<(Seq<char>, Seq<char>)>) -> Seq<LEdge>
    decreases pairs.len(),
{
    if pairs.len() == 0 {
        Seq::empty()
    } else {
        let r = pair_edges(ids, pairs.drop_last());
        match solid_edge(ids, pairs.last().0, pairs.last().1) {
            Some(e) => r.push(e),
            None => r,
        }
    }
}

/// The layout topology of a state diagram: no title and no groups.
pub open spec fn spec_state_topology(sd: StateDiagram) -> TopologyV {
    let ns = state_nodes(sd);
    TopologyV {
        title: None,
        ids: node_ids_of(ns),
        hints: ns.map_values(|p: (Seq<char>, ShapeHint)| p.1),
        groups: Seq::empty(),
        edges: pair_edges(node_ids_of(ns), sd.transitions@.map_values(|t: Transition| (from_id(t), to_id(t)))),
        cross: Seq::empty(),
    }
}

/// Adds a layout node unless one with its id is already there.
fn add_state_node(ids: &mut Vec<String>, hints: &mut Vec<ShapeHint>, id: String, hint: ShapeHint)
    requires
        old(ids)@.len() == old(hints)@.len(),
    ensures
        final(ids)@.len() == final(hints)@.len(),
        ids_hints(final(ids)@, final(hints)@) == spec_add_state_node(ids_hints(old(ids)@, old(hints)@), id@, hint),
{
    let ghost before = ids_hints(ids@, hints@);
    assert(node_ids_of(before) =~= layer_view(ids@));
    match find_last(ids, &id) {
        Some(_) => {},
        None => {
            ids.push(id);
            hints.push(hint);
            assert(ids_hints(ids@, hints@) =~= before.push((id@, hint)));
        },
    }
}

/// Pairs of ids and shapes, as layout nodes.
pub open spec fn ids_hints(ids: Seq<String>, hints: Seq<ShapeHint>) -> Seq<(Seq<char>, ShapeHint)> {
    Seq::new(ids.len(), |i: int| (ids[i]@, hints[i]))
}

/// The string `[*]`, `__start__` or `__end__`.
pub(crate) fn marker_string(which: u8) -> (s: String)
    ensures
        which == 0 ==> s@ == "[*]"@,
        which == 1 ==> s@ == start_id(),
        which != 0 && which != 1 ==> s@ == end_id(),
{
    if which == 0 {
        String::from_str("[*]")
    } else if which == 1 {
        String::from_str("__start__")
    } else {
        String::from_str("__end__")
    }
}

/// The layout topology of a state diagram: nodes for the declared states
/// (start and end states as circles `__start__` and `__end__`, the others
/// as rectangles), then for the states that transitions name (`[*]` is the
/// start state as a source and the end state as a target), each id once;
/// one plain edge per transition.
pub fn state_topology(sd: &StateDiagram) -> (t: LayoutTopology)
    ensures
        t@ == spec_state_topology(*sd),
{
    let mut ids: Vec<String> = Vec::new();
    let mut hints: Vec<ShapeHint> = Vec::new();
    let mut k: usize = 0;
    assert(sd.states@.take(0) =~= Seq::<State>::empty());
    assert(ids_hints(ids@, hints@) =~= Seq::<(Seq<char>, ShapeHint)>::empty());
    while k < sd.states.len()
        invariant
            k <= sd.states@.len(),
            ids@.len() == hints@.len(),
            ids_hints(ids@, hints@) == declared_nodes(Seq::empty(), sd.states@.take(k as int)),
        decreases sd.states@.len() - k,
    {
        assert(sd.states@.take(k + 1).drop_last() =~= sd.states@.take(k as int));
        let (id, hint) = match &sd.states[k] {
            State::Simple { id, .. } => (id.clone(), ShapeHint::Rect),
            State::Composite { id, .. } => (id.clone(), ShapeHint::Rect),
            State::Fork { id } => (id.clone(), ShapeHint::Rect),
            State::Join { id } => (id.clone(), ShapeHint::Rect),
            State::Start => (marker_string(1), ShapeHint::Circle),
            State::End => (marker_string(2), ShapeHint::Circle),
        };
        add_state_node(&mut ids, &mut hints, id, hint);
        k = k + 1;
    }
    assert(sd.states@.take(sd.states@.len() as int) =~= sd.states@);
    let star = marker_string(0);
    let ghost ts = sd.transitions@;
    let ghost decl = declared_nodes(Seq::empty(), sd.states@);
    let mut k: usize = 0;
    assert(ts.take(0) =~= Seq::<Transition>::empty());
    while k < sd.transitions.len()
        invariant
            k <= ts.len(),
            ts == sd.transitions@,
            star@ == "[*]"@,
            ids@.len() == hints@.len(),
            ids_hints(ids@, hints@) == transition_nodes(decl, ts.take(k as int)),
        decreases ts.len() - k,
    {
        assert(ts.take(k + 1).drop_last() =~= ts.take(k as int));
        let tr = &sd.transitions[k];
        let from = if tr.from == star { marker_string(1) } else { tr.from.clone() };
        let to = if tr.to == star { marker_string(2) } else { tr.to.clone() };
        let start = marker_string(1);
        let end = marker_string(2);
        let fh = if from == start { ShapeHint::Circle } else { ShapeHint::Rect };
        let th = if to == end { ShapeHint::Circle } else { ShapeHint::Rect };
        add_state_node(&mut ids, &mut hints, from, fh);
        add_state_node(&mut ids, &mut hints, to, th);
        k = k + 1;
    }
    assert(ts.take(ts.len() as int) =~= ts);
    let ghost ns = state_nodes(*sd);
    assert(layer_view(ids@) =~= node_ids_of(ns));
    assert(hints@ =~= ns.map_values(|p: (Seq<char>, ShapeHint)| p.1));
    let ghost pairs = ts.map_values(|t: Transition| (from_id(t), to_id(t)));
    let mut edges: Vec<LEdge> = Vec::new();
    let mut k: usize = 0;
    assert(pairs.take(0) =~= Seq::<(Seq<char>, Seq<char>)>::empty());
    while k < sd.transitions.len()
        invariant
            k <= ts.len(),
            ts == sd.transitions@,
            star@ == "[*]"@,
            pairs == ts.map_values(|t: Transition| (from_id(t), to_id(t))),
            edges@ == pair_edges(layer_view(ids@), pairs.take(k as int)),
        decreases ts.len() - k,
    {
        assert(pairs.take(k + 1).drop_last() =~= pairs.take(k as int));
        let tr = &sd.transitions[k];
        let from = if tr.from == star { marker_string(1) } else { tr.from.clone() };
        let to = if tr.to == star { marker_string(2) } else { tr.to.clone() };
        push_solid_edge(&ids, &from, &to, &mut edges);
        k = k + 1;
    }
    assert(pairs.take(pairs.len() as int) =~= pairs);
    let t = LayoutTopology {
        title: None,
        node_ids: ids,
        shape_hints: hints,
        groups: Vec::new(),
        edges,
        cross_group_edges: Vec::new(),
    };
    assert(t@.groups =~= Seq::<(Option<Seq<char>>, Seq<GroupChild>)>::empty());
    t
}

/// Adds a plain edge from `s` to `t` when both are layout nodes.
fn push_solid_edge(ids: &Vec<String>, s: &String, t: &String, edges: &mut Vec<LEdge>)
    ensures
        final(edges)@ == match solid_edge(layer_view(ids@), s@, t@) {
            Some(e) => old(edges)@.push(e),
            None => old(edges)@,
        },
{
    match (find_last(ids, s), find_last(ids, t)) {
        (Some(si), Some(ti)) => {
            edges.push(LEdge {
                source: si,
                target: ti,
                source_port: PortHint::Auto,
                target_port: PortHint::Auto,
                line_kind: LineKind::Solid,
            });
        },
        _ => {},
    }
}

// ---------------------------------------------------------------------------
// Class, ER, sequence and timeline diagrams
// ---------------------------------------------------------------------------

/// A topology of rectangles with the given ids and plain edges.
pub open spec fn rect_topology(ids: Seq<Seq<char>>, pairs: Seq<(Seq<char>, Seq<char>)>) -> TopologyV {
    TopologyV {
        title: None,
        ids: ids,
        hints: Seq::new(ids.len(), |i: int| ShapeHint::Rect),
        groups: Seq::empty(),
        edges: pair_edges(ids, pairs),
        cross: Seq::empty(),
    }
}

/// The layout topology of a class diagram.
pub open spec fn spec_class_topology(cd: ClassDiagram) -> TopologyV {
    rect_topology(
        cd.classes@.map_values(|c: crate::ast::ClassDef| c.name@),
        cd.relations@.map_values(|r: crate::ast::ClassRelation| (r.source@, r.target@)),
    )
}

/// The layout topology of an ER diagram.
pub open spec fn spec_er_topology(er: ErDiagram) -> TopologyV {
    rect_topology(
        er.entities@.map_values(|e: crate::ast::ErEntity| e.name@),
        er.relationships@.map_values(|r: crate::ast::ErRelationship| (r.first_entity@, r.second_entity@)),
    )
}

/// The layout topology of a sequence diagram: one node per participant.
pub open spec fn spec_sequence_topology(sd: SequenceDiagram) -> TopologyV {
    rect_topology(sd.participants@.map_values(|p: crate::ast::Participant| p.name@), Seq::empty())
}

/// The events of the sections, in order.
pub open spec fn all_events(secs: Seq<crate::ast::TimelineSection>) -> Seq<Seq<char>>
    decreases secs.len(),
{
    if secs.len() == 0 {
        Seq::empty()
    } else {
        all_events(secs.drop_last()) + layer_view(secs.last().events@)
    }
}

/// The layout topology of a timeline: one node per event.
pub open spec fn spec_timeline_topology(td: TimelineDiagram) -> TopologyV {
    rect_topology(all_events(td.sections@), Seq::empty())
}

/// A topology of rectangles with ids `ids`, no title, no groups and no
/// edges yet.
fn rect_nodes(ids: Vec<String>) -> (t: LayoutTopology)
    ensures
        t@ == rect_topology(layer_view(ids@), Seq::empty()),
{
    let mut hints: Vec<ShapeHint> = Vec::new();
    let mut i: usize = 0;
    while i < ids.len()
        invariant
            i <= ids@.len(),
            hints@ == Seq::new(i as nat, |j: int| ShapeHint::Rect),
        decreases ids@.len() - i,
    {
        hints.push(ShapeHint::Rect);
        assert(hints@ =~= Seq::new((i + 1) as nat, |j: int| ShapeHint::Rect));
        i = i + 1;
    }
    let t = LayoutTopology {
        title: None,
        node_ids: ids,
        shape_hints: hints,
        groups: Vec::new(),
        edges: Vec::new(),
        cross_group_edges: Vec::new(),
    };
    assert(t@.groups =~= Seq::<(Option<Seq<char>>, Seq<GroupChild>)>::empty());
    assert(t@.edges =~= pair_edges(layer_view(t.node_ids@), Seq::empty()));
    t
}

/// The layout topology of a class diagram: one rectangle per class, one
/// plain edge per relation whose two classes exist (a repeated name stands
/// for its last class).
pub fn class_topology(cd: &ClassDiagram) -> (t: LayoutTopology)
    ensures
        t@ == spec_class_topology(*cd),
{
    let mut ids: Vec<String> = Vec::new();
    let mut i: usize = 0;
    while i < cd.classes.len()
        invariant
            i <= cd.classes@.len(),
            layer_view(ids@) == cd.classes@.take(i as int).map_values(|c: crate::ast::ClassDef| c.name@),
        decreases cd.classes@.len() - i,
    {
        let ghost before = layer_view(ids@);
        ids.push(cd.classes[i].name.clone());
        assert(layer_view(ids@) =~= before.push(cd.classes@[i as int].name@));
        assert(cd.classes@.take(i + 1).map_values(|c: crate::ast::ClassDef| c.name@) =~= cd.classes@.take(i as int).map_values(|c: crate::ast::ClassDef| c.name@).push(cd.classes@[i as int].name@));
        i = i + 1;
    }
    assert(cd.classes@.take(cd.classes@.len() as int) =~= cd.classes@);
    let mut t = rect_nodes(ids);
    let ghost pairs = cd.relations@.map_values(|r: crate::ast::ClassRelation| (r.source@, r.target@));
    let mut k: usize = 0;
    assert(pairs.take(0) =~= Seq::<(Seq<char>, Seq<char>)>::empty());
    while k < cd.relations.len()
        invariant
            k <= cd.relations@.len(),
            pairs == cd.relations@.map_values(|r: crate::ast::ClassRelation| (r.source@, r.target@)),
            t@.ids == cd.classes@.map_values(|c: crate::ast::ClassDef| c.name@),
            t@ == rect_topology(t@.ids, pairs.take(k as int)),
        decreases cd.relations@.len() - k,
    {
        assert(pairs.take(k + 1).drop_last() =~= pairs.take(k as int));
        let r = &cd.relations[k];
        push_solid_edge(&t.node_ids, &r.source, &r.target, &mut t.edges);
        k = k + 1;
    }
    assert(pairs.take(pairs.len() as int) =~= pairs);
    t
}

/// The layout topology of an ER diagram: one rectangle per entity, one
/// plain edge per relationship whose two entities exist (a repeated name
/// stands for its last entity).
pub fn er_topology(er: &ErDiagram) -> (t: LayoutTopology)
    ensures
        t@ == spec_er_topology(*er),
{
    let mut ids: Vec<String> = Vec::new();
    let mut i: usize = 0;
    while i < er.entities.len()
        invariant
            i <= er.entities@.len(),
            layer_view(ids@) == er.entities@.take(i as int).map_values(|e: crate::ast::ErEntity| e.name@),
        decreases er.entities@.len() - i,
    {
        let ghost before = layer_view(ids@);
        ids.push(er.entities[i].name.clone());
        assert(layer_view(ids@) =~= before.push(er.entities@[i as int].name@));
        assert(er.entities@.take(i + 1).map_values(|e: crate::ast::ErEntity| e.name@) =~= er.entities@.take(i as int).map_values(|e: crate::ast::ErEntity| e.name@).push(er.entities@[i as int].name@));
        i = i + 1;
    }
    assert(er.entities@.take(er.entities@.len() as int) =~= er.entities@);
    let mut t = rect_nodes(ids);
    let ghost pairs = er.relationships@.map_values(|r: crate::ast::ErRelationship| (r.first_entity@, r.second_entity@));
    let mut k: usize = 0;
    assert(pairs.take(0) =~= Seq::<(Seq<char>, Seq<char>)>::empty());
    while k < er.relationships.len()
        invariant
            k <= er.relationships@.len(),
            pairs == er.relationships@.map_values(|r: crate::ast::ErRelationship| (r.first_entity@, r.second_entity@)),
            t@.ids == er.entities@.map_values(|e: crate::ast::ErEntity| e.name@),
            t@ == rect_topology(t@.ids, pairs.take(k as int)),
        decreases er.relationships@.len() - k,
    {
        assert(pairs.take(k + 1).drop_last() =~= pairs.take(k as int));
        let r = &er.relationships[k];
        push_solid_edge(&t.node_ids, &r.first_entity, &r.second_entity, &mut t.edges);
        k = k + 1;
    }
    assert(pairs.take(pairs.len() as int) =~= pairs);
    t
}

/// The layout topology of a sequence diagram: one rectangle per
/// participant, no edges.
pub fn sequence_topology(sd: &SequenceDiagram) -> (t: LayoutTopology)
    ensures
        t@ == spec_sequence_topology(*sd),
{
    let mut ids: Vec<String> = Vec::new();
    let mut i: usize = 0;
    while i < sd.participants.len()
        invariant
            i <= sd.participants@.len(),
            layer_view(ids@) == sd.participants@.take(i as int).map_values(|p: crate::ast::Participant| p.name@),
        decreases sd.participants@.len() - i,
    {
        let ghost before = layer_view(ids@);
        ids.push(sd.participants[i].name.clone());
        assert(layer_view(ids@) =~= before.push(sd.participants@[i as int].name@));
        assert(sd.participants@.take(i + 1).map_values(|p: crate::ast::Participant| p.name@) =~= sd.participants@.take(i as int).map_values(|p: crate::ast::Participant| p.name@).push(sd.participants@[i as int].name@));
        i = i + 1;
    }
    assert(sd.participants@.take(sd.participants@.len() as int) =~= sd.participants@);
    rect_nodes(ids)
}

/// The layout topology of a timeline: one rectangle per event, section by
/// section, no edges.
pub fn timeline_topology(td: &TimelineDiagram) -> (t: LayoutTopology)
    ensures
        t@ == spec_timeline_topology(*td),
{
    let mut ids: Vec<String> = Vec::new();
    let mut s: usize = 0;
    assert(td.sections@.take(0) =~= Seq::<crate::ast::TimelineSection>::empty());
    while s < td.sections.len()
        invariant
            s <= td.sections@.len(),
            layer_view(ids@) == all_events(td.sections@.take(s as int)),
        decreases td.sections@.len() - s,
    {
        assert(td.sections@.take(s + 1).drop_last() =~= td.sections@.take(s as int));
        let evs = &td.sections[s].events;
        let ghost base = layer_view(ids@);
        let mut e: usize = 0;
        while e < evs.len()
            invariant
                e <= evs@.len(),
                layer_view(ids@) == base + layer_view(evs@).take(e as int),
            decreases evs@.len() - e,
        {
            let ghost before = layer_view(ids@);
            ids.push(evs[e].clone());
            assert(layer_view(ids@) =~= before.push(evs@[e as int]@));
            assert(layer_view(evs@).take(e + 1) =~= layer_view(evs@).take(e as int).push(evs@[e as int]@));
            assert(layer_view(ids@) =~= base + layer_view(evs@).take(e + 1));
            e = e + 1;
        }
        assert(layer_view(evs@).take(evs@.len() as int) =~= layer_view(evs@));
        s = s + 1;
    }
    assert(td.sections@.take(td.sections@.len() as int) =~= td.sections@);
    rect_nodes(ids)
}

// ---------------------------------------------------------------------------
// Any diagram
// ---------------------------------------------------------------------------

/// The layout topology of a flowchart.
pub open spec fn spec_flow_topology(fc: Flowchart) -> TopologyV {
    TopologyV {
        title: None,
        ids: topo_ids(fc),
        hints: topo_hints(fc),
        groups: spec_groups(topo_ids(fc), fc.subgraphs@),
        edges: topo_edges(fc).0,
        cross: topo_edges(fc).1,
    }
}

/// An empty topology with the given title.
pub open spec fn titled_topology(title: Option<Seq<char>>) -> TopologyV {
    TopologyV {
        title: title,
        ids: Seq::empty(),
        hints: Seq::empty(),
        groups: Seq::empty(),
        edges: Seq::empty(),
        cross: Seq::empty(),
    }
}

/// The layout topology of a diagram.
pub open spec fn spec_diagram_topology(d: Diagram) -> TopologyV {
    match d {
        Diagram::Flowchart(fc) => spec_flow_topology(fc),
        Diagram::State(sd) => spec_state_topology(sd),
        Diagram::Class(cd) => spec_class_topology(cd),
        Diagram::Er(er) => spec_er_topology(er),
        Diagram::Sequence(sd) => spec_sequence_topology(sd),
        Diagram::Timeline(td) => spec_timeline_topology(td),
        Diagram::Pie(p) => titled_topology(opt_view(p.title)),
        Diagram::GitGraph(_) => titled_topology(None),
    }
}

/// An empty topology with the given title.
fn titled(title: Option<String>) -> (t: LayoutTopology)
    ensures
        t@ == titled_topology(opt_view(title)),
{
    let t = LayoutTopology {
        title,
        node_ids: Vec::new(),
        shape_hints: Vec::new(),
        groups: Vec::new(),
        edges: Vec::new(),
        cross_group_edges: Vec::new(),
    };
    assert(t@.ids =~= Seq::<Seq<char>>::empty());
    assert(t@.groups =~= Seq::<(Option<Seq<char>>, Seq<GroupChild>)>::empty());
    t
}

/// The layout topology of any diagram: flowcharts, state, class, ER,
/// sequence and timeline diagrams as their own functions give it; a pie
/// chart has only its title, a git graph nothing.
pub fn diagram_topology(d: &Diagram) -> (t: LayoutTopology)
    ensures
        t@ == spec_diagram_topology(*d),
{
    match d {
        Diagram::Flowchart(fc) => {
            let t = flowchart_topology(fc);
            assert(t@ == spec_flow_topology(*fc));
            t
        },
        Diagram::State(sd) => state_topology(sd),
        Diagram::Class(cd) => class_topology(cd),
        Diagram::Er(er) => er_topology(er),
        Diagram::Sequence(sd) => sequence_topology(sd),
        Diagram::Timeline(td) => timeline_topology(td),
        Diagram::Pie(p) => titled(copy_title(&p.title)),
        Diagram::GitGraph(_) => titled(None),
    }
}

// ---------------------------------------------------------------------------
// Laws
// ---------------------------------------------------------------------------

/// Both ends of every edge lie in the same container (the first group that
/// lists the node, or none).
pub open spec fn same_container(ch: Seq<Seq<GroupChild>>, es: Seq<LEdge>) -> bool {
    forall|i: int| 0 <= i < es.len() ==> spec_group_of(ch, (#[trigger] es[i]).source) == spec_group_of(ch, es[i].target)
}

/// The two ends of every edge lie in different containers.
pub open spec fn other_container(ch: Seq<Seq<GroupChild>>, es: Seq<LEdge>) -> bool {
    forall|i: int| 0 <= i < es.len() ==> spec_group_of(ch, (#[trigger] es[i]).source) != spec_group_of(ch, es[i].target)
}

/// How many of the edges join two layout nodes.
pub open spec fn known_edge_count(ids: Seq<Seq<char>>, es: Seq<Edge>) -> int
    decreases es.len(),
{
    if es.len() == 0 {
        0
    } else {
        known_edge_count(ids, es.drop_last()) + if last_pos(ids, es.last().source@) >= 0 && last_pos(ids, es.last().target@) >= 0 {
            1int
        } else {
            0int
        }
    }
}

/// How many of the subgraphs' edges join two layout nodes.
pub open spec fn known_subgraph_edge_count(ids: Seq<Seq<char>>, sgs: Seq<Subgraph>) -> int
    decreases sgs.len(),
{
    if sgs.len() == 0 {
        0
    } else {
        known_subgraph_edge_count(ids, sgs.drop_last()) + known_edge_count(ids, sgs.last().edges@)
    }
}

/// The container of a node is the first group that lists it: that group
/// lists it and no earlier one does; with no container, no group lists it.
pub proof fn lemma_group_of_is_first(groups: Seq<Seq<GroupChild>>, idx: usize)
    requires
        groups.len() <= usize::MAX,
    ensures
        match spec_group_of(groups, idx) {
            Some(g) => (g as int) < groups.len() && lists_node(groups[g as int], idx)
                && forall|h: int| 0 <= h < g ==> !lists_node(#[trigger] groups[h], idx),
            None => forall|h: int| 0 <= h < groups.len() ==> !lists_node(#[trigger] groups[h], idx),
        },
    decreases groups.len(),
{
    if groups.len() > 0 {
        let d = groups.drop_last();
        lemma_group_of_is_first(d, idx);
        assert forall|h: int| 0 <= h < d.len() implies #[trigger] groups[h] == d[h] by {}
        match spec_group_of(d, idx) {
            Some(g) => {
                assert(groups[g as int] == d[g as int]);
            },
            None => {},
        }
    }
}

proof fn lemma_split_edges_containers(
    ids: Seq<Seq<char>>,
    ch: Seq<Seq<GroupChild>>,
    es: Seq<Edge>,
    acc: (Seq<LEdge>, Seq<LEdge>),
)
    requires
        same_container(ch, acc.0),
        other_container(ch, acc.1),
    ensures
        same_container(ch, split_edges(ids, ch, es, acc).0),
        other_container(ch, split_edges(ids, ch, es, acc).1),
        split_edges(ids, ch, es, acc).0.len() + split_edges(ids, ch, es, acc).1.len()
            == acc.0.len() + acc.1.len() + known_edge_count(ids, es),
    decreases es.len(),
{
    if es.len() > 0 {
        lemma_split_edges_containers(ids, ch, es.drop_last(), acc);
        let r = split_edges(ids, ch, es.drop_last(), acc);
        match edge_of(ids, es.last()) {
            Some(le) => {
                assert forall|i: int| 0 <= i < r.0.push(le).len() && i < r.0.len() implies
                    (#[trigger] r.0.push(le)[i]) == r.0[i] by {}
                assert forall|i: int| 0 <= i < r.1.push(le).len() && i < r.1.len() implies
                    (#[trigger] r.1.push(le)[i]) == r.1[i] by {}
            },
            None => {},
        }
    }
}

proof fn lemma_split_subgraph_edges_containers(
    ids: Seq<Seq<char>>,
    ch: Seq<Seq<GroupChild>>,
    sgs: Seq<Subgraph>,
    acc: (Seq<LEdge>, Seq<LEdge>),
)
    requires
        same_container(ch, acc.0),
        other_container(ch, acc.1),
    ensures
        same_container(ch, split_subgraph_edges(ids, ch, sgs, acc).0),
        other_container(ch, split_subgraph_edges(ids, ch, sgs, acc).1),
        split_subgraph_edges(ids, ch, sgs, acc).0.len() + split_subgraph_edges(ids, ch, sgs, acc).1.len()
            == acc.0.len() + acc.1.len() + known_subgraph_edge_count(ids, sgs),
    decreases sgs.len(),
{
    if sgs.len() > 0 {
        lemma_split_subgraph_edges_containers(ids, ch, sgs.drop_last(), acc);
        lemma_split_edges_containers(ids, ch, sgs.last().edges@, split_subgraph_edges(ids, ch, sgs.drop_last(), acc));
    }
}

/// An edge of a flowchart's topology crosses a group boundary exactly when
/// its two ends lie in different containers (a node in no subgraph lying in
/// the root container): every inner edge joins two nodes of one container,
/// and every cross-group edge two nodes of different ones. In particular an
/// edge between two nodes that no subgraph lists is never a cross-group edge.
/// Every edge between two layout nodes is one or the other.
pub proof fn lemma_cross_edges_change_container(fc: Flowchart)
    ensures
        topo_edges(fc).0.len() + topo_edges(fc).1.len()
            == known_edge_count(topo_ids(fc), fc.edges@) + known_subgraph_edge_count(topo_ids(fc), fc.subgraphs@),
        same_container(
            spec_groups(topo_ids(fc), fc.subgraphs@).map_values(|g: (Option<Seq<char>>, Seq<GroupChild>)| g.1),
            topo_edges(fc).0,
        ),
        other_container(
            spec_groups(topo_ids(fc), fc.subgraphs@).map_values(|g: (Option<Seq<char>>, Seq<GroupChild>)| g.1),
            topo_edges(fc).1,
        ),
{
    let ids = topo_ids(fc);
    let ch = spec_groups(ids, fc.subgraphs@).map_values(|g: (Option<Seq<char>>, Seq<GroupChild>)| g.1);
    let e0: (Seq<LEdge>, Seq<LEdge>) = (Seq::empty(), Seq::empty());
    lemma_split_edges_containers(ids, ch, fc.edges@, e0);
    lemma_split_subgraph_edges_containers(ids, ch, fc.subgraphs@, split_edges(ids, ch, fc.edges@, e0));
}

} // verus!
