# liemermaid

The combinatorial core of a Mermaid diagram layout engine, written in Verus.
The library's own functions carry contracts that Verus proves. The calls into
petgraph go through small wrappers marked
`#[verifier::external_body]`, with the names they use for petgraph's results
(`uninterp spec fn`) and the declarations of petgraph's graph types: their
contracts are trusted, not proved, and each one's doc comment says what it
claims of the outside code.

What the library decides:

- `builder::layout::convert` – the layout topology of each diagram kind
  (node ids and shapes, groups, edges inside and across groups).
- `builder::layout::recognize`, `state_nodes` – the node lists that layout and
  rendering share, in one order.
- `builder::layout::analyze` – graph analysis with petgraph (strongly connected
  components, topological order) and verified feedback arcs and weakly
  connected components.
- `builder::layout::tarjan` – Tarjan's strongly connected components, with the
  proof that they partition the nodes.
- `builder::layout::directed`, `layers`, `engine`, `sugiyama`, `crossing` –
  layer assignment (longest path, grouped layering, BFS grid layers, the
  integer steps of network simplex) and barycentric crossing reduction;
  `graph_names` numbers the names a graph speaks of (node ids, repeated or
  not, and edge ends), so that layering works on indices.
- `builder::layout::layered`, `longest_path`, `simplex`, `layer_index`,
  `layer_sweep`, `work_graph` – the combinatorial phases of the layered layout: feedback
  arcs by depth-first search, the longest-path rankers (with their
  deepening pass, or by strongly connected components), the network-simplex
  ranker with integer cut values, the per-layer node index, barycentric
  crossing reduction over the layer map, and the work graph with dummy
  chains for long edges.
- `builder::layout::solver` – solver choice per diagram kind, the initial node
  order of the directed solver, and group membership and subgraphs of the
  grouped solver.
- `builder::render::gitgraph` – the commit history a git graph describes.
- `builder::state` – the state graph that a diagram's transitions describe
  (keys, in-degrees, adjacency) and the Kahn ordering of its states.

Coordinates, sizes, text measurement and drawing work with floating point and
are not part of this library.

The laws that the library states (layers respect edges, every node is placed
exactly once, the state nodes match the layout nodes, and others) are public
proof functions next to the functions they speak of.
