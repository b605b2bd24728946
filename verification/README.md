# elk_layered

Intermediate processors of a layered (Sugiyama-style) graph layout: the
steps that run between the main phases to reverse constrained edges, insert
and merge dummy nodes, order ports, split the layering into rows, replace
hierarchical port dummies, and turn the graph into and out of the internal
left-to-right direction.

The library in `src/` is written in Verus. Every function states in its
contract what it computes, and Verus proves the code against it.

## Layout

- `src/graph.rs` holds the layered graph: arenas of nodes, ports and edges
  that refer to each other by index, and the layers as lists of node
  indices. `LGraph::wf` states what every index points to; the processors
  keep it.
- One module per processor, named after it (`inverted_port_processor.rs`,
  `hierarchical_port_constraint_processor.rs`, ...), and `greedyswitch/` for
  the greedy switch crossing minimization and its crossing counters.
- Multi-step processors state their result as a chain of states, one per
  layer, node or edge visited, each related to the next by a spec function
  that says what that step does.
- `tests/` runs the library on concrete graphs.
- `app/` holds what works on floating-point numbers (cut scores, aspect
  ratios, coordinates, position orders) around the verified library.

An edge is detached by moving both its ends to a new port that belongs to
no node; it then connects nothing. `graph_check.rs` tests the well-formedness
conditions on a graph built from outside data.

## What is not here

The graph model keeps no coordinates, sizes, bend points, labels or spline
data, so the processors that compute those are absent: compaction, spline
and orthogonal edge routing, comment margins, end label placement, grid
snapping, hypernodes, external port positions, label dummies, and node and
port sizing. Processors whose main step is
carried out by long-edge splitting and joining or by the layer-sweep
crossings counter are absent too: the wrapping and the tidying of wrapped
edges in the breaking point processor, the alternating layer unzipper's
restructuring, and the greedy switch sweeps.

Of several processors the graph work that needs none of this is here, and
the caller does the rest: the breaking point remover, the comment pre- and
postprocessor (the preprocessor is told where each node's labels lie), the
clearing of the layers in hierarchical node resizing, the restoring and the removal of north and south port
dummies in the orthogonal router of hierarchical ports, and the switch
decider of the greedy switch, which takes the in-layer and parent-graph
crossing counts as arguments.

The hash map of the hyperedge dummy merger is `rustc_hash`'s `FxHashMap`,
reached through a few trusted wrappers whose contracts state what the map
holds.
