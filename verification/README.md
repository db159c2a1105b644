# cognet

A typed node-graph computation engine whose core is verified with Verus.

Nodes live at hierarchical paths (a SubGraph is a transparent container
whose two interface nodes carry its external ports), are joined by typed
edges between slots, and are re-executed incrementally: a pass plans the
nodes downstream of what changed, runs them level by level, and skips a
node whose inputs provably did not move.

## Layout

- `src/` — the verified library.
  - `node_state.rs`: nodes, slots, edges and the connection lists kept per
    slot and per node; the changed set and the structure generation.
  - `graph.rs`: the graph API — node placement and removal, edge checks
    and routing through SubGraph boundaries, SubGraph ports, interface
    ports, slot defaults, queries.
  - `planning.rs`, `execution.rs`: the downstream closure of the changed
    set, its layering, the execution plan, the value-based cutoff and the
    bookkeeping of a pass, and the synchronous kernel's refusal of
    asynchronous nodes.
  - `resolve.rs`: what an edge delivers (looked through interface
    nodes), what a node reads when it runs, and what a pass reports.
  - `properties.rs`: laws relating several operations.
  - `registry.rs`: node factories registered by name, and putting back a
    registration that was taken out.
  - `assoc.rs`, `ids.rs`, `node_path.rs`, `path_index.rs`, `data_type.rs`,
    `meta.rs`, `error.rs`, `broadcast.rs`: supporting types, node metadata,
    error messages and the operand pairing of the arithmetic operators.
- `app/` — the runtime around it: type-erased payloads, the behaviour of
  the built-in nodes, and the sequential, parallel and asynchronous
  executors.
- `tests/` — tests of the library.
