# nodegraph_core

A node-graph editor core, verified with Verus: an entity-component store
with generational ids, node graphs with typed ports and connections, frames
and reroute nodes, grouping of nodes into subgraphs and back, undoable
commands, search, a pointer/keyboard interaction state machine, and a
stored form for graphs and whole editors.

Layout:

- `src/` is the verified library. Every public function states what it
  returns or changes in `requires`/`ensures`; laws that relate several calls
  stand as public proof functions (`lemma_*`).
  - `store/`: entity allocator, component tables, world.
  - `graph/`: node graphs, ports, connections, frames, grouping, the editor
    with its subgraph stack, evaluation order.
  - `commands/`: undoable edits and the undo/redo history.
  - `interaction/`: the input state machine; it returns side effects for the
    host to perform.
  - `serialization/`: the stored records of graphs and editors.
  - `search/`, `render/`, `widgets/`, `types/`: node search, shortcut and
    context-menu tables,
    small widget helpers, socket types.
- `tests/` runs the library on concrete values.
- `app/` is the host around the library: JSON reading and writing, the
  reactive signals layer and the event loop that performs the side effects.
