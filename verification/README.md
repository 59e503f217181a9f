# loro_internal (verified core)

A CRDT document library whose core is written in Verus and proved against
its contracts.

## Layout

- `src/common.rs` — ids, container kinds, errors and the JSON-like value type.
- `src/encoding/` — the binary formats: LEB128 numbers (through the `leb128`
  crate), the value writer and the stack-based value reader with its grammar,
  the laws that reading gives back what was written, op values, position and
  byte arenas, snapshot framing, key and peer registers, the reordered
  value format (plain values and op content) with its round-trip laws, and
  size estimates.
- `src/oplog.rs`, `src/version.rs`, `src/state.rs`, `src/tree.rs`,
  `src/richtext.rs` — ops in a total order, version vectors, and the state of
  lists, texts, maps, movable trees and styled text as functions of the log.
- `src/loro.rs` — the replicated document: local edits, export, import,
  checkout, and the convergence laws.
- `src/group.rs`, `src/group/movable_list.rs`, `src/event.rs`,
  `src/json_schema.rs` — op groups by key and by movable-list element (with
  the law that ops with distinct ids commute), event kinds and list delta
  metadata, history as JSON changes, and peer compression of ids.
- `src/op.rs` — op content of newer format versions.
- `src/fuzz/` — multi-replica harnesses that edit, synchronise and check that
  replicas agree and that past versions read back as recorded. Their
  contracts state what each step does to the replicas, how each action is
  brought into range, and that replicas which already hold the same ops pass
  every check; that the checks pass after arbitrary edits is what a run
  tests, not what the contracts prove.
- `app/` — serde forms of library types and writing snapshots to I/O.
- `tests/` — scenarios and regression runs of the harnesses.
