# strider_ir

A sea-of-nodes intermediate representation for lifted machine code, written in
Verus: executable Rust whose behaviour is stated in contracts and proved.

- `src/graph` — the graph itself: nodes, values, use lists, the cache that shares
  nodes of one structure, walks, postorders and compaction. `graph::model` says
  what a graph is and what each operation does to it; `graph::laws` what holds
  across operations.
- `src/function` — a function: a graph with its constants, conventions, switch
  tables and side tables. `function::text` prints the canonical text form,
  `function::edit` edits a function while keeping its live set up to date.
- `src/dot` — drawings in the DOT language, whole or around one node.
- `src/arena.rs`, `src/cache.rs`, `src/id_map.rs` — the outside collections that
  the graph and the tables are built on, each behind declared contracts:
  `cranelift_entity::PrimaryMap` and `SecondaryMap`, `hashbrown::HashMap` and
  `rustc_hash::FxHasher`.
- `app` — what a host adds: floating-point numbers as text and `std` errors.
- `tests` — the library from outside.

Laws are public proof functions whose names begin with `law_`.
