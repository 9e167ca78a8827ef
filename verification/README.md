# weavatrix-graph

A deterministic graph core whose logic is verified with Verus: compact
numeric topologies with compressed adjacency indexes, traversals, cheapest
routes with unsigned and signed weights, network structure (cycle bases,
k-cores, label propagation, Steiner trees), interchange formats (DOT,
GraphML, graph6), generators, and mutable payload graphs whose keys carry a
generation.

## Layout

- `src/` — the library. Its functions are checked by Verus against their
  `requires` / `ensures` contracts, except three small trusted wrappers,
  marked `#[verifier::external_body]`, whose contracts are taken on trust:
  `join_rows` (runs two row builds through `rayon::join`), `text_of`
  (collects characters into a `String`) and `quoted_text` (formats a string
  with `{:?}`).
  - `topology/` — directed and undirected topologies and their indexes.
  - `graph/` — the identifier-keyed graph, its builder and canonical order.
  - `algo/` — traversals and depth-first events, routes, signed walks,
    network structure, Steiner trees, and the link lists that the
    centralities read.
  - `format/` — readers and writers for the interchange formats.
  - `payload/` — payload graphs, stable keys, integer-keyed and acyclic
    stable graphs, and frozen snapshots.
  - `matrix/`, `operator.rs`, `generator.rs` — bit matrices, graph
    operators and deterministic generators.
- `tests/` — tests of the library on concrete graphs.
- `app/` — ordinary Rust around the library: `Display` for errors, serde
  encodings, the floating-point centralities, and batches of queries run in
  parallel.

`laws.rs` states, as proof functions, properties that relate several
operations: canonical order independent of insertion order, idempotent
node and edge insertion, bit-matrix read-back, stale stable keys, and that
two cheapest-route searches over the same prices agree.
