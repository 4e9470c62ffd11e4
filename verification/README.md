# resonance_engine

A deterministic entity-component store for simulations, with its core
logic verified by Verus.

- `src/` — the verified library: generational entity ids, archetype
  placement, the attribute store with single and double buffering,
  relations kept at both ends, events, the string interner, the profiler's
  bookkeeping and report layout, queries, prefabs, snapshots, the tick's command handling and
  schedule, the integer side of the spatial grid, and the graph metadata
  layer (entity hierarchy walks, system phases, cycle reports, DOT text) on
  top of `petgraph`.
- `app/` — the demonstration program and what is not verified: resonators
  (user code over `f64` values) and their parallel execution, the spatial
  grid's floating-point geometry, JSON snapshots, time formatting and hot
  reloading.
- `tests/` — tests of the library on concrete values.

Attribute values are stored as `u64` bit patterns; the program reads and
writes them as `f64`.
