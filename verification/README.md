# artisan

An archetype entity-component store, verified with Verus.

Entities live in archetypes, one per set of component types; each archetype
keeps its components in type-erased columns, one row per entity, with the
tick at which each value was added and last changed. Component types are
named by `u64` keys and their values are bytes of a fixed layout.

## Layout

- `src/` — the verified library.
  - `archetype`, `signature`, `keyed`, `registry`: columns, archetypes,
    sorted signatures, the component registry.
  - `world`, `entities`, `spawn`, `components`, `structure`, `despawn`,
    `hierarchy`: the world's invariant and its operations (spawn, add and
    remove components, kill, parents and children).
  - `query`: cached queries with `With`, `Without`, `Added` and `Changed`
    filters.
  - `commands`, `apply`: deferred commands and their application.
  - `system`: access sets, events, resources handed to systems.
  - `resources`, `schema`, `columns`: resources, host-visible schemas and
    column access.
  - `serialize`, `load`: saving a world and loading it back.
  - `bench`, `fair`, `markers`, `machine`: the benchmark case lists and
    selection, their labels and helpers, and the parsing of machine
    descriptions.
  - `laws`: properties that span several operations.
- `app/` — what the library leaves out: JSON, timing and statistics, the
  benchmark workloads with their floating-point payloads, the parallel
  query driver and the benchmark command lines.
- `tests/` — tests of the library.
