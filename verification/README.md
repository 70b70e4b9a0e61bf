# avenix

The bookkeeping core of an archetype-based Entity Component System, written
in Verus and proved against its contracts.

## Layout

- `src/` — the verified library.
  - `schedule_order.rs`: arranging schedules under ordering constraints
    (refusing duplicates, bad constraints and cycles; a refused cycle admits
    no order at all).
  - `schedule.rs`: schedule labels, schedules, executor decisions, and the
    cleanup executor's rounds.
  - `app.rs`: the app's lifecycle (build, startup, frames), placing systems
    in their schedules.
  - `archetypes.rs`: component sets, their order-independent keys, rows and
    flag columns, and the archetype index.
  - `reactivity.rs`, `events.rs`, `world.rs`: double-buffered change,
    addition, removal and event tracking, the end of a frame, and despawning
    an entity from its archetype and the registry.
  - `filter.rs`, `query.rs`, `system.rs`: query filters, query answers, and
    the access rules between a system's parameters.
  - `registry.rs`, `entity.rs`: entity locations and handle counts.
  - `collections.rs`: the calls into `indexmap` and `rustc-hash`, each with
    the contract that crate's source shows.
- `tests/` — tests of the library on concrete values.
- `app/` — the runtime around it: Rust types as ids, resources keyed by
  type, systems as closures, the command queue, and the frame loop.
