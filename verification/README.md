# bemudjo_ecs

A small entity–component–system library, written in Verus: the functions of
the library carry `requires`/`ensures` contracts that Verus proves. The two
that draw a random value (`Entity::new`, and the helper that seeds a world's
identifiers) promise nothing of that value, and `SequentialSystemScheduler::run_tick`
cannot state what user systems do to the world beyond the facts every
system keeps (a valid world, identifiers never reused).

- `src/world.rs` — the world: entities, components, ephemeral components and
  resources, modelled by `WorldView` (active and deleted identifiers, and one
  table of type-erased values per component type).
- `src/component.rs` — components, their type-erased form, and the
  hash-map storage for one component type.
- `src/query.rs` — queries by component type with required and excluded
  regular and ephemeral types; results are exactly the selected entities.
- `src/schedule.rs` — Kahn's algorithm over a dependency graph, proved to give
  a topological order exactly when the graph has no cycle.
- `src/sequential_system_scheduler.rs`, `src/system.rs` — systems and the
  scheduler that runs them in dependency order, one tick at a time.
- `src/laws.rs` — properties that relate several operations (what a read gives
  back of a write, what cleanup keeps, how filters split a query result, ...).
- `src/entity.rs`, `src/type_key.rs` — entity identifiers and type identities.

The calls into `std` that Verus cannot see through (`TypeId`, `dyn Any`
downcasts, `RandomState`, `Iterator::filter_map`) are small trusted wrappers
whose contracts are stated next to them. Tests live in `tests/`.
