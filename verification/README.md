# azazel

A small entity–component–system library, verified with Verus.

- `Engine` spawns and despawns entities, gives them components of any
  `'static` type, and runs scheduled systems (closures over `&mut`
  components) over every entity that has all the components a system takes.
- `EntityManager` hands out entity ids from a counter and reuses despawned
  ids, most recent first.
- `ComponentStorage<I, C>` keeps the components of one type densely packed:
  a slot array and an id index that maps every stored id to its slot.
  Storing for an id that already has a component fills a new slot.
- `ComponentManager<Id>` files one storage per component type under its
  `TypeId`, answers queries (the entities that have every queried type) and
  deletes an entity's components across all storages.
- `SystemManager<Id>` keeps the scheduled systems and runs them in order.

Layout of `src/`:

| file | contents |
| --- | --- |
| `component_storage.rs` | the dense storage, its type-erased trait, storage laws |
| `entity_manager.rs` | id allocation and recycling, id laws |
| `component_manager.rs` | storages by type key, queries, manager laws |
| `system_manager.rs` | systems over 0 to 4 component types, scheduling, running; `apply1`..`apply4`, which call a closure on given entities' components |
| `engine.rs` | the public engine and its invariant |
| `boundary.rs` | the trusted boundary: `TypeId`, `Any` downcasts, boxing as trait objects, capacity release |

Every function outside `boundary.rs` is verified. Contracts are stated over
views: a `Map<I, C>` for a storage, the live/recycled id sequences for the
entity manager, and a `Map<TypeId, Set<Id>>` (which entities hold a
component of each type) for the component manager and the engine.
