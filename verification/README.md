# orbitive

Fleet coordination over append-only rings: typed publication, shared caches,
lease-based locks, events, invocations, metrics, counters, cells and a body
arena, with their shared-memory layouts.

- `src/` is the library. Every function in it carries a contract that Verus
  proves; what the contracts say together is stated by the `law_*` proof
  functions in the `laws.rs` files and beside the types they speak of.
- `tests/` runs the library on concrete values.
- `app/` is the `orbit` command line and the glue to POSIX shared memory:
  mappings, futexes, event descriptors and async waits.

The services (cache, lock, events, invocations, metrics) are verified over
`fleet::rings::FleetRings`. The in-process `Fleet` implements it in the library;
`app/fleet.rs` implements it over mapped segments, whose layout, slot protocol
and sequential behaviour are verified in `ring/shm` and `fleet/shared.rs`.

The calls into `bytes`, `netid64`, `dashmap` and `lru` that the library makes
stand behind small wrappers in `octets.rs`, `id.rs`, `kinds.rs` and
`cache/resident.rs`. Those into `std` stand in `text.rs`.
