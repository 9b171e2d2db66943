# execution

The decisions of a run coordinator, verified with Verus: invocation trees,
reset-free execution successions, fork gates, sandbox leases, the public event
stream and its replay, forks, inspection documents, interviews and hooks.

- `src/` is the library. Every function states what it returns or changes in
  its contract, and the `law_` proof functions state what holds across calls.
- `tests/` runs the library on concrete values.
- `app/` is the coordinator around it: channels, tasks, files, the run's store,
  and the traits a host implements.

JSON text goes through `serde_json`; `src/wire.rs` holds every declaration
about it that is not proved.
