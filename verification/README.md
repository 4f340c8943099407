# miri_machine

The machine of an interpreter that looks for undefined behavior in Rust programs: its global
state, the hooks through which an interpreter engine drives it, and the "Stacked Borrows" rules.
The rules track for each byte of memory which pointers may still be used for it.

- `src/` is the library. Its functions have contracts, and Verus proves that they are kept. The
  exceptions are the few functions that hand a call to another crate or to the standard library:
  their contracts are taken on trust, and say so.
  - `stacked_borrows/stack.rs`: the borrow stack of one location.
  - `stacked_borrows/stacks.rs`: the stacks of an allocation, and what happens to them when a range
    is read, written or freed.
  - `stacked_borrows/retag.rs`: which permissions a new pointer gets, and how it is derived.
  - `stacked_borrows/global.rs`: the identifiers of pointers and calls.
  - `stacked_borrows/laws.rs`, `allocation_laws.rs`, `retag_laws.rs`, `global_laws.rs`: what follows
    for every program, such as that a unique pointer is on top after it was made.
  - `machine/`: configuration, state and hooks of the machine, with `machine/laws.rs`.
  - `range_map.rs`: data for ranges of offsets.
  - `tables.rs`: the hash tables, whose contracts are taken on trust. So are those of the random
    number generator (`machine/evaluator.rs`) and of event IDs (`machine/profiling.rs`).
- `tests/` runs the library on concrete values.
- `app/` connects the machine with an engine, which is a trait, with `measureme` and with the host.
