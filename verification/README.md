# nexuskv

A paged key-value cache manager for LLM serving: a physical block pool with
reference counts, per-sequence page tables, a radix prefix index that lets
prompts share their common leading chunks, a continuous-batching scheduler,
speculative-decode verification with page-table rollback, and the request-side
logic of an OpenAI-compatible HTTP API.

The library in `src/` is written in Verus. Every operation carries a contract
over an abstract model of its state, and Verus proves each body against it.

## Layout

- `src/config.rs` — engine configuration and its derived capacities.
- `src/memory/` — the block manager.
  - `model.rs`: the mathematical model (`ManagerView`, `PoolView`) and the
    spec functions describing each operation's effect.
  - `radix.rs`: the radix prefix index, viewed as a map from chunk paths to blocks.
  - `block_manager.rs`: the executable allocator, page tables and prefix matching.
  - `accounting.rs`: proofs that the operations keep the free stack and the
    free flags consistent with the reference counts, and keep every live prefix
    index entry (one whose block is still referenced and was claimed for that
    path) in place; both are part of the manager's well-formedness.
  - `laws.rs`: properties spanning several operations (allocate/free round
    trip, fork/free undo, admit/free undo, append/rollback undo, two appends
    as one, pool accounting, and prefix sharing across requests: admission
    leaves a sequence holding its prompt's chunks, held chunks stay held
    through any later operation, and a later prompt with the same leading
    chunks shares those blocks).
- `src/engine/` — the scheduler (`scheduler.rs`) and the speculative verifier
  (`speculative.rs`).
- `src/server/` — prompt tokenization, chat prompt layout, decode-step
  decisions, usage records, completion ids and response bodies.
- `src/kernels.rs` — buffer, block-table and cache checks made before launching
  the attention kernel.
- `tests/` — tests of the library on concrete values.
- `app/` — the HTTP server, shared state and locking, wire formats, the
  kernel launch, floating-point telemetry and benchmarks, around the library.
