# polloc

A fixed-size pool allocator, verified with Verus. A pool hands out slots of
one size and one alignment from blocks of address space that a
`BlockSource` provides; freed slots are reused last-freed-first, and each
block keeps one bit per slot so that double frees and foreign or interior
pointers are caught.

Addresses are plain `usize` values in the library; the memory behind them
belongs to the block source.

Layout:

- `src/` — the verified library.
  - `bitmap.rs`: the per-block allocation bits.
  - `freelist.rs`: the stack of freed slots.
  - `pool.rs`: `Block` and `Pool` — allocation, free, block growth.
  - `model.rs`: the mathematical model the contracts speak of (`PoolView`,
    `BlockView`), its invariant and the lemmas behind each operation.
  - `laws.rs`: properties across operations (free-then-allocate restores
    the pool, live slots never overlap, no slot is lost, ...).
  - `layout.rs`: rounding arithmetic.
  - `block_source.rs`, `errors.rs`: the block source trait and the errors.
- `app/` — what cannot be verified: the `mmap`-backed block source, raw
  pointers, panicking `alloc`/`free`, typed emplacement with an unwind guard,
  and unmapping on drop.
- `tests/` — the test suite, run against heap-backed block sources.
