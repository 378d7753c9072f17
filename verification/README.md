# sokm

Self-Organizing Kernel Memory: an incremental associative learner built from
Gaussian kernel units joined by Hebbian links.

## Layout

- `src/` — the verified library (Verus). It holds the integer side of the
  model, with contracts and proved laws:
  - `compaction` — compaction maps (old index -> new index), keeping the
    survivors of a sequence in order;
  - `kernels` — per-kernel bookkeeping (class label, excitation count,
    last activation, extinction) kept in step with the kernel shapes;
  - `stm` — short-term memory with excitation-based, oldest-first eviction;
  - `labels`, `coactivation` — label inheritance from co-activation counts;
  - `link` — canonical edge keys, the inactivity rule, co-activation pairs,
    re-keying of edges after a compaction;
  - `csr` — the row layout and column index of the compressed edge store;
  - `cross` — cross-modal edge selection and its reverse source index;
  - `bookkeeping` — steps that change kernels, short-term memory and
    counters together.
- `app/` — the real-valued parts (kernel activations, weights, emotion
  state, SIMD), serialisation and error types, built on the library.
- `tests/` — tests of the library.
