# bramha

The planning, caching, scheduling and access-control logic of the Bramha
inference engine, written in Verus with its behaviour stated as contracts
and proved.

Layout:

- `src/` — the verified library.
  - `inference/` — pipeline sharding (`pipeline`), per-layer sizes from a
    manifest (`manifest`), the GPU tensor cache (`vram_cache`), prefix and
    branch KV caches (`paged_kv`), prompt encoding and chat prompts around the
    `tokenizers`, `serde_json` and `minijinja` crates (`tokenizer`), memory
    limits of the process (`memory_limits`), the power limit, the profiler and
    the inference log.
  - `planner/` — storage tiers, the execution-path decision, the CPU/GPU
    scheduler and the cluster planner.
  - `middleware/auth` — API keys and the role hierarchy.
  - `models/quantization` — packing of 4-bit weight codes.
  - `strings`, `hashing` — string and hashing helpers with specifications.
- `tests/` — tests of the library.
- `app/` — the process around the library: environment settings, files,
  process-wide state, HTTP key extractors, the request queue, and the
  floating-point code that the library cannot hold: weight quantization,
  CPU flash attention, early-exit thresholds and the cost estimates of the
  execution-path planner.

The engine's forward passes (the GPU and CPU generation loops, the matrix
kernels, the reranker and the embedder) are floating-point code built on
model storage and compute modules that this project does not contain; they
are in neither part.
