pub mod cpu_engine;
pub mod engine;
pub mod manifest;
pub mod memory_limits;
pub mod paged_kv;
pub mod power;
pub mod pipeline;
pub mod prefill_cache;
pub mod profiler;
pub mod rerank_cache;
pub mod spanda_telemetry;
pub mod speculative;
pub mod tokenizer;
pub mod vram_cache;
