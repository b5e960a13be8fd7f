//! Verified core of a TurboQuant-style vector quantization and search library:
//! bit packing of quantization codes, scalar code lookup over ordered keys,
//! top-k selection, and the graph logic of the HNSW index.

pub mod quant;
pub mod index;
pub mod simd;
