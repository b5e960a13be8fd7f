# turbo_vec

Vector quantization and similarity search after TurboQuant: vectors are
rotated, quantized coordinate by coordinate against Lloyd-Max codebooks, packed
at 1 to 8 bits per coordinate, and searched with flat, HNSW and IVF indexes.

## Layout

- `src/` — the verified library (Verus):
  - `quant/packed.rs` — packing of b-bit codes into bytes and back, sign bits;
    the round trip is proved (`lemma_pack_unpack_roundtrip`).
  - `quant/codebook.rs` — the code of a scalar among a codebook's decision
    boundaries, by linear scan and by binary search.
  - `quant/bitops.rs` — bit-level facts the packing proofs rest on.
  - `index/select.rs` — best-`k` selection by score key, and the merge of
    per-chunk selections; uniqueness and composition over chunks are proved.
  - `index/hnsw.rs` — the HNSW graph, its insertion and search, as step
    machines that ask for node scores and take them back.
  - `index/ivf.rs` — the choice of nearest centroid and of k-means seeds,
    and cluster sizes.
  - `simd/portable.rs` — which distance-table entries a dot product reads.
- `app/` — the rest of the library in plain Rust: floating-point codebooks,
  random rotations (nalgebra, rand), serialization (serde), parallel batches
  (rayon), the error type (thiserror) and the index types that hold float
  vectors. Float scores reach the verified code as order-preserving `u32` keys.
- `tests/` — tests of the verified library.
