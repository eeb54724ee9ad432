# solana_turbine_simd

Reed-Solomon erasure coding over GF(2^8) with the field polynomial 0x11D, in
the shred format of Solana's Turbine: parity encoding over separate data and
parity buffers, recovery of lost data shards, and a thread-safe cache of codecs.
The library is verified with Verus; only its calls into `lru` and
`parking_lot` rest on trusted wrappers.

Layout of `src/`:

- `field.rs`: the mathematical model of GF(2^8) (multiplication by
  shift-and-add, powers of the generator, logarithms, inverses) and its laws.
- `galois.rs`: the log, exp, multiplication and nibble tables, the field
  operations and the scalar slice kernels, each proved against the model.
- `linalg.rs`, `poly.rs`: matrices over the field as sequences of rows,
  products, inverses, Gaussian elimination as a proof, and the invertibility
  of Vandermonde matrices over distinct points.
- `layout.rs`: where a matrix's entries sit in its row-by-row storage.
- `matrix.rs`: the executable `Matrix`, its inversion and the systematic
  coding matrix.
- `neon.rs`, `avx2.rs`: the nibble-table kernels, written as safe loops.
- `engine.rs`: `SimdReedSolomon`, its encoders and `reconstruct_data`; results
  are written into the caller's buffers, and reconstruction reads the
  surviving shards in place, without copies.
- `laws.rs`: encoding is multiplication by the coding matrix; reconstruction
  gives back the data whenever at least `k` consistent shards are present.
- `cache.rs`: `ReedSolomonCache`, an LRU cache of codecs behind a lock
  (`lru` and `parking_lot` behind trusted wrappers).

`tests/` runs the library, including bit-for-bit comparisons with the
`reed-solomon-erasure` crate.
