# oxideav_dds

A DirectDraw Surface (DDS) reader and writer with its block codecs,
written in Verus: every function in `src/` carries a contract that Verus
proves.

## Layout

- `src/decoder.rs`, `src/encoder.rs`: parsing and writing DDS files
  (legacy and DX10 headers, mip chains, cube maps, arrays, volumes).
- `src/roundtrip.rs`, `src/bc_roundtrip.rs`: what reading back a written
  file gives.
- `src/bcn.rs`, `src/bcn_enc.rs`: BC1–BC5 block decoding and encoding.
- `src/bc6h.rs`, `src/bc7.rs` and their tables: BC6H and BC7 decoding;
  `src/bc7_enc.rs`, `src/bc6h_enc.rs` and `src/bc6h_pack.rs`: the
  integer parts of their encoders; `src/bc6h_surface.rs`: the BC6H
  surface layer (size checks, edge clamping, block placement) around a
  caller's block encoder.
- `src/astc*.rs`: ASTC LDR decoding (integer sequences, partitions,
  endpoints, weights) and encoding.
- `src/block_laws.rs`: block-level facts tying encoders to decoders.
- `app/`: what the verified library leaves out: floating-point endpoint
  fitting for BC6H and BC7, float and depth surfaces, and the adapters to
  the surrounding image types.
- `tests/`: the test suite, run against the compiled library.
