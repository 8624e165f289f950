# ace

Verified building blocks of the x86 AI Compute Extensions (ACE): reduced-precision
floating-point codecs, the signed int8 dot product, capability decisions over a CPUID
snapshot, and a register model of the tile and block-scale instructions.

Layout:

- `src/rounding.rs` — the exact value model (`sig * 2^exp`) and the rounding engine shared by
  every narrowing convert, with its monotonicity and bias-rule lemmas.
- `src/fp8.rs`, `src/fp32.rs`, `src/fp4.rs` — FP16 / FP32 / FP8 / FP4 / BF16 converts on raw
  bit patterns, sub-byte field packing, and their laws (HF8 -> FP16 -> HF8, BF8 -> FP32 -> BF8
  and FP4 -> E4M3 -> FP4 identities, unique results, round-to-odd marking, FP4 monotonicity and
  saturation, NaN propagation).
- `src/tile.rs`, `src/tile_move.rs`, `src/tcvtrow.rs`, `src/bsr.rs` — the tile lifecycle guard,
  row / column moves, tile-row converts and block-scale registers.
- `src/detect.rs` — capability gates as functions of a `CpuidSnapshot`.
- `src/dot.rs` — `VPDPBSSD`.
- `app/lib.rs` — the host probe (CPUID / XGETBV), the native `VPDPBSSD` dispatcher and `f32`
  views of the FP32 codecs.
