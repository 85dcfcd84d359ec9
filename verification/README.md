# menon

Menon demosaicing for Bayer filter arrays: directional interpolation of green with an a posteriori
choice of the direction, interpolation of red and blue, and a refinement step (Menon, Andriani,
Calvagno, "Demosaicing with directional filtering and a posteriori decision", IEEE Trans. Image
Process. 16(1), 2007).

- `src/` is the library, verified with Verus. `model.rs` says what each step computes; the other
  modules hold the code, and the proofs that it computes that. An image is cut into tiles
  (`grid.rs`, `tiles.rs`) that are rendered on several threads (`parallel.rs`); `locality.rs` proves
  that the result is that of the whole image in one piece, and `scaling.rs` that it is scaled with
  what is measured.
- `tests/` runs the library in single precision.
- `app/` is the entry point for images in single precision: it tests what the library requires,
  and logs the time taken.

The library is written for any number type whose operations are functions of their operands
(`sample.rs`).
