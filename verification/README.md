# zvcr

A library for region files that record how the blocks, biomes and block
entities of a voxel world change over time, with its behaviour stated in
Verus contracts and proved.

Layout:

- `src/region/` — the in-memory model: packed section data and palettes,
  delta histories of sections, segment states, block entity histories,
  segments and regions.
- `src/io/serialize/` — the region file format: the writer (`serialize.rs`),
  the reader (`deserialize.rs`) and the laws that a written file reads back
  as itself (`roundtrip.rs`).
- `src/io/serialize/experimental/` — the experimental layout and its coders:
  run-length coding, rANS and binary range coders, the palette table codec,
  the simple region layout (reader, writer and round trip), the column
  block entity lists, and parts of the context-modelled grid codec: the head
  predictor, the residual coder (candidate chains and the palette index
  tree) with the laws that a decoder in step with the encoder reads back what
  was coded, the sweep that codes and reads back one section of the grid, and
  the packing of a modelled section. The grid framing of the modelled layout
  and its per-domain section sweeps are not here.
- `src/io/compression.rs` — the zstd calls, behind two trusted wrappers.
- `app/` — the command-line program: argument parsing and file I/O.
- `tests/` — tests on concrete values.
