# rabitq_ivf

An inverted-file index over RaBitQ-quantized vectors, with its decisions verified by Verus.

Vectors are grouped into clusters around centroids. Each cluster holds binary codes and
parameters in batches of 32, in the layout that FastScan kernels read, and extended codes beside
them. The library decides what is stored where, which clusters are scanned, which vectors are
pruned, how results rank, and what every byte of a file means. Floating-point numbers pass through
it by their bits: it orders and compares them, and computes none.

## Layout

- `src/` is the verified library.
  - `float_bits`, `decimal`, `bytes`, `checksum`, `ranking`: numbers, texts and order.
  - `quantized`, `fastscan`, `cluster`, `growth`, `index`, `memory`: what an index holds.
  - `train`, `insert`, `fetch`, `fetch_laws`: how vectors get in and out.
  - `lut`, `filter`, `search`, `search_laws`, `search_coverage`, `search_naive`: how vectors are
    found.
  - `persist`: one file per index. `manifest`, `segment`, `v4`, `v4_load`, `v4_flush`,
    `v4_flush_laws`: one file per segment, written once. `savable`, `damage`: what can be saved, and
    what a changed byte comes to.
  - `fvecs`, `args`, `report`: vector files, command lines and figures.
- `app/` does input and output and floating point: files, object stores, lookup tables, distance
  estimates, and the programs. Rotation, k-means, quantization and the SIMD kernels come in through
  the traits of `app/numerics.rs`.
- `tests/` runs the library against a small floating-point reference.

## What is proved

Functions state their results exactly. The one exception is `memory_usage`, which counts capacities
that the allocator chooses. Beyond that, the proof functions named `law_..` state what spans
functions, among them:

- an index that is saved comes back, from one file and from a manifest with segments;
- what was built, inserted and flushed can be saved, in either form;
- where one byte of the data of a file is changed, the file is refused for its checksum;
- joining the segments of a cluster keeps every vector;
- inserting and flushing lose no vector and add none;
- a flush to saved files only adds: it writes a segment with the vectors that are new, under a name
  that no segment has, and what stands and what is new load together as the index;
- what was built in or inserted is read back under its id, before and after a flush;
- pruning by sound lower bounds finds what a search without shortcuts finds;
- results are ranked, finite, stored, in the filter, and distinct where the stored ids are, and a
  filter only leaves results out;
- a search with finite estimates fills up, and with room for all it finds all, pending vectors among
  them.

Four things are taken on trust: that `crc32fast` computes the CRC-32 (IEEE) checksum, membership in
a `roaring` bitmap, `String::from_utf8`, and that `Vec::capacity` is at least the length.
