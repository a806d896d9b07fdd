# multivector

Verified late-interaction scoring of multi-vector rows: for each query vector the distance to the
nearest vector of a row, summed over the query vectors.

- `src/` is the library. Verus verifies every function in it but the trusted declarations in
  `element.rs` and `path.rs`, which call the distance kernels of `lance-linalg` and the field-path
  parser of `lance-core`.
- `tests/` runs the library, with those crates linked.
- `app/` connects the library to DataFusion plans over Lance data: it converts Arrow batches, wraps
  the plan nodes whose distances the library computes, and drives the streams.

Floating-point numbers cross the library's interface as the bits of their encodings. Sums of
distances are rounded as the hardware rounds them: to binary64 after every addition, to binary32 at
the end.
