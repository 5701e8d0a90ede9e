# cedar_server

The plate solver of a telescope's camera server, and its observation log, written and
proved in Verus.

- `src/` is the library. Every function states what it returns or changes, and Verus
  proves it. What the contracts take from other crates (tetra3, chrono, prost-types,
  serde_json, the standard library) stands in small wrappers whose comments say what is
  taken on trust. A solver database is searched only once its tables have been found to
  fit together (`src/database.rs`).
- `tests/` runs the library: the arithmetic against the machine's own, the log, and a
  solve over a small database of made-up stars.
- `app/` is ordinary Rust around the library: the program that builds a solver
  database, the async solver with its conversions to and from machine floating point,
  and the log's file.

Numbers such as angles and pixel positions are held by the bits of their IEEE 754
encoding. The operations on them (`src/arithmetic.rs`) are proved to round correctly, so
that contracts can say exactly what a computed roll or field of view is; sines, cosines
and projections come from outside.
