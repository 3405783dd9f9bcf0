# colette

Typed collections, indexes and scans over ordered key/value stores, verified
with Verus.

A collection stores records under their encoded primary keys in a namespace of
a backend, and keeps secondary indexes (unique or multi-valued) up to date in
the same write transaction. Index scans read entries in key order, in either
direction, restricted by key ranges or by prefixes of the index keys.

## Layout

- `src/lex.rs`, `src/big_endian.rs`: byte-wise order and big-endian integers.
- `src/key.rs`, `src/integer_keys.rs`: the `Key` trait and its implementations
  (integers, `bool`, byte strings, strings, fixed arrays, tuples). Each proves
  that decoding inverts encoding, that the decoder is canonical, and that the
  byte order of encodings is the order of keys.
- `src/bounds.rs`, `src/prefix.rs`, `src/scan.rs`: range bounds, prefixes and
  index scans; the bounds of a prefix select exactly the keys that start with it.
- `src/store.rs`: the backend interface, specified over maps of byte strings.
- `src/backend/`: an in-memory backend and a backend conformance suite whose
  checks are proved from the interface contracts.
- `src/entity.rs`, `src/index.rs`, `src/index_registry.rs`, `src/iter.rs`,
  `src/collection.rs`: records, indexes and collections, with the laws that
  reads see writes and that writes keep every index consistent with the records.
- `app/`: error types with `Display` and `std::error::Error`.
- `tests/`: executable tests.
