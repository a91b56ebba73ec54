# feox_vector

An embedded vector store: records (an id, a vector of 32-bit floats and
JSON metadata) are scoped by `namespace / index / partition`, kept in FeOxDB
in a compact binary format (magic `FXV1`), and queried by exact cosine scans
or through an HNSW index from feox-ann, with `$eq` / `$in` / `$nin` metadata
filters answered by an inverted facet index.

## Layout

- `src/` is the verified library (Verus):
  - `validation.rs`: the input ceilings and their error messages.
  - `keys.rs`: record keys and the id read back from a key.
  - `codec.rs`: the record format, with the decode-of-encode law.
  - `json.rs`, `filter.rs`: JSON values, exact filter matching, the facet
    index, filter compilation and candidate lists.
  - `filter_laws.rs`: the index answers filters as the exact match does.
  - `storage.rs`: the key-value store over FeOxDB, with ordered prefix
    scans. Each call hands back a ghost receipt of what it passed to the
    store (key and value, or the scan's bounds and limit) and what came
    back.
  - `store.rs`: upsert, delete, reading records back, page scans, and the
    deterministic ranking of matches; their contracts are stated over the
    receipts of the store calls they make.
  - `query.rs`: query validation, approximate-search limits, and how a
    filtered approximate query is answered.
  - `ann.rs`: the state of a collection's approximate index, which keeps
    completed writes visible to queries.
- `app/` is the public API in plain Rust: float vectors, serde types,
  cosine scoring, the per-collection index registry, and rebuilds on
  background threads.
- `tests/` holds the tests of the library.

Vectors cross into the library as the bits of their float values, and
metadata as its JSON text or as `JsonValue`s.
