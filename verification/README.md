# annflat

A small in-memory flat (brute-force) nearest-neighbour index over `f32`
vectors with cosine, L2 or inner-product similarity, for corpora of up to
about 100k vectors where exact search is fast enough.

## Layout

- `src/` — the verified library. It holds the index itself: entries,
  the dimension rule, insertion one at a time and in batches, removal,
  snapshots, the checks a query goes through, and the top-`k` selection and
  ordering of hits. Scores arrive as `f32` bit patterns; `score_key` maps
  them to integers ordered exactly as the numbers, which the selection uses.
  - `index.rs` — `Index<T>`, its abstract view `IndexView<T>`, and the laws
    that relate its operations.
  - `rank.rs` — top-`k` selection and hit ordering over order keys.
  - `sort.rs` — merge sort of entry positions in either order.
  - `score_key.rs` — the order key of a single-precision bit pattern and the
    proof that it orders like the value it encodes.
  - `order.rs` — byte-wise id order (the order of `String`).
  - `matrix.rs`, `metric.rs`, `error.rs` — the remaining types.
- `app/` — the `f32` front end: normalization and scoring (floating point),
  `ndarray` matrices, `rayon` parallel batch queries, JSON snapshots through
  `serde_json`, and the Python module through `pyo3`/`numpy`.
- `tests/` — tests of the library.
