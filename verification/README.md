# dominus

A Robin Hood hash table with a fixed number of buckets, written in Verus.

- `src/key.rs`: the `DominusKey` trait (hash with aHash, compare), with
  implementations for `i32`, `i64`, `u32` and `u64`.
- `src/slots.rs`: the buckets as a sequence, the Robin Hood invariant, the map
  the buckets hold, and the lemmas about them.
- `src/table.rs`: `Dominus` itself. `get`, `insert` and `remove` are specified
  by `lookup_result`, `insert_outcome` and `remove_outcome` over the map the
  table holds, and keep the Robin Hood invariant.
- `src/laws.rs`: how the operations relate to each other.
- `app/lib.rs`: a handle that threads can share (a `parking_lot` lock around
  the table), created from a maximum load factor given as an `f64`, with
  errors as `anyhow` errors.

The table is told the number of entries at which it counts as full; the
conversion from a floating-point load factor lives in `app/`.
