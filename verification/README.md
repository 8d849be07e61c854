# matt_db

A small paged storage engine, verified with Verus: rows serialized to bytes,
slotted pages of tuples, a buffer pool over a page store, and a B-tree index
whose leaves are chained for range scans.

Layout:

- `src/codec.rs` — big-endian integers and the byte-string order keys use.
- `src/serialization.rs` — rows of typed column values to bytes and back.
- `src/representations/` — tuples, slotted pages (leaves and inner nodes) and
  binary searches over index ranges.
- `src/data_storage/` — the page-store trait and an in-memory store.
- `src/buffer_pool.rs` — frames caching store pages, with pinning and FIFO
  eviction of unpinned frames.
- `src/btree.rs`, `src/btree/key_ranges.rs` — insertion with page splits
  (a node's separator's key moves up with the new page's id), range scans,
  and the key ranges that show a search lands where an insert put its tuple.
- `src/btree/leaf_chains.rs` — each object's chain of leaves, which shows a
  range scan yields every stored key in its range once, in order.
- `src/reader.rs` — a compact page layout, read and written in place.
- `app/` — unverified plumbing: a file-backed page store, error types that
  carry messages, and printable copies of library types.
- `tests/` — tests of the library on concrete values.
