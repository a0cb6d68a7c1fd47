# ferrumdb

A small storage engine verified with Verus: fixed-size checksummed pages,
a tablespace with a free list, a buffer pool, a redo log, an in-memory and a
persistent B+Tree, and a table engine with clustered and secondary indexes.

Layout:

- `src/page` — page layout and checksums, slotted pages, order-preserving key
  encodings, row encodings.
- `src/space` — the tablespace (superblock, free list, allocation) and the
  `PageSource` interface the trees use.
- `src/buffer` — the buffer pool (LRU frames over a `PageSource`).
- `src/wal` — redo records, the log, checkpoints and replay.
- `src/btree` — the in-memory B+Tree (`tree.rs`), the node codec
  (`persist.rs`), the persistent B+Tree (`persistent.rs`) and its model:
  the tree of node pages and its entries (`ptree.rs`), how inserts change it
  (`pedit.rs`), scans and walks (`pscan.rs`).
- `src/engine` — the table catalog, the `StorageEngine` interface and
  `FerrumEngine`, with the forest of its trees (`forest.rs`).
- `src/crc.rs` — CRC-32 through `crc32fast`.
- `src/text.rs` — decimal text of integers and the pieces of error messages.
- `app` — the files behind the tablespace, the log and the engine, and error
  types with `Display`.

Each structure lives in memory as the bytes of its file; `app` reads and
writes those files. The contracts state what each operation does to the
model (for the persistent tree: a well-formed tree of pages whose entries a
lookup, an insert, a delete and a range scan read and change as a sorted map
does), and the laws in the `lemma_*` proof functions state what holds across
operations.
