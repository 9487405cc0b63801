# obj_core

The storage core of an embedded document database: a page store with a
write-ahead log, snapshots and transactions over it, the encoding of index
keys, the extraction of keys from documents, and an integrity check. The
library under `src/` is verified with Verus.

- `src/pager/`: pages, checksums, the file header, the free list, the page
  cache, compression, snapshots and the page store. `state.rs` models a store
  as a value and proves what reads, commits, checkpoints, snapshots and
  recovery do to it; `history.rs` proves what holds over a run of calls.
- `src/wal.rs`: the log, its frames and their recovery.
- `src/txn.rs`: write and read transactions.
- `src/index/`: index declarations, keys whose byte order is the order of the
  values, and the keys of a document.
- `src/integrity/`: the walks over trees, free list and catalog.
- `src/platform/`: files, locks, sources of entropy and injected faults, as
  far as they are decisions and not system calls.
- `app/`: real files, locks, threads and serializers around the library.

What the library believes of other crates stands in the functions marked
`external_body`, the `assume_specification` items and the uninterpreted names
next to them; each says which function it speaks of.
