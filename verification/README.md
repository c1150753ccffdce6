# PaddockKV

A verified key-value store on a log-structured merge tree. The library in
`src/` is written in Verus: its behaviour is stated in contracts, and proved.

A write goes to the write-ahead log and then to a skip list in memory. A full
skip list is frozen and flushed to a sorted table with a Bloom filter, and
tables are merged by compaction. Reads see a snapshot. Tables can be encrypted
under keys that are derived from a master key.

| Module        | What it holds                                                   |
|---------------|-----------------------------------------------------------------|
| `encoding`    | Varints, fixed-width integers, byte order, numbers as text       |
| `checksum`    | CRC32C and XXH3                                                  |
| `crypto`      | AES-256-GCM, key derivation, nonces and associated data          |
| `io`          | File-system traits, an in-memory file system, buffers, path and alignment rules |
| `filter`      | Blocked Bloom filter                                             |
| `wal`         | Batches, segment format, writer, reader with torn-tail recovery  |
| `memtable`    | Arena and skip list                                              |
| `sstable`     | Block and table format, writer, reader                           |
| `compaction`  | k-way merge and table merging                                    |
| `engine`      | The store: history model, recovery, writes, reads, ranges, laws  |
| `server`      | What the HTTP front end replies                                  |

The model of an open store is its history: the entries ever written, newest
first (`engine::history`). Reads, flushes, compaction, closing and reopening
are stated over it, and `engine::laws` says what follows for a caller.

What the proofs rest on besides Verus: the contracts of the functions marked
`external_body`, each of which calls into an outside crate or the standard
library, and those of the file-system traits, which an implementation outside
of the library has to keep.

`tests/` runs the library, `app/` is the server around it.
