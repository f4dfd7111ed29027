# async_wal_db

A transactional key-value store with a write-ahead log, written in Verus. The library decides what
is written, read back, replayed and reported, and proves it; a small program around it owns the
files, the background tasks and the clock.

- `src/entry.rs`, `src/codec.rs`, `src/bytes.rs` — the entries of the log and their bytes
- `src/header.rs`, `src/crc32.rs` — the header in front of each entry, and its checksum
- `src/log.rs`, `src/log_laws.rs` — writing and scanning a log; logs that were cut or damaged
- `src/store.rs`, `src/replay.rs`, `src/tx_table.rs` — the store, and which transactions a log commits
- `src/recovery.rs`, `src/recovery_laws.rs`, `src/run_laws.rs`, `src/session.rs` — crash
  recovery, and what holds of it and of the transactions in between
- `src/transaction.rs`, `src/database.rs` — transactions, recovery and checkpoints of a database
- `src/wal_storage.rs`, `src/queue.rs`, `src/flusher.rs` — the bounded queue in front of the file
- `src/checkpoint.rs`, `src/failure.rs`, `src/error.rs` — the checkpoint file, and errors
- `app/` — the program: files, `tokio` tasks, LMDB
- `tests/` — tests of the library

## On disk

```text
[length: u64][checksum: u32][version: u8][entry_data: bytes]
```

Integers are little-endian; the checksum is CRC-32 of the data, and the data is the `bincode`
encoding of an entry.

## What is proved

- A log gives back what was written to it. Cut anywhere, it gives every entry that it holds whole;
  an entry that was damaged within four consecutive bytes is never read.
- Recovery carries out the committed transactions in the order of their ids, each whole or not at
  all, and moves the id counter behind every id of the log. Doing it twice is doing it once.
- A torn tail can be cut off without losing an entry, and the log then takes new entries.
- A commit takes effect whole or is refused; the log of a refused one never gets its commit entry.
  The store changes only when everything that was logged for the commit has been written.
- The log of a database on which transactions ran one after the other, each to its commit, its abort
  or its end without either, restores the store that they left.
- A checkpoint brings the store to where recovery of the whole log would bring it.
- The queue never holds more entries than it has places, and entries reach the file in the order in
  which they were appended. A failed write loses none, and a flusher that has stopped after a
  successful last write has written everything that was appended before it.
