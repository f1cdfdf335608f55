# memkv

A pipelined in-memory key-value store with a write-ahead log, written and proved
in Verus.

- `src/` is the library: the wire protocol, the table, batches, the log format,
  snapshots, recovery, the log engine and the client's state machines. Every
  function in it carries a contract. What relates several functions is stated in
  proof functions named `law_*`, next to what they speak of; laws across the
  stages stand in `src/end_to_end.rs` and `src/stage3/engine_laws.rs`.
- `app/` is the server program and the clients: sockets, threads, files and the
  io_uring ring around the library.
- `tests/` runs the library on concrete values.

## How a request travels

1. Stage 1 reads frames `[len][op][klen][key][val]` off a connection.
2. Stage 2 applies batches of requests to the table, one thread, in order, and
   numbers the writes.
3. Stage 3 turns every batch into log records, writes them, flushes when the
   durability mode asks for it, and hands the batch back to the pool.

A response goes out as soon as its guarantee is met: reads once they are applied,
writes once they are applied (`no-fsync`), written (`async`) or durable (`sync`).

After a restart the snapshot is loaded and the log records behind it are redone,
up to the first torn or corrupted one.

## What is trusted

Besides std and vstd: `ahash` (the hash table, `src/storage/table.rs`), `slab`
(operations in flight, `src/stage3/inflight.rs`), three error numbers of `libc`
(`src/stage3/io_work.rs`) and `Arc` (`src/wire.rs`, `src/storage/table.rs`). Each
item says in its doc comment what it claims of the function it calls.
